//! Headers and transactions of the chain, as `zakura-chain` reads, writes and names them.
use std::io::Cursor;

use vstd::prelude::*;
use zakura_chain::block::Header;
use zakura_chain::serialization::{SerializationError, ZcashDeserialize, ZcashSerialize};
use zakura_chain::transaction::Transaction;

verus! {

/// The block header of `zakura-chain`.
#[verifier::external_type_specification]
#[verifier::external_body]
pub struct ExHeader(zakura_chain::block::Header);

/// The transaction of `zakura-chain`.
#[verifier::external_type_specification]
#[verifier::external_body]
pub struct ExTransaction(zakura_chain::transaction::Transaction);

/// The header at the front of bytes, if there is one.
pub uninterp spec fn header_of(bytes: Seq<u8>) -> Option<Header>;

/// A header as bytes.
pub uninterp spec fn header_bytes(header: Header) -> Seq<u8>;

/// The hash of the header with these bytes.
pub uninterp spec fn header_hash(bytes: Seq<u8>) -> Seq<u8>;

/// The transaction at the front of bytes, if there is one.
pub uninterp spec fn transaction_of(bytes: Seq<u8>) -> Option<Transaction>;

/// A transaction as bytes.
pub uninterp spec fn transaction_bytes(transaction: Transaction) -> Seq<u8>;

/// The identifier of a transaction.
pub uninterp spec fn transaction_id(transaction: Transaction) -> Seq<u8>;

/// The header has been read from bytes. Others may have a version or a time that no bytes have.
pub open spec fn is_read_header(header: Header) -> bool {
    exists|bytes: Seq<u8>| #[trigger] header_of(bytes) == Some(header)
}

/// The transaction has been read from bytes. Others may have lists or times that no bytes have.
pub open spec fn is_read_transaction(transaction: Transaction) -> bool {
    exists|bytes: Seq<u8>| #[trigger] transaction_of(bytes) == Some(transaction)
}

/// `Header::zcash_deserialize` of `zakura-chain`: a header from bytes.
///
/// Claimed: whether it succeeds, and with which header, depends on the bytes alone, and they begin
/// with the bytes that the header is written as.
#[verifier::external_body]
fn read_header(bytes: &[u8]) -> (header: Result<Header, SerializationError>)
    ensures
        match header {
            Ok(header) => header_of(bytes@) == Some(header) && header_bytes(header).is_prefix_of(
                bytes@,
            ),
            Err(_) => header_of(bytes@) is None,
        },
{
    Header::zcash_deserialize(Cursor::new(bytes))
}

/// `Header::zcash_serialize_to_vec` of `zakura-chain`: a header as bytes.
///
/// Claimed: for a header that was read from bytes it succeeds, and the bytes depend on the header
/// alone.
#[verifier::external_body]
fn write_header(header: &Header) -> (bytes: Vec<u8>)
    requires
        is_read_header(*header),
    ensures
        bytes@ == header_bytes(*header),
{
    header.zcash_serialize_to_vec().expect("a vector takes all bytes")
}

/// `Header::hash` of `zakura-chain`: the hash of a header.
///
/// Claimed: for a header that was read from bytes it depends on the header's bytes alone.
#[verifier::external_body]
fn hash_header(header: &Header) -> (hash: [u8; 32])
    requires
        is_read_header(*header),
    ensures
        hash@ == header_hash(header_bytes(*header)),
{
    header.hash().0
}

/// `Transaction::zcash_deserialize` of `zakura-chain`: a transaction from bytes.
///
/// Claimed: whether it succeeds, and with which transaction, depends on the bytes alone. Nothing is
/// said of the fields of the transaction.
#[verifier::external_body]
fn read_transaction(bytes: &[u8]) -> (transaction: Result<Transaction, SerializationError>)
    ensures
        match transaction {
            Ok(transaction) => transaction_of(bytes@) == Some(transaction),
            Err(_) => transaction_of(bytes@) is None,
        },
{
    Transaction::zcash_deserialize(Cursor::new(bytes))
}

/// `Transaction::zcash_serialize_to_vec` of `zakura-chain`: a transaction as bytes.
///
/// Claimed: for a transaction that was read from bytes it succeeds, and the bytes depend on the
/// transaction alone.
#[verifier::external_body]
fn write_transaction(transaction: &Transaction) -> (bytes: Vec<u8>)
    requires
        is_read_transaction(*transaction),
    ensures
        bytes@ == transaction_bytes(*transaction),
{
    transaction.zcash_serialize_to_vec().expect("a vector takes all bytes")
}

/// `Transaction::hash` of `zakura-chain`: the identifier of a transaction.
///
/// Claimed: for a transaction that was read from bytes it depends on the transaction alone.
#[verifier::external_body]
fn identify_transaction(transaction: &Transaction) -> (id: [u8; 32])
    requires
        is_read_transaction(*transaction),
    ensures
        id@ == transaction_id(*transaction),
{
    transaction.hash().0
}

/// A header that was read from bytes.
#[derive(Debug)]
pub struct StoredHeader {
    header: Header,
}

impl View for StoredHeader {
    type V = Header;

    closed spec fn view(&self) -> Header {
        self.header
    }
}

impl StoredHeader {
    #[verifier::type_invariant]
    spec fn inv(self) -> bool {
        is_read_header(self.header)
    }

    /// Reads the header at the front of bytes.
    pub fn read(bytes: &[u8]) -> (header: Option<Self>)
        ensures
            match (header_of(bytes@), header) {
                (Some(read), Some(header)) => header@ == read && header_bytes(read).is_prefix_of(
                    bytes@,
                ),
                (None, None) => true,
                _ => false,
            },
    {
        match read_header(bytes) {
            Ok(header) => Some(StoredHeader { header }),
            Err(_) => None,
        }
    }

    /// The header as bytes.
    pub fn bytes(&self) -> (bytes: Vec<u8>)
        ensures
            bytes@ == header_bytes(self@),
    {
        proof {
            use_type_invariant(self);
        }
        write_header(&self.header)
    }

    /// The header's hash, which is that of its block.
    pub fn hash(&self) -> (hash: [u8; 32])
        ensures
            hash@ == header_hash(header_bytes(self@)),
    {
        proof {
            use_type_invariant(self);
        }
        hash_header(&self.header)
    }
}

/// A transaction that was read from bytes.
#[derive(Debug)]
pub struct StoredTransaction {
    transaction: Transaction,
}

impl View for StoredTransaction {
    type V = Transaction;

    closed spec fn view(&self) -> Transaction {
        self.transaction
    }
}

impl StoredTransaction {
    #[verifier::type_invariant]
    spec fn inv(self) -> bool {
        is_read_transaction(self.transaction)
    }

    /// Reads the transaction at the front of bytes.
    pub fn read(bytes: &[u8]) -> (transaction: Option<Self>)
        ensures
            match (transaction_of(bytes@), transaction) {
                (Some(read), Some(transaction)) => transaction@ == read,
                (None, None) => true,
                _ => false,
            },
    {
        match read_transaction(bytes) {
            Ok(transaction) => Some(StoredTransaction { transaction }),
            Err(_) => None,
        }
    }

    /// The transaction as bytes.
    pub fn bytes(&self) -> (bytes: Vec<u8>)
        ensures
            bytes@ == transaction_bytes(self@),
    {
        proof {
            use_type_invariant(self);
        }
        write_transaction(&self.transaction)
    }

    /// The transaction's identifier.
    pub fn id(&self) -> (id: [u8; 32])
        ensures
            id@ == transaction_id(self@),
    {
        proof {
            use_type_invariant(self);
        }
        identify_transaction(&self.transaction)
    }
}

} // verus!
