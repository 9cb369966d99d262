//! Lightwallet protocol definitions.
pub mod p2p;
