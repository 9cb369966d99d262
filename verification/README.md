# ztreamer

A compact-block index for Zcash light wallets, with the rules by which it is filled, checked and
served. The library under `src/` is verified with Verus; `app/` is ordinary Rust around it.

## Library

| Module | What it holds |
|---|---|
| `bytes`, `text` | integers as bytes, numbers and bytes as text |
| `parser` | the compact data of blocks and transactions |
| `encoding` | transactions with all their fields as bytes, and what `parser` reads of these bytes, whole, cut or longer, as laws |
| `codec` | the stored form of records and of sealed ranges |
| `index` | the state of the index, writing, sealing, reading, the check on opening |
| `store` | what the tables hold over many writes, as laws |
| `ingest` | blocks in any order to batches in height order |
| `pipeline`, `source` | what is asked of a source, what is accepted, when a sync is done |
| `chain` | headers and transactions as `zakura-chain` reads, writes and names them |
| `indexer` | blocks out of a chain database, in streams and in ranges, and note commitment trees |
| `protocol` | messages of the peer-to-peer stream |
| `grpc` | what requests are accepted, and how they are answered |

Functions state what they return for every input. Proof functions whose names begin with `law_`
state what holds across functions: that reading undoes writing, that cut and longer bytes are
refused, that batches are in order whatever the order of blocks, that a write keeps a chain a chain,
that a chain passes the check, that a second sync writes nothing, and the like.

The library calls `hex`, `rayon` and `zakura-chain`. What it takes of them without proof stands in
the doc comments of the functions and types that are marked `external_body`.

## Application

`app/` holds the LMDB tables, the threads of the pipelines, the thread that keeps tree checkpoints,
and the service.
