//! Core of a Bitcoin-like node: a content-addressed transaction index over an
//! embedded key-value abstraction, together with the pool-side Stratum V2
//! mining protocol (TLV framing, connection/channel state machine, and
//! merge-mining coordination with revenue splitting).
//!
//! The index (`txindex`) writes a primary body store plus derived views —
//! block membership, script hash, output-value bucket — onto the byte-string
//! trees of `kv`, using the canonical transaction serialization of `tx` and
//! the digests of `hashing`. The protocol side frames messages with `tlv`,
//! runs connections and channels in `pool`, and accounts secondary chains in
//! `merge_mining`. `rest` holds the envelope that query results are served
//! in, and `blockstore` the height-to-hash collaborator used for block-range
//! scans.

pub mod arcutil;
pub mod blockstore;
pub mod hashing;
pub mod kv;
pub mod merge_mining;
pub mod messages;
pub mod pool;
pub mod rest;
pub mod tlv;
pub mod tx;
pub mod txindex;
pub mod wire;
