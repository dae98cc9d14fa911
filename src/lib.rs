//! Trustless file serving: a file is split into 1 KiB chunks, a SHA-256
//! Merkle tree is built over them, and any chunk can be served together with
//! a proof that it belongs to the file named by the tree's root.
pub mod digest;
pub mod merkle;
pub mod encoding;
pub mod pallet;
pub mod rpc;
