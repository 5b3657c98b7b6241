//! A fixed-depth sparse Merkle tree over account leaves, with a Pedersen
//! hasher whose leaf encoding is a frozen bit-layout contract.

pub mod account;
pub mod bits;
pub mod codec;
pub mod errors;
pub mod field;
pub mod hasher;
pub mod pedersen;
pub mod tree;
