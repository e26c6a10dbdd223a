//! Verified core of a distributed storage layer: quorum arithmetic,
//! Reed-Solomon erasure coding over GF(2^8), Kademlia routing and the
//! local key-value store of a DHT node.

pub mod clock;
pub mod contracts;
pub mod encoding;
pub mod erasure;
pub mod hashing;
pub mod ids;
pub mod network;
pub mod proofs;
pub mod quorum;
pub mod routing;
pub mod storage;
pub mod types;
