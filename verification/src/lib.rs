//! A binary Merkle hash tree over SHA3-256 digests.
//!
//! The tree is built bottom-up from the digests of the input elements: each
//! level pairs neighbouring digests (an unpaired last digest is paired with
//! itself) until a single root digest remains. The tree supports generating
//! a compact membership proof for an element, checking such a proof against
//! a root, and appending a new element with repair of the affected path only.

pub mod hashing;
pub mod merkle;
