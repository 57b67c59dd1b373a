//! Locality-sensitive 64-bit text fingerprints ("simhashes") and an index
//! for approximate lookup of them by Hamming distance.

pub mod hamming;
pub mod hash;
pub mod aggregate;
pub mod tree;
pub mod feature;
pub mod simhasher;
pub mod map;
pub mod group;
pub mod window;
pub mod util;
pub mod fingerprint;

pub use hamming::hamming_distance;
pub use feature::FeatureType;
pub use hash::HashMethod;
pub use simhasher::SimHasher;
pub use tree::HashTree;
pub use map::SimMap;
