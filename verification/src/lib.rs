//! A local model of a prompt cache: which prefixes of a request are cached for a
//! credential, and how many tokens are read from and written to the cache.

pub mod content;
pub mod digest;
pub mod encode;
pub mod flatten;
pub mod json;
pub mod laws;
pub mod meaning;
pub mod outcomes;
pub mod prefixes;
pub mod profile;
pub mod request;
pub mod store;
pub mod text;
pub mod time;
pub mod tokens;
pub mod tracker;

pub use profile::CacheProfile;
pub use store::CacheResult;
pub use tracker::CacheTracker;
