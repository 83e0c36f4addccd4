//! A cache of environment variables for build steps.
//!
//! A build step asks for variables by name. A variable set in the live
//! environment wins and is recorded; one that is absent falls back to the
//! value recorded by an earlier run. The recorded values are kept in a
//! snapshot text whose format is given in [`codec`].
pub mod cache;
pub mod codec;

pub use cache::EnvCache;
