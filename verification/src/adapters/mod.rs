//! Adapters that come with the library.
pub mod metrics;
pub mod process;
