//! A small persistent key/value store with fixed-size binary keys and values,
//! laid out in a single file image as a chain of open-addressed hash-table pages.

pub mod codec;
pub mod error;
pub mod hash;
pub mod laws;
pub mod lemmas;
pub mod store;
