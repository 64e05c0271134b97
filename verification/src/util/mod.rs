//! Helpers that the containers are built on.
pub mod allocator;
