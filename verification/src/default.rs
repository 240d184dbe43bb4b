//! Allocators that come with the store.

pub mod allocators;
pub mod names;
