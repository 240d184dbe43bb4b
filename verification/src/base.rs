//! The store itself: layers of byte segments, and the stack built from them.

pub mod database;
pub mod image;
pub mod layer;
