//! The names that most users of the store need.

pub use crate::base::database::allocator::Allocator;
pub use crate::base::database::StackDB;
pub use crate::base::layer::Layer;
pub use crate::default::allocators::{SkdbDirAlloc, SkdbMemAlloc};
pub use crate::errors::Error;
