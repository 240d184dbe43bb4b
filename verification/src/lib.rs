//! A layered, append-only store over a flat 64-bit byte address space.
//!
//! Writes land in a mutable layer at the top of a stack; sealing that layer
//! turns it into an immutable byte image. Reads walk the stack from the top,
//! so the newest write to an address is the one that is seen.

pub mod base;
pub mod default;
pub mod errors;
pub mod prelude;
