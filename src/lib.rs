//! Reference-count helper generation for a compiler backend.
//!
//! The library decides, for every value layout, which increment and
//! decrement helpers a compilation module needs, what each helper does, and
//! how the refcount word that precedes every heap allocation evolves when the
//! emitted code runs.
use vstd::prelude::*;

pub mod builders;
pub mod emit;
pub mod encode;
pub mod helper;
pub mod ids;
pub mod layout;
pub mod plan;
pub mod refcount;

verus! {

} // verus!
