//! The hook for Rust's global allocator: an empty structure standing
//! for the kernel heap. The surrounding program adapts it to the global
//! allocator interface, turning allocation failures into null pointers.

use vstd::prelude::*;

verus! {

/// Empty structure used for Rust's `global_allocator` feature.
pub struct Allocator;

} // verus!
