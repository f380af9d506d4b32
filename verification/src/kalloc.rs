//! Kernel memory allocation. This module uses a slab allocation
//! algorithm with power-of-two size classes to serve kernel heap
//! requests.

pub mod alloc_context;
pub mod allocator;

pub use self::alloc_context::AllocContext;
pub use self::allocator::Allocator;
