//! Memory-management core of a small x86-64 kernel: a physical memory
//! layout validator, a slab allocator with power-of-two size classes, and
//! a four-level page-table builder, together with the fixed-capacity
//! collections they use for their own bookkeeping.

pub mod collections;
pub mod debug;
pub mod kalloc;
pub mod layout;
pub mod loader;
pub mod memory;
pub mod paging;
pub mod util;
