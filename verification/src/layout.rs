//! Memory layout: the entries of the BIOS memory map, and the
//! projection of its free regions into an interval list. The raw map
//! words are read from their fixed physical address by the surrounding
//! program and handed in as plain values; checking that the kernel's
//! own footprint is covered is the interval coverage test.

pub mod memory_layout;

pub use self::memory_layout::MemoryEntry;
pub use self::memory_layout::MemoryEntryType;
pub use self::memory_layout::MemoryLayout;
