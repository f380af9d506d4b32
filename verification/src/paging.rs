//! Paging: the structures and functions used to build the four-level
//! x86-64 page-table tree for context switching.

use vstd::prelude::*;

pub mod context;

pub use self::context::page_covered;
pub use self::context::PagingContext;

use crate::collections::static_interval::IntervalList;

use crate::util::set_bits::bit_of;
use crate::util::set_bits::set_bits;

verus! {

/// The size of one page in bytes.
pub const PAGE_SIZE: u64 = 4096;

/// The number of physical address bits this kernel assumes. A later
/// version should query it from the processor instead.
pub const MAXPHYADDR: u8 = 52;

/// The four 9-bit page-table indices of a canonical virtual address,
/// highest level first.
pub open spec fn parsed_indices(addr: u64) -> Seq<usize> {
    seq![
        ((addr >> 39) & 511) as usize,
        ((addr >> 30) & 511) as usize,
        ((addr >> 21) & 511) as usize,
        ((addr >> 12) & 511) as usize,
    ]
}

/// Make sure that the address is page aligned. Callers must only pass
/// aligned addresses; an unaligned one is a hard error.
pub fn assert_align(addr: u64)
    requires
        addr % PAGE_SIZE == 0,
{
}

/// Parse a virtual address into the indices of the four paging levels.
pub fn parse_addr(addr: u64) -> (r: [usize; 4])
    requires
        addr >> 48 == 0,
    ensures
        r@ == parsed_indices(addr),
        forall|i: int| 0 <= i < 4 ==> r@[i] < 512,
{
    let i0 = ((addr & 0x0000_FFFF_FFFF_FFFF) >> 39) as usize;
    let i1 = ((addr & 0x0000_007F_FFFF_FFFF) >> 30) as usize;
    let i2 = ((addr & 0x0000_0000_3FFF_FFFF) >> 21) as usize;
    let i3 = ((addr & 0x0000_0000_001F_FFFF) >> 12) as usize;
    let r = [i0, i1, i2, i3];
    proof {
        assert((addr & 0x0000_FFFF_FFFF_FFFF) >> 39 == (addr >> 39) & 511 && (addr
            & 0x0000_007F_FFFF_FFFF) >> 30 == (addr >> 30) & 511 && (addr & 0x0000_0000_3FFF_FFFF)
            >> 21 == (addr >> 21) & 511 && (addr & 0x0000_0000_001F_FFFF) >> 12 == (addr >> 12)
            & 511 && (addr >> 39) & 511 < 512 && (addr >> 30) & 511 < 512 && (addr >> 21) & 511
            < 512 && (addr >> 12) & 511 < 512) by (bit_vector);
        assert(r@ =~= parsed_indices(addr));
    }
    r
}

/// The value to be loaded into CR3 for a paging context: cacheability
/// flags and the physical base of the root directory.
pub fn cr3_descriptor(write_through: u64, cache_disable: u64, address: u64) -> (r: u64)
    requires
        write_through <= 1,
        cache_disable <= 1,
        address < 0x100_0000_0000,
    ensures
        bit_of(r, 3) == write_through,
        bit_of(r, 4) == cache_disable,
        forall|i: u64| 12 <= i < 52 ==> #[trigger] bit_of(r, i) == bit_of(address, (i - 12) as u64),
        forall|i: u64|
            i < 64 && i != 3 && i != 4 && !(12 <= i < 52) ==> #[trigger] bit_of(r, i) == 0,
{
    let mut result: u64 = 0;
    proof {
        assert(forall|i: u64| i < 64 ==> #[trigger] bit_of(0u64, i) == 0) by (bit_vector);
        assert(write_through <= 1 ==> write_through & 1 == write_through) by (bit_vector);
        assert(cache_disable <= 1 ==> cache_disable & 1 == cache_disable) by (bit_vector);
        assert(address < 0x100_0000_0000 ==> address <= !0u64 >> 24) by (bit_vector);
        assert((!0u64 >> 63) == 1 && (!0u64 >> 60) == 15) by (bit_vector);
        assert(crate::util::set_bits::low_mask(1) == !0u64 >> 63);
        assert(crate::util::set_bits::low_mask(40) == !0u64 >> 24);
    }
    result = set_bits(result, 3, 4, write_through);
    result = set_bits(result, 4, 5, cache_disable);
    result = set_bits(result, 12, MAXPHYADDR, address);
    proof {
        assert(forall|x: u64, i: u64| i < 64 ==> #[trigger] bit_of(x, i) == (x >> i) & 1);
        assert(forall|x: u64| x <= 1 ==> (x >> 0u64) & 1 == x) by (bit_vector);
    }
    result
}

/// The flag bits of a paging-structure entry, each zero or one.
pub struct DescriptorFlags {
    pub present: u64,
    pub write: u64,
    pub supervisor: u64,
    pub write_through: u64,
    pub cache_disable: u64,
    pub accessed: u64,
    pub dirty: u64,
    pub exe_disable: u64,
}

impl DescriptorFlags {
    /// Every flag is a single bit.
    pub open spec fn wf(&self) -> bool {
        &&& self.present <= 1
        &&& self.write <= 1
        &&& self.supervisor <= 1
        &&& self.write_through <= 1
        &&& self.cache_disable <= 1
        &&& self.accessed <= 1
        &&& self.dirty <= 1
        &&& self.exe_disable <= 1
    }
}

/// A page directory entry: one word of a PML4, PDPT or PD node,
/// carrying the flags and the physical base of the next level.
#[verifier::rlimit(50)]
pub fn page_directory_entry(flags: &DescriptorFlags, address: u64) -> (r: u64)
    requires
        flags.wf(),
        address < 0x100_0000_0000,
    ensures
        bit_of(r, 0) == flags.present,
        bit_of(r, 1) == flags.write,
        bit_of(r, 2) == flags.supervisor,
        bit_of(r, 3) == flags.write_through,
        bit_of(r, 4) == flags.cache_disable,
        bit_of(r, 5) == flags.accessed,
        bit_of(r, 63) == flags.exe_disable,
        forall|i: u64| 12 <= i < 52 ==> #[trigger] bit_of(r, i) == bit_of(address, (i - 12) as u64),
        forall|i: u64| 6 <= i < 12 ==> #[trigger] bit_of(r, i) == 0,
        forall|i: u64| 52 <= i < 63 ==> #[trigger] bit_of(r, i) == 0,
{
    let mut result: u64 = 0;
    proof {
        assert(forall|i: u64| i < 64 ==> #[trigger] bit_of(0u64, i) == 0) by (bit_vector);
        assert(forall|x: u64| x <= 1 ==> (x >> 0u64) & 1 == x) by (bit_vector);
        assert((!0u64 >> 63) == 1) by (bit_vector);
        assert(crate::util::set_bits::low_mask(1) == !0u64 >> 63);
        assert(address < 0x100_0000_0000 ==> address <= !0u64 >> 24) by (bit_vector);
        assert(crate::util::set_bits::low_mask(40) == !0u64 >> 24);
        assert(forall|x: u64, i: u64| i < 64 ==> #[trigger] bit_of(x, i) == (x >> i) & 1);
    }
    result = set_bits(result, 0, 1, flags.present);
    result = set_bits(result, 1, 2, flags.write);
    result = set_bits(result, 2, 3, flags.supervisor);
    result = set_bits(result, 3, 4, flags.write_through);
    result = set_bits(result, 4, 5, flags.cache_disable);
    result = set_bits(result, 5, 6, flags.accessed);
    result = set_bits(result, 12, MAXPHYADDR, address);
    result = set_bits(result, 63, 64, flags.exe_disable);
    result
}

/// A page table entry: one word of a terminal PT node, carrying the
/// flags and the physical base of the mapped frame. Bit seven starts
/// set, the terminal-page convention of this kernel.
#[verifier::rlimit(50)]
pub fn page_table_entry(flags: &DescriptorFlags, address: u64) -> (r: u64)
    requires
        flags.wf(),
        address < 0x100_0000_0000,
    ensures
        bit_of(r, 0) == flags.present,
        bit_of(r, 1) == flags.write,
        bit_of(r, 2) == flags.supervisor,
        bit_of(r, 3) == flags.write_through,
        bit_of(r, 4) == flags.cache_disable,
        bit_of(r, 5) == flags.accessed,
        bit_of(r, 6) == flags.dirty,
        bit_of(r, 7) == 1,
        bit_of(r, 63) == flags.exe_disable,
        forall|i: u64| 12 <= i < 52 ==> #[trigger] bit_of(r, i) == bit_of(address, (i - 12) as u64),
        forall|i: u64| 8 <= i < 12 ==> #[trigger] bit_of(r, i) == 0,
        forall|i: u64| 52 <= i < 63 ==> #[trigger] bit_of(r, i) == 0,
{
    // Because this is a terminal page, bit seven starts set.
    let mut result: u64 = 1u64 << 7;
    proof {
        assert(forall|i: u64|
            i < 64 ==> #[trigger] bit_of(1u64 << 7, i) == (if i == 7 {
                1u64
            } else {
                0u64
            })) by (bit_vector);
        assert(forall|x: u64| x <= 1 ==> (x >> 0u64) & 1 == x) by (bit_vector);
        assert((!0u64 >> 63) == 1) by (bit_vector);
        assert(crate::util::set_bits::low_mask(1) == !0u64 >> 63);
        assert(address < 0x100_0000_0000 ==> address <= !0u64 >> 24) by (bit_vector);
        assert(crate::util::set_bits::low_mask(40) == !0u64 >> 24);
        assert(forall|x: u64, i: u64| i < 64 ==> #[trigger] bit_of(x, i) == (x >> i) & 1);
    }
    result = set_bits(result, 0, 1, flags.present);
    result = set_bits(result, 1, 2, flags.write);
    result = set_bits(result, 2, 3, flags.supervisor);
    result = set_bits(result, 3, 4, flags.write_through);
    result = set_bits(result, 4, 5, flags.cache_disable);
    result = set_bits(result, 5, 6, flags.accessed);
    result = set_bits(result, 6, 7, flags.dirty);
    result = set_bits(result, 12, MAXPHYADDR, address);
    result = set_bits(result, 63, 64, flags.exe_disable);
    result
}

/// Initialization function for the paging module: build the initial
/// paging context, identity-mapping the configured regions so that
/// virtual equals physical throughout them once the context is
/// installed.
pub fn init<const N: usize>(identity: &IntervalList<N>) -> (r: PagingContext)
    requires
        forall|k: int|
            0 <= k < identity@.len() ==> (#[trigger] identity@[k]).start + identity@[k].length
                <= 0x1_0000_0000_0000,
    ensures
        r.wf(),
        forall|v: u64|
            v % PAGE_SIZE == 0 && v >> 48 == 0 ==> #[trigger] r.find_path(parsed_indices(v)) == (
            if page_covered(identity@, v) {
                Some(v)
            } else {
                None
            }),
{
    PagingContext::new_with_identity(identity)
}

} // verus!
