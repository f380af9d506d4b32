//! The BIOS memory map, decoded from the raw words the boot loader
//! leaves at a fixed physical address.

use vstd::prelude::*;

use crate::collections::static_interval::Interval;
use crate::collections::static_interval::IntervalList;

verus! {

/// The capacity of the layout and of the projected interval list.
pub const LAYOUT_CAPACITY: usize = 256;

/// The kind of a memory map entry returned from the BIOS.
#[derive(Copy, Clone, Debug, PartialEq, Eq, Structural)]
pub enum MemoryEntryType {
    Free,
    Reserved,
    AcpiReclaimable,
    AcpiNvs,
    Bad,
}

/// The kind a raw 32-bit code from the map denotes.
pub open spec fn kind_of(code: u64) -> MemoryEntryType {
    if code == 1 {
        MemoryEntryType::Free
    } else if code == 2 {
        MemoryEntryType::Reserved
    } else if code == 3 {
        MemoryEntryType::AcpiReclaimable
    } else if code == 4 {
        MemoryEntryType::AcpiNvs
    } else {
        MemoryEntryType::Bad
    }
}

/// A memory map entry returned from the BIOS.
#[derive(Copy, Clone, Debug, PartialEq, Eq, Structural)]
pub struct MemoryEntry {
    pub base_address: u64,
    pub length: u64,
    pub entry_type: MemoryEntryType,
}

impl MemoryEntry {
    /// Decode a [`MemoryEntry`] from three raw words: base, length, and
    /// a word whose low half is the kind code, one through five. An
    /// unknown kind is fatal at boot, so it is left out of the domain.
    pub fn new(slice: &[u64]) -> (r: MemoryEntry)
        requires
            slice@.len() >= 3,
            1 <= (slice@[2] & 0xffff_ffff) <= 5,
        ensures
            r.base_address == slice@[0],
            r.length == slice@[1],
            r.entry_type == kind_of(slice@[2] & 0xffff_ffff),
    {
        let code = slice[2] & 0xffff_ffff;
        let entry_type = if code == 1 {
            MemoryEntryType::Free
        } else if code == 2 {
            MemoryEntryType::Reserved
        } else if code == 3 {
            MemoryEntryType::AcpiReclaimable
        } else if code == 4 {
            MemoryEntryType::AcpiNvs
        } else {
            MemoryEntryType::Bad
        };
        MemoryEntry { base_address: slice[0], length: slice[1], entry_type }
    }
}

/// The intervals of the free entries of a memory map, in order.
pub open spec fn free_intervals(s: Seq<MemoryEntry>) -> Seq<Interval>
    decreases s.len(),
{
    if s.len() == 0 {
        Seq::empty()
    } else {
        free_intervals(s.drop_last()) + if s.last().entry_type == MemoryEntryType::Free {
            seq![Interval { start: s.last().base_address, length: s.last().length }]
        } else {
            Seq::empty()
        }
    }
}

/// A memory layout: the decoded entries of the BIOS memory map.
pub struct MemoryLayout {
    list: Vec<MemoryEntry>,
}

impl View for MemoryLayout {
    type V = Seq<MemoryEntry>;

    closed spec fn view(&self) -> Seq<MemoryEntry> {
        self.list@
    }
}

impl MemoryLayout {
    /// The layout fits its fixed capacity.
    pub open spec fn wf(&self) -> bool {
        self@.len() <= LAYOUT_CAPACITY
    }

    /// Decode a [`MemoryLayout`] from the raw words at the fixed
    /// physical address: the entry count first, then three words per
    /// entry. The surrounding program reads the words; the count and
    /// every kind code must be sound, as the boot loader guarantees.
    pub fn new(words: &[u64]) -> (r: MemoryLayout)
        requires
            words@.len() >= 1,
            words@[0] <= LAYOUT_CAPACITY,
            words@.len() >= 1 + 3 * words@[0],
            forall|e: int|
                0 <= e < words@[0] ==> 1 <= (#[trigger] words@[1 + 3 * e + 2] & 0xffff_ffff) <= 5,
        ensures
            r.wf(),
            r@.len() == words@[0],
            forall|e: int|
                0 <= e < words@[0] ==> #[trigger] r@[e] == (MemoryEntry {
                    base_address: words@[1 + 3 * e],
                    length: words@[1 + 3 * e + 1],
                    entry_type: kind_of(words@[1 + 3 * e + 2] & 0xffff_ffff),
                }),
    {
        let len = words[0] as usize;
        let mut list: Vec<MemoryEntry> = Vec::new();
        let mut i: usize = 0;
        while i < len
            invariant
                0 <= i <= len,
                len <= LAYOUT_CAPACITY,
                len == words@[0],
                words@.len() >= 1 + 3 * len,
                forall|e: int|
                    0 <= e < len ==> 1 <= (#[trigger] words@[1 + 3 * e + 2] & 0xffff_ffff) <= 5,
                list@.len() == i,
                forall|e: int|
                    0 <= e < i ==> #[trigger] list@[e] == (MemoryEntry {
                        base_address: words@[1 + 3 * e],
                        length: words@[1 + 3 * e + 1],
                        entry_type: kind_of(words@[1 + 3 * e + 2] & 0xffff_ffff),
                    }),
            decreases len - i,
        {
            proof {
                assert(1 <= (words@[1 + 3 * (i as int) + 2] & 0xffff_ffff) <= 5);
            }
            let entry = MemoryEntry::new(&words[1 + 3 * i..4 + 3 * i]);
            list.push(entry);
            i = i + 1;
        }
        MemoryLayout { list }
    }

    /// Project the free entries of the layout into an interval list.
    pub fn as_free_interval_list(&self) -> (r: IntervalList<LAYOUT_CAPACITY>)
        requires
            self.wf(),
        ensures
            r@ == free_intervals(self@),
    {
        let mut interval_list = IntervalList::<LAYOUT_CAPACITY>::new();
        let n = self.list.len();
        let mut i: usize = 0;
        while i < n
            invariant
                0 <= i <= n,
                n == self@.len(),
                n <= LAYOUT_CAPACITY,
                interval_list@ == free_intervals(self@.subrange(0, i as int)),
                interval_list@.len() <= i,
            decreases n - i,
        {
            proof {
                assert(self@.subrange(0, i + 1 as int).drop_last() =~= self@.subrange(0, i as int));
            }
            let item = self.list[i];
            let is_free = match item.entry_type {
                MemoryEntryType::Free => true,
                _ => false,
            };
            if is_free {
                let interval = Interval::new(item.base_address, item.length);
                let push_r = interval_list.push(interval);
                proof {
                    assert(push_r is Ok);
                }
            }
            i = i + 1;
        }
        proof {
            assert(self@.subrange(0, n as int) =~= self@);
        }
        interval_list
    }
}

} // verus!
