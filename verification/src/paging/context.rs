//! A paging context used in context switching: a four-level tree of
//! page directories ending in page tables, with insert, find and remove
//! of single 4 KiB page mappings and lazy contraction on removal.

use vstd::prelude::*;

use crate::collections::static_interval::Interval;
use crate::collections::static_interval::IntervalList;
use crate::paging::assert_align;
use crate::paging::parse_addr;
use crate::paging::parsed_indices;
use crate::paging::PAGE_SIZE;

verus! {

/// The number of entries in one directory or table.
pub const NUMBER_OF_ENTRIES: usize = 512;

/// A node of the paging tree: either another level of directories or a
/// terminal page table.
enum PageDirTab {
    Directory(Box<PageDirectory>),
    Table(Box<PageTable>),
}

/// A structure that holds a list of pages.
struct PageTable {
    // A map of indices to physical addresses.
    map: Vec<Option<u64>>,
    // A blob that the processor will read as a page table. It is filled
    // in lazily when the context is installed.
    blob: Vec<u64>,
    // How many indices are mapped.
    count: usize,
}

/// A structure that holds the next page directories or page tables.
struct PageDirectory {
    // A map of indices to the next level.
    map: Vec<Option<PageDirTab>>,
    // A blob that the processor will read as a page directory, filled
    // in lazily when the context is installed.
    blob: Vec<u64>,
    // How many indices are linked.
    count: usize,
}

/// The descriptor word a mapped page stores in its table's blob: the
/// frame address with Present and Write set, supervisor-only access,
/// no caching overrides, and the terminal-page convention bit seven;
/// the processor fills Accessed and Dirty itself.
pub open spec fn pte_bits(p: u64) -> u64 {
    p | 0x83
}

/// The §-described placement of the descriptor's fields, bit by bit:
/// Present at zero, Write at one, the bit-seven convention, the frame
/// address at twelve and up, and everything else clear.
pub proof fn lemma_pte_bits_layout(p: u64)
    requires
        p % 4096 == 0,
        p < 0x10_0000_0000_0000,
    ensures
        pte_bits(p) & 1 == 1,
        (pte_bits(p) >> 1) & 1 == 1,
        (pte_bits(p) >> 2) & 1 == 0,
        (pte_bits(p) >> 3) & 1 == 0,
        (pte_bits(p) >> 4) & 1 == 0,
        (pte_bits(p) >> 5) & 1 == 0,
        (pte_bits(p) >> 6) & 1 == 0,
        (pte_bits(p) >> 7) & 1 == 1,
        forall|i: u64| 12 <= i < 52 ==> #[trigger] ((pte_bits(p) >> i) & 1) == (p >> i) & 1,
        forall|i: u64| 52 <= i < 64 ==> #[trigger] ((pte_bits(p) >> i) & 1) == 0,
        forall|i: u64| 8 <= i < 12 ==> #[trigger] ((pte_bits(p) >> i) & 1) == 0,
{
    assert(p % 4096 == 0 && p < 0x10_0000_0000_0000 ==> ((p | 0x83) & 1 == 1 && ((p | 0x83) >> 1)
        & 1 == 1 && ((p | 0x83) >> 2) & 1 == 0 && ((p | 0x83) >> 3) & 1 == 0 && ((p | 0x83) >> 4)
        & 1 == 0 && ((p | 0x83) >> 5) & 1 == 0 && ((p | 0x83) >> 6) & 1 == 0 && ((p | 0x83) >> 7)
        & 1 == 1)) by (bit_vector);
    assert forall|i: u64| 12 <= i < 52 implies #[trigger] ((pte_bits(p) >> i) & 1) == (p >> i)
        & 1 by {
        assert(12 <= i < 52 ==> (((p | 0x83) >> i) & 1) == (p >> i) & 1) by (bit_vector);
    }
    assert forall|i: u64| 52 <= i < 64 implies #[trigger] ((pte_bits(p) >> i) & 1) == 0 by {
        assert(p < 0x10_0000_0000_0000 && 52 <= i < 64 ==> (((p | 0x83) >> i) & 1) == 0)
            by (bit_vector);
    }
    assert forall|i: u64| 8 <= i < 12 implies #[trigger] ((pte_bits(p) >> i) & 1) == 0 by {
        assert(p % 4096 == 0 && 8 <= i < 12 ==> (((p | 0x83) >> i) & 1) == 0) by (bit_vector);
    }
}

/// The number of present entries of a table's map.
spec fn num_mapped(s: Seq<Option<u64>>) -> int
    decreases s.len(),
{
    if s.len() == 0 {
        0
    } else {
        num_mapped(s.drop_last()) + if s.last() is Some {
            1int
        } else {
            0int
        }
    }
}

proof fn lemma_num_mapped_update(s: Seq<Option<u64>>, i: int, v: Option<u64>)
    requires
        0 <= i < s.len(),
    ensures
        num_mapped(s.update(i, v)) == num_mapped(s) + (if v is Some {
            1int
        } else {
            0int
        }) - (if s[i] is Some {
            1int
        } else {
            0int
        }),
    decreases s.len(),
{
    let t = s.update(i, v);
    if s.len() > 0 {
        if i == s.len() - 1 {
            assert(t.drop_last() =~= s.drop_last());
        } else {
            assert(t.drop_last() =~= s.drop_last().update(i, v));
            lemma_num_mapped_update(s.drop_last(), i, v);
        }
    }
}

proof fn lemma_num_mapped_nonneg(s: Seq<Option<u64>>)
    ensures
        0 <= num_mapped(s) <= s.len(),
        forall|i: int| 0 <= i < s.len() && (#[trigger] s[i]) is None ==> num_mapped(s) < s.len(),
        forall|i: int| 0 <= i < s.len() && (#[trigger] s[i]) is Some ==> num_mapped(s) >= 1,
        (forall|i: int| 0 <= i < s.len() ==> (#[trigger] s[i]) is None) ==> num_mapped(s) == 0,
        num_mapped(s) == 0 ==> forall|i: int| 0 <= i < s.len() ==> (#[trigger] s[i]) is None,
    decreases s.len(),
{
    if s.len() > 0 {
        lemma_num_mapped_nonneg(s.drop_last());
        if num_mapped(s) == 0 {
            assert forall|i: int| 0 <= i < s.len() implies (#[trigger] s[i]) is None by {
                if i < s.len() - 1 {
                    assert(s.drop_last()[i] is None);
                }
            }
        }
        assert forall|i: int| 0 <= i < s.len() && (#[trigger] s[i]) is None implies num_mapped(s)
            < s.len() by {
            if i < s.len() - 1 {
                assert(s.drop_last()[i] is None);
            }
        }
        assert forall|i: int| 0 <= i < s.len() && (#[trigger] s[i]) is Some implies num_mapped(s)
            >= 1 by {
            if i < s.len() - 1 {
                assert(s.drop_last()[i] is Some);
            }
        }
    }
}

/// The number of linked entries of a directory's map.
spec fn num_linked(s: Seq<Option<PageDirTab>>) -> int
    decreases s.len(),
{
    if s.len() == 0 {
        0
    } else {
        num_linked(s.drop_last()) + if s.last() is Some {
            1int
        } else {
            0int
        }
    }
}

proof fn lemma_num_linked_update(s: Seq<Option<PageDirTab>>, i: int, v: Option<PageDirTab>)
    requires
        0 <= i < s.len(),
    ensures
        num_linked(s.update(i, v)) == num_linked(s) + (if v is Some {
            1int
        } else {
            0int
        }) - (if s[i] is Some {
            1int
        } else {
            0int
        }),
    decreases s.len(),
{
    let t = s.update(i, v);
    if s.len() > 0 {
        if i == s.len() - 1 {
            assert(t.drop_last() =~= s.drop_last());
        } else {
            assert(t.drop_last() =~= s.drop_last().update(i, v));
            lemma_num_linked_update(s.drop_last(), i, v);
        }
    }
}

proof fn lemma_num_linked_nonneg(s: Seq<Option<PageDirTab>>)
    ensures
        0 <= num_linked(s) <= s.len(),
        forall|i: int| 0 <= i < s.len() && (#[trigger] s[i]) is None ==> num_linked(s) < s.len(),
        forall|i: int| 0 <= i < s.len() && (#[trigger] s[i]) is Some ==> num_linked(s) >= 1,
        (forall|i: int| 0 <= i < s.len() ==> (#[trigger] s[i]) is None) ==> num_linked(s) == 0,
        num_linked(s) == 0 ==> forall|i: int| 0 <= i < s.len() ==> (#[trigger] s[i]) is None,
    decreases s.len(),
{
    if s.len() > 0 {
        lemma_num_linked_nonneg(s.drop_last());
        if num_linked(s) == 0 {
            assert forall|i: int| 0 <= i < s.len() implies (#[trigger] s[i]) is None by {
                if i < s.len() - 1 {
                    assert(s.drop_last()[i] is None);
                }
            }
        }
        assert forall|i: int| 0 <= i < s.len() && (#[trigger] s[i]) is None implies num_linked(s)
            < s.len() by {
            if i < s.len() - 1 {
                assert(s.drop_last()[i] is None);
            }
        }
        assert forall|i: int| 0 <= i < s.len() && (#[trigger] s[i]) is Some implies num_linked(s)
            >= 1 by {
            if i < s.len() - 1 {
                assert(s.drop_last()[i] is Some);
            }
        }
    }
}

/// What the subtree under a node resolves along a path of indices: the
/// physical address at its end, if every step is present.
spec fn node_find(n: PageDirTab, path: Seq<usize>) -> Option<u64>
    decreases path.len(),
{
    match n {
        PageDirTab::Table(t) => {
            if path.len() == 1 && path[0] < 512 {
                t.map@[path[0] as int]
            } else {
                None
            }
        },
        PageDirTab::Directory(d) => {
            if path.len() >= 2 && path[0] < 512 {
                match d.map@[path[0] as int] {
                    Some(c) => node_find(c, path.drop_first()),
                    None => None,
                }
            } else {
                None
            }
        },
    }
}

/// How many mappings a node holds directly in its own map.
spec fn node_count(n: PageDirTab) -> int {
    match n {
        PageDirTab::Table(t) => num_mapped(t.map@),
        PageDirTab::Directory(d) => num_linked(d.map@),
    }
}

/// Well-formedness of a subtree that has `depth` levels of directories
/// above its tables. Directories sit at depths one to three, tables at
/// depth zero, every map has 512 slots, the counts are right, every
/// stored address is an aligned physical page address, and no child is
/// empty: removal contracts the tree as soon as a subtree runs dry.
spec fn node_wf(n: PageDirTab, depth: nat) -> bool
    decreases depth,
{
    match n {
        PageDirTab::Table(t) => {
            &&& depth == 0
            &&& t.map@.len() == 512
            &&& t.blob@.len() == 512
            &&& t.count == num_mapped(t.map@)
            &&& forall|i: int|
                0 <= i < 512 && (#[trigger] t.map@[i]) is Some ==> (t.map@[i].unwrap() % 4096
                    == 0 && t.map@[i].unwrap() < 0x10_0000_0000_0000)
            // The processor-readable words track the map: present pages
            // carry their descriptor, absent ones are clear.
            &&& forall|i: int|
                0 <= i < 512 ==> (#[trigger] t.blob@[i]) == (if t.map@[i] is Some {
                    pte_bits(t.map@[i].unwrap())
                } else {
                    0
                })
        },
        PageDirTab::Directory(d) => {
            &&& depth >= 1
            &&& d.map@.len() == 512
            &&& d.blob@.len() == 512
            &&& d.count == num_linked(d.map@)
            &&& forall|i: int|
                0 <= i < 512 && (#[trigger] d.map@[i]) is Some ==> (node_wf(
                    d.map@[i].unwrap(),
                    (depth - 1) as nat,
                ) && node_count(d.map@[i].unwrap()) > 0)
        },
    }
}

/// A structure that represents the whole paging context.
pub struct PagingContext {
    // The value that will be loaded into CR3 when this paging context
    // is used.
    cr3: u64,
    // The root page directory; PML4 on x86-64.
    dirtab: PageDirTab,
}

impl PagingContext {
    /// Well-formedness: a four-level tree of directories over tables,
    /// with no empty subtree anywhere below the root.
    pub closed spec fn wf(&self) -> bool {
        &&& self.dirtab is Directory
        &&& node_wf(self.dirtab, 3)
    }

    /// What the context resolves along a parsed path of four indices.
    pub closed spec fn find_path(&self, path: Seq<usize>) -> Option<u64> {
        node_find(self.dirtab, path)
    }


    /// Find the physical address of the frame that the page at
    /// `virt_addr` is mapped to.
    pub fn find(&self, virt_addr: u64) -> (r: Option<u64>)
        requires
            self.wf(),
            virt_addr % PAGE_SIZE == 0,
            virt_addr >> 48 == 0,
        ensures
            r == self.find_path(parsed_indices(virt_addr)),
    {
        assert_align(virt_addr);
        let indices = parse_addr(virt_addr);
        proof {
            assert(indices@.subrange(0, 4) =~= indices@);
        }
        node_lookup(&self.dirtab, indices, 0)
    }

    /// Read the descriptor word the processor would use for the page at
    /// `virt_addr`: the table blobs track the logical map, so a mapped
    /// page yields its frame's descriptor and an unmapped one yields
    /// zero.
    pub fn descriptor_at(&self, virt_addr: u64) -> (r: u64)
        requires
            self.wf(),
            virt_addr % PAGE_SIZE == 0,
            virt_addr >> 48 == 0,
        ensures
            r == match self.find_path(parsed_indices(virt_addr)) {
                Some(p) => pte_bits(p),
                None => 0,
            },
    {
        assert_align(virt_addr);
        let indices = parse_addr(virt_addr);
        proof {
            assert(indices@.subrange(0, 4) =~= indices@);
        }
        node_descriptor(&self.dirtab, indices, 0)
    }

    /// Map the page at virtual address `virt_addr` to the frame at
    /// physical address `phy_addr`. Mapping a page twice is a hard
    /// error, so that double maps are caught.
    pub fn insert(&mut self, virt_addr: u64, phy_addr: u64) -> (r: Result<(), ()>)
        requires
            old(self).wf(),
            virt_addr % PAGE_SIZE == 0,
            phy_addr % PAGE_SIZE == 0,
            virt_addr >> 48 == 0,
            phy_addr < 0x10_0000_0000_0000,
        ensures
            final(self).wf(),
            old(self).find_path(parsed_indices(virt_addr)) is Some ==> (r is Err && *final(self)
                == *old(self)),
            old(self).find_path(parsed_indices(virt_addr)) is None ==> (r is Ok
                && final(self).find_path(parsed_indices(virt_addr)) == Some(phy_addr) && (forall|
                w: Seq<usize>,
            |
                w != parsed_indices(virt_addr) ==> final(self).find_path(w) == old(self).find_path(
                    w,
                ))),
    {
        assert_align(virt_addr);
        assert_align(phy_addr);

        if self.find(virt_addr).is_some() {
            return Err(());
        }
        let indices = parse_addr(virt_addr);
        proof {
            assert(indices@.subrange(0, 4) =~= indices@);
        }
        node_insert(&mut self.dirtab, indices, 0, phy_addr);
        Ok(())
    }

    /// Unmap the page at virtual address `virt_addr` and return the
    /// physical address it was mapped to. Unmapping an absent page is
    /// an error. On the way back up, every directory or table that ran
    /// dry is dropped from its parent, so the tree stays minimal.
    pub fn remove(&mut self, virt_addr: u64) -> (r: Result<u64, ()>)
        requires
            old(self).wf(),
            virt_addr % PAGE_SIZE == 0,
            virt_addr >> 48 == 0,
        ensures
            final(self).wf(),
            old(self).find_path(parsed_indices(virt_addr)) is None ==> (r is Err && *final(self)
                == *old(self)),
            old(self).find_path(parsed_indices(virt_addr)) matches Some(p) ==> (r == Ok::<
                u64,
                (),
            >(p) && final(self).find_path(parsed_indices(virt_addr)) is None && (forall|
                w: Seq<usize>,
            |
                w != parsed_indices(virt_addr) ==> final(self).find_path(w) == old(self).find_path(
                    w,
                ))),
    {
        assert_align(virt_addr);
        if self.find(virt_addr).is_none() {
            return Err(());
        }
        let indices = parse_addr(virt_addr);
        proof {
            assert(indices@.subrange(0, 4) =~= indices@);
        }
        let phys = node_remove(&mut self.dirtab, indices, 0);
        Ok(phys)
    }

    /// Create a [`PagingContext`] with no mappings yet: the base that
    /// [`Self::new_with_identity`] fills, and the bare tree for callers
    /// that build their mappings one page at a time.
    pub fn new() -> (r: PagingContext)
        ensures
            r.wf(),
            forall|w: Seq<usize>| r.find_path(w) is None,
    {
        let directory = PageDirectory { map: empty_links(), blob: zero_blob(), count: 0 };
        let context = PagingContext { cr3: 0, dirtab: PageDirTab::Directory(Box::new(directory)) };
        proof {
            lemma_num_linked_nonneg(context.dirtab->Directory_0.map@);
            assert forall|w: Seq<usize>| context.find_path(w) is None by {
                if w.len() >= 2 && w[0] < 512 {
                    assert(context.dirtab->Directory_0.map@[w[0] as int] is None);
                }
            }
        }
        context
    }
}

/// In a well-formed empty node, every path resolves to nothing.
proof fn lemma_empty_node_find(n: PageDirTab, depth: nat)
    requires
        node_wf(n, depth),
        node_count(n) == 0,
    ensures
        forall|w: Seq<usize>| node_find(n, w) is None,
{
    match n {
        PageDirTab::Table(t) => {
            lemma_num_mapped_nonneg(t.map@);
        },
        PageDirTab::Directory(d) => {
            lemma_num_linked_nonneg(d.map@);
        },
    }
}

/// How many mappings a node holds, as executable code reads it.
fn count_of(n: &PageDirTab) -> (r: usize)
    requires
        exists|depth: nat| node_wf(*n, depth),
    ensures
        r == node_count(*n),
{
    match n {
        PageDirTab::Table(t) => t.count,
        PageDirTab::Directory(d) => d.count,
    }
}

/// Look a path up in the subtree under `n`, whose tables lie
/// `3 - level` levels down.
fn node_lookup(n: &PageDirTab, idx: [usize; 4], level: usize) -> (r: Option<u64>)
    requires
        level <= 3,
        forall|i: int| 0 <= i < 4 ==> idx@[i] < 512,
        node_wf(*n, (3 - level) as nat),
    ensures
        r == node_find(*n, idx@.subrange(level as int, 4)),
    decreases 4 - level,
{
    let ghost path = idx@.subrange(level as int, 4);
    match n {
        PageDirTab::Table(t) => {
            proof {
                assert(path.len() == 1 && path[0] == idx@[3]);
            }
            t.map[idx[3]]
        },
        PageDirTab::Directory(d) => {
            let i = idx[level];
            proof {
                assert(path.len() >= 2 && path[0] == idx@[level as int]);
            }
            match &d.map[i] {
                None => None,
                Some(c) => {
                    proof {
                        assert(path.drop_first() =~= idx@.subrange(level + 1, 4));
                    }
                    node_lookup(c, idx, level + 1)
                },
            }
        },
    }
}

/// Insert `phys` at the path under `n`, growing missing levels.
fn node_insert(n: &mut PageDirTab, idx: [usize; 4], level: usize, phys: u64)
    requires
        level <= 3,
        forall|i: int| 0 <= i < 4 ==> idx@[i] < 512,
        node_wf(*old(n), (3 - level) as nat),
        node_find(*old(n), idx@.subrange(level as int, 4)) is None,
        phys % 4096 == 0,
        phys < 0x10_0000_0000_0000,
    ensures
        node_wf(*final(n), (3 - level) as nat),
        (*final(n)) is Directory <==> (*old(n)) is Directory,
        node_count(*final(n)) >= node_count(*old(n)),
        node_count(*final(n)) >= 1,
        node_find(*final(n), idx@.subrange(level as int, 4)) == Some(phys),
        forall|w: Seq<usize>|
            w != idx@.subrange(level as int, 4) ==> node_find(*final(n), w) == node_find(
                *old(n),
                w,
            ),
    decreases 4 - level,
{
    let ghost path = idx@.subrange(level as int, 4);
    match n {
        PageDirTab::Table(t) => {
            let i3 = idx[3];
            proof {
                assert(path.len() == 1 && path[0] == idx@[3]);
                assert(t.map@[i3 as int] is None);
                lemma_num_mapped_nonneg(t.map@);
                lemma_num_mapped_update(t.map@, i3 as int, Some(phys));
            }
            t.map[i3] = Some(phys);
            t.blob[i3] = phys | 0x83;
            t.count = t.count + 1;
            proof {
                assert forall|w: Seq<usize>| w != path implies node_find(*n, w) == node_find(
                    *old(n),
                    w,
                ) by {
                    if w.len() == 1 && w[0] < 512 {
                        assert(w[0] != i3) by {
                            if w[0] == i3 {
                                assert(w =~= path);
                            }
                        }
                    }
                }
            }
        },
        PageDirTab::Directory(d) => {
            let i = idx[level];
            proof {
                assert(path.len() >= 2 && path[0] == idx@[level as int]);
                assert(path.drop_first() =~= idx@.subrange(level + 1, 4));
            }
            let ghost old_d_map = d.map@;
            proof {
                assert((*old(n))->Directory_0.map@ == old_d_map);
            }
            let taken = d.map[i].take();
            match taken {
                Some(mut c) => {
                    proof {
                        assert(node_find(c, path.drop_first()) is None);
                    }
                    node_insert(&mut c, idx, level + 1, phys);
                    d.map[i] = Some(c);
                    proof {
                        lemma_num_linked_update(old_d_map, i as int, None);
                        lemma_num_linked_update(
                            old_d_map.update(i as int, None),
                            i as int,
                            d.map@[i as int],
                        );
                        assert(d.map@ =~= old_d_map.update(i as int, d.map@[i as int]));
                        assert(num_linked(d.map@) == num_linked(old_d_map));
                        lemma_num_linked_nonneg(d.map@);
                        assert forall|w: Seq<usize>| w != path implies node_find(*n, w)
                            == node_find(*old(n), w) by {
                            if w.len() >= 2 && w[0] < 512 {
                                if w[0] == i {
                                    assert(w.drop_first() != path.drop_first()) by {
                                        if w.drop_first() == path.drop_first() {
                                            assert(w.len() == path.len());
                                            assert(forall|k: int|
                                                1 <= k < w.len() ==> w[k] == w.drop_first()[k - 1]
                                                    && path[k] == path.drop_first()[k - 1]);
                                            assert(w =~= path);
                                        }
                                    }
                                    assert(node_find(*n, w) == node_find(
                                        d.map@[i as int].unwrap(),
                                        w.drop_first(),
                                    ));
                                    assert(node_find(*old(n), w) == node_find(
                                        old_d_map[i as int].unwrap(),
                                        w.drop_first(),
                                    ));
                                } else {
                                    assert(d.map@[w[0] as int] == old_d_map[w[0] as int]);
                                }
                            }
                        }
                    }
                },
                None => {
                    let mut child = if level < 2 {
                        PageDirTab::Directory(
                            Box::new(
                                PageDirectory { map: empty_links(), blob: zero_blob(), count: 0 },
                            ),
                        )
                    } else {
                        PageDirTab::Table(
                            Box::new(PageTable { map: empty_pages(), blob: zero_blob(), count: 0 }),
                        )
                    };
                    proof {
                        assert(node_wf(child, (3 - (level + 1)) as nat));
                        assert(node_count(child) == 0);
                        lemma_empty_node_find(child, (3 - (level + 1)) as nat);
                    }
                    node_insert(&mut child, idx, level + 1, phys);
                    let ghost new_child = child;
                    d.map[i] = Some(child);
                    proof {
                        lemma_num_linked_nonneg(old_d_map);
                        assert(old_d_map[i as int] is None);
                    }
                    d.count = d.count + 1;
                    proof {
                        assert(old_d_map[i as int] is None);
                        lemma_num_linked_nonneg(old_d_map);
                        lemma_num_linked_update(old_d_map, i as int, None);
                        lemma_num_linked_update(
                            old_d_map.update(i as int, None),
                            i as int,
                            d.map@[i as int],
                        );
                        assert(d.map@ =~= old_d_map.update(i as int, d.map@[i as int]));
                        assert(num_linked(d.map@) == num_linked(old_d_map) + 1);
                        assert forall|w: Seq<usize>| w != path implies node_find(*n, w)
                            == node_find(*old(n), w) by {
                            if w.len() >= 2 && w[0] < 512 {
                                if w[0] == i {
                                    assert(w.drop_first() != path.drop_first()) by {
                                        if w.drop_first() == path.drop_first() {
                                            assert(w.len() == path.len());
                                            assert(forall|k: int|
                                                1 <= k < w.len() ==> w[k] == w.drop_first()[k - 1]
                                                    && path[k] == path.drop_first()[k - 1]);
                                            assert(w =~= path);
                                        }
                                    }
                                    assert(node_find(new_child, w.drop_first()) is None);
                                    assert(node_find(*n, w) == node_find(
                                        d.map@[i as int].unwrap(),
                                        w.drop_first(),
                                    ));
                                    assert(old_d_map[w[0] as int] is None);
                                    assert(node_find(*old(n), w) is None);
                                } else {
                                    assert(d.map@[w[0] as int] == old_d_map[w[0] as int]);
                                }
                            }
                        }
                    }
                },
            }
        },
    }
}

/// Remove the mapping at the path under `n` and hand its physical
/// address back, dropping any subtree the removal leaves empty.
fn node_remove(n: &mut PageDirTab, idx: [usize; 4], level: usize) -> (r: u64)
    requires
        level <= 3,
        forall|i: int| 0 <= i < 4 ==> idx@[i] < 512,
        node_wf(*old(n), (3 - level) as nat),
        node_find(*old(n), idx@.subrange(level as int, 4)) is Some,
    ensures
        node_wf(*final(n), (3 - level) as nat),
        (*final(n)) is Directory <==> (*old(n)) is Directory,
        node_count(*final(n)) >= node_count(*old(n)) - 1,
        node_count(*final(n)) <= node_count(*old(n)),
        Some(r) == node_find(*old(n), idx@.subrange(level as int, 4)),
        node_find(*final(n), idx@.subrange(level as int, 4)) is None,
        forall|w: Seq<usize>|
            w != idx@.subrange(level as int, 4) ==> node_find(*final(n), w) == node_find(
                *old(n),
                w,
            ),
    decreases 4 - level,
{
    let ghost path = idx@.subrange(level as int, 4);
    match n {
        PageDirTab::Table(t) => {
            let i3 = idx[3];
            proof {
                assert(path.len() == 1 && path[0] == idx@[3]);
                assert(t.map@[i3 as int] is Some);
                lemma_num_mapped_nonneg(t.map@);
                lemma_num_mapped_update(t.map@, i3 as int, None);
            }
            let taken = t.map[i3].take();
            let phys = taken.unwrap();
            t.blob[i3] = 0;
            t.count = t.count - 1;
            proof {
                assert forall|w: Seq<usize>| w != path implies node_find(*n, w) == node_find(
                    *old(n),
                    w,
                ) by {
                    if w.len() == 1 && w[0] < 512 {
                        assert(w[0] != i3) by {
                            if w[0] == i3 {
                                assert(w =~= path);
                            }
                        }
                    }
                }
            }
            phys
        },
        PageDirTab::Directory(d) => {
            let i = idx[level];
            proof {
                assert(path.len() >= 2 && path[0] == idx@[level as int]);
                assert(path.drop_first() =~= idx@.subrange(level + 1, 4));
            }
            let ghost old_d_map = d.map@;
            proof {
                assert((*old(n))->Directory_0.map@ == old_d_map);
            }
            let taken = d.map[i].take();
            let mut c = taken.unwrap();
            proof {
                assert(node_find(c, path.drop_first()) is Some);
            }
            let phys = node_remove(&mut c, idx, level + 1);
            let child_count = count_of(&c);
            if child_count == 0 {
                // The subtree ran dry: contract the tree here.
                proof {
                    lemma_empty_node_find(c, (3 - (level + 1)) as nat);
                    lemma_num_linked_update(old_d_map, i as int, None);
                    assert(d.map@ =~= old_d_map.update(i as int, None));
                    assert(num_linked(d.map@) == num_linked(old_d_map) - 1);
                    lemma_num_linked_nonneg(d.map@);
                }
                d.count = d.count - 1;
                proof {
                    assert forall|w: Seq<usize>| w != path implies node_find(*n, w) == node_find(
                        *old(n),
                        w,
                    ) by {
                        if w.len() >= 2 && w[0] < 512 {
                            if w[0] == i {
                                assert(w.drop_first() != path.drop_first()) by {
                                    if w.drop_first() == path.drop_first() {
                                        assert(w.len() == path.len());
                                        assert(forall|k: int|
                                            1 <= k < w.len() ==> w[k] == w.drop_first()[k - 1]
                                                && path[k] == path.drop_first()[k - 1]);
                                        assert(w =~= path);
                                    }
                                }
                                assert(node_find(c, w.drop_first()) is None);
                                assert(d.map@[i as int] is None);
                                assert(node_find(*n, w) is None);
                                assert(node_find(*old(n), w) == node_find(
                                    old_d_map[i as int].unwrap(),
                                    w.drop_first(),
                                ));
                            } else {
                                assert(d.map@[w[0] as int] == old_d_map[w[0] as int]);
                            }
                        }
                    }
                }
            } else {
                let ghost new_child = c;
                d.map[i] = Some(c);
                proof {
                    lemma_num_linked_update(old_d_map, i as int, None);
                    lemma_num_linked_update(
                        old_d_map.update(i as int, None),
                        i as int,
                        d.map@[i as int],
                    );
                    assert(d.map@ =~= old_d_map.update(i as int, d.map@[i as int]));
                    assert(num_linked(d.map@) == num_linked(old_d_map));
                    lemma_num_linked_nonneg(d.map@);
                    assert forall|w: Seq<usize>| w != path implies node_find(*n, w) == node_find(
                        *old(n),
                        w,
                    ) by {
                        if w.len() >= 2 && w[0] < 512 {
                            if w[0] == i {
                                assert(w.drop_first() != path.drop_first()) by {
                                    if w.drop_first() == path.drop_first() {
                                        assert(w.len() == path.len());
                                        assert(forall|k: int|
                                            1 <= k < w.len() ==> w[k] == w.drop_first()[k - 1]
                                                && path[k] == path.drop_first()[k - 1]);
                                        assert(w =~= path);
                                    }
                                }
                                assert(node_find(*n, w) == node_find(
                                    d.map@[i as int].unwrap(),
                                    w.drop_first(),
                                ));
                                assert(node_find(*old(n), w) == node_find(
                                    old_d_map[i as int].unwrap(),
                                    w.drop_first(),
                                ));
                            } else {
                                assert(d.map@[w[0] as int] == old_d_map[w[0] as int]);
                            }
                        }
                    }
                }
            }
            phys
        },
    }
}

/// Whether the page starting at `v` meets one of the given regions.
pub open spec fn page_covered(ivs: Seq<Interval>, v: u64) -> bool {
    exists|k: int|
        0 <= k < ivs.len() && (#[trigger] ivs[k]).length > 0 && ivs[k].start < v + PAGE_SIZE
            && v < ivs[k].start + ivs[k].length
}

/// Two distinct page-aligned canonical addresses parse to distinct
/// index paths.
proof fn lemma_parsed_injective(v1: u64, v2: u64)
    requires
        v1 % PAGE_SIZE == 0,
        v2 % PAGE_SIZE == 0,
        v1 >> 48 == 0,
        v2 >> 48 == 0,
        parsed_indices(v1) == parsed_indices(v2),
    ensures
        v1 == v2,
{
    assert(parsed_indices(v1)[0] == parsed_indices(v2)[0]);
    assert(parsed_indices(v1)[1] == parsed_indices(v2)[1]);
    assert(parsed_indices(v1)[2] == parsed_indices(v2)[2]);
    assert(parsed_indices(v1)[3] == parsed_indices(v2)[3]);
    assert((v1 >> 39) & 511 < 512 && (v1 >> 30) & 511 < 512 && (v1 >> 21) & 511 < 512 && (v1
        >> 12) & 511 < 512) by (bit_vector);
    assert((v2 >> 39) & 511 < 512 && (v2 >> 30) & 511 < 512 && (v2 >> 21) & 511 < 512 && (v2
        >> 12) & 511 < 512) by (bit_vector);
    assert((v1 >> 39) & 511 == (v2 >> 39) & 511);
    assert((v1 >> 30) & 511 == (v2 >> 30) & 511);
    assert((v1 >> 21) & 511 == (v2 >> 21) & 511);
    assert((v1 >> 12) & 511 == (v2 >> 12) & 511);
    assert(v1 % 4096 == 0 && v2 % 4096 == 0 && v1 >> 48 == 0 && v2 >> 48 == 0 && (v1 >> 39) & 511
        == (v2 >> 39) & 511 && (v1 >> 30) & 511 == (v2 >> 30) & 511 && (v1 >> 21) & 511 == (v2
        >> 21) & 511 && (v1 >> 12) & 511 == (v2 >> 12) & 511 ==> v1 == v2) by (bit_vector);
}

/// Two multiples of the page size in order are a whole page apart.
proof fn lemma_page_step(a: int, b: int)
    requires
        a % 4096 == 0,
        b % 4096 == 0,
        a < b,
    ensures
        a + 4096 <= b,
{
    vstd::arithmetic::div_mod::lemma_fundamental_div_mod(a, 4096);
    vstd::arithmetic::div_mod::lemma_fundamental_div_mod(b, 4096);
    let qa = a / 4096;
    let qb = b / 4096;
    assert(qa < qb) by (nonlinear_arith)
        requires
            4096 * qa < 4096 * qb,
    ;
    assert(a + 4096 <= b) by (nonlinear_arith)
        requires
            a == 4096 * qa,
            b == 4096 * qb,
            qa + 1 <= qb,
    ;
}

/// For a page-aligned `v` and `sp` the page the region starts in, the
/// page at `v` meets the region exactly when `v` lies between `sp` and
/// the region's end.
proof fn lemma_page_meets(iv: Interval, sp: u64, v: u64)
    requires
        v % PAGE_SIZE == 0,
        sp % PAGE_SIZE == 0,
        sp <= iv.start < sp + PAGE_SIZE,
        iv.length > 0,
    ensures
        (iv.start < v + PAGE_SIZE && v < iv.start + iv.length) <==> (sp <= v && v < iv.start
            + iv.length),
{
    if iv.start < v + PAGE_SIZE && v < iv.start + iv.length {
        if v < sp {
            lemma_page_step(v as int, sp as int);
        }
    }
}

impl PagingContext {
    /// Create a [`PagingContext`] that identity-maps every page the
    /// given regions touch, so that virtual equals physical throughout
    /// them once the context is installed. The kernel heap lies in
    /// such a region: that is what lets the allocator hand out
    /// identity-mapped addresses. The regions must lie inside the
    /// canonical 48-bit space.
    pub fn new_with_identity<const N: usize>(identity: &IntervalList<N>) -> (r: PagingContext)
        requires
            forall|k: int|
                0 <= k < identity@.len() ==> (#[trigger] identity@[k]).start + identity@[k].length
                    <= 0x1_0000_0000_0000,
        ensures
            r.wf(),
            forall|v: u64|
                v % PAGE_SIZE == 0 && v >> 48 == 0 ==> #[trigger] r.find_path(parsed_indices(v))
                    == (if page_covered(identity@, v) {
                    Some(v)
                } else {
                    None
                }),
    {
        let mut context = PagingContext::new();
        let n = identity.len();
        let mut k: usize = 0;
        while k < n
            invariant
                context.wf(),
                n == identity@.len(),
                0 <= k <= n,
                forall|j: int|
                    0 <= j < n ==> (#[trigger] identity@[j]).start + identity@[j].length
                        <= 0x1_0000_0000_0000,
                forall|v: u64|
                    v % PAGE_SIZE == 0 && v >> 48 == 0 ==> #[trigger] context.find_path(
                        parsed_indices(v),
                    ) == (if page_covered(identity@.subrange(0, k as int), v) {
                        Some(v)
                    } else {
                        None
                    }),
            decreases n - k,
        {
            let iv = identity.get(k);
            if iv.length > 0 {
                map_region(&mut context, iv);
            }
            proof {
                let pre_cov = identity@.subrange(0, k as int);
                let post_cov = identity@.subrange(0, k + 1 as int);
                assert(post_cov[k as int] == identity@[k as int]);
                assert(forall|j: int| 0 <= j < k ==> post_cov[j] == #[trigger] pre_cov[j]);
                assert forall|v: u64|
                    v % PAGE_SIZE == 0 && v >> 48 == 0 implies #[trigger] context.find_path(
                    parsed_indices(v),
                ) == (if page_covered(post_cov, v) {
                    Some(v)
                } else {
                    None
                }) by {
                    if page_covered(post_cov, v) {
                        let j = choose|j: int|
                            0 <= j < post_cov.len() && (#[trigger] post_cov[j]).length > 0
                                && post_cov[j].start < v + PAGE_SIZE && v < post_cov[j].start
                                + post_cov[j].length;
                        if j < k {
                            assert(page_covered(pre_cov, v));
                        }
                    }
                    if page_covered(pre_cov, v) {
                        let j = choose|j: int|
                            0 <= j < pre_cov.len() && (#[trigger] pre_cov[j]).length > 0
                                && pre_cov[j].start < v + PAGE_SIZE && v < pre_cov[j].start
                                + pre_cov[j].length;
                        assert(post_cov[j] == pre_cov[j]);
                        assert(page_covered(post_cov, v));
                    }
                }
            }
            k = k + 1;
        }
        proof {
            assert(identity@.subrange(0, n as int) =~= identity@);
        }
        context
    }
}

/// Identity-map every page one nonempty region touches, leaving every
/// other mapping alone.
fn map_region(context: &mut PagingContext, iv: Interval)
    requires
        old(context).wf(),
        iv.length > 0,
        iv.start + iv.length <= 0x1_0000_0000_0000,
        forall|v: u64|
            v % PAGE_SIZE == 0 && v >> 48 == 0 && (#[trigger] old(context).find_path(
                parsed_indices(v),
            )) is Some ==> old(context).find_path(parsed_indices(v)) == Some(v),
    ensures
        final(context).wf(),
        forall|v: u64|
            v % PAGE_SIZE == 0 && v >> 48 == 0 ==> #[trigger] final(context).find_path(
                parsed_indices(v),
            ) == (if iv.start < v + PAGE_SIZE && v < iv.start + iv.length {
                Some(v)
            } else {
                old(context).find_path(parsed_indices(v))
            }),
{
    let start_page = iv.start / PAGE_SIZE * PAGE_SIZE;
    let end = iv.start + iv.length;
    proof {
        vstd::arithmetic::div_mod::lemma_fundamental_div_mod(iv.start as int, 4096);
        assert((iv.start / PAGE_SIZE * PAGE_SIZE) as int == 4096 * (iv.start as int / 4096))
            by (nonlinear_arith)
            requires
                PAGE_SIZE == 4096,
        ;
        vstd::arithmetic::div_mod::lemma_mod_multiples_basic(iv.start as int / 4096, 4096);
        assert((iv.start as int / 4096) * 4096 == 4096 * (iv.start as int / 4096))
            by (nonlinear_arith);
    }
    let mut addr = start_page;
    while addr < end
        invariant
            context.wf(),
            iv.length > 0,
            iv.start + iv.length <= 0x1_0000_0000_0000,
            end == iv.start + iv.length,
            start_page % PAGE_SIZE == 0,
            start_page <= iv.start < start_page + PAGE_SIZE,
            addr % PAGE_SIZE == 0,
            start_page <= addr,
            addr < end + PAGE_SIZE,
            forall|v: u64|
                v % PAGE_SIZE == 0 && v >> 48 == 0 && (#[trigger] old(context).find_path(
                    parsed_indices(v),
                )) is Some ==> old(context).find_path(parsed_indices(v)) == Some(v),
            forall|v: u64|
                v % PAGE_SIZE == 0 && v >> 48 == 0 ==> #[trigger] context.find_path(
                    parsed_indices(v),
                ) == (if start_page <= v && v < addr {
                    Some(v)
                } else {
                    old(context).find_path(parsed_indices(v))
                }),
        decreases end + PAGE_SIZE - addr,
    {
        proof {
            assert(addr < 0x1_0000_0000_0000);
            assert(addr % 4096 == 0 && addr < 0x1_0000_0000_0000 ==> addr >> 48 == 0)
                by (bit_vector);
        }
        let already = context.find(addr);
        if already.is_none() {
            let inserted = context.insert(addr, addr);
            proof {
                assert(inserted is Ok);
            }
        } else {
            proof {
                assert(context.find_path(parsed_indices(addr)) == Some(addr));
            }
        }
        proof {
            let snap = *context;
            assert forall|v: u64|
                v % PAGE_SIZE == 0 && v >> 48 == 0 implies #[trigger] snap.find_path(
                parsed_indices(v),
            ) == (if start_page <= v && v < addr + PAGE_SIZE {
                Some(v)
            } else {
                old(context).find_path(parsed_indices(v))
            }) by {
                if v == addr {
                    assert(snap.find_path(parsed_indices(addr)) == Some(addr));
                } else {
                    assert(parsed_indices(v) != parsed_indices(addr)) by {
                        if parsed_indices(v) == parsed_indices(addr) {
                            lemma_parsed_injective(v, addr);
                        }
                    }
                    if start_page <= v && v < addr + PAGE_SIZE {
                        if !(v < addr) {
                            lemma_page_step(addr as int, v as int);
                        }
                    }
                }
            }
        }
        addr = addr + PAGE_SIZE;
    }
    proof {
        // Pages at or past the loop's end never meet the region, and
        // pages before the start page never do either.
        assert forall|v: u64|
            v % PAGE_SIZE == 0 && v >> 48 == 0 implies #[trigger] final(context).find_path(
            parsed_indices(v),
        ) == (if iv.start < v + PAGE_SIZE && v < iv.start + iv.length {
            Some(v)
        } else {
            old(context).find_path(parsed_indices(v))
        }) by {
            lemma_page_meets(iv, start_page, v);
            if start_page <= v && v < addr {
                if !(v < end) {
                    lemma_page_step(v as int, addr as int);
                    assert(false);
                }
            } else {
                if iv.start < v + PAGE_SIZE && v < end {
                    assert(start_page <= v);
                    assert(v < addr);
                }
            }
        }
    }
}

/// Read the descriptor word stored for a path: the table blob's word
/// where the path is mapped, zero where it is not.
fn node_descriptor(n: &PageDirTab, idx: [usize; 4], level: usize) -> (r: u64)
    requires
        level <= 3,
        forall|i: int| 0 <= i < 4 ==> idx@[i] < 512,
        node_wf(*n, (3 - level) as nat),
    ensures
        r == match node_find(*n, idx@.subrange(level as int, 4)) {
            Some(p) => pte_bits(p),
            None => 0,
        },
    decreases 4 - level,
{
    let ghost path = idx@.subrange(level as int, 4);
    match n {
        PageDirTab::Table(t) => {
            proof {
                assert(path.len() == 1 && path[0] == idx@[3]);
            }
            t.blob[idx[3]]
        },
        PageDirTab::Directory(d) => {
            let i = idx[level];
            proof {
                assert(path.len() >= 2 && path[0] == idx@[level as int]);
            }
            match &d.map[i] {
                None => 0,
                Some(c) => {
                    proof {
                        assert(path.drop_first() =~= idx@.subrange(level + 1, 4));
                    }
                    node_descriptor(c, idx, level + 1)
                },
            }
        },
    }
}

/// 512 empty next-level links.
fn empty_links() -> (r: Vec<Option<PageDirTab>>)
    ensures
        r@.len() == 512,
        forall|i: int| 0 <= i < 512 ==> (#[trigger] r@[i]) is None,
        num_linked(r@) == 0,
{
    let mut v: Vec<Option<PageDirTab>> = Vec::new();
    let mut i: usize = 0;
    while i < 512
        invariant
            0 <= i <= 512,
            v@.len() == i,
            forall|j: int| 0 <= j < i ==> (#[trigger] v@[j]) is None,
            num_linked(v@) == 0,
        decreases 512 - i,
    {
        let ghost pre = v@;
        v.push(None);
        proof {
            assert(v@.drop_last() =~= pre);
        }
        i = i + 1;
    }
    v
}

/// 512 empty page mappings.
fn empty_pages() -> (r: Vec<Option<u64>>)
    ensures
        r@.len() == 512,
        forall|i: int| 0 <= i < 512 ==> (#[trigger] r@[i]) is None,
        num_mapped(r@) == 0,
{
    let mut v: Vec<Option<u64>> = Vec::new();
    let mut i: usize = 0;
    while i < 512
        invariant
            0 <= i <= 512,
            v@.len() == i,
            forall|j: int| 0 <= j < i ==> (#[trigger] v@[j]) is None,
            num_mapped(v@) == 0,
        decreases 512 - i,
    {
        let ghost pre = v@;
        v.push(None);
        proof {
            assert(v@.drop_last() =~= pre);
        }
        i = i + 1;
    }
    v
}

/// A 512-entry descriptor blob, zeroed; the processor-readable entries
/// are computed when the context is installed.
fn zero_blob() -> (r: Vec<u64>)
    ensures
        r@.len() == 512,
        forall|i: int| 0 <= i < 512 ==> (#[trigger] r@[i]) == 0,
{
    let mut v: Vec<u64> = Vec::new();
    let mut i: usize = 0;
    while i < 512
        invariant
            0 <= i <= 512,
            v@.len() == i,
            forall|j: int| 0 <= j < i ==> (#[trigger] v@[j]) == 0,
        decreases 512 - i,
    {
        v.push(0);
        i = i + 1;
    }
    v
}

} // verus!
