//! The kernel memory allocation context: a slab allocator. Each
//! power-of-two size class owns a free stack of cache entries and a
//! list of allocated entries; fresh slabs are carved from a
//! monotonically increasing cursor into the kernel heap.

use vstd::arithmetic::power2::pow2;
use vstd::prelude::*;

use crate::collections::static_list::StaticList;
use crate::collections::static_list::StaticListRef;
use crate::collections::static_stack::StaticStack;
use crate::util::static_map::StaticMap;

verus! {

/// The flat error every allocation failure turns into.
#[derive(Debug, PartialEq, Eq, Structural)]
pub struct AllocErr;

/// The value entry in the mapping of allocated addresses.
struct MapEntry {
    // The size class of the allocation.
    cache_index: usize,
    // The reference to the entry in the cache's allocated list.
    cache_entry: StaticListRef,
}

/// A cache entry: the byte address of a single slot within some slab.
/// The kernel heap is identity mapped, so the physical address is also
/// the virtual address handed out.
struct CacheEntry {
    phy_addr: u64,
}

/// A cache keeps the free and the allocated entries of one size class.
struct Cache {
    // Free entries in the cache.
    free_entries: StaticStack<CacheEntry>,
    // Allocated entries in the cache.
    allocated_entries: StaticList<CacheEntry>,
}

/// The bytes the free entries of the first `n` classes stand for.
spec fn free_bytes_to(caches: Seq<Cache>, n: int) -> int
    decreases n,
{
    if n <= 0 {
        0
    } else {
        free_bytes_to(caches, n - 1) + caches[n - 1].free_entries@.len() * pow2((n - 1) as nat)
    }
}

/// The bytes the allocated entries of the first `n` classes stand for.
spec fn alloc_bytes_to(caches: Seq<Cache>, n: int) -> int
    decreases n,
{
    if n <= 0 {
        0
    } else {
        alloc_bytes_to(caches, n - 1) + caches[n - 1].allocated_entries.len_spec() * pow2(
            (n - 1) as nat,
        )
    }
}

/// How many entries the allocated lists of the first `n` classes hold.
spec fn alloc_count_to(caches: Seq<Cache>, n: int) -> int
    decreases n,
{
    if n <= 0 {
        0
    } else {
        alloc_count_to(caches, n - 1) + caches[n - 1].allocated_entries.len_spec()
    }
}

/// The three sums are nonnegative, and entries weigh at least one byte.
proof fn lemma_sums_nonneg(caches: Seq<Cache>, n: int)
    requires
        n <= caches.len(),
        forall|c: int| 0 <= c < n ==> (#[trigger] caches[c].allocated_entries).len_spec() >= 0,
    ensures
        free_bytes_to(caches, n) >= 0,
        alloc_bytes_to(caches, n) >= 0,
        alloc_count_to(caches, n) >= 0,
        alloc_count_to(caches, n) <= alloc_bytes_to(caches, n),
    decreases n,
{
    if n > 0 {
        lemma_sums_nonneg(caches, n - 1);
        vstd::arithmetic::power2::lemma_pow2_pos((n - 1) as nat);
        let fl = caches[n - 1].free_entries@.len() as int;
        let all = caches[n - 1].allocated_entries.len_spec();
        let p = pow2((n - 1) as nat) as int;
        assert(fl * p >= 0) by (nonlinear_arith)
            requires
                fl >= 0,
                p >= 1,
        ;
        assert(all * p >= all) by (nonlinear_arith)
            requires
                all >= 0,
                p >= 1,
        ;
    }
}

/// Changing one class's cache changes each sum by that class's own
/// difference.
proof fn lemma_sums_update(caches: Seq<Cache>, c: int, v: Cache, n: int)
    requires
        0 <= c < caches.len(),
        n <= caches.len(),
    ensures
        free_bytes_to(caches.update(c, v), n) == free_bytes_to(caches, n) + (if c < n {
            (v.free_entries@.len() - caches[c].free_entries@.len()) * pow2(c as nat)
        } else {
            0
        }),
        alloc_bytes_to(caches.update(c, v), n) == alloc_bytes_to(caches, n) + (if c < n {
            (v.allocated_entries.len_spec() - caches[c].allocated_entries.len_spec()) * pow2(
                c as nat,
            )
        } else {
            0
        }),
        alloc_count_to(caches.update(c, v), n) == alloc_count_to(caches, n) + (if c < n {
            v.allocated_entries.len_spec() - caches[c].allocated_entries.len_spec()
        } else {
            0
        }),
    decreases n,
{
    if n > 0 {
        lemma_sums_update(caches, c, v, n - 1);
        if c == n - 1 {
            let a = v.free_entries@.len() as int;
            let b = caches[c].free_entries@.len() as int;
            let p = pow2(c as nat) as int;
            assert(a * p - b * p == (a - b) * p) by (nonlinear_arith);
            let a2 = v.allocated_entries.len_spec();
            let b2 = caches[c].allocated_entries.len_spec();
            assert(a2 * p - b2 * p == (a2 - b2) * p) by (nonlinear_arith);
        }
    }
}

/// One class's free bytes are no more than all free bytes together.
proof fn lemma_free_bytes_part(caches: Seq<Cache>, c: int, n: int)
    requires
        0 <= c < n <= caches.len(),
    ensures
        caches[c].free_entries@.len() * pow2(c as nat) <= free_bytes_to(caches, n),
    decreases n,
{
    lemma_sums_nonneg_free(caches, c, n);
}

/// Helper induction for [`lemma_free_bytes_part`].
proof fn lemma_sums_nonneg_free(caches: Seq<Cache>, c: int, n: int)
    requires
        0 <= c < n <= caches.len(),
    ensures
        caches[c].free_entries@.len() * pow2(c as nat) <= free_bytes_to(caches, n),
    decreases n,
{
    vstd::arithmetic::power2::lemma_pow2_pos((n - 1) as nat);
    let fl = caches[n - 1].free_entries@.len() as int;
    let p = pow2((n - 1) as nat) as int;
    assert(fl * p >= 0) by (nonlinear_arith)
        requires
            fl >= 0,
            p >= 1,
    ;
    if c < n - 1 {
        lemma_sums_nonneg_free(caches, c, n - 1);
    } else {
        lemma_free_to_nonneg(caches, n - 1);
    }
}

/// Free bytes of a prefix are nonnegative.
proof fn lemma_free_to_nonneg(caches: Seq<Cache>, n: int)
    requires
        n <= caches.len(),
    ensures
        free_bytes_to(caches, n) >= 0,
    decreases n,
{
    if n > 0 {
        lemma_free_to_nonneg(caches, n - 1);
        vstd::arithmetic::power2::lemma_pow2_pos((n - 1) as nat);
        let fl = caches[n - 1].free_entries@.len() as int;
        let p = pow2((n - 1) as nat) as int;
        assert(fl * p >= 0) by (nonlinear_arith)
            requires
                fl >= 0,
                p >= 1,
        ;
    }
}

/// This structure holds everything the kernel needs to know for kernel
/// memory allocation.
pub struct AllocContext {
    // The mapping between addresses and cache entries.
    addr_map: StaticMap<u64, MapEntry>,
    // One cache per power-of-two size class.
    caches: Vec<Cache>,
    // The next slab address that can be carved. This cursor only ever
    // increases: slabs are never given back.
    next_slab_addr: u64,
    // The kernel heap, as a half-open range of byte addresses.
    heap_start: u64,
    heap_end: u64,
    // The slab size, a power of two, and its logarithm.
    slab_size: u64,
    slab_size_log: usize,
    // Which size class each carved slab belongs to.
    slab_owner: Ghost<Map<int, int>>,
}

impl AllocContext {
    /// The number of size classes: one per power of two up to the slab
    /// size.
    pub closed spec fn num_caches(&self) -> int {
        self.slab_size_log + 1
    }

    /// The heap start, as contracts speak of it.
    pub closed spec fn heap_start_spec(&self) -> u64 {
        self.heap_start
    }

    /// The heap end.
    pub closed spec fn heap_end_spec(&self) -> u64 {
        self.heap_end
    }

    /// The carve cursor.
    pub closed spec fn next_slab_spec(&self) -> u64 {
        self.next_slab_addr
    }

    /// The slab size.
    pub closed spec fn slab_size_spec(&self) -> u64 {
        self.slab_size
    }

    /// Whether the allocator currently has an allocation at `a`.
    pub closed spec fn live(&self, a: u64) -> bool {
        self.addr_map.has_key(a)
    }

    /// The size class of the live allocation at `a`.
    pub closed spec fn class_of_live(&self, a: u64) -> int {
        self.addr_map.lookup(a).cache_index as int
    }

    /// The byte size of size class `c`.
    pub open spec fn class_size(c: int) -> int {
        pow2(c as nat) as int
    }

    /// The free stack of class `c`, as the addresses it holds.
    pub closed spec fn free_seq(&self, c: int) -> Seq<u64> {
        self.caches@[c].free_entries@.map(|i: int, e: CacheEntry| e.phy_addr)
    }

    /// The slab an address was carved from.
    spec fn slab_idx(&self, a: u64) -> int {
        (a - self.heap_start) / (self.slab_size as int)
    }

    /// What holds of every cache entry of class `c`, free or allocated:
    /// it lies in the carved heap, aligned to its class, and its slab
    /// belongs to its class.
    spec fn entry_ok(&self, a: u64, c: int) -> bool {
        &&& self.heap_start <= a
        &&& a + Self::class_size(c) <= self.next_slab_addr
        &&& (a as int) % Self::class_size(c) == 0
        &&& self.slab_owner@[self.slab_idx(a)] == c
    }

    /// Well-formedness of the whole allocation context.
    pub closed spec fn wf(&self) -> bool {
        let nc = self.num_caches();
        let heap_size = self.heap_end - self.heap_start;
        &&& self.caches@.len() == nc
        &&& self.slab_size as int == Self::class_size(self.slab_size_log as int)
        &&& self.slab_size_log <= 32
        &&& self.heap_start <= self.next_slab_addr <= self.heap_end
        &&& (self.heap_start as int) % (self.slab_size as int) == 0
        &&& (self.heap_end as int) % (self.slab_size as int) == 0
        &&& (self.next_slab_addr as int) % (self.slab_size as int) == 0
        &&& heap_size <= usize::MAX - 1
        &&& self.addr_map.wfc()
        &&& self.addr_map.cap() == heap_size + 1
        &&& forall|c: int|
            0 <= c < nc ==> (#[trigger] self.caches@[c].free_entries).cap() == heap_size as usize
        &&& forall|c: int|
            0 <= c < nc ==> (#[trigger] self.caches@[c].allocated_entries).cap()
                == heap_size as int
        &&& forall|c: int| 0 <= c < nc ==> (#[trigger] self.caches@[c].allocated_entries).wf()
        &&& forall|c: int|
            0 <= c < nc ==> (#[trigger] self.caches@[c].allocated_entries).brand_spec() == c
        &&& self.addr_map.len_spec() == alloc_count_to(self.caches@, nc)
        &&& alloc_bytes_to(self.caches@, nc) + free_bytes_to(self.caches@, nc)
            == self.next_slab_addr - self.heap_start
        // Every entry is sound for its class.
        &&& forall|c: int, k: int|
            0 <= c < nc && 0 <= k < self.caches@[c].free_entries@.len() ==> self.entry_ok(
                (#[trigger] self.caches@[c].free_entries@[k]).phy_addr,
                c,
            )
        &&& forall|c: int, s: int|
            0 <= c < nc && (#[trigger] self.caches@[c].allocated_entries.occ(s)) ==> self.entry_ok(
                self.caches@[c].allocated_entries.item_at(s).phy_addr,
                c,
            )
        // Within a class, all entry addresses are distinct.
        &&& forall|c: int, k1: int, k2: int|
            0 <= c < nc && 0 <= k1 < k2 < self.caches@[c].free_entries@.len() ==> (
            #[trigger] self.caches@[c].free_entries@[k1]).phy_addr != (
            #[trigger] self.caches@[c].free_entries@[k2]).phy_addr
        &&& forall|c: int, s1: int, s2: int|
            0 <= c < nc && s1 != s2 && (#[trigger] self.caches@[c].allocated_entries.occ(s1)) && (
            #[trigger] self.caches@[c].allocated_entries.occ(s2))
                ==> self.caches@[c].allocated_entries.item_at(s1).phy_addr
                != self.caches@[c].allocated_entries.item_at(s2).phy_addr
        &&& forall|c: int, k: int, s: int|
            0 <= c < nc && 0 <= k < self.caches@[c].free_entries@.len() && (
            #[trigger] self.caches@[c].allocated_entries.occ(s)) ==> (
            #[trigger] self.caches@[c].free_entries@[k]).phy_addr
                != self.caches@[c].allocated_entries.item_at(s).phy_addr
        // The address map and the allocated lists agree.
        &&& forall|a: u64|
            #[trigger] self.addr_map.has_key(a) ==> {
                let e = self.addr_map.lookup(a);
                &&& 0 <= e.cache_index < nc
                &&& self.caches@[e.cache_index as int].allocated_entries.occ(
                    e.cache_entry.index_spec(),
                )
                &&& self.caches@[e.cache_index as int].allocated_entries.item_at(
                    e.cache_entry.index_spec(),
                ).phy_addr == a
                &&& e.cache_entry.brand_spec() == e.cache_index as int
            }
        &&& forall|c: int, s: int|
            0 <= c < nc && (#[trigger] self.caches@[c].allocated_entries.occ(s)) ==> {
                let a = self.caches@[c].allocated_entries.item_at(s).phy_addr;
                &&& self.addr_map.has_key(a)
                &&& self.addr_map.lookup(a).cache_index == c
                &&& self.addr_map.lookup(a).cache_entry.index_spec() == s
            }
    }

    /// Create an empty allocation context for the given heap. The heap
    /// bounds must be aligned to the slab size, which is two to
    /// `slab_size_log`.
    pub fn new(heap_start: u64, heap_end: u64, slab_size_log: usize) -> (r: AllocContext)
        requires
            heap_start <= heap_end,
            heap_end - heap_start <= usize::MAX - 1,
            slab_size_log <= 32,
            (heap_start as int) % Self::class_size(slab_size_log as int) == 0,
            (heap_end as int) % Self::class_size(slab_size_log as int) == 0,
        ensures
            r.wf(),
            r.heap_start_spec() == heap_start,
            r.heap_end_spec() == heap_end,
            r.next_slab_spec() == heap_start,
            r.slab_size_spec() as int == Self::class_size(slab_size_log as int),
            forall|a: u64| !r.live(a),
            forall|c: int| 0 <= c < r.num_caches() ==> r.free_seq(c) == Seq::<u64>::empty(),
    {
        let heap_size = (heap_end - heap_start) as usize;
        let num_caches = slab_size_log + 1;
        let slab_size: u64 = 1u64 << (slab_size_log as u64);
        proof {
            vstd::arithmetic::power2::lemma_pow2_pos(slab_size_log as nat);
            vstd::bits::lemma_u64_pow2_no_overflow(slab_size_log as nat);
            vstd::bits::lemma_u64_shl_is_mul(1u64, slab_size_log as u64);
        }
        let mut caches: Vec<Cache> = Vec::new();
        let mut i: usize = 0;
        while i < num_caches
            invariant
                0 <= i <= num_caches,
                caches@.len() == i,
                forall|c: int|
                    0 <= c < i ==> (#[trigger] caches@[c].free_entries)@ == Seq::<
                        CacheEntry,
                    >::empty(),
                forall|c: int|
                    0 <= c < i ==> (#[trigger] caches@[c].free_entries).cap() == heap_size,
                forall|c: int|
                    0 <= c < i ==> (#[trigger] caches@[c].allocated_entries).cap() == heap_size,
                forall|c: int|
                    0 <= c < i ==> (#[trigger] caches@[c].allocated_entries).wf() && caches@[
                    c].allocated_entries.len_spec() == 0 && caches@[
                    c].allocated_entries.brand_spec() == c,
                forall|c: int, s: int|
                    0 <= c < i ==> !(#[trigger] caches@[c].allocated_entries.occ(s)),
                free_bytes_to(caches@, i as int) == 0,
                alloc_bytes_to(caches@, i as int) == 0,
                alloc_count_to(caches@, i as int) == 0,
            decreases num_caches - i,
        {
            let ghost pre = caches@;
            let cache = Cache {
                free_entries: StaticStack::new(heap_size),
                allocated_entries: StaticList::with_brand(heap_size, Ghost(i as int)),
            };
            caches.push(cache);
            proof {
                assert(caches@ =~= pre.push(cache));
                lemma_sums_prefix(pre, caches@, i as int);
                vstd::arithmetic::power2::lemma_pow2_pos(i as nat);
            }
            i = i + 1;
        }
        let r = AllocContext {
            addr_map: StaticMap::new(heap_size + 1),
            caches,
            next_slab_addr: heap_start,
            heap_start,
            heap_end,
            slab_size,
            slab_size_log,
            slab_owner: Ghost(Map::empty()),
        };
        proof {
            assert forall|a: u64| !r.live(a) by {}
            assert forall|c: int| 0 <= c < r.num_caches() implies r.free_seq(c) == Seq::<
                u64,
            >::empty() by {
                assert(r.free_seq(c) =~= Seq::<u64>::empty());
            }
        }
        r
    }

    /// The size a request with this size and alignment must be served
    /// with: the larger of the two.
    pub open spec fn req_size(size: usize, align: usize) -> int {
        if size > align {
            size as int
        } else {
            align as int
        }
    }

    /// The least size class whose cells hold `sz` bytes.
    pub open spec fn class_of(sz: int) -> int
        decreases sz,
    {
        if sz <= 1 {
            0
        } else {
            1 + Self::class_of((sz + 1) / 2)
        }
    }

    /// `class_of` gives the least class that fits.
    pub proof fn lemma_class_of(sz: int)
        requires
            sz >= 1,
        ensures
            Self::class_of(sz) >= 0,
            Self::class_size(Self::class_of(sz)) >= sz,
            Self::class_of(sz) > 0 ==> Self::class_size(Self::class_of(sz) - 1) < sz,
        decreases sz,
    {
        assert(Self::class_size(0) == 1) by {
            vstd::arithmetic::power2::lemma2_to64();
        }
        if sz > 1 {
            let half = (sz + 1) / 2;
            assert(1 <= half < sz) by (nonlinear_arith)
                requires
                    half == (sz + 1) / 2,
                    sz >= 2,
            ;
            Self::lemma_class_of(half);
            let c = Self::class_of(half);
            vstd::arithmetic::power2::lemma_pow2_adds(c as nat, 1);
            assert(pow2(1) == 2) by {
                vstd::arithmetic::power2::lemma2_to64();
            }
            assert(Self::class_size(c + 1) == Self::class_size(c) * 2);
            assert(Self::class_size(c) * 2 >= sz) by (nonlinear_arith)
                requires
                    Self::class_size(c) >= half,
                    half == (sz + 1) / 2,
                    sz >= 2,
            ;
            assert(Self::class_size(Self::class_of(sz)) >= sz);
            if c == 0 {
                assert(Self::class_size(0) == 1) by {
                    vstd::arithmetic::power2::lemma2_to64();
                }
            } else {
                vstd::arithmetic::power2::lemma_pow2_adds((c - 1) as nat, 1);
                assert(Self::class_size(c) == Self::class_size(c - 1) * 2);
                assert(Self::class_size(c - 1) < half);
                assert(Self::class_size(c - 1) * 2 <= (half - 1) * 2) by (nonlinear_arith)
                    requires
                        Self::class_size(c - 1) <= half - 1,
                ;
                assert((half - 1) * 2 < sz) by (nonlinear_arith)
                    requires
                        half == (sz + 1) / 2,
                        sz >= 2,
                ;
            }
        }
    }

    /// Two characterizations of the least fitting class agree.
    pub proof fn lemma_class_unique(sz: int, c: int)
        requires
            sz >= 1,
            c >= 0,
            Self::class_size(c) >= sz,
            c > 0 ==> Self::class_size(c - 1) < sz,
        ensures
            c == Self::class_of(sz),
    {
        Self::lemma_class_of(sz);
        let c2 = Self::class_of(sz);
        if c < c2 {
            if c < c2 - 1 {
                vstd::arithmetic::power2::lemma_pow2_strictly_increases(c as nat, (c2 - 1) as nat);
            }
            assert(Self::class_size(c) <= Self::class_size(c2 - 1));
            assert(false);
        }
        if c > c2 {
            if c2 < c - 1 {
                vstd::arithmetic::power2::lemma_pow2_strictly_increases(c2 as nat, (c - 1) as nat);
            }
            assert(Self::class_size(c2) <= Self::class_size(c - 1));
            assert(false);
        }
    }

    /// Allocate kernel memory: `size` bytes aligned to `align`. The
    /// request is rounded up to the next power-of-two size class; a
    /// request beyond the slab size fails, and so does one whose class
    /// has no free entry left when the heap is exhausted.
    #[verifier::rlimit(50)]
    #[verifier::spinoff_prover]
    pub fn allocate(&mut self, size: usize, align: usize) -> (r: Result<u64, AllocErr>)
        requires
            old(self).wf(),
            1 <= align,
            exists|l: int| 0 <= l <= 62 && align as int == Self::class_size(l),
        ensures
            final(self).wf(),
            final(self).heap_start_spec() == old(self).heap_start_spec(),
            final(self).heap_end_spec() == old(self).heap_end_spec(),
            final(self).slab_size_spec() == old(self).slab_size_spec(),
            final(self).next_slab_spec() >= old(self).next_slab_spec(),
            r is Err <==> (Self::req_size(size, align) > old(self).slab_size_spec() || (old(
                self,
            ).free_seq(Self::class_of(Self::req_size(size, align))).len() == 0 && old(
                self,
            ).next_slab_spec() >= old(self).heap_end_spec())),
            r is Err ==> *final(self) == *old(self),
            r matches Ok(addr) ==> ({
                let c = Self::class_of(Self::req_size(size, align));
                let slab = old(self).slab_size_spec() as int;
                &&& addr == if old(self).free_seq(c).len() > 0 {
                    old(self).free_seq(c).last()
                } else {
                    (old(self).next_slab_spec() + slab - Self::class_size(c)) as u64
                }
                &&& final(self).live(addr)
                &&& !old(self).live(addr)
                &&& final(self).class_of_live(addr) == c
                &&& (addr as int) % Self::class_size(c) == 0
                &&& (addr as int) % (align as int) == 0
                &&& old(self).heap_start_spec() <= addr
                &&& addr + Self::class_size(c) <= final(self).next_slab_spec() <= old(
                    self,
                ).heap_end_spec()
                &&& forall|a: u64|
                    a != addr ==> ((#[trigger] final(self).live(a)) == old(self).live(a) && (old(
                        self,
                    ).live(a) ==> final(self).class_of_live(a) == old(self).class_of_live(a)))
                &&& final(self).next_slab_spec() == if old(self).free_seq(c).len() > 0 {
                    old(self).next_slab_spec() as int
                } else {
                    old(self).next_slab_spec() + slab
                }
                &&& final(self).free_seq(c) == if old(self).free_seq(c).len() > 0 {
                    old(self).free_seq(c).drop_last()
                } else {
                    Seq::new((slab / Self::class_size(c) - 1) as nat, |j: int| (old(
                        self,
                    ).next_slab_spec() + j * Self::class_size(c)) as u64)
                }
                &&& forall|c2: int|
                    0 <= c2 < final(self).num_caches() && c2 != c ==> final(self).free_seq(c2)
                        == old(self).free_seq(c2)
            }),
    {
        let sz: u64 = if size > align {
            size as u64
        } else {
            align as u64
        };
        // A request beyond the slab size cannot be served.
        if sz > self.slab_size {
            return Err(AllocErr);
        }
        // Find the least size class that fits.
        let ghost pre = *self;
        let mut cls: usize = 0;
        let mut csize: u64 = 1;
        proof {
            assert(Self::class_size(0) == 1) by {
                vstd::arithmetic::power2::lemma2_to64();
            }
        }
        while csize < sz
            invariant
                *self == pre,
                self.wf(),
                1 <= sz <= self.slab_size,
                0 <= cls <= self.slab_size_log,
                csize as int == Self::class_size(cls as int),
                csize <= self.slab_size,
                cls > 0 ==> Self::class_size(cls as int - 1) < sz,
            decreases self.slab_size_log - cls,
        {
            proof {
                vstd::arithmetic::power2::lemma_pow2_adds(cls as nat, 1);
                assert(pow2(1) == 2) by {
                    vstd::arithmetic::power2::lemma2_to64();
                }
                assert(cls < self.slab_size_log) by {
                    if cls == self.slab_size_log {
                        assert(csize == self.slab_size);
                    }
                    if cls > self.slab_size_log {
                        vstd::arithmetic::power2::lemma_pow2_strictly_increases(
                            self.slab_size_log as nat,
                            cls as nat,
                        );
                    }
                }
                assert(Self::class_size(cls + 1) <= self.slab_size as int) by {
                    if cls + 1 < self.slab_size_log {
                        vstd::arithmetic::power2::lemma_pow2_strictly_increases(
                            (cls + 1) as nat,
                            self.slab_size_log as nat,
                        );
                    }
                }
            }
            csize = csize * 2;
            cls = cls + 1;
        }
        proof {
            Self::lemma_class_unique(sz as int, cls as int);
            assert(cls as int == Self::class_of(Self::req_size(size, align)));
        }

        let free_len = self.caches[cls].free_entries.len();
        // If the class is empty and the heap is exhausted, fail.
        if free_len == 0 && self.next_slab_addr >= self.heap_end {
            return Err(AllocErr);
        }

        if free_len == 0 {
            self.carve_slab(cls, csize);
            proof {
                vstd::arithmetic::power2::lemma_pow2_pos(cls as nat);
                assert(self.free_seq(cls as int).len() == self.slab_size as int / Self::class_size(
                    cls as int,
                ));
                assert(self.slab_size as int / Self::class_size(cls as int) >= 1)
                    by (nonlinear_arith)
                    requires
                        Self::class_size(cls as int) <= self.slab_size as int,
                        Self::class_size(cls as int) >= 1,
                ;
            }
            let ghost mid = *self;
            let result = self.place_entry(cls, csize);
            proof {
                self.lemma_result_aligned(result, cls as int, align);
                let ci = cls as int;
                let cs = Self::class_size(ci);
                let count = pre.slab_size as int / cs;
                assert(count * cs == pre.slab_size as int) by {
                    vstd::arithmetic::power2::lemma_pow2_pos(ci as nat);
                    vstd::arithmetic::div_mod::lemma_mod_multiples_basic(1, pre.slab_size as int);
                    assert(1 * (pre.slab_size as int) == pre.slab_size as int) by (nonlinear_arith);
                    Self::lemma_pow2_divides(
                        pre.slab_size as int,
                        ci as nat,
                        pre.slab_size_log as nat,
                    );
                    vstd::arithmetic::div_mod::lemma_fundamental_div_mod(
                        pre.slab_size as int,
                        cs,
                    );
                    assert(pre.slab_size as int == cs * count);
                    assert(count * cs == cs * count) by (nonlinear_arith);
                }
                assert((count - 1) * cs == pre.slab_size - cs) by (nonlinear_arith)
                    requires
                        count * cs == pre.slab_size as int,
                ;
                assert(result matches Ok(addr) ==> addr == mid.free_seq(ci).last());
                assert(mid.free_seq(ci).last() == (pre.next_slab_addr + (count - 1) * cs) as u64);
                assert(self.free_seq(ci) =~= Seq::new(
                    (count - 1) as nat,
                    |j: int| (pre.next_slab_addr + j * cs) as u64,
                ));
            }
            result
        } else {
            let result = self.place_entry(cls, csize);
            proof {
                self.lemma_result_aligned(result, cls as int, align);
            }
            result
        }
    }

    /// A multiple of a power of two is also a multiple of any smaller
    /// power of two.
    proof fn lemma_pow2_divides(x: int, small: nat, big: nat)
        requires
            small <= big,
            x % (pow2(big) as int) == 0,
        ensures
            x % (pow2(small) as int) == 0,
    {
        vstd::arithmetic::power2::lemma_pow2_adds(small, (big - small) as nat);
        vstd::arithmetic::power2::lemma_pow2_pos(small);
        vstd::arithmetic::power2::lemma_pow2_pos(big);
        vstd::arithmetic::power2::lemma_pow2_pos((big - small) as nat);
        let ps = pow2(small) as int;
        let pb = pow2(big) as int;
        let m = pow2((big - small) as nat) as int;
        vstd::arithmetic::div_mod::lemma_fundamental_div_mod(x, pb);
        let q = x / pb;
        assert(x == pb * q);
        assert(pb * q == (q * m) * ps) by (nonlinear_arith)
            requires
                pb == ps * m,
        ;
        vstd::arithmetic::div_mod::lemma_mod_multiples_basic(q * m, ps);
    }

    /// An address inside the slab that starts at `base` belongs to that
    /// slab: its index is the slab's.
    proof fn lemma_same_slab(hs: int, slab: int, base: int, a: int)
        requires
            slab >= 1,
            hs <= base,
            (base - hs) % slab == 0,
            base <= a < base + slab,
        ensures
            (a - hs) / slab == (base - hs) / slab,
    {
        vstd::arithmetic::div_mod::lemma_fundamental_div_mod(base - hs, slab);
        let q = (base - hs) / slab;
        vstd::arithmetic::div_mod::lemma_fundamental_div_mod_converse_div(
            a - hs,
            slab,
            q,
            a - base,
        );
    }

    /// Two multiples of `m` in order are at least `m` apart.
    proof fn lemma_aligned_step(x: int, y: int, m: int)
        requires
            m >= 1,
            x % m == 0,
            y % m == 0,
            x < y,
        ensures
            x + m <= y,
    {
        vstd::arithmetic::div_mod::lemma_fundamental_div_mod(x, m);
        vstd::arithmetic::div_mod::lemma_fundamental_div_mod(y, m);
        let qx = x / m;
        let qy = y / m;
        assert(qx < qy) by (nonlinear_arith)
            requires
                m * qx < m * qy,
                m >= 1,
        ;
        assert(x + m <= y) by (nonlinear_arith)
            requires
                x == m * qx,
                y == m * qy,
                qx + 1 <= qy,
                m >= 1,
        ;
    }

    /// The difference of two multiples of `m` is a multiple of `m`.
    proof fn lemma_aligned_diff(x: int, y: int, m: int)
        requires
            m >= 1,
            x % m == 0,
            y % m == 0,
        ensures
            (y - x) % m == 0,
    {
        vstd::arithmetic::div_mod::lemma_fundamental_div_mod(x, m);
        vstd::arithmetic::div_mod::lemma_fundamental_div_mod(y, m);
        let qx = x / m;
        let qy = y / m;
        assert(y - x == (qy - qx) * m) by (nonlinear_arith)
            requires
                x == m * qx,
                y == m * qy,
        ;
        vstd::arithmetic::div_mod::lemma_mod_multiples_basic(qy - qx, m);
    }

    /// Entries that end at or before an aligned cursor sit in slabs
    /// strictly before the cursor's.
    proof fn lemma_earlier_slab(hs: int, slab: int, next: int, a: int, size: int)
        requires
            slab >= 1,
            1 <= size,
            hs <= a,
            a + size <= next,
            (next - hs) % slab == 0,
        ensures
            (a - hs) / slab < (next - hs) / slab,
    {
        vstd::arithmetic::div_mod::lemma_fundamental_div_mod(next - hs, slab);
        vstd::arithmetic::div_mod::lemma_fundamental_div_mod(a - hs, slab);
        let qn = (next - hs) / slab;
        let qa = (a - hs) / slab;
        let ra = (a - hs) % slab;
        assert(slab * qa + ra < slab * qn);
        assert(qa < qn) by (nonlinear_arith)
            requires
                slab * qa + ra < slab * qn,
                0 <= ra,
                slab >= 1,
        ;
    }

    /// One class's allocated count is no more than the count over all
    /// classes.
    proof fn lemma_alloc_count_part(caches: Seq<Cache>, c: int, n: int)
        requires
            0 <= c < n <= caches.len(),
            forall|j: int| 0 <= j < n ==> (#[trigger] caches[j].allocated_entries).len_spec() >= 0,
        ensures
            caches[c].allocated_entries.len_spec() <= alloc_count_to(caches, n),
        decreases n,
    {
        if c < n - 1 {
            Self::lemma_alloc_count_part(caches, c, n - 1);
        } else {
            lemma_sums_nonneg(caches, n - 1);
        }
    }

    /// Carve a fresh slab for size class `cls`, filling its free stack
    /// with one entry per cell.
    fn carve_slab(&mut self, cls: usize, csize: u64)
        requires
            old(self).wf(),
            0 <= cls < old(self).num_caches(),
            csize as int == Self::class_size(cls as int),
            old(self).free_seq(cls as int).len() == 0,
            old(self).next_slab_spec() < old(self).heap_end_spec(),
        ensures
            final(self).wf(),
            final(self).heap_start_spec() == old(self).heap_start_spec(),
            final(self).heap_end_spec() == old(self).heap_end_spec(),
            final(self).slab_size_spec() == old(self).slab_size_spec(),
            final(self).num_caches() == old(self).num_caches(),
            final(self).next_slab_spec() == old(self).next_slab_spec() + old(
                self,
            ).slab_size_spec(),
            final(self).free_seq(cls as int) == Seq::new(
                (old(self).slab_size_spec() as int / Self::class_size(cls as int)) as nat,
                |j: int| (old(self).next_slab_spec() + j * Self::class_size(cls as int)) as u64,
            ),
            forall|c2: int|
                0 <= c2 < old(self).num_caches() && c2 != cls ==> final(self).free_seq(c2) == old(
                    self,
                ).free_seq(c2),
            final(self).addr_map == old(self).addr_map,
            forall|c2: int|
                0 <= c2 < old(self).num_caches() ==> (#[trigger] final(self).caches@[
                c2].allocated_entries) == old(self).caches@[c2].allocated_entries,
    {
        let base = self.next_slab_addr;
        let slab = self.slab_size;
        let ghost pre = *self;
        proof {
            // The cell size divides the slab size exactly.
            vstd::arithmetic::power2::lemma_pow2_pos(cls as nat);
            vstd::arithmetic::power2::lemma_pow2_pos(self.slab_size_log as nat);
            assert(cls <= self.slab_size_log) by {
                if cls > self.slab_size_log {
                    vstd::arithmetic::power2::lemma_pow2_strictly_increases(
                        self.slab_size_log as nat,
                        cls as nat,
                    );
                }
            }
            vstd::arithmetic::power2::lemma_pow2_adds(
                cls as nat,
                (self.slab_size_log - cls) as nat,
            );
            let m = pow2((self.slab_size_log - cls) as nat) as int;
            assert(slab as int == csize as int * m);
            assert(slab as int == m * csize as int + 0) by (nonlinear_arith)
                requires
                    slab as int == csize as int * m,
            ;
            vstd::arithmetic::div_mod::lemma_fundamental_div_mod_converse_div(
                slab as int,
                csize as int,
                m,
                0,
            );
            // The whole new slab still fits in the heap.
            Self::lemma_aligned_step(base as int, self.heap_end as int, slab as int);
        }
        let count = slab / csize;
        proof {
            assert(count as int == pow2((self.slab_size_log - cls) as nat) as int);
            assert(count as int * csize as int == slab as int) by (nonlinear_arith)
                requires
                    slab as int == csize as int * (count as int),
            ;
        }
        let mut i: u64 = 0;
        while i < count
            invariant
                0 <= i <= count,
                self.caches@.len() == pre.caches@.len(),
                0 <= cls < self.caches@.len(),
                forall|c2: int|
                    0 <= c2 < self.caches@.len() && c2 != cls ==> (#[trigger] self.caches@[c2])
                        == pre.caches@[c2],
                self.caches@[cls as int].allocated_entries == pre.caches@[
                cls as int].allocated_entries,
                self.caches@[cls as int].free_entries.cap() == pre.caches@[
                cls as int].free_entries.cap(),
                self.caches@[cls as int].free_entries@ =~= Seq::new(
                    i as nat,
                    |j: int| CacheEntry { phy_addr: (base + j * csize as int) as u64 },
                ),
                self.addr_map == pre.addr_map,
                self.next_slab_addr == pre.next_slab_addr,
                self.heap_start == pre.heap_start,
                self.heap_end == pre.heap_end,
                self.slab_size == pre.slab_size,
                self.slab_size_log == pre.slab_size_log,
                self.slab_owner == pre.slab_owner,
                pre.wf(),
                pre.free_seq(cls as int).len() == 0,
                csize as int == Self::class_size(cls as int),
                csize >= 1,
                base == pre.next_slab_addr,
                slab == pre.slab_size,
                count as int == slab as int / csize as int,
                count as int * csize as int == slab as int,
                base + slab <= pre.heap_end,
            decreases count - i,
        {
            proof {
                assert(i as int * csize as int + csize as int <= slab as int) by (nonlinear_arith)
                    requires
                        (i as int) < (count as int),
                        csize >= 1,
                        count as int * csize as int == slab as int,
                ;
                assert(i as int * csize as int >= 0) by (nonlinear_arith)
                    requires
                        i as int >= 0,
                        csize as int >= 1,
                ;
                // The free stack has room: free and allocated bytes never
                // pass the heap size.
                let hsz = pre.heap_end - pre.heap_start;
                assert forall|j: int|
                    0 <= j < pre.num_caches() implies (#[trigger] pre.caches@[
                j].allocated_entries).len_spec() >= 0 by {
                    pre.caches@[j].allocated_entries.lemma_len_nonneg();
                }
                lemma_sums_nonneg(pre.caches@, pre.num_caches());
                assert(self.caches@[cls as int].free_entries@.len() == i);
                assert(i < count);
                assert(count as int <= slab as int) by (nonlinear_arith)
                    requires
                        count as int * csize as int == slab as int,
                        csize as int >= 1,
                        count as int >= 0,
                ;
                assert(slab <= hsz);
            }
            let phy_addr = i * csize + base;
            let push_r = self.caches[cls].free_entries.push(CacheEntry { phy_addr });
            proof {
                assert(push_r is Ok);
                assert(self.caches@[cls as int].free_entries@ =~= Seq::new(
                    (i + 1) as nat,
                    |j: int| CacheEntry { phy_addr: (base + j * csize as int) as u64 },
                )) by {
                    assert(phy_addr as int == base + i as int * csize as int);
                }
            }
            i = i + 1;
        }
        self.next_slab_addr = base + slab;
        let ghost new_slab_idx = (base - pre.heap_start) as int / (slab as int);
        proof {
            self.slab_owner@ = pre.slab_owner@.insert(new_slab_idx, cls as int);
        }
        proof {
            self.lemma_carve_wf(pre, cls as int, csize as int, new_slab_idx);
        }
    }

    /// Well-formedness after carving one slab for class `cls`.
    proof fn lemma_carve_wf(&self, pre: AllocContext, cls: int, csize: int, new_slab_idx: int)
        requires
            pre.wf(),
            0 <= cls < pre.num_caches(),
            csize == Self::class_size(cls),
            pre.free_seq(cls).len() == 0,
            pre.next_slab_addr < pre.heap_end,
            pre.next_slab_addr + pre.slab_size <= pre.heap_end,
            self.caches@.len() == pre.caches@.len(),
            forall|c2: int|
                0 <= c2 < self.caches@.len() && c2 != cls ==> (#[trigger] self.caches@[c2])
                    == pre.caches@[c2],
            self.caches@[cls].allocated_entries == pre.caches@[cls].allocated_entries,
            self.caches@[cls].free_entries.cap() == pre.caches@[cls].free_entries.cap(),
            self.caches@[cls].free_entries@ == Seq::new(
                (pre.slab_size as int / csize) as nat,
                |j: int| CacheEntry { phy_addr: (pre.next_slab_addr + j * csize) as u64 },
            ),
            (pre.slab_size as int / csize) * csize == pre.slab_size as int,
            self.addr_map == pre.addr_map,
            self.next_slab_addr == pre.next_slab_addr + pre.slab_size,
            self.heap_start == pre.heap_start,
            self.heap_end == pre.heap_end,
            self.slab_size == pre.slab_size,
            self.slab_size_log == pre.slab_size_log,
            new_slab_idx == (pre.next_slab_addr - pre.heap_start) as int / (pre.slab_size as int),
            self.slab_owner@ == pre.slab_owner@.insert(new_slab_idx, cls),
        ensures
            self.wf(),
    {
        let nc = self.num_caches();
        let hs = self.heap_start as int;
        let sl = self.slab_size as int;
        let base = pre.next_slab_addr as int;
        vstd::arithmetic::power2::lemma_pow2_pos(cls as nat);
        vstd::arithmetic::power2::lemma_pow2_pos(self.slab_size_log as nat);
        assert(sl >= 1);
        assert(csize >= 1);
        let count = sl / csize;

        // Alignment of the new cursor.
        assert((self.next_slab_addr as int) % sl == 0) by {
            vstd::arithmetic::div_mod::lemma_fundamental_div_mod(base, sl);
            assert(base + sl == (base / sl + 1) * sl + 0) by (nonlinear_arith)
                requires
                    base == sl * (base / sl),
            ;
            vstd::arithmetic::div_mod::lemma_fundamental_div_mod_converse_mod(
                base + sl,
                sl,
                base / sl + 1,
                0,
            );
        }

        // The sums: one slab's worth of free bytes joined.
        let ghost upd = self.caches@;
        assert(upd =~= pre.caches@.update(cls, upd[cls]));
        lemma_sums_update(pre.caches@, cls, upd[cls], nc);
        assert(upd[cls].free_entries@.len() == count);
        assert(pre.caches@[cls].free_entries@.len() == 0);
        assert((count - 0) * csize == count * csize) by (nonlinear_arith);
        assert(free_bytes_to(upd, nc) == free_bytes_to(pre.caches@, nc) + count * csize);
        assert((upd[cls].allocated_entries.len_spec() - pre.caches@[
        cls].allocated_entries.len_spec()) * (pow2(cls as nat) as int) == 0) by (nonlinear_arith)
            requires
                upd[cls].allocated_entries.len_spec() == pre.caches@[
                    cls].allocated_entries.len_spec(),
        ;
        assert(alloc_bytes_to(upd, nc) == alloc_bytes_to(pre.caches@, nc));
        assert(alloc_count_to(upd, nc) == alloc_count_to(pre.caches@, nc));

        // Old entries keep their slabs and owners.
        Self::lemma_aligned_diff(hs, base, sl);
        assert forall|a: u64, c: int|
            0 <= c < nc && pre.entry_ok(a, c) implies self.entry_ok(a, c) by {
            vstd::arithmetic::power2::lemma_pow2_pos(c as nat);
            Self::lemma_earlier_slab(hs, sl, base, a as int, Self::class_size(c));
            assert(self.slab_idx(a) == pre.slab_idx(a));
            assert(pre.slab_idx(a) != new_slab_idx);
            assert(self.slab_owner@[self.slab_idx(a)] == pre.slab_owner@[pre.slab_idx(a)]);
        }

        // New entries are sound for class `cls`.
        assert forall|k: int|
            0 <= k < self.caches@[cls].free_entries@.len() implies self.entry_ok(
            (#[trigger] self.caches@[cls].free_entries@[k]).phy_addr,
            cls,
        ) by {
            let a = base + k * csize;
            assert(self.caches@[cls].free_entries@[k].phy_addr == a as u64);
            assert(0 <= k * csize) by (nonlinear_arith)
                requires
                    k >= 0,
                    csize >= 1,
            ;
            assert(k * csize + csize <= sl) by (nonlinear_arith)
                requires
                    k < count,
                    csize >= 1,
                    count * csize == sl,
            ;
            assert((a as int) % csize == 0) by {
                Self::lemma_pow2_divides(base, cls as nat, self.slab_size_log as nat);
                vstd::arithmetic::div_mod::lemma_fundamental_div_mod(base, csize);
                assert(a == (base / csize + k) * csize + 0) by (nonlinear_arith)
                    requires
                        base == (base / csize) * csize,
                        a == base + k * csize,
                ;
                vstd::arithmetic::div_mod::lemma_fundamental_div_mod_converse_mod(
                    a,
                    csize,
                    base / csize + k,
                    0,
                );
            }
            assert(self.slab_idx(a as u64) == new_slab_idx) by {
                Self::lemma_same_slab(hs, sl, base, a);
            }
        }

        // New entries are pairwise distinct.
        assert forall|k1: int, k2: int|
            0 <= k1 < k2 < self.caches@[cls].free_entries@.len() implies (
        #[trigger] self.caches@[cls].free_entries@[k1]).phy_addr != (
        #[trigger] self.caches@[cls].free_entries@[k2]).phy_addr by {
            assert(k1 * csize < k2 * csize) by (nonlinear_arith)
                requires
                    k1 < k2,
                    csize >= 1,
            ;
            assert(0 <= k1 * csize) by (nonlinear_arith)
                requires
                    k1 >= 0,
                    csize >= 1,
            ;
            assert(k2 * csize + csize <= sl) by (nonlinear_arith)
                requires
                    k2 < count,
                    csize >= 1,
                    count * csize == sl,
            ;
        }

        // New free entries differ from this class's allocated entries,
        // which all end at or before the old cursor.
        assert forall|k: int, s: int|
            0 <= k < self.caches@[cls].free_entries@.len() && (#[trigger] self.caches@[
        cls].allocated_entries.occ(s)) implies (#[trigger] self.caches@[cls].free_entries@[
        k]).phy_addr != self.caches@[cls].allocated_entries.item_at(s).phy_addr by {
            assert(pre.caches@[cls].allocated_entries.occ(s));
            let aa = pre.caches@[cls].allocated_entries.item_at(s).phy_addr;
            assert(pre.entry_ok(aa, cls));
            assert(self.caches@[cls].free_entries@[k].phy_addr == (base + k * csize) as u64);
            assert(0 <= k * csize) by (nonlinear_arith)
                requires
                    k >= 0,
                    csize >= 1,
            ;
            assert(k * csize + csize <= sl) by (nonlinear_arith)
                requires
                    k < count,
                    csize >= 1,
                    count * csize == sl,
            ;
            assert(aa < base);
        }
        assert(self.wf());
    }

    /// Take the top free entry of class `cls`, move it to the allocated
    /// list, and record the address in the map.
    #[verifier::rlimit(50)]
    #[verifier::spinoff_prover]
    fn place_entry(&mut self, cls: usize, csize: u64) -> (r: Result<u64, AllocErr>)
        requires
            old(self).wf(),
            0 <= cls < old(self).num_caches(),
            csize as int == Self::class_size(cls as int),
            old(self).free_seq(cls as int).len() > 0,
        ensures
            final(self).wf(),
            final(self).heap_start_spec() == old(self).heap_start_spec(),
            final(self).heap_end_spec() == old(self).heap_end_spec(),
            final(self).slab_size_spec() == old(self).slab_size_spec(),
            final(self).num_caches() == old(self).num_caches(),
            final(self).next_slab_spec() == old(self).next_slab_spec(),
            r matches Ok(addr) && ({
                let c = cls as int;
                &&& addr == old(self).free_seq(c).last()
                &&& final(self).free_seq(c) == old(self).free_seq(c).drop_last()
                &&& forall|c2: int|
                    0 <= c2 < old(self).num_caches() && c2 != c ==> final(self).free_seq(c2)
                        == old(self).free_seq(c2)
                &&& final(self).live(addr)
                &&& !old(self).live(addr)
                &&& final(self).class_of_live(addr) == c
                &&& (addr as int) % Self::class_size(c) == 0
                &&& old(self).heap_start_spec() <= addr
                &&& addr + Self::class_size(c) <= old(self).next_slab_spec()
                &&& forall|a: u64|
                    a != addr ==> ((#[trigger] final(self).live(a)) == old(self).live(a) && (old(
                        self,
                    ).live(a) ==> final(self).class_of_live(a) == old(self).class_of_live(a)))
            }),
    {
        let ghost pre = *old(self);
        let ghost nc = pre.num_caches();
        let c_int: Ghost<int> = Ghost(cls as int);

        // Take the most recently freed entry of the class.
        let entry = match self.caches[cls].free_entries.pop() {
            Ok(e) => e,
            Err(_) => {
                return Err(AllocErr);
            },
        };
        let addr = entry.phy_addr;
        proof {
            assert(addr == pre.free_seq(cls as int).last());
            assert(pre.entry_ok(addr, cls as int));
            vstd::arithmetic::power2::lemma_pow2_pos(cls as nat);
        }

        // The allocated list has room for it.
        proof {
            let hsz = pre.heap_end - pre.heap_start;
            assert forall|j: int|
                0 <= j < nc implies (#[trigger] pre.caches@[j].allocated_entries).len_spec()
                >= 0 by {
                pre.caches@[j].allocated_entries.lemma_len_nonneg();
            }
            lemma_sums_nonneg(pre.caches@, nc);
            Self::lemma_alloc_count_part(pre.caches@, cls as int, nc);
            lemma_free_bytes_part(pre.caches@, cls as int, nc);
            let fl = pre.caches@[cls as int].free_entries@.len() as int;
            assert(fl >= 1);
            assert(fl * Self::class_size(cls as int) >= Self::class_size(cls as int))
                by (nonlinear_arith)
                requires
                    fl >= 1,
                    Self::class_size(cls as int) >= 1,
            ;
            let ab = alloc_bytes_to(pre.caches@, nc);
            let fb = free_bytes_to(pre.caches@, nc);
            assert(ab + fb == pre.next_slab_addr - pre.heap_start);
            assert(fb >= Self::class_size(cls as int));
            assert(Self::class_size(cls as int) >= 1);
            assert(ab <= hsz - 1);
            assert(pre.caches@[cls as int].allocated_entries.len_spec() <= alloc_count_to(
                pre.caches@,
                nc,
            ));
            assert(pre.caches@[cls as int].allocated_entries.len_spec() <= hsz - 1);
        }
        let ghost mid = *self;
        let list_ref = match self.caches[cls].allocated_entries.push(CacheEntry { phy_addr: addr })
            {
            Ok(rf) => rf,
            Err(_) => {
                return Err(AllocErr);
            },
        };
        let ghost slot = list_ref.index_spec();
        proof {
            assert(list_ref.brand_spec() == cls as int);
        }

        // The address is not live: a live address would be an allocated
        // entry, which free entries never equal.
        proof {
            if pre.addr_map.has_key(addr) {
                let e = pre.addr_map.lookup(addr);
                let c2 = e.cache_index as int;
                let s2 = e.cache_entry.index_spec();
                assert(pre.caches@[c2].allocated_entries.occ(s2));
                assert(pre.entry_ok(addr, c2));
                if c2 == cls as int {
                    assert(pre.caches@[cls as int].free_entries@[pre.free_seq(
                        cls as int,
                    ).len() - 1].phy_addr == addr);
                }
            }
            assert(!pre.addr_map.has_key(addr));
            assert(self.addr_map.len_spec() < self.addr_map.cap());
        }
        match self.addr_map.insert(addr, MapEntry { cache_index: cls, cache_entry: list_ref }) {
            Ok(_) => {},
            Err(_) => {
                proof {
                    assert(false);
                }
                return Err(AllocErr);
            },
        }
        proof {
            let ci = cls as int;
            assert(mid.caches@.len() == pre.caches@.len());
            assert(forall|c2: int|
                0 <= c2 < mid.caches@.len() && c2 != ci ==> (#[trigger] mid.caches@[c2])
                    == pre.caches@[c2]);
            assert(mid.caches@[ci].free_entries@ == pre.caches@[ci].free_entries@.drop_last());
            assert(mid.caches@[ci].allocated_entries == pre.caches@[ci].allocated_entries);
            assert(mid.addr_map == pre.addr_map);
            assert(forall|c2: int|
                0 <= c2 < self.caches@.len() && c2 != ci ==> (#[trigger] self.caches@[c2])
                    == mid.caches@[c2]);
            assert(self.caches@[ci].free_entries == mid.caches@[ci].free_entries);
            assert(self.caches@[ci].allocated_entries.wf());
            assert(self.caches@[ci].allocated_entries.len_spec() == mid.caches@[
            ci].allocated_entries.len_spec() + 1);
            assert(!mid.caches@[ci].allocated_entries.occ(slot));
            assert(self.caches@[ci].allocated_entries.occ(slot));
            assert(self.caches@[ci].allocated_entries.item_at(slot).phy_addr == addr);
            assert(StaticList::<CacheEntry>::same_but(
                mid.caches@[ci].allocated_entries,
                self.caches@[ci].allocated_entries,
                slot,
            ));
            assert(self.addr_map.wfc());
            assert(self.addr_map.len_spec() == mid.addr_map.len_spec() + 1);
            assert(self.addr_map.has_key(addr));
            assert(self.addr_map.lookup(addr).cache_index == cls);
            assert(self.addr_map.lookup(addr).cache_entry.index_spec() == slot);
            assert(self.addr_map.lookup(addr).cache_entry.brand_spec() == cls as int);
            assert(self.caches@[ci].allocated_entries.brand_spec() == pre.caches@[
            ci].allocated_entries.brand_spec());
            assert(StaticMap::<u64, MapEntry>::preserves_others(mid.addr_map, self.addr_map, addr));
            self.lemma_place_wf(pre, mid, cls as int, csize as int, addr, slot);
            assert(self.free_seq(ci) =~= pre.free_seq(ci).drop_last());
            assert(addr == pre.caches@[ci].free_entries@[pre.caches@[
            ci].free_entries@.len() - 1].phy_addr);
            assert(addr == pre.free_seq(ci).last());
            assert forall|c2: int|
                0 <= c2 < pre.num_caches() && c2 != ci implies self.free_seq(c2) == pre.free_seq(
                c2,
            ) by {
                assert(self.caches@[c2] == pre.caches@[c2]);
            }
            assert(self.class_of_live(addr) == ci);
            assert((addr as int) % Self::class_size(ci) == 0);
            assert(pre.heap_start <= addr && addr + Self::class_size(ci) <= pre.next_slab_addr);
        }
        Ok(addr)
    }

    /// Well-formedness after moving one free entry of class `cls` into
    /// the allocated list, at `slot`, and recording it under `addr`.
    proof fn lemma_place_wf(&self, pre: AllocContext, mid: AllocContext, cls: int, csize: int, addr: u64, slot: int)
        requires
            pre.wf(),
            0 <= cls < pre.num_caches(),
            csize == Self::class_size(cls),
            pre.free_seq(cls).len() > 0,
            addr == pre.free_seq(cls).last(),
            !pre.addr_map.has_key(addr),
            // The pop: mid is pre with the class's top free entry gone.
            mid.caches@.len() == pre.caches@.len(),
            forall|c2: int|
                0 <= c2 < mid.caches@.len() && c2 != cls ==> (#[trigger] mid.caches@[c2])
                    == pre.caches@[c2],
            mid.caches@[cls].free_entries@ == pre.caches@[cls].free_entries@.drop_last(),
            mid.caches@[cls].free_entries.cap() == pre.caches@[cls].free_entries.cap(),
            mid.caches@[cls].allocated_entries == pre.caches@[cls].allocated_entries,
            mid.addr_map == pre.addr_map,
            mid.next_slab_addr == pre.next_slab_addr,
            mid.heap_start == pre.heap_start,
            mid.heap_end == pre.heap_end,
            mid.slab_size == pre.slab_size,
            mid.slab_size_log == pre.slab_size_log,
            mid.slab_owner == pre.slab_owner,
            // The push and the map insert.
            self.caches@.len() == mid.caches@.len(),
            forall|c2: int|
                0 <= c2 < self.caches@.len() && c2 != cls ==> (#[trigger] self.caches@[c2])
                    == mid.caches@[c2],
            self.caches@[cls].free_entries == mid.caches@[cls].free_entries,
            self.caches@[cls].allocated_entries.wf(),
            self.caches@[cls].allocated_entries.cap() == mid.caches@[cls].allocated_entries.cap(),
            self.caches@[cls].allocated_entries.len_spec() == mid.caches@[
                cls].allocated_entries.len_spec() + 1,
            !mid.caches@[cls].allocated_entries.occ(slot),
            self.caches@[cls].allocated_entries.occ(slot),
            self.caches@[cls].allocated_entries.item_at(slot).phy_addr == addr,
            StaticList::<CacheEntry>::same_but(
                mid.caches@[cls].allocated_entries,
                self.caches@[cls].allocated_entries,
                slot,
            ),
            self.addr_map.wfc(),
            self.addr_map.cap() == mid.addr_map.cap(),
            self.addr_map.len_spec() == mid.addr_map.len_spec() + 1,
            self.addr_map.has_key(addr),
            self.addr_map.lookup(addr).cache_index == cls as usize,
            self.addr_map.lookup(addr).cache_entry.index_spec() == slot,
            self.addr_map.lookup(addr).cache_entry.brand_spec() == cls,
            self.caches@[cls].allocated_entries.brand_spec() == pre.caches@[
                cls].allocated_entries.brand_spec(),
            StaticMap::<u64, MapEntry>::preserves_others(mid.addr_map, self.addr_map, addr),
            self.next_slab_addr == mid.next_slab_addr,
            self.heap_start == mid.heap_start,
            self.heap_end == mid.heap_end,
            self.slab_size == mid.slab_size,
            self.slab_size_log == mid.slab_size_log,
            self.slab_owner == mid.slab_owner,
        ensures
            self.wf(),
            forall|a: u64|
                a != addr ==> ((#[trigger] self.live(a)) == pre.live(a) && (pre.live(a)
                    ==> self.class_of_live(a) == pre.class_of_live(a))),
            self.live(addr),
            self.class_of_live(addr) == cls,
    {
        let nc = self.num_caches();
        vstd::arithmetic::power2::lemma_pow2_pos(cls as nat);
        let fl = pre.caches@[cls].free_entries@.len() as int;
        assert(pre.caches@[cls].free_entries@[fl - 1].phy_addr == addr);
        assert(pre.entry_ok(addr, cls));
        pre.caches@[cls].allocated_entries.lemma_occ_in_range();
        mid.caches@[cls].allocated_entries.lemma_occ_in_range();
        self.caches@[cls].allocated_entries.lemma_occ_in_range();
        // Slots other than the new one agree between the states, both
        // ways.
        assert forall|s: int|
            #[trigger] self.caches@[cls].allocated_entries.occ(s) && s != slot implies (
        mid.caches@[cls].allocated_entries.occ(s) && pre.caches@[cls].allocated_entries.occ(s)
            && self.caches@[cls].allocated_entries.item_at(s) == pre.caches@[
        cls].allocated_entries.item_at(s)) by {
            assert(0 <= s < mid.caches@[cls].allocated_entries.cap());
        }
        assert forall|s: int|
            #[trigger] pre.caches@[cls].allocated_entries.occ(s) implies (s != slot
            && self.caches@[cls].allocated_entries.occ(s) && self.caches@[
        cls].allocated_entries.item_at(s) == pre.caches@[cls].allocated_entries.item_at(s)) by {
            assert(0 <= s < mid.caches@[cls].allocated_entries.cap());
            assert(mid.caches@[cls].allocated_entries.occ(s));
        }

        // The sums move one entry's bytes from free to allocated.
        assert(mid.caches@ =~= pre.caches@.update(cls, mid.caches@[cls]));
        lemma_sums_update(pre.caches@, cls, mid.caches@[cls], nc);
        assert(self.caches@ =~= mid.caches@.update(cls, self.caches@[cls]));
        lemma_sums_update(mid.caches@, cls, self.caches@[cls], nc);
        assert((fl - 1 - fl) * csize == -csize) by (nonlinear_arith);
        assert(free_bytes_to(self.caches@, nc) == free_bytes_to(pre.caches@, nc) - csize);
        assert(alloc_bytes_to(self.caches@, nc) == alloc_bytes_to(pre.caches@, nc) + csize);
        assert(alloc_count_to(self.caches@, nc) == alloc_count_to(pre.caches@, nc) + 1);

        // Every entry of the new state was an entry of the old one.
        assert forall|c: int, k: int|
            0 <= c < nc && 0 <= k < self.caches@[c].free_entries@.len() implies self.entry_ok(
            (#[trigger] self.caches@[c].free_entries@[k]).phy_addr,
            c,
        ) by {
            assert(pre.caches@[c].free_entries@[k] == self.caches@[c].free_entries@[k]);
            assert(pre.entry_ok(pre.caches@[c].free_entries@[k].phy_addr, c));
        }
        assert forall|c: int, s: int|
            0 <= c < nc && (#[trigger] self.caches@[c].allocated_entries.occ(s)) implies self.entry_ok(
            self.caches@[c].allocated_entries.item_at(s).phy_addr,
            c,
        ) by {
            if c == cls && s == slot {
                assert(self.caches@[c].allocated_entries.item_at(s).phy_addr == addr);
                assert(pre.entry_ok(addr, cls));
            } else if c == cls {
                assert(s != slot);
                assert(self.caches@[cls].allocated_entries.occ(s));
                assert(StaticList::<CacheEntry>::same_but(
                    mid.caches@[cls].allocated_entries,
                    self.caches@[cls].allocated_entries,
                    slot,
                ));
                assert(0 <= s < mid.caches@[cls].allocated_entries.cap());
                assert(mid.caches@[cls].allocated_entries.occ(s));
                assert(self.caches@[c].allocated_entries.item_at(s) == pre.caches@[
                c].allocated_entries.item_at(s));
                assert(pre.caches@[c].allocated_entries.occ(s));
                assert(pre.entry_ok(pre.caches@[c].allocated_entries.item_at(s).phy_addr, c));
            } else {
                assert(self.caches@[c].allocated_entries.item_at(s) == pre.caches@[
                c].allocated_entries.item_at(s));
                assert(pre.caches@[c].allocated_entries.occ(s));
                assert(pre.entry_ok(pre.caches@[c].allocated_entries.item_at(s).phy_addr, c));
            }
        }

        // Distinctness within each class.
        assert forall|c: int, s1: int, s2: int|
            0 <= c < nc && s1 != s2 && (#[trigger] self.caches@[c].allocated_entries.occ(s1)) && (
        #[trigger] self.caches@[c].allocated_entries.occ(s2))
            implies self.caches@[c].allocated_entries.item_at(s1).phy_addr != self.caches@[
        c].allocated_entries.item_at(s2).phy_addr by {
            if c == cls {
                if s1 == slot {
                    assert(pre.caches@[c].allocated_entries.occ(s2));
                    assert(pre.caches@[c].free_entries@[fl - 1].phy_addr == addr);
                } else if s2 == slot {
                    assert(pre.caches@[c].allocated_entries.occ(s1));
                    assert(pre.caches@[c].free_entries@[fl - 1].phy_addr == addr);
                } else {
                    assert(pre.caches@[c].allocated_entries.occ(s1));
                    assert(pre.caches@[c].allocated_entries.occ(s2));
                }
            }
        }
        assert forall|c: int, k: int, s: int|
            0 <= c < nc && 0 <= k < self.caches@[c].free_entries@.len() && (
        #[trigger] self.caches@[c].allocated_entries.occ(s)) implies (#[trigger] self.caches@[
        c].free_entries@[k]).phy_addr != self.caches@[c].allocated_entries.item_at(s).phy_addr by {
            if c == cls {
                if s == slot {
                    assert(pre.caches@[c].free_entries@[k] == self.caches@[c].free_entries@[k]);
                } else {
                    assert(pre.caches@[c].allocated_entries.occ(s));
                }
            }
        }

        // The map and the lists stay in step.
        assert forall|a: u64| #[trigger] self.addr_map.has_key(a) implies {
            let e = self.addr_map.lookup(a);
            &&& 0 <= e.cache_index < nc
            &&& self.caches@[e.cache_index as int].allocated_entries.occ(
                e.cache_entry.index_spec(),
            )
            &&& self.caches@[e.cache_index as int].allocated_entries.item_at(
                e.cache_entry.index_spec(),
            ).phy_addr == a
        } by {
            if a != addr {
                assert(pre.addr_map.has_key(a));
                let e = pre.addr_map.lookup(a);
                assert(self.addr_map.lookup(a) == e);
                assert(pre.caches@[e.cache_index as int].allocated_entries.occ(
                    e.cache_entry.index_spec(),
                ));
                if e.cache_index as int == cls {
                    assert(e.cache_entry.index_spec() != slot);
                }
            }
        }
        assert forall|c: int, s: int|
            0 <= c < nc && (#[trigger] self.caches@[c].allocated_entries.occ(s)) implies {
            let a = self.caches@[c].allocated_entries.item_at(s).phy_addr;
            &&& self.addr_map.has_key(a)
            &&& self.addr_map.lookup(a).cache_index == c
            &&& self.addr_map.lookup(a).cache_entry.index_spec() == s
        } by {
            if !(c == cls && s == slot) {
                if c != cls {
                    assert(self.caches@[c] == pre.caches@[c]);
                }
                assert(pre.caches@[c].allocated_entries.occ(s));
                let a = self.caches@[c].allocated_entries.item_at(s).phy_addr;
                assert(a == pre.caches@[c].allocated_entries.item_at(s).phy_addr);
                assert(pre.addr_map.has_key(a));
                assert(a != addr) by {
                    if a == addr {
                        assert(!pre.addr_map.has_key(addr));
                    }
                }
                assert(self.addr_map.has_key(a));
                assert(self.addr_map.lookup(a) == pre.addr_map.lookup(a));
            }
        }
        assert(self.wf());
    }

    /// One class's allocated bytes are no more than all allocated bytes
    /// together.
    proof fn lemma_alloc_bytes_part(caches: Seq<Cache>, c: int, n: int)
        requires
            0 <= c < n <= caches.len(),
            forall|j: int| 0 <= j < n ==> (#[trigger] caches[j].allocated_entries).len_spec() >= 0,
        ensures
            caches[c].allocated_entries.len_spec() * pow2(c as nat) <= alloc_bytes_to(caches, n),
        decreases n,
    {
        vstd::arithmetic::power2::lemma_pow2_pos((n - 1) as nat);
        let al = caches[n - 1].allocated_entries.len_spec();
        let p = pow2((n - 1) as nat) as int;
        assert(al * p >= 0) by (nonlinear_arith)
            requires
                al >= 0,
                p >= 1,
        ;
        if c < n - 1 {
            Self::lemma_alloc_bytes_part(caches, c, n - 1);
        } else {
            lemma_sums_nonneg(caches, n - 1);
        }
    }

    /// Deallocate the kernel memory at `addr`. The address must be one
    /// the allocator handed out and not yet given back; any other
    /// address is rejected without touching anything.
    pub fn dealloc(&mut self, addr: u64) -> (r: Result<(), ()>)
        requires
            old(self).wf(),
        ensures
            final(self).wf(),
            final(self).heap_start_spec() == old(self).heap_start_spec(),
            final(self).heap_end_spec() == old(self).heap_end_spec(),
            final(self).slab_size_spec() == old(self).slab_size_spec(),
            final(self).next_slab_spec() == old(self).next_slab_spec(),
            !old(self).live(addr) ==> (r is Err && *final(self) == *old(self)),
            old(self).live(addr) ==> ({
                let c = old(self).class_of_live(addr);
                &&& r is Ok
                &&& !final(self).live(addr)
                &&& forall|a: u64|
                    a != addr ==> ((#[trigger] final(self).live(a)) == old(self).live(a) && (old(
                        self,
                    ).live(a) ==> final(self).class_of_live(a) == old(self).class_of_live(a)))
                &&& final(self).free_seq(c) == old(self).free_seq(c).push(addr)
                &&& forall|c2: int|
                    0 <= c2 < old(self).num_caches() && c2 != c ==> final(self).free_seq(c2)
                        == old(self).free_seq(c2)
            }),
    {
        let ghost pre = *old(self);
        let ghost nc = pre.num_caches();
        let map_entry = match self.addr_map.remove(addr) {
            Ok(v) => v,
            Err(_) => {
                return Err(());
            },
        };
        let cache_index = map_entry.cache_index;
        let ghost ci = cache_index as int;
        let ghost slot = map_entry.cache_entry.index_spec();
        proof {
            assert(pre.addr_map.has_key(addr));
            assert(map_entry == pre.addr_map.lookup(addr));
            assert(0 <= ci < nc);
            assert(pre.caches@[ci].allocated_entries.occ(slot));
            assert(pre.caches@[ci].allocated_entries.item_at(slot).phy_addr == addr);
            assert(map_entry.cache_entry.brand_spec() == ci);
            assert(pre.caches@[ci].allocated_entries.brand_spec() == ci);
            pre.caches@[ci].allocated_entries.lemma_occ_in_range();
        }
        let ghost mid1 = *self;
        let entry = self.caches[cache_index].allocated_entries.remove(map_entry.cache_entry);
        proof {
            assert(entry.phy_addr == addr);
            // The free stack has room: the freed entry's bytes were part
            // of the allocated bytes.
            let hsz = pre.heap_end - pre.heap_start;
            vstd::arithmetic::power2::lemma_pow2_pos(ci as nat);
            assert forall|j: int|
                0 <= j < nc implies (#[trigger] pre.caches@[j].allocated_entries).len_spec()
                >= 0 by {
                pre.caches@[j].allocated_entries.lemma_len_nonneg();
            }
            lemma_sums_nonneg(pre.caches@, nc);
            Self::lemma_alloc_bytes_part(pre.caches@, ci, nc);
            lemma_free_bytes_part(pre.caches@, ci, nc);
            let fl = pre.caches@[ci].free_entries@.len() as int;
            let al = pre.caches@[ci].allocated_entries.len_spec();
            assert(al >= 1) by {
                pre.caches@[ci].allocated_entries.lemma_len_nonneg();
                if al == 0 {
                    assert(!pre.caches@[ci].allocated_entries.occ(slot)) by {
                        pre.caches@[ci].allocated_entries.lemma_empty_no_occ();
                    }
                }
            }
            assert(al * Self::class_size(ci) >= Self::class_size(ci)) by (nonlinear_arith)
                requires
                    al >= 1,
                    Self::class_size(ci) >= 1,
            ;
            assert(fl <= fl * Self::class_size(ci)) by (nonlinear_arith)
                requires
                    fl >= 0,
                    Self::class_size(ci) >= 1,
            ;
            assert(fl <= hsz - 1);
        }
        let push_r = self.caches[cache_index].free_entries.push(entry);
        proof {
            assert(push_r is Ok);
            self.lemma_dealloc_wf(pre, mid1, ci, addr, slot);
            assert(self.free_seq(ci) =~= pre.free_seq(ci).push(addr));
            assert forall|c2: int|
                0 <= c2 < nc && c2 != ci implies self.free_seq(c2) == pre.free_seq(c2) by {
                assert(self.caches@[c2] == pre.caches@[c2]);
            }
        }
        Ok(())
    }

    /// Well-formedness after giving the entry at `slot` of class `ci`
    /// back to the free stack and dropping `addr` from the map.
    proof fn lemma_dealloc_wf(&self, pre: AllocContext, mid1: AllocContext, ci: int, addr: u64, slot: int)
        requires
            pre.wf(),
            0 <= ci < pre.num_caches(),
            pre.addr_map.has_key(addr),
            pre.addr_map.lookup(addr).cache_index == ci,
            pre.addr_map.lookup(addr).cache_entry.index_spec() == slot,
            pre.caches@[ci].allocated_entries.occ(slot),
            pre.caches@[ci].allocated_entries.item_at(slot).phy_addr == addr,
            // After the map removal.
            mid1.addr_map.wfc(),
            mid1.addr_map.cap() == pre.addr_map.cap(),
            mid1.addr_map.len_spec() == pre.addr_map.len_spec() - 1,
            !mid1.addr_map.has_key(addr),
            StaticMap::<u64, MapEntry>::preserves_others(pre.addr_map, mid1.addr_map, addr),
            mid1.caches@ == pre.caches@,
            // After the list removal and the stack push.
            self.addr_map == mid1.addr_map,
            self.caches@.len() == pre.caches@.len(),
            forall|c2: int|
                0 <= c2 < self.caches@.len() && c2 != ci ==> (#[trigger] self.caches@[c2])
                    == pre.caches@[c2],
            self.caches@[ci].allocated_entries.wf(),
            self.caches@[ci].allocated_entries.brand_spec() == pre.caches@[
                ci].allocated_entries.brand_spec(),
            self.caches@[ci].allocated_entries.cap() == pre.caches@[ci].allocated_entries.cap(),
            self.caches@[ci].allocated_entries.len_spec() == pre.caches@[
                ci].allocated_entries.len_spec() - 1,
            !self.caches@[ci].allocated_entries.occ(slot),
            StaticList::<CacheEntry>::same_but(
                pre.caches@[ci].allocated_entries,
                self.caches@[ci].allocated_entries,
                slot,
            ),
            self.caches@[ci].free_entries.cap() == pre.caches@[ci].free_entries.cap(),
            self.caches@[ci].free_entries@ == pre.caches@[ci].free_entries@.push(
                CacheEntry { phy_addr: addr },
            ),
            self.next_slab_addr == pre.next_slab_addr,
            self.heap_start == pre.heap_start,
            self.heap_end == pre.heap_end,
            self.slab_size == pre.slab_size,
            self.slab_size_log == pre.slab_size_log,
            self.slab_owner == pre.slab_owner,
        ensures
            self.wf(),
            !self.live(addr),
            forall|a: u64|
                a != addr ==> ((#[trigger] self.live(a)) == pre.live(a) && (pre.live(a)
                    ==> self.class_of_live(a) == pre.class_of_live(a))),
    {
        let nc = self.num_caches();
        vstd::arithmetic::power2::lemma_pow2_pos(ci as nat);
        let fl = pre.caches@[ci].free_entries@.len() as int;
        assert(pre.entry_ok(addr, ci));
        pre.caches@[ci].allocated_entries.lemma_occ_in_range();
        self.caches@[ci].allocated_entries.lemma_occ_in_range();

        // Slots other than the removed one agree between the states.
        assert forall|s: int|
            #[trigger] self.caches@[ci].allocated_entries.occ(s) implies (s != slot
            && pre.caches@[ci].allocated_entries.occ(s) && self.caches@[
        ci].allocated_entries.item_at(s) == pre.caches@[ci].allocated_entries.item_at(s)) by {
            assert(0 <= s < pre.caches@[ci].allocated_entries.cap());
        }
        assert forall|s: int|
            #[trigger] pre.caches@[ci].allocated_entries.occ(s) && s != slot implies (self.caches@[
        ci].allocated_entries.occ(s) && self.caches@[ci].allocated_entries.item_at(s)
            == pre.caches@[ci].allocated_entries.item_at(s)) by {
            assert(0 <= s < pre.caches@[ci].allocated_entries.cap());
        }

        // The sums move one entry's bytes from allocated to free.
        let cs = Self::class_size(ci);
        assert(self.caches@ =~= pre.caches@.update(ci, self.caches@[ci]));
        lemma_sums_update(pre.caches@, ci, self.caches@[ci], nc);
        assert(self.caches@[ci].free_entries@.len() == fl + 1);
        assert((self.caches@[ci].free_entries@.len() - pre.caches@[ci].free_entries@.len()) * (
        pow2(ci as nat) as int) == pow2(ci as nat) as int) by (nonlinear_arith)
            requires
                self.caches@[ci].free_entries@.len() == pre.caches@[ci].free_entries@.len() + 1,
        ;
        assert(free_bytes_to(self.caches@, nc) == free_bytes_to(pre.caches@, nc) + cs);
        assert((self.caches@[ci].allocated_entries.len_spec() - pre.caches@[
        ci].allocated_entries.len_spec()) * (pow2(ci as nat) as int) == -(pow2(ci as nat) as int))
            by (nonlinear_arith)
            requires
                self.caches@[ci].allocated_entries.len_spec() == pre.caches@[
                    ci].allocated_entries.len_spec() - 1,
        ;
        assert(alloc_bytes_to(self.caches@, nc) == alloc_bytes_to(pre.caches@, nc) - cs);
        assert(alloc_count_to(self.caches@, nc) == alloc_count_to(pre.caches@, nc) - 1);

        // Entry soundness carries over; the pushed entry was sound as an
        // allocated entry.
        assert forall|c: int, k: int|
            0 <= c < nc && 0 <= k < self.caches@[c].free_entries@.len() implies self.entry_ok(
            (#[trigger] self.caches@[c].free_entries@[k]).phy_addr,
            c,
        ) by {
            if c == ci && k == fl {
                assert(self.caches@[c].free_entries@[k].phy_addr == addr);
            } else {
                assert(self.caches@[c].free_entries@[k] == pre.caches@[c].free_entries@[k]);
                assert(pre.entry_ok(pre.caches@[c].free_entries@[k].phy_addr, c));
            }
        }
        assert forall|c: int, s: int|
            0 <= c < nc && (#[trigger] self.caches@[c].allocated_entries.occ(s)) implies self.entry_ok(
            self.caches@[c].allocated_entries.item_at(s).phy_addr,
            c,
        ) by {
            if c == ci {
                assert(pre.entry_ok(pre.caches@[c].allocated_entries.item_at(s).phy_addr, c));
            } else {
                assert(self.caches@[c] == pre.caches@[c]);
                assert(pre.caches@[c].allocated_entries.occ(s));
                assert(pre.entry_ok(pre.caches@[c].allocated_entries.item_at(s).phy_addr, c));
            }
        }

        // Distinctness: the freed address left the allocated side.
        assert forall|c: int, k1: int, k2: int|
            0 <= c < nc && 0 <= k1 < k2 < self.caches@[c].free_entries@.len() implies (
        #[trigger] self.caches@[c].free_entries@[k1]).phy_addr != (#[trigger] self.caches@[
        c].free_entries@[k2]).phy_addr by {
            if c == ci && k2 == fl {
                assert(self.caches@[c].free_entries@[k1] == pre.caches@[c].free_entries@[k1]);
                assert(pre.caches@[c].free_entries@[k1].phy_addr != addr);
            } else if c == ci {
                assert(self.caches@[c].free_entries@[k1] == pre.caches@[c].free_entries@[k1]);
                assert(self.caches@[c].free_entries@[k2] == pre.caches@[c].free_entries@[k2]);
            }
        }
        assert forall|c: int, s1: int, s2: int|
            0 <= c < nc && s1 != s2 && (#[trigger] self.caches@[c].allocated_entries.occ(s1)) && (
        #[trigger] self.caches@[c].allocated_entries.occ(s2))
            implies self.caches@[c].allocated_entries.item_at(s1).phy_addr != self.caches@[
        c].allocated_entries.item_at(s2).phy_addr by {
            if c == ci {
                assert(pre.caches@[c].allocated_entries.occ(s1));
                assert(pre.caches@[c].allocated_entries.occ(s2));
            } else {
                assert(self.caches@[c] == pre.caches@[c]);
                assert(pre.caches@[c].allocated_entries.occ(s1));
                assert(pre.caches@[c].allocated_entries.occ(s2));
            }
        }
        assert forall|c: int, k: int, s: int|
            0 <= c < nc && 0 <= k < self.caches@[c].free_entries@.len() && (
        #[trigger] self.caches@[c].allocated_entries.occ(s)) implies (#[trigger] self.caches@[
        c].free_entries@[k]).phy_addr != self.caches@[c].allocated_entries.item_at(s).phy_addr by {
            if c == ci {
                if k == fl {
                    assert(self.caches@[c].free_entries@[k].phy_addr == addr);
                    assert(pre.caches@[c].allocated_entries.occ(s));
                    assert(s != slot);
                } else {
                    assert(self.caches@[c].free_entries@[k] == pre.caches@[c].free_entries@[k]);
                    assert(pre.caches@[c].allocated_entries.occ(s));
                }
            } else {
                assert(self.caches@[c] == pre.caches@[c]);
                assert(pre.caches@[c].allocated_entries.occ(s));
            }
        }

        // The map and the lists stay in step.
        assert forall|a: u64| #[trigger] self.addr_map.has_key(a) implies {
            let e = self.addr_map.lookup(a);
            &&& 0 <= e.cache_index < nc
            &&& self.caches@[e.cache_index as int].allocated_entries.occ(
                e.cache_entry.index_spec(),
            )
            &&& self.caches@[e.cache_index as int].allocated_entries.item_at(
                e.cache_entry.index_spec(),
            ).phy_addr == a
        } by {
            assert(a != addr);
            assert(pre.addr_map.has_key(a));
            let e = pre.addr_map.lookup(a);
            assert(self.addr_map.lookup(a) == e);
            assert(pre.caches@[e.cache_index as int].allocated_entries.occ(
                e.cache_entry.index_spec(),
            ));
            if e.cache_index as int == ci {
                assert(e.cache_entry.index_spec() != slot) by {
                    if e.cache_entry.index_spec() == slot {
                        assert(pre.caches@[ci].allocated_entries.item_at(slot).phy_addr == a);
                    }
                }
            } else {
                assert(self.caches@[e.cache_index as int] == pre.caches@[e.cache_index as int]);
            }
        }
        assert forall|c: int, s: int|
            0 <= c < nc && (#[trigger] self.caches@[c].allocated_entries.occ(s)) implies {
            let a = self.caches@[c].allocated_entries.item_at(s).phy_addr;
            &&& self.addr_map.has_key(a)
            &&& self.addr_map.lookup(a).cache_index == c
            &&& self.addr_map.lookup(a).cache_entry.index_spec() == s
        } by {
            if c == ci {
                assert(pre.caches@[c].allocated_entries.occ(s) && s != slot);
            } else {
                assert(self.caches@[c] == pre.caches@[c]);
                assert(pre.caches@[c].allocated_entries.occ(s));
            }
            let a = self.caches@[c].allocated_entries.item_at(s).phy_addr;
            assert(pre.caches@[c].allocated_entries.item_at(s).phy_addr == a);
            assert(pre.addr_map.has_key(a));
            assert(a != addr) by {
                if a == addr {
                    assert(pre.addr_map.lookup(a).cache_index == ci);
                    assert(pre.addr_map.lookup(a).cache_entry.index_spec() == slot);
                }
            }
            assert(self.addr_map.has_key(a));
            assert(self.addr_map.lookup(a) == pre.addr_map.lookup(a));
        }
        assert(self.wf());
    }

    /// An entry of class `c` stays within its own slab.
    proof fn lemma_entry_in_slab(&self, a: u64, c: int)
        requires
            self.wf(),
            0 <= c < self.num_caches(),
            self.entry_ok(a, c),
        ensures
            self.heap_start + self.slab_idx(a) * (self.slab_size as int) <= a,
            a + Self::class_size(c) <= self.heap_start + (self.slab_idx(a) + 1) * (
            self.slab_size as int),
            self.slab_idx(a) >= 0,
    {
        let hs = self.heap_start as int;
        let sl = self.slab_size as int;
        let cs = Self::class_size(c);
        vstd::arithmetic::power2::lemma_pow2_pos(c as nat);
        vstd::arithmetic::power2::lemma_pow2_pos(self.slab_size_log as nat);
        vstd::arithmetic::div_mod::lemma_fundamental_div_mod(a - hs, sl);
        let q = self.slab_idx(a);
        let r = (a - hs) % sl;
        assert(a - hs == sl * q + r);
        assert(q >= 0) by (nonlinear_arith)
            requires
                sl * q + r >= 0,
                0 <= r < sl,
                sl >= 1,
        ;
        // The offset inside the slab is a multiple of the cell size and
        // so leaves room for the whole cell.
        assert(r % cs == 0) by {
            Self::lemma_pow2_divides(hs, c as nat, self.slab_size_log as nat);
            vstd::arithmetic::div_mod::lemma_mod_multiples_basic(q, sl);
            assert(q * sl == sl * q) by (nonlinear_arith);
            assert((sl * q) % sl == 0);
            Self::lemma_pow2_divides(sl * q, c as nat, self.slab_size_log as nat);
            Self::lemma_aligned_diff(hs, a as int, cs);
            Self::lemma_aligned_diff(sl * q, a - hs, cs);
        }
        assert(sl % cs == 0) by {
            vstd::arithmetic::div_mod::lemma_mod_multiples_basic(1, sl);
            assert(1 * sl == sl) by (nonlinear_arith);
            Self::lemma_pow2_divides(sl, c as nat, self.slab_size_log as nat);
        }
        if r > 0 {
            Self::lemma_aligned_step(r, sl, cs);
        } else {
            assert(cs <= sl) by {
                if c < self.slab_size_log {
                    vstd::arithmetic::power2::lemma_pow2_strictly_increases(
                        c as nat,
                        self.slab_size_log as nat,
                    );
                }
            }
        }
        assert(hs + (q + 1) * sl == hs + sl * q + sl) by (nonlinear_arith);
        assert(hs + q * sl == hs + sl * q) by (nonlinear_arith);
    }

    /// Live allocations never overlap: the set of addresses the
    /// allocator has handed out and not taken back is pairwise disjoint
    /// in bytes.
    pub proof fn lemma_live_disjoint(&self, a1: u64, a2: u64)
        requires
            self.wf(),
            self.live(a1),
            self.live(a2),
            a1 != a2,
        ensures
            a1 + Self::class_size(self.class_of_live(a1)) <= a2 || a2 + Self::class_size(
                self.class_of_live(a2),
            ) <= a1,
    {
        let e1 = self.addr_map.lookup(a1);
        let e2 = self.addr_map.lookup(a2);
        let c1 = e1.cache_index as int;
        let c2 = e2.cache_index as int;
        assert(self.caches@[c1].allocated_entries.occ(e1.cache_entry.index_spec()));
        assert(self.caches@[c2].allocated_entries.occ(e2.cache_entry.index_spec()));
        assert(self.entry_ok(a1, c1));
        assert(self.entry_ok(a2, c2));
        vstd::arithmetic::power2::lemma_pow2_pos(c1 as nat);
        vstd::arithmetic::power2::lemma_pow2_pos(c2 as nat);
        let sl = self.slab_size as int;
        let hs = self.heap_start as int;
        if c1 == c2 {
            // Same class: both aligned to the class size and distinct.
            let cs = Self::class_size(c1);
            assert(e1.cache_entry.index_spec() != e2.cache_entry.index_spec()) by {
                if e1.cache_entry.index_spec() == e2.cache_entry.index_spec() {
                    assert(self.caches@[c1].allocated_entries.item_at(
                        e1.cache_entry.index_spec(),
                    ).phy_addr == a1);
                }
            }
            if a1 < a2 {
                Self::lemma_aligned_step(a1 as int, a2 as int, cs);
            } else {
                Self::lemma_aligned_step(a2 as int, a1 as int, cs);
            }
        } else {
            // Different classes: the entries sit in different slabs.
            let q1 = self.slab_idx(a1);
            let q2 = self.slab_idx(a2);
            assert(q1 != q2) by {
                if q1 == q2 {
                    assert(self.slab_owner@[q1] == c1 && self.slab_owner@[q2] == c2);
                }
            }
            self.lemma_entry_in_slab(a1, c1);
            self.lemma_entry_in_slab(a2, c2);
            if q1 < q2 {
                assert((q1 + 1) * sl <= q2 * sl) by (nonlinear_arith)
                    requires
                        q1 + 1 <= q2,
                        sl >= 1,
                ;
                assert(q2 * sl <= q2 * sl);
            } else {
                assert((q2 + 1) * sl <= q1 * sl) by (nonlinear_arith)
                    requires
                        q2 + 1 <= q1,
                        sl >= 1,
                ;
            }
        }
    }

    /// An address just given back is the next one its class hands out:
    /// deallocation pushes it on top of the class's free stack, and the
    /// next allocation of that class pops the top.
    pub proof fn lemma_freed_first_reused(pre_free: Seq<u64>, post_free: Seq<u64>, addr: u64)
        requires
            post_free == pre_free.push(addr),
        ensures
            post_free.len() > 0,
            post_free.last() == addr,
    {
    }

    /// An address aligned to its class is aligned to the requested
    /// alignment, which the class is at least as large as.
    proof fn lemma_result_aligned(&self, result: Result<u64, AllocErr>, cls: int, align: usize)
        requires
            exists|l: int| 0 <= l <= 62 && align as int == Self::class_size(l),
            cls >= 0,
            Self::class_size(cls) >= align,
            result matches Ok(addr) ==> (addr as int) % Self::class_size(cls) == 0,
        ensures
            result matches Ok(addr) ==> (addr as int) % (align as int) == 0,
    {
        if result is Ok {
            let addr = result.unwrap();
            let l = choose|l: int| 0 <= l <= 62 && align as int == Self::class_size(l);
            assert(l <= cls) by {
                if l > cls {
                    vstd::arithmetic::power2::lemma_pow2_strictly_increases(cls as nat, l as nat);
                }
            }
            Self::lemma_pow2_divides(addr as int, l as nat, cls as nat);
        }
    }
}

/// When two cache sequences agree on a prefix, the sums over that
/// prefix agree.
proof fn lemma_sums_prefix(a: Seq<Cache>, b: Seq<Cache>, n: int)
    requires
        n <= a.len(),
        n <= b.len(),
        forall|c: int| 0 <= c < n ==> a[c] == b[c],
    ensures
        free_bytes_to(a, n) == free_bytes_to(b, n),
        alloc_bytes_to(a, n) == alloc_bytes_to(b, n),
        alloc_count_to(a, n) == alloc_count_to(b, n),
    decreases n,
{
    if n > 0 {
        lemma_sums_prefix(a, b, n - 1);
    }
}

} // verus!
