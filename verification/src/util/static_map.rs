//! A fixed-capacity hash map with open addressing and linear probing.
//! Removal shifts later entries backward, Knuth's Algorithm R style, so
//! that every remaining key stays findable.

use core::hash::Hasher;
use vstd::prelude::*;

verus! {

/// The error type for [`StaticMap`].
#[derive(Debug, PartialEq, Eq, Structural)]
pub enum Error {
    NotFound,
    DuplicateKey,
    MapFull,
}

/// The 64-bit keyed hash that [`Hash`] gives a `u64`, named so that
/// contracts can speak of it. Nothing is assumed of its values.
pub uninterp spec fn siphash_u64(k: u64) -> u64;

/// Relies on siphasher's `SipHasher::new` / `write_u64` / `finish`:
/// SipHash-2-4 with the all-zero key, whose result depends on the
/// hashed value alone.
#[verifier::external_body]
fn siphash_of_u64(k: u64) -> (r: u64)
    ensures
        r == siphash_u64(k),
{
    let mut hasher = siphasher::sip::SipHasher::new();
    hasher.write_u64(k);
    hasher.finish()
}

/// A trait which ensures that the implementor can be hashed to `u64`.
pub trait Hash: Sized {
    /// The hash as contracts see it: a function of the value alone.
    spec fn hash_spec(&self) -> u64;

    /// Compute the hash.
    fn hash(&self) -> (r: u64)
        ensures
            r == self.hash_spec(),
    ;
}

impl Hash for u64 {
    open spec fn hash_spec(&self) -> u64 {
        siphash_u64(*self)
    }

    fn hash(&self) -> (r: u64) {
        siphash_of_u64(*self)
    }
}

/// An entry in [`StaticMap`].
struct StaticMapEntry<K, V> {
    key: K,
    value: V,
}

/// The number of occupied slots.
spec fn num_occ<K, V>(s: Seq<Option<StaticMapEntry<K, V>>>) -> int
    decreases s.len(),
{
    if s.len() == 0 {
        0
    } else {
        num_occ(s.drop_last()) + if s.last() is Some {
            1int
        } else {
            0int
        }
    }
}

proof fn lemma_num_occ_bounds<K, V>(s: Seq<Option<StaticMapEntry<K, V>>>)
    ensures
        0 <= num_occ(s) <= s.len(),
        num_occ(s) < s.len() ==> exists|i: int| 0 <= i < s.len() && s[i] is None,
        (forall|i: int| 0 <= i < s.len() ==> s[i] is Some) ==> num_occ(s) == s.len(),
        forall|i: int| 0 <= i < s.len() && (#[trigger] s[i]) is None ==> num_occ(s) < s.len(),
    decreases s.len(),
{
    if s.len() > 0 {
        lemma_num_occ_bounds(s.drop_last());
        if num_occ(s) < s.len() {
            if s.last() is None {
                assert(s[s.len() - 1] is None);
            } else {
                let i = choose|i: int| 0 <= i < s.len() - 1 && s.drop_last()[i] is None;
                assert(s[i] is None);
            }
        }
        assert forall|i: int| 0 <= i < s.len() && (#[trigger] s[i]) is None implies num_occ(s)
            < s.len() by {
            if i < s.len() - 1 {
                assert(s.drop_last()[i] is None);
            }
        }
    }
}

proof fn lemma_num_occ_update<K, V>(
    s: Seq<Option<StaticMapEntry<K, V>>>,
    i: int,
    v: Option<StaticMapEntry<K, V>>,
)
    requires
        0 <= i < s.len(),
    ensures
        num_occ(s.update(i, v)) == num_occ(s) + (if v is Some {
            1int
        } else {
            0int
        }) - (if s[i] is Some {
            1int
        } else {
            0int
        }),
    decreases s.len(),
{
    let t = s.update(i, v);
    if s.len() > 0 {
        if i == s.len() - 1 {
            assert(t.drop_last() =~= s.drop_last());
        } else {
            assert(t.drop_last() =~= s.drop_last().update(i, v));
            lemma_num_occ_update(s.drop_last(), i, v);
        }
    }
}

/// The structure that is used when you don't want to allocate memory in
/// the heap while the kernel runs: the whole table is laid out at
/// construction.
pub struct StaticMap<K, V> {
    // The number of elements in the map.
    len: usize,
    // The hash table that stores the elements of the map.
    ht: Vec<Option<StaticMapEntry<K, V>>>,
}

impl<K, V> StaticMap<K, V> where
    K: Hash + Copy + PartialEq + Eq + vstd::std_specs::cmp::PartialEqSpec,
 {
    /// The table size.
    pub closed spec fn cap(&self) -> int {
        self.ht@.len() as int
    }

    /// The number of elements in the map, as contracts see it.
    pub closed spec fn len_spec(&self) -> int {
        self.len as int
    }

    /// The natural slot of a key: its hash reduced by the table size.
    pub closed spec fn home_of(&self, k: K) -> int {
        (k.hash_spec() as int) % self.cap()
    }

    /// Whether slot `i` is occupied.
    pub closed spec fn occ(&self, i: int) -> bool {
        self.ht@[i] is Some
    }

    /// The key stored in slot `i`.
    pub closed spec fn key_at(&self, i: int) -> K {
        self.ht@[i].unwrap().key
    }

    /// The value stored in slot `i`.
    pub closed spec fn value_at(&self, i: int) -> V {
        self.ht@[i].unwrap().value
    }

    /// The number of slots on the cyclic path from `from` up to `to`,
    /// not counting `to` itself.
    pub closed spec fn dist(&self, from: int, to: int) -> int {
        if to >= from {
            to - from
        } else {
            to - from + self.cap()
        }
    }

    /// The slot `t` steps after `from`, cyclically.
    pub closed spec fn slot_at(&self, from: int, t: int) -> int {
        (from + t) % self.cap()
    }

    /// Every slot on the cyclic path from `from` up to `to` is occupied.
    pub closed spec fn path_occ(&self, from: int, to: int) -> bool {
        forall|t: int| 0 <= t < self.dist(from, to) ==> self.occ(#[trigger] self.slot_at(from, t))
    }

    /// Whether slot `i` holds key `k`.
    pub closed spec fn holds(&self, k: K, i: int) -> bool {
        0 <= i < self.cap() && self.occ(i) && self.key_at(i) == k
    }

    /// Whether some slot holds key `k`.
    pub closed spec fn has_key(&self, k: K) -> bool {
        exists|i: int| self.holds(k, i)
    }

    /// The value the map holds for key `k`.
    pub closed spec fn lookup(&self, k: K) -> V {
        self.value_at(choose|i: int| self.holds(k, i))
    }

    /// Whether the map holds `v` under `k`.
    pub closed spec fn maps_to(&self, k: K, v: V) -> bool {
        self.has_key(k) && self.lookup(k) == v
    }

    /// Between `pre` and `post`, every key but `key` is bound the same
    /// way.
    pub open spec fn preserves_others(pre: StaticMap<K, V>, post: StaticMap<K, V>, key: K) -> bool {
        forall|k2: K|
            k2 != key ==> (#[trigger] post.has_key(k2) == pre.has_key(k2) && (pre.has_key(k2)
                ==> post.lookup(k2) == pre.lookup(k2)))
    }

    /// Well-formedness: equality on keys is structural, the table is not
    /// empty, `len` counts the occupied slots, keys are distinct, and
    /// every key sits at or cyclically after its natural slot with no
    /// empty slot in between.
    pub closed spec fn wf(&self) -> bool {
        &&& K::obeys_eq_spec()
        &&& forall|a: K, b: K| #[trigger] a.eq_spec(&b) <==> a == b
        &&& self.cap() >= 1
        &&& self.len_spec() == num_occ(self.ht@)
        &&& forall|i: int, j: int|
            0 <= i < j < self.cap() && self.occ(i) && self.occ(j) ==> self.key_at(i) != self.key_at(
                j,
            )
        &&& forall|i: int|
            0 <= i < self.cap() && self.occ(i) ==> self.path_occ(
                self.home_of(#[trigger] self.key_at(i)),
                i,
            )
    }

    /// Where `t` steps from `from` land, written without the modulo.
    proof fn lemma_slot_closed(&self, from: int, t: int)
        requires
            self.cap() >= 1,
            0 <= from < self.cap(),
            0 <= t <= self.cap(),
        ensures
            self.slot_at(from, t) == if from + t < self.cap() {
                from + t
            } else {
                from + t - self.cap()
            },
            0 <= self.slot_at(from, t) < self.cap(),
    {
        if from + t < self.cap() {
            vstd::arithmetic::div_mod::lemma_small_mod((from + t) as nat, self.cap() as nat);
        } else {
            vstd::arithmetic::div_mod::lemma_mod_add_multiples_vanish(
                from + t - self.cap(),
                self.cap(),
            );
            vstd::arithmetic::div_mod::lemma_small_mod(
                (from + t - self.cap()) as nat,
                self.cap() as nat,
            );
        }
    }

    /// Walking `dist(from, to)` slots from `from` lands on `to`.
    proof fn lemma_dist(&self, from: int, to: int)
        requires
            self.cap() >= 1,
            0 <= from < self.cap(),
            0 <= to < self.cap(),
        ensures
            0 <= self.dist(from, to) < self.cap(),
            self.slot_at(from, self.dist(from, to)) == to,
    {
        self.lemma_slot_closed(from, self.dist(from, to));
    }

    /// At most one slot holds a given key.
    proof fn lemma_unique_slot(&self, k: K, i: int, j: int)
        requires
            self.wf(),
            self.holds(k, i),
            self.holds(k, j),
        ensures
            i == j,
    {
    }

    /// When a slot holds `k`, `lookup` reads that slot.
    proof fn lemma_lookup_at(&self, k: K, i: int)
        requires
            self.wf(),
            self.holds(k, i),
        ensures
            self.has_key(k),
            self.lookup(k) == self.value_at(i),
            self.maps_to(k, self.value_at(i)),
    {
        let j = choose|j: int| self.holds(k, j);
        self.lemma_unique_slot(k, i, j);
    }

    /// After probing `t` slots from the key's natural position without
    /// finding it, an empty slot at distance `t` shows the key absent.
    proof fn lemma_absent_when_path_empty(&self, key: K, pos: int, t: int)
        requires
            self.wf(),
            pos == self.home_of(key),
            0 <= pos < self.cap(),
            0 <= t < self.cap(),
            forall|u: int|
                0 <= u < t ==> self.occ(#[trigger] self.slot_at(pos as int, u)) && self.key_at(
                        self.slot_at(pos as int, u),
                    ) != key,
            !self.occ((pos + t) % self.cap()),
        ensures
            !self.has_key(key),
    {
        if self.has_key(key) {
            let s = choose|s: int| self.holds(key, s);
            let d = self.dist(pos, s);
            self.lemma_dist(pos, s);
            if d < t {
                assert(self.key_at(self.slot_at(pos, d)) != key);
            } else if d == t {
                assert(self.occ(self.slot_at(pos, d)));
            } else {
                assert(self.path_occ(self.home_of(self.key_at(s)), s));
                assert(self.occ(self.slot_at(pos, t)));
            }
        }
    }

    /// When every slot was probed and none held the key, the key is
    /// absent and the table is full.
    proof fn lemma_absent_when_all_probed(&self, key: K, pos: int)
        requires
            self.wf(),
            pos == self.home_of(key),
            0 <= pos < self.cap(),
            forall|u: int|
                0 <= u < self.cap() ==> self.occ(#[trigger] self.slot_at(pos as int, u)) && self.key_at(
                        self.slot_at(pos as int, u),
                    ) != key,
        ensures
            !self.has_key(key),
            self.len_spec() == self.cap(),
    {
        if self.has_key(key) {
            let s = choose|s: int| self.holds(key, s);
            let d = self.dist(pos, s);
            self.lemma_dist(pos, s);
            assert(self.key_at(self.slot_at(pos, d)) != key);
        }
        assert forall|i: int| 0 <= i < self.ht@.len() implies self.ht@[i] is Some by {
            let d = self.dist(pos, i);
            self.lemma_dist(pos, i);
            assert(self.occ(self.slot_at(pos, d)));
        }
        lemma_num_occ_bounds(self.ht@);
    }


    /// Whether slot `x` lies on the probe path from `from` up to `to`.
    pub closed spec fn on_path(&self, from: int, x: int, to: int) -> bool {
        self.dist(from, x) < self.dist(from, to)
    }

    /// Whether some entry's probe path runs over slot `x`.
    pub closed spec fn covered_by_path(&self, x: int) -> bool {
        exists|s: int|
            0 <= s < self.cap() && self.occ(s) && self.on_path(
                self.home_of(#[trigger] self.key_at(s)),
                x,
                s,
            )
    }

    /// Well-formedness together with a cut: a slot that no probe path
    /// runs over. Any empty slot of a well-formed table is such a cut,
    /// and a table that an insert has just filled keeps the slot that
    /// insert took as one. Findability alone is not preserved by the
    /// backward shift of removal on tables whose probe paths wrap all
    /// the way around, and such tables are exactly the ones without a
    /// cut, so the operations keep the cut as part of the invariant.
    pub closed spec fn wfc(&self) -> bool {
        &&& self.wf()
        &&& exists|c: int| 0 <= c < self.cap() && !self.covered_by_path(c)
    }

    /// A slot on a probe path, named by its offset.
    proof fn lemma_on_path_member(&self, from: int, x: int, to: int)
        requires
            self.cap() >= 1,
            0 <= from < self.cap(),
            0 <= x < self.cap(),
            0 <= to < self.cap(),
            self.on_path(from, x, to),
        ensures
            self.slot_at(from, self.dist(from, x)) == x,
            0 <= self.dist(from, x) < self.dist(from, to),
    {
        self.lemma_dist(from, x);
    }

    /// In a well-formed table that is not full, any empty slot is a cut.
    proof fn lemma_nonfull_wfc(&self)
        requires
            self.wf(),
            self.len_spec() < self.cap(),
        ensures
            self.wfc(),
    {
        lemma_num_occ_bounds(self.ht@);
        let e = choose|e: int| 0 <= e < self.ht@.len() && self.ht@[e] is None;
        assert forall|s: int|
            0 <= s < self.cap() && self.occ(s) implies !self.on_path(
            self.home_of(#[trigger] self.key_at(s)),
            e,
            s,
        ) by {
            if self.on_path(self.home_of(self.key_at(s)), e, s) {
                let h = self.home_of(self.key_at(s));
                self.lemma_on_path_member(h, e, s);
                assert(self.occ(self.slot_at(h, self.dist(h, e))));
            }
        }
        assert(!self.covered_by_path(e));
    }

    /// A full table freshly topped up by an insert keeps a cut: the slot
    /// the insert just filled.
    proof fn lemma_full_cut(&self, pre: StaticMap<K, V>, i: int)
        requires
            self.wf(),
            pre.wf(),
            0 <= i < pre.cap(),
            !pre.occ(i),
            self.cap() == pre.cap(),
            forall|x: int| 0 <= x < self.cap() && x != i ==> self.ht@[x] == pre.ht@[x],
            self.occ(i),
            self.dist(self.home_of(self.key_at(i)), i) == self.dist(
                pre.home_of(self.key_at(i)),
                i,
            ),
        ensures
            !self.covered_by_path(i),
    {
        assert forall|s: int|
            0 <= s < self.cap() && self.occ(s) implies !self.on_path(
            self.home_of(#[trigger] self.key_at(s)),
            i,
            s,
        ) by {
            let h = self.home_of(self.key_at(s));
            if self.on_path(h, i, s) {
                self.lemma_on_path_member(h, i, s);
                if s != i {
                    assert(pre.path_occ(pre.home_of(pre.key_at(s)), s));
                    assert(pre.occ(pre.slot_at(h, self.dist(h, i))));
                } else {
                    assert(self.dist(h, i) < self.dist(h, i));
                }
            }
        }
    }


    /// `dist` measured between two slots, re-expressed through their
    /// distances from a common base slot.
    proof fn lemma_dist_via_base(&self, base: int, u: int, w: int)
        requires
            self.cap() >= 1,
            0 <= base < self.cap(),
            0 <= u < self.cap(),
            0 <= w < self.cap(),
        ensures
            self.dist(u, w) == if self.dist(base, w) >= self.dist(base, u) {
                self.dist(base, w) - self.dist(base, u)
            } else {
                self.dist(base, w) - self.dist(base, u) + self.cap()
            },
    {
    }

    /// Walking `u` steps lands `u` away.
    proof fn lemma_dist_of_slot(&self, from: int, u: int)
        requires
            self.cap() >= 1,
            0 <= from < self.cap(),
            0 <= u < self.cap(),
        ensures
            self.dist(from, self.slot_at(from, u)) == u,
    {
        self.lemma_slot_closed(from, u);
    }

    /// The backward shift of removal never vacates a slot that the probe
    /// path of an already settled entry runs over: if it did, the probe
    /// paths of the old table would cover every slot, and the old table
    /// had a slot no path runs over.
    proof fn lemma_settled_safe(&self, pre: StaticMap<K, V>, idx: int, hole: int, t: int, i: int, s: int, cut: int)
        requires
            pre.wf(),
            self.cap() == pre.cap(),
            self.cap() >= 1,
            0 <= idx < self.cap(),
            0 <= hole < self.cap(),
            0 <= i < self.cap(),
            0 <= s < self.cap(),
            0 <= cut < self.cap(),
            !pre.covered_by_path(cut),
            0 <= t < self.cap() - 1,
            self.dist(idx, i) == t + 1,
            self.dist(idx, hole) <= t,
            self.dist(idx, s) <= t,
            self.occ(s),
            self.occ(i),
            self.ht@[i] == pre.ht@[i],
            pre.occ(i),
            // The chain of earlier movers covers everything up to the
            // hole with old probe paths.
            forall|x: int|
                0 <= x < self.cap() && self.dist(idx, x) < self.dist(idx, hole)
                    ==> #[trigger] pre.covered_by_path(x),
            // The mover at `i` can be moved: the hole lies on its path.
            pre.on_path(pre.home_of(pre.key_at(i)), hole, i),
            // The settled entry's path avoids the hole and fits inside
            // the probe path its key had in the old table.
            !self.on_path(self.home_of(self.key_at(s)), hole, s),
            exists|ps: int|
                0 <= ps < self.cap() && pre.holds(#[trigger] self.key_at(s), ps) && self.dist(
                    self.home_of(self.key_at(s)),
                    s,
                ) <= pre.dist(self.home_of(self.key_at(s)), ps),
        ensures
            !self.on_path(self.home_of(self.key_at(s)), i, s),
    {
        if self.on_path(self.home_of(self.key_at(s)), i, s) {
            let h = self.home_of(self.key_at(s));
            let hy = pre.home_of(pre.key_at(i));
            let ps = choose|ps: int|
                0 <= ps < self.cap() && pre.holds(self.key_at(s), ps) && self.dist(h, s)
                    <= pre.dist(h, ps);
            let ah = self.dist(idx, h);
            let ahole = self.dist(idx, hole);
            let a_s = self.dist(idx, s);
            self.lemma_dist_via_base(idx, h, i);
            self.lemma_dist_via_base(idx, h, s);
            self.lemma_dist_via_base(idx, h, hole);
            self.lemma_dist_via_base(idx, hole, i);
            // The settled entry's path wraps: its home lies after the
            // hole and no later than the vacated slot.
            assert(ah <= t + 1);
            assert(a_s < ah);
            assert(a_s <= ahole && ahole < ah);
            // Every slot is run over by a probe path of the old table.
            assert forall|x: int| 0 <= x < self.cap() implies pre.covered_by_path(x) by {
                let ax = self.dist(idx, x);
                self.lemma_dist_via_base(idx, h, x);
                self.lemma_dist_via_base(idx, hole, x);
                if ax >= ah || ax < a_s {
                    // On the settled entry's path, so on its old path.
                    assert(self.on_path(h, x, s));
                    assert(pre.home_of(pre.key_at(ps)) == h);
                    assert(pre.on_path(h, x, ps));
                    assert(pre.covered_by_path(x));
                } else if ax < ahole {
                    // Run over by the chain of earlier movers.
                    assert(pre.covered_by_path(x));
                } else {
                    // Between the hole and the vacated slot: on the
                    // current mover's old path.
                    assert(self.dist(hole, x) < self.dist(hole, i));
                    pre.lemma_dist_via_base(hole, hy, x);
                    pre.lemma_dist_via_base(hole, hy, i);
                    assert(pre.on_path(hy, x, i));
                    assert(pre.covered_by_path(x));
                }
            }
            assert(pre.covered_by_path(cut));
        }
    }


    /// The invariant of removal's backward shift: `pre` is the table
    /// before the removal, `k` the removed key, `idx` the emptied slot,
    /// `hole` the one empty slot the shift is still dragging, `t` how
    /// many slots were scanned, and `cut` a slot no old probe path runs
    /// over.
    spec fn shift_inv(&self, pre: StaticMap<K, V>, k: K, idx: int, hole: int, t: int, cut: int) -> bool {
        &&& pre.wf()
        &&& 0 <= cut < pre.cap() && !pre.covered_by_path(cut)
        &&& self.cap() == pre.cap()
        &&& 0 <= idx < self.cap()
        &&& 0 <= hole < self.cap()
        &&& self.dist(idx, hole) <= t
        &&& !self.occ(hole)
        &&& pre.occ(hole)
        &&& pre.occ(idx)
        &&& k == pre.key_at(idx)
        &&& self.len_spec() == pre.len_spec() - 1
        &&& self.len_spec() == num_occ(self.ht@)
        &&& forall|x: int| 0 <= x < self.cap() ==> ((#[trigger] self.occ(x)) <==> (pre.occ(x) && x != hole))
        &&& forall|x: int|
            0 <= x < self.cap() && self.dist(idx, x) > t ==> (#[trigger] self.ht@[x]) == pre.ht@[x]
        &&& !self.has_key(k)
        &&& Self::preserves_others(pre, *self, k)
        &&& forall|a: int, b: int|
            0 <= a < b < self.cap() && self.occ(a) && self.occ(b) ==> self.key_at(a) != self.key_at(b)
        &&& forall|s: int|
            0 <= s < self.cap() && self.dist(idx, s) <= t && self.occ(s) ==> (!self.on_path(
                self.home_of(#[trigger] self.key_at(s)),
                hole,
                s,
            ) && exists|ps: int|
                0 <= ps < self.cap() && pre.holds(self.key_at(s), ps) && self.dist(
                    self.home_of(self.key_at(s)),
                    s,
                ) <= pre.dist(self.home_of(self.key_at(s)), ps))
        &&& forall|x: int|
            0 <= x < self.cap() && self.dist(idx, x) < self.dist(idx, hole)
                ==> #[trigger] pre.covered_by_path(x)
    }

    /// The shift invariant holds right after the removed slot is
    /// emptied.
    proof fn lemma_shift_init(&self, pre: StaticMap<K, V>, idx: int, cut: int)
        requires
            pre.wf(),
            0 <= cut < pre.cap(),
            !pre.covered_by_path(cut),
            0 <= idx < pre.cap(),
            pre.occ(idx),
            self.ht@ == pre.ht@.update(idx, None),
            self.len_spec() == pre.len_spec() - 1,
        ensures
            self.shift_inv(pre, pre.key_at(idx), idx, idx, 0, cut),
    {
        let k = pre.key_at(idx);
        lemma_num_occ_update(pre.ht@, idx, None);
        assert(forall|x: int| 0 <= x < self.cap() && x != idx ==> (#[trigger] self.ht@[x]) == pre.ht@[x]);
        assert forall|a: int, b: int|
            0 <= a < b < self.cap() && self.occ(a) && self.occ(b) implies self.key_at(a)
            != self.key_at(b) by {
            assert(pre.occ(a) && pre.occ(b));
            assert(self.key_at(a) == pre.key_at(a) && self.key_at(b) == pre.key_at(b));
        }
        assert forall|k2: K| k2 != k implies (#[trigger] self.has_key(k2) == pre.has_key(k2) && (
        pre.has_key(k2) ==> self.lookup(k2) == pre.lookup(k2))) by {
            assert(forall|x: int| x != idx ==> self.holds(k2, x) == pre.holds(k2, x));
            if pre.has_key(k2) {
                let x = choose|x: int| pre.holds(k2, x);
                assert(x != idx);
                assert(self.holds(k2, x));
                self.lemma_lookup_at_weak(k2, x);
                pre.lemma_lookup_at(k2, x);
            }
            if self.has_key(k2) {
                let x = choose|x: int| self.holds(k2, x);
                assert(x != idx);
                assert(pre.holds(k2, x));
            }
        }
        assert forall|x: int| !self.holds(k, x) by {
            if self.holds(k, x) {
                assert(x != idx);
                assert(pre.holds(k, x));
                assert(pre.key_at(x) == pre.key_at(idx));
            }
        }
        assert(!self.has_key(k));
        assert(Self::preserves_others(pre, *self, k));
        assert(self.dist(idx, idx) == 0);
        assert forall|s: int|
            0 <= s < self.cap() && self.dist(idx, s) <= 0 && self.occ(s) implies (!self.on_path(
            self.home_of(#[trigger] self.key_at(s)),
            idx,
            s,
        ) && exists|ps: int|
            0 <= ps < self.cap() && pre.holds(self.key_at(s), ps) && self.dist(
                self.home_of(self.key_at(s)),
                s,
            ) <= pre.dist(self.home_of(self.key_at(s)), ps)) by {
            assert(s == idx);
            assert(!self.occ(idx));
        }
        assert(self.shift_inv(pre, k, idx, idx, 0, cut));
    }

    /// `lookup` reads any slot that holds the key, needing only key
    /// distinctness rather than the full invariant.
    proof fn lemma_lookup_at_weak(&self, k: K, i: int)
        requires
            forall|a: int, b: int|
                0 <= a < b < self.cap() && self.occ(a) && self.occ(b) ==> self.key_at(a)
                    != self.key_at(b),
            self.holds(k, i),
        ensures
            self.has_key(k),
            self.lookup(k) == self.value_at(i),
    {
        let j = choose|j: int| self.holds(k, j);
    }

    /// A scanned slot whose entry stays keeps the shift invariant.
    proof fn lemma_shift_stay(&self, pre: StaticMap<K, V>, k: K, idx: int, hole: int, t: int, cut: int, i: int)
        requires
            self.shift_inv(pre, k, idx, hole, t, cut),
            t + 1 <= self.cap() - 1,
            self.dist(idx, i) == t + 1,
            0 <= i < self.cap(),
            self.occ(i),
            !self.on_path(self.home_of(self.key_at(i)), hole, i),
        ensures
            self.shift_inv(pre, k, idx, hole, t + 1, cut),
    {
        assert forall|s: int|
            0 <= s < self.cap() && self.dist(idx, s) <= t + 1 && self.occ(s) implies (!self.on_path(
            self.home_of(#[trigger] self.key_at(s)),
            hole,
            s,
        ) && exists|ps: int|
            0 <= ps < self.cap() && pre.holds(self.key_at(s), ps) && self.dist(
                self.home_of(self.key_at(s)),
                s,
            ) <= pre.dist(self.home_of(self.key_at(s)), ps)) by {
            if self.dist(idx, s) == t + 1 {
                assert(s == i) by {
                    self.lemma_dist(idx, s);
                    self.lemma_dist(idx, i);
                }
                assert(self.ht@[i] == pre.ht@[i]);
                assert(pre.holds(self.key_at(i), i));
                assert(self.dist(self.home_of(self.key_at(i)), i) <= pre.dist(
                    self.home_of(self.key_at(i)),
                    i,
                ));
            }
        }
    }

    /// Moving the scanned entry back into the hole keeps the shift
    /// invariant, with the vacated slot as the new hole.
    proof fn lemma_shift_move(&self, pre: StaticMap<K, V>, k: K, idx: int, hole: int, t: int, cut: int, i: int, mid: StaticMap<K, V>)
        requires
            mid.shift_inv(pre, k, idx, hole, t, cut),
            t + 1 <= mid.cap() - 1,
            mid.dist(idx, i) == t + 1,
            0 <= i < mid.cap(),
            mid.occ(i),
            mid.on_path(mid.home_of(mid.key_at(i)), hole, i),
            self.ht@ == mid.ht@.update(hole, mid.ht@[i]).update(i, None),
            self.len_spec() == mid.len_spec(),
        ensures
            self.shift_inv(pre, k, idx, i, t + 1, cut),
    {
        let y = mid.key_at(i);
        let hy = mid.home_of(y);
        assert(hole != i) by {
            mid.lemma_dist(idx, hole);
            mid.lemma_dist(idx, i);
        }
        assert(self.cap() == mid.cap());
        assert(self.occ(hole) && self.key_at(hole) == y && self.value_at(hole) == mid.value_at(i));
        assert(forall|x: int| 0 <= x < self.cap() && x != hole && x != i ==> self.ht@[x] == mid.ht@[x]);
        lemma_num_occ_update(mid.ht@, hole, mid.ht@[i]);
        lemma_num_occ_update(mid.ht@.update(hole, mid.ht@[i]), i, None);

        // The entry at `i` is the one the old table held there.
        assert(mid.ht@[i] == pre.ht@[i]);
        assert(pre.holds(y, i));
        assert(pre.home_of(y) == hy);

        // Occupancy: everything the old table held except the new hole.
        assert forall|x: int| 0 <= x < self.cap() implies ((#[trigger] self.occ(x)) <==> (pre.occ(x)
            && x != i)) by {
            if x == hole {
                assert(self.ht@[hole] == mid.ht@[i]);
                assert(pre.occ(hole));
            } else if x == i {
                assert(!self.occ(i));
            } else {
                assert(self.ht@[x] == mid.ht@[x]);
                assert(mid.occ(x) <==> (pre.occ(x) && x != hole));
            }
        }

        // Keys distinct: the key set did not change.
        assert forall|a: int, b: int|
            0 <= a < b < self.cap() && self.occ(a) && self.occ(b) implies self.key_at(a)
            != self.key_at(b) by {
            if a == hole {
                assert(b != i);
                if self.key_at(b) == y {
                    assert(mid.key_at(b) == mid.key_at(i));
                }
            } else if b == hole {
                assert(a != i);
                if self.key_at(a) == y {
                    assert(mid.key_at(a) == mid.key_at(i));
                }
            } else {
                assert(mid.key_at(a) == self.key_at(a) && mid.key_at(b) == self.key_at(b));
            }
        }

        // The removed key is still gone.
        assert forall|x: int| !self.holds(k, x) by {
            if self.holds(k, x) {
                if x == hole {
                    assert(mid.holds(k, i));
                } else {
                    assert(mid.holds(k, x));
                }
            }
        }
        assert(!self.has_key(k));

        // Other keys keep their bindings: the move only changes slots.
        assert forall|k2: K| k2 != k implies (#[trigger] self.has_key(k2) == pre.has_key(k2) && (
        pre.has_key(k2) ==> self.lookup(k2) == pre.lookup(k2))) by {
            if mid.has_key(k2) {
                let x = choose|x: int| mid.holds(k2, x);
                if x == i {
                    assert(self.holds(k2, hole));
                    self.lemma_lookup_at_weak(k2, hole);
                    mid.lemma_lookup_at_weak(k2, x);
                } else {
                    assert(self.holds(k2, x));
                    self.lemma_lookup_at_weak(k2, x);
                    mid.lemma_lookup_at_weak(k2, x);
                }
            }
            if self.has_key(k2) {
                let x = choose|x: int| self.holds(k2, x);
                if x == hole {
                    assert(mid.holds(k2, i));
                } else {
                    assert(mid.holds(k2, x));
                }
            }
        }

        // Untouched slots stay untouched.
        assert forall|x: int|
            0 <= x < self.cap() && self.dist(idx, x) > t + 1 implies (#[trigger] self.ht@[x])
            == pre.ht@[x] by {
            assert(x != i && self.dist(idx, x) > t);
            assert(x != hole);
        }

        // Settled entries keep full probe paths that avoid the new hole.
        assert forall|s: int|
            0 <= s < self.cap() && self.dist(idx, s) <= t + 1 && self.occ(s) implies (!self.on_path(
            self.home_of(#[trigger] self.key_at(s)),
            i,
            s,
        ) && exists|ps: int|
            0 <= ps < self.cap() && pre.holds(self.key_at(s), ps) && self.dist(
                self.home_of(self.key_at(s)),
                s,
            ) <= pre.dist(self.home_of(self.key_at(s)), ps)) by {
            if s == hole {
                assert(self.key_at(hole) == y);
                assert(self.home_of(y) == hy);
                assert(self.dist(hy, hole) < self.dist(hy, i));
                assert(!self.on_path(hy, i, hole)) by {
                    self.lemma_dist_via_base(hy, i, hole);
                }
                assert(pre.holds(y, i));
                assert(self.dist(hy, hole) <= pre.dist(hy, i));
            } else {
                assert(s != i);
                assert(self.ht@[s] == mid.ht@[s]);
                assert(self.key_at(s) == mid.key_at(s));
                assert(self.dist(idx, s) != t + 1) by {
                    if self.dist(idx, s) == t + 1 {
                        self.lemma_dist(idx, s);
                        self.lemma_dist(idx, i);
                    }
                }
                assert(mid.dist(idx, s) <= t && mid.occ(s));
                let h = mid.home_of(mid.key_at(s));
                mid.lemma_settled_safe(pre, idx, hole, t, i, s, cut);
                assert(!mid.on_path(h, i, s));
                assert(!self.on_path(self.home_of(self.key_at(s)), i, s));
            }
        }

        // The chain of old probe paths now runs over the old hole too.
        assert forall|x: int|
            0 <= x < self.cap() && self.dist(idx, x) < self.dist(idx, i)
                implies #[trigger] pre.covered_by_path(x) by {
            if self.dist(idx, x) >= self.dist(idx, hole) {
                assert(self.dist(hole, x) < self.dist(hole, i)) by {
                    self.lemma_dist_via_base(idx, hole, x);
                    self.lemma_dist_via_base(idx, hole, i);
                }
                assert(pre.on_path(hy, x, i)) by {
                    pre.lemma_dist_via_base(hole, hy, x);
                    pre.lemma_dist_via_base(hole, hy, i);
                }
            }
        }
    }


    /// When the shift stops, the table is well formed again and the
    /// final hole is a slot no probe path runs over.
    proof fn lemma_shift_exit(&self, pre: StaticMap<K, V>, k: K, idx: int, hole: int, t: int, cut: int)
        requires
            self.shift_inv(pre, k, idx, hole, t, cut),
            forall|s: int|
                0 <= s < self.cap() && self.dist(idx, s) > t && self.occ(s) ==> !self.on_path(
                    self.home_of(#[trigger] self.key_at(s)),
                    hole,
                    s,
                ),
        ensures
            self.wfc(),
    {
        assert forall|s: int|
            0 <= s < self.cap() && self.occ(s) implies self.path_occ(
            self.home_of(#[trigger] self.key_at(s)),
            s,
        ) by {
            let h = self.home_of(self.key_at(s));
            if self.dist(idx, s) <= t {
                // A settled entry: its path sits inside the old path of
                // the same key, and avoids the hole.
                let ps = choose|ps: int|
                    0 <= ps < self.cap() && pre.holds(self.key_at(s), ps) && self.dist(h, s)
                        <= pre.dist(h, ps);
                assert(pre.home_of(pre.key_at(ps)) == h);
                assert(pre.path_occ(h, ps));
                assert forall|u: int| 0 <= u < self.dist(h, s) implies self.occ(
                    #[trigger] self.slot_at(h, u),
                ) by {
                    assert(pre.occ(pre.slot_at(h, u)));
                    assert(self.slot_at(h, u) == pre.slot_at(h, u));
                    self.lemma_slot_closed(h, u);
                    self.lemma_dist_of_slot(h, u);
                    if self.slot_at(h, u) == hole {
                        assert(self.dist(h, hole) == u);
                        assert(self.on_path(h, hole, s));
                    }
                }
            } else {
                // An entry the scan never reached: its slot and path are
                // as in the old table, and its path avoids the hole.
                assert(self.ht@[s] == pre.ht@[s]);
                assert(pre.path_occ(h, s));
                assert forall|u: int| 0 <= u < self.dist(h, s) implies self.occ(
                    #[trigger] self.slot_at(h, u),
                ) by {
                    assert(pre.occ(pre.slot_at(h, u)));
                    assert(self.slot_at(h, u) == pre.slot_at(h, u));
                    self.lemma_slot_closed(h, u);
                    self.lemma_dist_of_slot(h, u);
                    if self.slot_at(h, u) == hole {
                        assert(self.dist(h, hole) == u);
                        assert(self.on_path(h, hole, s));
                    }
                }
            }
        }
        assert(self.wf());
        assert forall|s: int|
            0 <= s < self.cap() && self.occ(s) implies !self.on_path(
            self.home_of(#[trigger] self.key_at(s)),
            hole,
            s,
        ) by {}
        assert(!self.covered_by_path(hole));
    }

    /// Remove an entry from the map using an index in the hash table.
    /// On success the removed entry's value comes back, and every other
    /// key stays bound as before; removing from an empty slot fails.
    pub fn remove_idx(&mut self, idx: usize) -> (r: Result<V, Error>)
        requires
            old(self).wfc(),
            idx < old(self).cap(),
        ensures
            final(self).wfc(),
            final(self).cap() == old(self).cap(),
            !old(self).occ(idx as int) ==> (r == Err::<V, Error>(Error::NotFound) && *final(self)
                == *old(self)),
            old(self).occ(idx as int) ==> (r matches Ok(v) && v == old(self).value_at(idx as int)
                && !final(self).has_key(old(self).key_at(idx as int)) && final(self).len_spec()
                == old(self).len_spec() - 1 && Self::preserves_others(
                *old(self),
                *final(self),
                old(self).key_at(idx as int),
            )),
    {
        let cap = self.ht.len();
        let ghost pre = *old(self);
        let ghost k = pre.key_at(idx as int);
        let ghost cut = choose|c: int| 0 <= c < pre.cap() && !pre.covered_by_path(c);

        // Take the entry out, keeping its value.
        match &self.ht[idx] {
            None => {
                return Err(Error::NotFound);
            },
            Some(_) => {},
        }
        let taken = self.ht[idx].take();
        let value = match taken {
            None => {
                return Err(Error::NotFound);
            },
            Some(entry) => entry.value,
        };
        proof {
            lemma_num_occ_update(pre.ht@, idx as int, None);
            lemma_num_occ_bounds(self.ht@);
        }
        self.len = self.len - 1;
        proof {
            self.lemma_shift_init(pre, idx as int, cut);
        }

        // Shift later entries of the cluster backward so that every
        // remaining key stays on a fully occupied probe path.
        let mut hole = idx;
        let mut t: usize = 0;
        let mut i = if idx + 1 == cap {
            0
        } else {
            idx + 1
        };
        proof {
            if cap > 1 {
                self.lemma_slot_closed(idx as int, 0);
                self.lemma_slot_closed(idx as int, 1);
                self.lemma_dist_of_slot(idx as int, 1);
            }
        }
        while t < cap - 1
            invariant
                self.shift_inv(pre, k, idx as int, hole as int, t as int, cut),
                pre == *old(self),
                k == pre.key_at(idx as int),
                pre.occ(idx as int),
                value == pre.value_at(idx as int),
                cap == self.cap(),
                idx < cap,
                0 <= t <= cap - 1,
                0 <= i < cap,
                t < cap - 1 ==> (i as int == self.slot_at(idx as int, t + 1) && self.dist(
                    idx as int,
                    i as int,
                ) == t + 1),
            decreases cap - 1 - t,
        {
            let entry_home: usize;
            match &self.ht[i] {
                None => {
                    proof {
                        assert forall|s: int|
                            0 <= s < self.cap() && self.dist(idx as int, s) > t && self.occ(
                                s,
                            ) implies !self.on_path(
                            self.home_of(#[trigger] self.key_at(s)),
                            hole as int,
                            s,
                        ) by {
                            let h = self.home_of(self.key_at(s));
                            assert(s != i as int);
                            if self.on_path(h, hole as int, s) {
                                assert(self.dist(idx as int, s) != t + 1) by {
                                    self.lemma_dist(idx as int, s);
                                    self.lemma_dist(idx as int, i as int);
                                }
                                assert(self.on_path(h, i as int, s)) by {
                                    self.lemma_dist_via_base(idx as int, h, s);
                                    self.lemma_dist_via_base(idx as int, h, hole as int);
                                    self.lemma_dist_via_base(idx as int, h, i as int);
                                }
                                assert(self.ht@[s] == pre.ht@[s]);
                                assert(pre.path_occ(h, s));
                                let u = self.dist(h, i as int);
                                self.lemma_on_path_member(h, i as int, s);
                                assert(pre.occ(pre.slot_at(h, u)));
                                assert(!pre.occ(i as int));
                            }
                        }
                        self.lemma_shift_exit(pre, k, idx as int, hole as int, t as int, cut);
                    }
                    return Ok(value);
                },
                Some(entry) => {
                    let ekey = entry.key;
                    let eh = ekey.hash();
                    entry_home = (eh % (cap as u64)) as usize;
                    proof {
                        assert(self.ht@[i as int] == pre.ht@[i as int]);
                        assert(entry_home as int == self.home_of(self.key_at(i as int)));
                    }
                },
            }
            let p = entry_home;
            // Knuth's backward-shift test: move the entry unless its
            // natural slot lies cyclically inside (hole, i].
            let do_move = (i > hole && (p <= hole || p > i)) || (i < hole && (p > i && p
                <= hole));
            proof {
                assert(hole != i) by {
                    self.lemma_dist(idx as int, hole as int);
                    self.lemma_dist(idx as int, i as int);
                }
                assert(do_move == self.on_path(
                    self.home_of(self.key_at(i as int)),
                    hole as int,
                    i as int,
                ));
            }
            if do_move {
                let ghost mid = *self;
                let moved = self.ht[i].take();
                self.ht[hole] = moved;
                proof {
                    assert(self.ht@ =~= mid.ht@.update(hole as int, mid.ht@[i as int]).update(
                        i as int,
                        None,
                    ));
                    self.lemma_shift_move(
                        pre,
                        k,
                        idx as int,
                        hole as int,
                        t as int,
                        cut,
                        i as int,
                        mid,
                    );
                }
                hole = i;
            } else {
                proof {
                    self.lemma_shift_stay(
                        pre,
                        k,
                        idx as int,
                        hole as int,
                        t as int,
                        cut,
                        i as int,
                    );
                }
            }
            proof {
                if t + 1 < cap - 1 {
                    self.lemma_slot_closed(idx as int, t + 1);
                    self.lemma_slot_closed(idx as int, t + 2);
                    self.lemma_dist_of_slot(idx as int, t + 2);
                }
            }
            t = t + 1;
            i = if i + 1 == cap {
                0
            } else {
                i + 1
            };
        }
        proof {
            assert forall|s: int|
                0 <= s < self.cap() && self.dist(idx as int, s) > t && self.occ(s) implies !self.on_path(
                self.home_of(#[trigger] self.key_at(s)),
                hole as int,
                s,
            ) by {
                self.lemma_dist(idx as int, s);
            }
            self.lemma_shift_exit(pre, k, idx as int, hole as int, t as int, cut);
        }
        Ok(value)
    }

    /// Remove an entry from the map using a key. Fails when the map does
    /// not hold the key.
    pub fn remove(&mut self, key: K) -> (r: Result<V, Error>)
        requires
            old(self).wfc(),
        ensures
            final(self).wfc(),
            final(self).cap() == old(self).cap(),
            !old(self).has_key(key) ==> (r == Err::<V, Error>(Error::NotFound) && *final(self)
                == *old(self)),
            old(self).has_key(key) ==> (r matches Ok(v) && old(self).maps_to(key, v) && v == old(
                self,
            ).lookup(key) && !final(self).has_key(key) && final(self).len_spec() == old(
                self,
            ).len_spec() - 1 && Self::preserves_others(*old(self), *final(self), key)),
    {
        let idx = match self.find_idx(key) {
            Some(v) => v,
            None => {
                return Err(Error::NotFound);
            },
        };
        proof {
            self.lemma_lookup_at(key, idx as int);
        }
        self.remove_idx(idx)
    }

    /// Create an empty [`StaticMap`] whose table has `capacity` slots.
    pub fn new(capacity: usize) -> (r: StaticMap<K, V>)
        requires
            capacity >= 1,
            K::obeys_eq_spec(),
            forall|a: K, b: K| #[trigger] a.eq_spec(&b) <==> a == b,
        ensures
            r.wfc(),
            r.cap() == capacity,
            r.len_spec() == 0,
            forall|k: K| !r.has_key(k),
    {
        let mut ht: Vec<Option<StaticMapEntry<K, V>>> = Vec::new();
        let mut i: usize = 0;
        while i < capacity
            invariant
                0 <= i <= capacity,
                ht@.len() == i,
                forall|j: int| 0 <= j < i ==> ht@[j] is None,
                num_occ(ht@) == 0,
            decreases capacity - i,
        {
            let ghost pre = ht@;
            ht.push(None);
            proof {
                assert(ht@.drop_last() =~= pre);
            }
            i = i + 1;
        }
        let r = StaticMap { len: 0, ht };
        proof {
            assert forall|k: K| !r.has_key(k) by {
                if r.has_key(k) {
                    let s = choose|s: int| r.holds(k, s);
                    assert(r.occ(s));
                }
            }
            r.lemma_nonfull_wfc();
        }
        r
    }

    /// Return the number of elements in the map.
    pub fn len(&self) -> (r: usize)
        ensures
            r == self.len_spec(),
    {
        self.len
    }

    /// Find a key in the map. If the map holds it, return the position
    /// of its slot in the hash table; otherwise return `None`.
    pub fn find_idx(&self, key: K) -> (r: Option<usize>)
        requires
            self.wfc(),
        ensures
            match r {
                Some(i) => self.holds(key, i as int),
                None => !self.has_key(key),
            },
    {
        let cap = self.ht.len();
        let h = key.hash();
        let pos = (h % (cap as u64)) as usize;
        let mut i = pos;
        let mut t: usize = 0;
        proof {
            self.lemma_slot_closed(pos as int, 0);
        }
        while t < cap
            invariant
                self.wf(),
                0 <= t <= cap,
                cap == self.cap(),
                pos == self.home_of(key),
                0 <= pos < cap,
                0 <= i < cap,
                i == self.slot_at(pos as int, t as int),
                forall|u: int|
                    0 <= u < t ==> self.occ(#[trigger] self.slot_at(pos as int, u))
                        && self.key_at(self.slot_at(pos as int, u)) != key,
            decreases cap - t,
        {
            let mut occupied_key_matches = false;
            match &self.ht[i] {
                None => {
                    proof {
                        self.lemma_absent_when_path_empty(key, pos as int, t as int);
                    }
                    return None;
                },
                Some(entry) => {
                    occupied_key_matches = key == entry.key;
                },
            }
            if occupied_key_matches {
                return Some(i);
            }
            proof {
                self.lemma_slot_closed(pos as int, t as int);
                self.lemma_slot_closed(pos as int, t + 1 as int);
            }
            t = t + 1;
            i = if i + 1 == cap {
                0
            } else {
                i + 1
            };
        }
        proof {
            self.lemma_absent_when_all_probed(key, pos as int);
        }
        None
    }

    /// Find a key in the map. If the map holds it, return a reference to
    /// the value of its entry; otherwise return `None`.
    pub fn find(&self, key: K) -> (r: Option<&V>)
        requires
            self.wfc(),
        ensures
            match r {
                Some(v) => self.maps_to(key, *v) && *v == self.lookup(key) && self.has_key(key),
                None => !self.has_key(key),
            },
    {
        match self.find_idx(key) {
            None => None,
            Some(idx) => {
                proof {
                    self.lemma_lookup_at(key, idx as int);
                }
                match &self.ht[idx] {
                    Some(entry) => Some(&entry.value),
                    None => None,
                }
            },
        }
    }

    /// Insert a key into the map with a value. On success return the
    /// position of the slot that took the entry. Inserting a key the map
    /// already holds fails, and so does inserting into a full map.
    #[verifier::rlimit(50)]
    #[verifier::spinoff_prover]
    pub fn insert(&mut self, key: K, value: V) -> (r: Result<usize, Error>)
        requires
            old(self).wfc(),
        ensures
            final(self).wfc(),
            final(self).cap() == old(self).cap(),
            old(self).has_key(key) ==> (r == Err::<usize, Error>(Error::DuplicateKey) && *final(self) == *old(self)),
            (!old(self).has_key(key) && old(self).len_spec() == old(self).cap()) ==> (r == Err::<
                usize,
                Error,
            >(Error::MapFull) && *final(self) == *old(self)),
            (!old(self).has_key(key) && old(self).len_spec() < old(self).cap()) ==> (r is Ok
                && final(self).len_spec() == old(self).len_spec() + 1 && final(self).maps_to(
                key,
                value,
            ) && final(self).has_key(key) && final(self).lookup(key) == value && final(self).holds(
                key,
                r.unwrap() as int,
            )),
            Self::preserves_others(*old(self), *final(self), key),
    {
        let cap = self.ht.len();
        let h = key.hash();
        let pos = (h % (cap as u64)) as usize;
        let mut i = pos;
        let mut t: usize = 0;
        proof {
            self.lemma_slot_closed(pos as int, 0);
        }
        while t < cap
            invariant
                self.wf(),
                old(self).wfc(),
                *self == *old(self),
                0 <= t <= cap,
                cap == self.cap(),
                pos == self.home_of(key),
                0 <= pos < cap,
                0 <= i < cap,
                i == self.slot_at(pos as int, t as int),
                forall|u: int|
                    0 <= u < t ==> self.occ(#[trigger] self.slot_at(pos as int, u))
                        && self.key_at(self.slot_at(pos as int, u)) != key,
            decreases cap - t,
        {
            let mut occupied_key_matches = false;
            match &self.ht[i] {
                None => {
                    // An empty slot takes the new entry.
                    proof {
                        self.lemma_absent_when_path_empty(key, pos as int, t as int);
                        lemma_num_occ_bounds(self.ht@);
                        assert(num_occ(self.ht@) < self.cap());
                        lemma_num_occ_update(
                            self.ht@,
                            i as int,
                            Some(StaticMapEntry { key, value }),
                        );
                    }
                    let ghost pre = *self;
                    self.ht[i] = Some(StaticMapEntry { key, value });
                    self.len = self.len + 1;
                    proof {
                        self.lemma_after_insert(pre, key, value, pos as int, t as int, i as int);
                        assert(pre == *old(self));
                        if self.len_spec() < self.cap() {
                            self.lemma_nonfull_wfc();
                        } else {
                            self.lemma_full_cut(pre, i as int);
                            assert(0 <= (i as int) && (i as int) < self.cap() && !self.covered_by_path(i as int));
                        }
                    }
                    return Ok(i);
                },
                Some(entry) => {
                    occupied_key_matches = key == entry.key;
                },
            }
            if occupied_key_matches {
                // The key is already in the map.
                proof {
                    assert(self.holds(key, i as int));
                }
                return Err(Error::DuplicateKey);
            }
            proof {
                self.lemma_slot_closed(pos as int, t as int);
                self.lemma_slot_closed(pos as int, t + 1 as int);
            }
            t = t + 1;
            i = if i + 1 == cap {
                0
            } else {
                i + 1
            };
        }
        proof {
            self.lemma_absent_when_all_probed(key, pos as int);
        }
        Err(Error::MapFull)
    }

    /// What holds after writing a fresh entry into an empty slot at the
    /// end of its probe path.
    proof fn lemma_after_insert(&self, pre: StaticMap<K, V>, key: K, value: V, pos: int, t: int, i: int)
        requires
            pre.wf(),
            !pre.has_key(key),
            pos == pre.home_of(key),
            0 <= pos < pre.cap(),
            0 <= t < pre.cap(),
            i == pre.slot_at(pos, t),
            forall|u: int|
                0 <= u < t ==> pre.occ(#[trigger] pre.slot_at(pos, u)) && pre.key_at(
                    pre.slot_at(pos, u),
                ) != key,
            !pre.occ(i),
            self.ht@ == pre.ht@.update(i, Some(StaticMapEntry { key, value })),
            self.len_spec() == num_occ(self.ht@),
        ensures
            self.wf(),
            self.len_spec() == pre.len_spec() + 1,
            self.holds(key, i),
            self.maps_to(key, value),
            Self::preserves_others(pre, *self, key),
    {
        pre.lemma_slot_closed(pos, t);
        assert(0 <= i < pre.cap());
        assert(self.cap() == pre.cap());
        assert(forall|s: int| 0 <= s < self.cap() && s != i ==> self.ht@[s] == pre.ht@[s]);
        lemma_num_occ_update(pre.ht@, i, Some(StaticMapEntry { key, value }));

        // The new entry's probe path is the probed prefix, which was
        // fully occupied.
        assert(self.dist(pos, i) == t) by {
            pre.lemma_slot_closed(pos, t);
        }
        assert forall|u: int| 0 <= u < self.dist(pos, i) implies self.occ(
            #[trigger] self.slot_at(pos, u),
        ) by {
            assert(self.slot_at(pos, u) == pre.slot_at(pos, u));
            assert(pre.occ(pre.slot_at(pos, u)));
        }

        // Probe paths of other entries only see more occupancy.
        assert forall|s: int|
            0 <= s < self.cap() && self.occ(s) implies self.path_occ(
            self.home_of(#[trigger] self.key_at(s)),
            s,
        ) by {
            if s == i {
                assert(self.key_at(i) == key);
                assert(self.home_of(key) == pos);
            } else {
                assert(pre.occ(s));
                assert(self.key_at(s) == pre.key_at(s));
                assert(pre.path_occ(pre.home_of(pre.key_at(s)), s));
                let hm = pre.home_of(pre.key_at(s));
                assert forall|u: int|
                    0 <= u < self.dist(hm, s) implies self.occ(#[trigger] self.slot_at(hm, u)) by {
                    assert(self.slot_at(hm, u) == pre.slot_at(hm, u));
                    assert(pre.occ(pre.slot_at(hm, u)));
                }
                assert(self.home_of(self.key_at(s)) == hm);
            }
        }

        // Keys stay distinct: the new key was nowhere in the table.
        assert forall|a: int, b: int|
            0 <= a < b < self.cap() && self.occ(a) && self.occ(b) implies self.key_at(a)
            != self.key_at(b) by {
            if a != i && b != i {
                assert(pre.key_at(a) != pre.key_at(b));
            } else if a == i {
                if pre.key_at(b) == key {
                    assert(pre.holds(key, b));
                }
            } else {
                if pre.key_at(a) == key {
                    assert(pre.holds(key, a));
                }
            }
        }
        assert(self.wf());

        self.lemma_lookup_at(key, i);
        assert forall|k2: K| k2 != key implies (#[trigger] self.has_key(k2) == pre.has_key(k2) && (
        pre.has_key(k2) ==> self.lookup(k2) == pre.lookup(k2))) by {
            assert(forall|s: int| s != i ==> self.holds(k2, s) == pre.holds(k2, s));
            if pre.has_key(k2) {
                let s = choose|s: int| pre.holds(k2, s);
                assert(self.holds(k2, s));
                self.lemma_lookup_at(k2, s);
                pre.lemma_lookup_at(k2, s);
            }
            if self.has_key(k2) {
                let s = choose|s: int| self.holds(k2, s);
                assert(s != i);
                assert(pre.holds(k2, s));
            }
        }
        assert(Self::preserves_others(pre, *self, key));
    }
}

} // verus!
