//! A fixed-capacity doubly linked list over a slot array. Handles to
//! elements stay valid however much unrelated traffic the list sees,
//! because an element never changes its slot.

use vstd::prelude::*;

use crate::util::weak_rng::WeakRng;

verus! {

/// The error type for [`StaticList`].
#[derive(Debug, PartialEq, Eq, Structural)]
pub enum Error {
    ListFull,
}

/// An entry in [`StaticList`].
struct StaticListElement<T> {
    // The item that this element holds.
    item: T,
    // The link to the previous element.
    prev: Option<usize>,
    // The link to the next element.
    next: Option<usize>,
}

/// A reference used by external users to refer to items in the list.
/// It carries the identity of the list it came from, so that using it
/// against another list is outside every contract.
pub struct StaticListRef {
    // The index to which this reference refers.
    index: usize,
    // The identity of the list this reference belongs to.
    brand: Ghost<int>,
}

/// The number of occupied slots.
spec fn num_some<T>(s: Seq<Option<StaticListElement<T>>>) -> int
    decreases s.len(),
{
    if s.len() == 0 {
        0
    } else {
        num_some(s.drop_last()) + if s.last() is Some {
            1int
        } else {
            0int
        }
    }
}

proof fn lemma_num_some_bounds<T>(s: Seq<Option<StaticListElement<T>>>)
    ensures
        0 <= num_some(s) <= s.len(),
        num_some(s) < s.len() ==> exists|i: int| 0 <= i < s.len() && s[i] is None,
        forall|i: int| 0 <= i < s.len() && (#[trigger] s[i]) is None ==> num_some(s) < s.len(),
    decreases s.len(),
{
    if s.len() > 0 {
        lemma_num_some_bounds(s.drop_last());
        if num_some(s) < s.len() {
            if s.last() is None {
                assert(s[s.len() - 1] is None);
            } else {
                let i = choose|i: int| 0 <= i < s.len() - 1 && s.drop_last()[i] is None;
                assert(s[i] is None);
            }
        }
        assert forall|i: int| 0 <= i < s.len() && (#[trigger] s[i]) is None implies num_some(s)
            < s.len() by {
            if i < s.len() - 1 {
                assert(s.drop_last()[i] is None);
            }
        }
    }
}

proof fn lemma_num_some_update<T>(
    s: Seq<Option<StaticListElement<T>>>,
    i: int,
    v: Option<StaticListElement<T>>,
)
    requires
        0 <= i < s.len(),
    ensures
        num_some(s.update(i, v)) == num_some(s) + (if v is Some {
            1int
        } else {
            0int
        }) - (if s[i] is Some {
            1int
        } else {
            0int
        }),
    decreases s.len(),
{
    let t = s.update(i, v);
    if s.len() > 0 {
        if i == s.len() - 1 {
            assert(t.drop_last() =~= s.drop_last());
        } else {
            assert(t.drop_last() =~= s.drop_last().update(i, v));
            lemma_num_some_update(s.drop_last(), i, v);
        }
    }
}

/// The structure that is used when you don't want to allocate memory in
/// the heap while the kernel runs: the whole slot array is laid out at
/// construction.
pub struct StaticList<T> {
    // The buffer that stores all slots.
    buf: Vec<Option<StaticListElement<T>>>,
    // The number generator for finding an empty slot.
    wrng: WeakRng,
    // The head index of the list.
    head: Option<usize>,
    // The length of the list.
    len: usize,
    // The identity that brands the references this list hands out.
    brand: Ghost<int>,
}

impl StaticListRef {
    /// The slot this reference refers to.
    pub closed spec fn index_spec(&self) -> int {
        self.index as int
    }

    /// The identity of the list this reference belongs to.
    pub closed spec fn brand_spec(&self) -> int {
        self.brand@
    }
}

impl<T> StaticList<T> {
    /// The identity that brands this list's references.
    pub closed spec fn brand_spec(&self) -> int {
        self.brand@
    }

    /// The fixed capacity.
    pub closed spec fn cap(&self) -> int {
        self.buf@.len() as int
    }

    /// The number of items, as contracts see it.
    pub closed spec fn len_spec(&self) -> int {
        self.len as int
    }

    /// Whether slot `i` holds an element.
    pub closed spec fn occ(&self, i: int) -> bool {
        0 <= i < self.cap() && self.buf@[i] is Some
    }

    /// The item held in slot `i`.
    pub closed spec fn item_at(&self, i: int) -> T {
        self.buf@[i].unwrap().item
    }

    /// The forward link of slot `i`.
    spec fn next_of(&self, i: int) -> Option<usize> {
        self.buf@[i].unwrap().next
    }

    /// The backward link of slot `i`.
    spec fn prev_of(&self, i: int) -> Option<usize> {
        self.buf@[i].unwrap().prev
    }

    /// Well-formedness: `len` counts the occupied slots, the head is an
    /// occupied slot without a predecessor, and forward and backward
    /// links agree.
    pub closed spec fn wf(&self) -> bool {
        &&& self.len_spec() == num_some(self.buf@)
        &&& match self.head {
            Some(h) => 0 <= h < self.cap() && self.occ(h as int) && self.prev_of(h as int) is None,
            None => true,
        }
        &&& forall|i: int|
            0 <= i < self.cap() && self.occ(i) ==> match #[trigger] self.next_of(i) {
                Some(j) => 0 <= j < self.cap() && self.occ(j as int) && self.prev_of(j as int)
                    == Some(i as usize),
                None => true,
            }
        &&& forall|i: int|
            0 <= i < self.cap() && self.occ(i) ==> match #[trigger] self.prev_of(i) {
                Some(j) => 0 <= j < self.cap() && self.occ(j as int) && self.next_of(j as int)
                    == Some(i as usize),
                None => self.head == Some(i as usize),
            }
    }

    /// Between two list states, every slot but `index` holds the same.
    pub open spec fn same_but(pre: StaticList<T>, post: StaticList<T>, index: int) -> bool {
        &&& post.cap() == pre.cap()
        &&& forall|j: int|
            0 <= j < pre.cap() && j != index ==> ((#[trigger] post.occ(j)) == pre.occ(j) && (
            pre.occ(j) ==> post.item_at(j) == pre.item_at(j)))
    }

    /// Well-formedness only reads the buffer, the head and the length.
    proof fn lemma_wf_same(a: &StaticList<T>, b: &StaticList<T>)
        requires
            a.wf(),
            b.buf@ == a.buf@,
            b.head == a.head,
            b.len == a.len,
        ensures
            b.wf(),
    {
        assert forall|i: int|
            0 <= i < b.cap() && b.occ(i) implies match #[trigger] b.next_of(i) {
            Some(j) => 0 <= j < b.cap() && b.occ(j as int) && b.prev_of(j as int) == Some(
                i as usize,
            ),
            None => true,
        } by {
            assert(a.occ(i) && b.next_of(i) == a.next_of(i));
        }
        assert forall|i: int|
            0 <= i < b.cap() && b.occ(i) implies match #[trigger] b.prev_of(i) {
            Some(j) => 0 <= j < b.cap() && b.occ(j as int) && b.next_of(j as int) == Some(
                i as usize,
            ),
            None => b.head == Some(i as usize),
        } by {
            assert(a.occ(i) && b.prev_of(i) == a.prev_of(i));
        }
    }

    /// Create an empty [`StaticList`] with the given capacity.
    pub fn new(capacity: usize) -> (r: StaticList<T>)
        ensures
            r.wf(),
            r.cap() == capacity,
            r.len_spec() == 0,
            r.brand_spec() == 0,
            forall|i: int| !r.occ(i),
    {
        Self::with_brand(capacity, Ghost(0))
    }

    /// Create an empty [`StaticList`] carrying the given identity. A
    /// caller that owns several lists can give each its own, and the
    /// contracts then refuse a reference of one list on another.
    pub fn with_brand(capacity: usize, brand: Ghost<int>) -> (r: StaticList<T>)
        ensures
            r.wf(),
            r.cap() == capacity,
            r.len_spec() == 0,
            r.brand_spec() == brand@,
            forall|i: int| !r.occ(i),
    {
        let mut buf: Vec<Option<StaticListElement<T>>> = Vec::new();
        let mut i: usize = 0;
        while i < capacity
            invariant
                0 <= i <= capacity,
                buf@.len() == i,
                forall|j: int| 0 <= j < i ==> buf@[j] is None,
                num_some(buf@) == 0,
            decreases capacity - i,
        {
            let ghost pre = buf@;
            buf.push(None);
            proof {
                assert(buf@.drop_last() =~= pre);
            }
            i = i + 1;
        }
        StaticList { buf, wrng: WeakRng::new(), head: None, len: 0, brand }
    }

    /// Occupied slots lie inside the buffer.
    pub proof fn lemma_occ_in_range(&self)
        ensures
            forall|i: int| #[trigger] self.occ(i) ==> 0 <= i < self.cap(),
    {
    }

    /// An empty list has no occupied slot.
    pub proof fn lemma_empty_no_occ(&self)
        requires
            self.wf(),
            self.len_spec() == 0,
        ensures
            forall|i: int| !(#[trigger] self.occ(i)),
    {
        assert forall|i: int| !(#[trigger] self.occ(i)) by {
            if self.occ(i) {
                lemma_num_some_update(self.buf@, i, None);
                lemma_num_some_bounds(self.buf@.update(i, None));
            }
        }
    }

    /// The length is never negative.
    pub proof fn lemma_len_nonneg(&self)
        ensures
            self.len_spec() >= 0,
    {
    }

    /// Return the length of the list.
    pub fn len(&self) -> (r: usize)
        ensures
            r == self.len_spec(),
    {
        self.len
    }

    /// Find an empty slot in the list buffer. A weak random number
    /// generator proposes slots so that, in expectation, placement does
    /// not cluster; a bounded number of draws keeps the search finite,
    /// and a sweep over the buffer serves as the fallback.
    fn find_empty_slot(&mut self) -> (r: Result<usize, Error>)
        requires
            old(self).wf(),
        ensures
            final(self).wf(),
            final(self).buf@ == old(self).buf@,
            final(self).head == old(self).head,
            final(self).len_spec() == old(self).len_spec(),
            final(self).brand_spec() == old(self).brand_spec(),
            old(self).len_spec() == old(self).cap() ==> (r == Err::<usize, Error>(Error::ListFull)
                && *final(self) == *old(self)),
            old(self).len_spec() < old(self).cap() ==> (r matches Ok(i) && i < old(self).cap()
                && !old(self).occ(i as int)),
    {
        let cap = self.buf.len();
        // If the list is already full, no element can be added to it.
        if self.len >= cap {
            proof {
                lemma_num_some_bounds(self.buf@);
            }
            return Err(Error::ListFull);
        }
        // Try a bounded number of random draws.
        let mut attempt: usize = 0;
        while attempt < cap
            invariant
                self.wf(),
                self.buf@ == old(self).buf@,
                self.head == old(self).head,
                self.len_spec() == old(self).len_spec(),
                self.brand_spec() == old(self).brand_spec(),
                cap == self.cap(),
                self.len_spec() < self.cap(),
            decreases cap - attempt,
        {
            let ghost before_draw = *self;
            let random_index = (self.wrng.next() as usize) % cap;
            proof {
                Self::lemma_wf_same(&before_draw, self);
            }
            if random_index < cap {
                let is_empty = match &self.buf[random_index] {
                    None => true,
                    Some(_) => false,
                };
                if is_empty {
                    proof {
                        assert(self.wf());
                        assert(!self.occ(random_index as int));
                    }
                    return Ok(random_index);
                }
            }
            attempt = attempt + 1;
        }
        // Fall back to the first empty slot.
        proof {
            lemma_num_some_bounds(self.buf@);
        }
        let mut j: usize = 0;
        while j < cap
            invariant
                self.wf(),
                self.buf@ == old(self).buf@,
                self.head == old(self).head,
                self.len_spec() == old(self).len_spec(),
                self.brand_spec() == old(self).brand_spec(),
                cap == self.cap(),
                self.len_spec() < self.cap(),
                0 <= j <= cap,
                forall|x: int| 0 <= x < j ==> #[trigger] self.occ(x),
            decreases cap - j,
        {
            let is_empty = match &self.buf[j] {
                None => true,
                Some(_) => false,
            };
            if is_empty {
                return Ok(j);
            }
            j = j + 1;
        }
        proof {
            assert forall|x: int| 0 <= x < self.buf@.len() implies (#[trigger] self.buf@[x])
                is Some by {
                assert(self.occ(x));
            }
            lemma_num_some_bounds(self.buf@);
            assert(false);
        }
        Err(Error::ListFull)
    }

    /// Get an item through a reference.
    pub fn get(&self, refer: &StaticListRef) -> (r: &T)
        requires
            self.wf(),
            refer.brand_spec() == self.brand_spec(),
            self.occ(refer.index_spec()),
        ensures
            *r == self.item_at(refer.index_spec()),
    {
        let element = self.buf[refer.index].as_ref().unwrap();
        &element.item
    }

    /// Push a new element onto the front of the list. The returned
    /// reference stays valid until the element is removed, however much
    /// the rest of the list changes.
    pub fn push(&mut self, item: T) -> (r: Result<StaticListRef, Error>)
        requires
            old(self).wf(),
        ensures
            final(self).wf(),
            final(self).cap() == old(self).cap(),
            final(self).brand_spec() == old(self).brand_spec(),
            old(self).len_spec() == old(self).cap() ==> (r == Err::<StaticListRef, Error>(
                Error::ListFull,
            ) && *final(self) == *old(self)),
            old(self).len_spec() < old(self).cap() ==> (r matches Ok(refer)
                && refer.brand_spec() == old(self).brand_spec() && 0 <= refer.index_spec() < old(
                self,
            ).cap() && !old(self).occ(refer.index_spec()) && final(self).occ(refer.index_spec())
                && final(self).item_at(refer.index_spec()) == item && final(self).len_spec()
                == old(self).len_spec() + 1 && Self::same_but(
                *old(self),
                *final(self),
                refer.index_spec(),
            )),
    {
        let cap = self.buf.len();
        proof {
            lemma_num_some_bounds(self.buf@);
        }
        // Find a new empty slot in the list.
        let new_slot_index = match self.find_empty_slot() {
            Ok(v) => v,
            Err(e) => {
                return Err(e);
            },
        };

        let mut new_element = StaticListElement { item, prev: None, next: None };

        // Link the new element in front of the old head.
        let old_head = self.head;
        match old_head {
            Some(h) => {
                new_element.next = Some(h);
                let ghost pre_buf = self.buf@;
                let taken = self.buf[h].take();
                match taken {
                    Some(mut head_element) => {
                        head_element.prev = Some(new_slot_index);
                        self.buf[h] = Some(head_element);
                    },
                    None => {},
                }
                proof {
                    lemma_num_some_update(pre_buf, h as int, None);
                    lemma_num_some_update(
                        pre_buf.update(h as int, None),
                        h as int,
                        self.buf@[h as int],
                    );
                    assert(num_some(self.buf@) == num_some(pre_buf));
                    assert(self.buf@[h as int].unwrap().next == pre_buf[h as int].unwrap().next);
                    assert(self.buf@[h as int].unwrap().item == pre_buf[h as int].unwrap().item);
                    assert(self.buf@[h as int].unwrap().prev == Some(new_slot_index));
                    assert(forall|x: int|
                        0 <= x < self.cap() && x != h as int ==> (#[trigger] self.buf@[x])
                            == pre_buf[x]);
                }
            },
            None => {},
        }
        self.head = Some(new_slot_index);

        let ghost mid_buf = self.buf@;
        self.buf[new_slot_index] = Some(new_element);
        self.len = self.len + 1;
        proof {
            let ni = new_slot_index as int;
            lemma_num_some_update(mid_buf, ni, self.buf@[ni]);
            assert(self.occ(ni) && self.next_of(ni) == old_head && self.prev_of(ni) is None);
            assert(forall|x: int|
                0 <= x < self.cap() && x != ni ==> (#[trigger] self.buf@[x]) == mid_buf[x]);
            if old_head is Some {
                let h = old_head.unwrap() as int;
                assert(old(self).occ(h));
                assert(h != ni);
                assert(self.buf@[h] == mid_buf[h]);
                assert(self.occ(h));
                assert(self.prev_of(h) == Some(new_slot_index));
                assert(self.next_of(h) == old(self).next_of(h));
                assert(self.item_at(h) == old(self).item_at(h));
            }
            assert forall|i: int|
                0 <= i < self.cap() && self.occ(i) implies match #[trigger] self.next_of(i) {
                Some(j) => 0 <= j < self.cap() && self.occ(j as int) && self.prev_of(j as int)
                    == Some(i as usize),
                None => true,
            } by {
                if i != ni {
                    assert(old(self).occ(i) && self.next_of(i) == old(self).next_of(i));
                    if old(self).next_of(i) is Some {
                        let j = old(self).next_of(i).unwrap() as int;
                        assert(j != ni);
                        if old_head == Some(j as usize) {
                            assert(self.prev_of(j) == Some(new_slot_index));
                            assert(old(self).prev_of(j) is None);
                            assert(old(self).head == Some(j as usize));
                            assert(false);
                        } else {
                            assert(self.prev_of(j) == old(self).prev_of(j));
                        }
                    }
                } else {
                    if old_head is Some {
                        let h = old_head.unwrap() as int;
                        assert(self.occ(h) && self.prev_of(h) == Some(new_slot_index));
                    }
                }
            }
            assert forall|i: int|
                0 <= i < self.cap() && self.occ(i) implies match #[trigger] self.prev_of(i) {
                Some(j) => 0 <= j < self.cap() && self.occ(j as int) && self.next_of(j as int)
                    == Some(i as usize),
                None => self.head == Some(i as usize),
            } by {
                if i != ni {
                    assert(old(self).occ(i));
                    if old_head == Some(i as usize) {
                        assert(self.prev_of(i) == Some(new_slot_index));
                        assert(self.next_of(ni) == old_head);
                    } else {
                        assert(self.prev_of(i) == old(self).prev_of(i));
                        if old(self).prev_of(i) is Some {
                            let j = old(self).prev_of(i).unwrap() as int;
                            assert(j != ni);
                            assert(self.next_of(j) == old(self).next_of(j));
                        } else {
                            assert(old(self).head == Some(i as usize));
                            assert(false);
                        }
                    }
                }
            }
        }
        Ok(StaticListRef { index: new_slot_index, brand: Ghost(self.brand@) })
    }

    /// Remove a specific element from the list, consuming the reference,
    /// and return the item it held. Every other element stays in its
    /// slot.
    pub fn remove(&mut self, refer: StaticListRef) -> (r: T)
        requires
            old(self).wf(),
            refer.brand_spec() == old(self).brand_spec(),
            old(self).occ(refer.index_spec()),
        ensures
            final(self).wf(),
            final(self).cap() == old(self).cap(),
            final(self).brand_spec() == old(self).brand_spec(),
            r == old(self).item_at(refer.index_spec()),
            !final(self).occ(refer.index_spec()),
            final(self).len_spec() == old(self).len_spec() - 1,
            Self::same_but(*old(self), *final(self), refer.index_spec()),
    {
        let index = refer.index;
        let cap = self.buf.len();
        let ghost pre = *old(self);
        let taken = self.buf[index].take();
        let element = taken.unwrap();
        proof {
            assert(element == pre.buf@[index as int].unwrap());
            assert(element.prev == pre.prev_of(index as int));
            assert(element.next == pre.next_of(index as int));
            lemma_num_some_update(pre.buf@, index as int, None);
            lemma_num_some_bounds(self.buf@);
        }
        self.len = self.len - 1;

        // If the head is being removed, its successor takes over.
        match self.head {
            Some(v) => {
                if v == index {
                    self.head = element.next;
                }
            },
            None => {},
        }

        // Fix the linking chain around the removed element.
        let elem_prev = element.prev;
        let elem_next = element.next;
        if let Some(prev) = elem_prev {
            proof {
                assert(pre.prev_of(index as int) == Some(prev));
                assert(pre.occ(prev as int));
            }
            let ghost mid = self.buf@;
            let taken_prev = self.buf[prev].take();
            match taken_prev {
                Some(mut prev_element) => {
                    prev_element.next = elem_next;
                    self.buf[prev] = Some(prev_element);
                },
                None => {},
            }
            proof {
                lemma_num_some_update(mid, prev as int, None);
                lemma_num_some_update(mid.update(prev as int, None), prev as int, self.buf@[
                prev as int]);
            }
        }
        if let Some(next) = elem_next {
            proof {
                assert(pre.next_of(index as int) == Some(next));
                assert(pre.occ(next as int));
            }
            let ghost mid = self.buf@;
            let taken_next = self.buf[next].take();
            match taken_next {
                Some(mut next_element) => {
                    next_element.prev = elem_prev;
                    self.buf[next] = Some(next_element);
                },
                None => {},
            }
            proof {
                lemma_num_some_update(mid, next as int, None);
                lemma_num_some_update(mid.update(next as int, None), next as int, self.buf@[
                next as int]);
            }
        }
        proof {
            let pi = index as int;
            // What each slot holds after the splice.
            assert(!self.occ(pi));
            if elem_prev is Some && elem_prev != Some(index) {
                let p = elem_prev.unwrap() as int;
                assert(self.occ(p));
                assert(self.next_of(p) == elem_next);
                assert(self.item_at(p) == pre.item_at(p));
                if elem_next == elem_prev {
                    assert(self.prev_of(p) == elem_prev);
                } else {
                    assert(self.prev_of(p) == pre.prev_of(p));
                }
            }
            if elem_next is Some && elem_next != Some(index) {
                let n = elem_next.unwrap() as int;
                assert(self.occ(n));
                assert(self.prev_of(n) == elem_prev);
                assert(self.item_at(n) == pre.item_at(n));
                if elem_prev == elem_next {
                    assert(self.next_of(n) == elem_next);
                } else {
                    assert(self.next_of(n) == pre.next_of(n));
                }
            }
            if elem_prev == Some(index) || elem_next == Some(index) {
                // A looped element only referred to itself.
                assert(pre.next_of(pi) is Some && pre.prev_of(pi) is Some);
                assert(elem_prev == Some(index) && elem_next == Some(index)) by {
                    if elem_prev == Some(index) {
                        assert(pre.next_of(pi) == Some(index));
                    }
                    if elem_next == Some(index) {
                        assert(pre.prev_of(pi) == Some(index));
                    }
                }
            }
            assert(forall|x: int|
                0 <= x < self.cap() && x != pi && Some(x as usize) != elem_prev && Some(x as usize)
                    != elem_next ==> (#[trigger] self.buf@[x]) == pre.buf@[x]);
            assert forall|i: int|
                0 <= i < self.cap() && self.occ(i) implies match #[trigger] self.next_of(i) {
                Some(j) => 0 <= j < self.cap() && self.occ(j as int) && self.prev_of(j as int)
                    == Some(i as usize),
                None => true,
            } by {
                assert(i != pi);
                assert(pre.occ(i));
                if elem_prev == Some(i as usize) {
                    assert(elem_prev != Some(index));
                    assert(elem_prev.unwrap() as int == i);
                    assert(self.next_of(i) == elem_next);
                    if elem_next is Some {
                        let n = elem_next.unwrap() as int;
                        assert(n != pi) by {
                            if n == pi {
                                assert(elem_next == Some(index));
                                assert(pre.prev_of(pi) == Some(index));
                                assert(elem_prev == Some(index));
                            }
                        }
                        assert(elem_next != Some(index));
                        assert(self.occ(n) && self.prev_of(n) == elem_prev);
                    }
                } else {
                    assert(self.next_of(i) == pre.next_of(i));
                    if pre.next_of(i) is Some {
                        let j = pre.next_of(i).unwrap() as int;
                        assert(pre.occ(j) && pre.prev_of(j) == Some(i as usize));
                        assert(j != pi) by {
                            if j == pi {
                                assert(pre.prev_of(pi) == Some(i as usize));
                            }
                        }
                        if elem_next == Some(j as usize) {
                            assert(pre.prev_of(j) == Some(i as usize));
                            assert(pre.occ(pi));
                            assert(pre.next_of(pi) == Some(j as usize));
                            assert(pre.prev_of(j) == Some(index));
                            assert(i as usize == index);
                            assert(i == pi);
                            assert(false);
                        } else {
                            assert(self.prev_of(j) == pre.prev_of(j));
                        }
                    }
                }
            }
            assert forall|i: int|
                0 <= i < self.cap() && self.occ(i) implies match #[trigger] self.prev_of(i) {
                Some(j) => 0 <= j < self.cap() && self.occ(j as int) && self.next_of(j as int)
                    == Some(i as usize),
                None => self.head == Some(i as usize),
            } by {
                assert(i != pi);
                assert(pre.occ(i));
                if elem_next == Some(i as usize) {
                    assert(self.prev_of(i) == elem_prev);
                    if elem_prev is Some {
                        let p = elem_prev.unwrap() as int;
                        assert(p != pi);
                        assert(self.occ(p) && self.next_of(p) == elem_next);
                    } else {
                        assert(pre.prev_of(pi) is None);
                        assert(pre.head == Some(index));
                        assert(self.head == elem_next);
                    }
                } else {
                    assert(self.prev_of(i) == pre.prev_of(i));
                    if pre.prev_of(i) is Some {
                        let j = pre.prev_of(i).unwrap() as int;
                        assert(pre.occ(j) && pre.next_of(j) == Some(i as usize));
                        assert(j != pi) by {
                            if j == pi {
                                assert(pre.next_of(pi) == Some(i as usize));
                            }
                        }
                        if elem_prev == Some(j as usize) {
                            assert(pre.next_of(j) == Some(i as usize));
                            assert(pre.occ(pi));
                            assert(pre.prev_of(pi) == Some(j as usize));
                            assert(pre.next_of(j) == Some(index));
                            assert(i as usize == index);
                            assert(i == pi);
                            assert(false);
                        } else {
                            assert(self.next_of(j) == pre.next_of(j));
                        }
                    } else {
                        assert(pre.head == Some(i as usize));
                        assert(i != pi);
                        if pre.head == Some(index) {
                            assert(false);
                        }
                        assert(self.head == pre.head);
                    }
                }
            }
        }
        element.item
    }
}

} // verus!
