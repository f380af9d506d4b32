//! Intervals kept as start and exclusive end, parsed from the same
//! textual `0xHEX-0xHEX[,...]` form the interval collections use.

use vstd::prelude::*;

use crate::collections::static_interval;

verus! {

/// The error type for [`IntervalList`].
#[derive(Debug, PartialEq, Eq, Structural)]
pub enum Error {
    MalformedInterval,
    ListFull,
}

/// An interval `[start, end)`; the start never passes the end.
#[derive(Copy, Clone, Debug, PartialEq, Eq, Structural)]
pub struct Interval {
    start: u64,
    end: u64,
}

/// The end-based interval a length-based one stands for.
pub closed spec fn to_end_based(iv: static_interval::Interval) -> Interval {
    Interval { start: iv.start, end: (iv.start + iv.length) as u64 }
}

impl Interval {
    /// The inclusive start.
    pub closed spec fn start_spec(&self) -> u64 {
        self.start
    }

    /// The exclusive end.
    pub closed spec fn end_spec(&self) -> u64 {
        self.end
    }

    /// The interval is ordered: its start never passes its end.
    pub closed spec fn wf(&self) -> bool {
        self.start <= self.end
    }

    /// Create an [`Interval`] from `start` and `end`. A start beyond
    /// the end is rejected.
    pub fn new(start: u64, end: u64) -> (r: Result<Interval, ()>)
        ensures
            start > end ==> r is Err,
            start <= end ==> (r matches Ok(iv) && iv.start_spec() == start && iv.end_spec() == end
                && iv.wf()),
    {
        // Make sure that the start is not greater than the end.
        if start > end {
            return Err(());
        }
        Ok(Interval { start, end })
    }

    /// Create an [`Interval`] from its textual form, for example
    /// `0x1-0x3`, where the second number is the exclusive end.
    pub fn from(bytes: &[u8]) -> (r: Result<Interval, ()>)
        ensures
            r is Ok <==> static_interval::interval_src_ok(bytes@),
            r matches Ok(iv) ==> (iv == to_end_based(static_interval::parsed_interval(bytes@))
                && iv.wf()),
    {
        let base = match static_interval::Interval::from(bytes) {
            Ok(v) => v,
            Err(_) => {
                return Err(());
            },
        };
        proof {
            static_interval::lemma_parsed_interval_bounds(bytes@);
        }
        Ok(Interval { start: base.start, end: base.start + base.length })
    }
}

/// A static interval list of at most `N` end-based intervals.
#[derive(Debug)]
pub struct IntervalList<const N: usize> {
    list: Vec<Interval>,
}

impl<const N: usize> View for IntervalList<N> {
    type V = Seq<Interval>;

    closed spec fn view(&self) -> Seq<Interval> {
        self.list@
    }
}

impl<const N: usize> IntervalList<N> {
    /// Create an empty [`IntervalList`].
    pub fn new() -> (r: IntervalList<N>)
        ensures
            r@ == Seq::<Interval>::empty(),
    {
        IntervalList { list: Vec::new() }
    }

    /// Return the length of the list.
    pub fn len(&self) -> (r: usize)
        ensures
            r == self@.len(),
    {
        self.list.len()
    }

    /// Push an interval onto the end of the list; a full list rejects
    /// it unchanged.
    pub fn push(&mut self, interval: Interval) -> (r: Result<(), Error>)
        ensures
            old(self)@.len() >= N ==> (r matches Err(e) && e == Error::ListFull && final(self)@
                == old(self)@),
            old(self)@.len() < N ==> (r is Ok && final(self)@ == old(self)@.push(interval)),
    {
        // If it is going to go beyond the size, return an error.
        if self.list.len() >= N {
            return Err(Error::ListFull);
        }
        self.list.push(interval);
        Ok(())
    }

    /// Create an [`IntervalList`] from its textual form, for example
    /// `0x1-0x3,0x3-0x5`. An empty input yields an empty list.
    pub fn from(bytes: &[u8]) -> (r: Result<IntervalList<N>, Error>)
        ensures
            bytes@.len() == 0 ==> (r matches Ok(list) && list@ == Seq::<Interval>::empty()),
            bytes@.len() > 0 ==> match static_interval::parse_interval_list(bytes@, N as int) {
                Ok(ivs) => r matches Ok(list) && list@ == ivs.map(
                    |i: int, iv: static_interval::Interval| to_end_based(iv),
                ),
                Err(e) => r is Err && ((e == static_interval::Error::MalformedInterval && r
                    == Err::<IntervalList<N>, Error>(Error::MalformedInterval)) || (e
                    == static_interval::Error::ListFull && r == Err::<IntervalList<N>, Error>(
                    Error::ListFull,
                ))),
            },
    {
        let base = match static_interval::IntervalList::<N>::from(bytes) {
            Ok(v) => v,
            Err(static_interval::Error::MalformedInterval) => {
                return Err(Error::MalformedInterval);
            },
            Err(static_interval::Error::ListFull) => {
                return Err(Error::ListFull);
            },
        };
        proof {
            if bytes@.len() > 0 {
                static_interval::lemma_parse_chunks_bounds(
                    static_interval::split_at_commas(bytes@),
                    Seq::empty(),
                    N as int,
                );
            }
        }
        let n = base.len();
        let mut list: Vec<Interval> = Vec::new();
        let mut iter = base.iter();
        let mut i: usize = 0;
        while i < n
            invariant
                0 <= i <= n,
                iter.list_spec() == base@,
                n == base@.len(),
                iter.index_spec() == i,
                list@.len() == i,
                forall|j: int|
                    0 <= j < base@.len() ==> (#[trigger] base@[j]).start + base@[j].length
                        <= u64::MAX,
                forall|j: int| 0 <= j < i ==> (#[trigger] list@[j]) == to_end_based(base@[j]),
            decreases n - i,
        {
            let item = match iter.next() {
                Some(v) => *v,
                None => {
                    return Err(Error::MalformedInterval);
                },
            };
            list.push(Interval { start: item.start, end: item.start + item.length });
            i = i + 1;
        }
        let r = IntervalList { list };
        proof {
            if bytes@.len() > 0 {
                assert(r@ =~= base@.map(|j: int, iv: static_interval::Interval| to_end_based(iv)));
            } else {
                assert(r@ =~= Seq::<Interval>::empty());
            }
        }
        Ok(r)
    }

    /// Render the list the way the kernel's debug output shows it, with
    /// the numbers in hex.
    pub fn debug_string(&self) -> (r: String)
        ensures
            r@ == list_dbg(self@),
    {
        let mut out = String::new();
        out.append("IntervalList { list: [");
        let n = self.list.len();
        let mut i: usize = 0;
        while i < n
            invariant
                0 <= i <= n,
                n == self@.len(),
                out@ == "IntervalList { list: ["@ + items_dbg(self@.subrange(0, i as int)),
            decreases n - i,
        {
            proof {
                lemma_items_dbg_push(self@.subrange(0, i as int), self@[i as int]);
                assert(self@.subrange(0, i + 1 as int) =~= self@.subrange(0, i as int).push(
                    self@[i as int],
                ));
            }
            if i > 0 {
                out.append(", ");
            }
            let iv = self.list[i];
            out.append("Some(Interval { start: ");
            let start_hex = static_interval::to_hex(iv.start);
            out.append(start_hex.as_str());
            out.append(", end: ");
            let end_hex = static_interval::to_hex(iv.end);
            out.append(end_hex.as_str());
            out.append(" })");
            i = i + 1;
        }
        out.append("] }");
        proof {
            assert(self@.subrange(0, n as int) =~= self@);
        }
        out
    }
}

/// The rendering of one end-based interval slot in debug output.
pub open spec fn interval_dbg(iv: Interval) -> Seq<char> {
    "Some(Interval { start: "@ + static_interval::hex_str(iv.start_spec() as int) + ", end: "@
        + static_interval::hex_str(iv.end_spec() as int) + " })"@
}

/// The rendering of the intervals themselves, separated by commas.
pub open spec fn items_dbg(s: Seq<Interval>) -> Seq<char>
    decreases s.len(),
{
    if s.len() == 0 {
        Seq::empty()
    } else if s.len() == 1 {
        interval_dbg(s[0])
    } else {
        interval_dbg(s[0]) + ", "@ + items_dbg(s.subrange(1, s.len() as int))
    }
}

/// The whole debug rendering of an end-based interval list.
pub open spec fn list_dbg(s: Seq<Interval>) -> Seq<char> {
    "IntervalList { list: ["@ + items_dbg(s) + "] }"@
}

/// Appending one interval to a rendered list appends its rendering,
/// after a separator when the list was not empty.
proof fn lemma_items_dbg_push(s: Seq<Interval>, x: Interval)
    ensures
        s.len() == 0 ==> items_dbg(s.push(x)) == interval_dbg(x),
        s.len() > 0 ==> items_dbg(s.push(x)) == items_dbg(s) + ", "@ + interval_dbg(x),
    decreases s.len(),
{
    if s.len() == 0 {
        assert(s.push(x)[0] == x);
    } else {
        let t = s.push(x);
        assert(t.subrange(1, t.len() as int) =~= s.subrange(1, s.len() as int).push(x));
        lemma_items_dbg_push(s.subrange(1, s.len() as int), x);
        if s.len() == 1 {
            assert(s.subrange(1, 1) =~= Seq::<Interval>::empty());
        }
    }
}

} // verus!
