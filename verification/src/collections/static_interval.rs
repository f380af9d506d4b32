//! Interval lists parsed from a textual `0xHEX-0xHEX[,...]` form, with a
//! sweep-line coverage test.

use vstd::prelude::*;

verus! {

/// ASCII '-', the separator between the two ends of an interval.
pub const DASH: u8 = 45;

/// ASCII ',', the separator between intervals in a list.
pub const COMMA: u8 = 44;

/// ASCII '0'.
pub const DIGIT_ZERO: u8 = 48;

/// ASCII '9'.
pub const DIGIT_NINE: u8 = 57;

/// ASCII 'a'.
pub const LETTER_A: u8 = 97;

/// ASCII 'f'.
pub const LETTER_F: u8 = 102;

/// ASCII 'x'.
pub const LETTER_X: u8 = 120;

/// The error type for [`IntervalList`].
#[derive(Debug, PartialEq, Eq, Structural)]
pub enum Error {
    MalformedInterval,
    ListFull,
}

/// A half-open interval `[start, start + length)` of addresses.
#[derive(Copy, Clone, Debug, PartialEq, Eq, Structural)]
pub struct Interval {
    pub start: u64,
    pub length: u64,
}

/// The index of the first occurrence of `b` in `s`, or -1 when absent.
pub open spec fn first_byte_at(s: Seq<u8>, b: u8) -> int
    decreases s.len(),
{
    if s.len() == 0 {
        -1
    } else if s[0] == b {
        0
    } else {
        let r = first_byte_at(s.subrange(1, s.len() as int), b);
        if r < 0 {
            -1
        } else {
            r + 1
        }
    }
}

/// What `first_byte_at` returns: the least index holding `b`, or -1.
pub proof fn lemma_first_byte_at(s: Seq<u8>, b: u8)
    ensures
        -1 <= first_byte_at(s, b) < s.len(),
        first_byte_at(s, b) >= 0 ==> s[first_byte_at(s, b)] == b,
        forall|j: int| 0 <= j < first_byte_at(s, b) ==> s[j] != b,
        first_byte_at(s, b) < 0 ==> forall|j: int| 0 <= j < s.len() ==> s[j] != b,
    decreases s.len(),
{
    if s.len() != 0 && s[0] != b {
        let sub = s.subrange(1, s.len() as int);
        lemma_first_byte_at(sub, b);
        assert(forall|j: int| 1 <= j < s.len() ==> s[j] == sub[j - 1]);
    }
}

/// Whether `b` is an ASCII hex digit this parser accepts: lower case
/// letters and decimal digits only.
pub open spec fn is_hex_digit(b: u8) -> bool {
    (LETTER_A <= b <= LETTER_F) || (DIGIT_ZERO <= b <= DIGIT_NINE)
}

/// The value of one hex digit.
pub open spec fn hex_digit_val(b: u8) -> int {
    if LETTER_A <= b <= LETTER_F {
        b - LETTER_A + 10
    } else {
        b - DIGIT_ZERO
    }
}

/// The value of a sequence of hex digits, most significant first.
pub open spec fn hex_val(s: Seq<u8>) -> int
    decreases s.len(),
{
    if s.len() == 0 {
        0
    } else {
        hex_val(s.drop_last()) * 16 + hex_digit_val(s.last())
    }
}

/// 16 to the power `n`.
pub open spec fn pow16(n: nat) -> int
    decreases n,
{
    if n == 0 {
        1
    } else {
        16 * pow16((n - 1) as nat)
    }
}

pub proof fn lemma_pow16_mono(a: nat, b: nat)
    requires
        a <= b,
    ensures
        pow16(a) <= pow16(b),
    decreases b,
{
    if a < b {
        lemma_pow16_mono(a, (b - 1) as nat);
        assert(pow16(b) == 16 * pow16((b - 1) as nat));
        assert(pow16(a) >= 1) by {
            lemma_pow16_pos(a);
        }
    }
}

pub proof fn lemma_pow16_pos(n: nat)
    ensures
        pow16(n) >= 1,
    decreases n,
{
    if n > 0 {
        lemma_pow16_pos((n - 1) as nat);
    }
}

/// A sequence of hex digits is worth less than 16 to its length.
pub proof fn lemma_hex_val_bound(s: Seq<u8>)
    requires
        forall|j: int| 0 <= j < s.len() ==> is_hex_digit(#[trigger] s[j]),
    ensures
        0 <= hex_val(s) < pow16(s.len()),
    decreases s.len(),
{
    if s.len() > 0 {
        lemma_hex_val_bound(s.drop_last());
    }
}

/// Whether `s` is a whole hex token: `0x` followed by one to sixteen
/// accepted hex digits.
pub open spec fn valid_hex_token(s: Seq<u8>) -> bool {
    &&& 3 <= s.len() <= 18
    &&& s[0] == DIGIT_ZERO
    &&& s[1] == LETTER_X
    &&& forall|j: int| 2 <= j < s.len() ==> is_hex_digit(#[trigger] s[j])
}

/// The value of a whole hex token.
pub open spec fn hex_token_val(s: Seq<u8>) -> int {
    hex_val(s.subrange(2, s.len() as int))
}

/// Whether `s` is a well-formed textual interval: two valid hex tokens
/// joined by a single `-`, the second no smaller than the first.
pub open spec fn interval_src_ok(s: Seq<u8>) -> bool {
    let p = first_byte_at(s, DASH);
    &&& p >= 0
    &&& forall|j: int| p < j < s.len() ==> s[j] != DASH
    &&& valid_hex_token(s.subrange(0, p))
    &&& valid_hex_token(s.subrange(p + 1, s.len() as int))
    &&& hex_token_val(s.subrange(0, p)) <= hex_token_val(s.subrange(p + 1, s.len() as int))
}

/// The interval a well-formed textual interval denotes.
pub open spec fn parsed_interval(s: Seq<u8>) -> Interval {
    let p = first_byte_at(s, DASH);
    let start = hex_token_val(s.subrange(0, p));
    let end = hex_token_val(s.subrange(p + 1, s.len() as int));
    Interval { start: start as u64, length: (end - start) as u64 }
}

/// Parse a whole hex token such as `0x1f`.
fn parse_hex_token(bytes: &[u8]) -> (r: Result<u64, ()>)
    ensures
        r is Ok <==> valid_hex_token(bytes@),
        r matches Ok(v) ==> v == hex_token_val(bytes@),
{
    let n = bytes.len();
    // To parse a token, it must be hexadecimal and start with '0x'.
    if n < 3 || n > 16 + 2 || bytes[0] != DIGIT_ZERO || bytes[1] != LETTER_X {
        return Err(());
    }
    let mut result: u64 = 0;
    let mut i: usize = 2;
    while i < n
        invariant
            2 <= i <= n,
            n == bytes@.len(),
            3 <= n <= 18,
            forall|j: int| 2 <= j < i ==> is_hex_digit(#[trigger] bytes@[j]),
            result == hex_val(bytes@.subrange(2, i as int)),
            0 <= result < pow16((i - 2) as nat),
        decreases n - i,
    {
        let digit = bytes[i];
        let d: u64;
        // Parse each digit in the number.
        if LETTER_A <= digit && digit <= LETTER_F {
            d = (digit - LETTER_A) as u64 + 10;
        } else if DIGIT_ZERO <= digit && digit <= DIGIT_NINE {
            d = (digit - DIGIT_ZERO) as u64;
        } else {
            return Err(());
        }
        proof {
            lemma_pow16_mono((i - 2) as nat, 15);
            assert(pow16(15) == 0x1000_0000_0000_0000) by {
                reveal_with_fuel(pow16, 16);
            }
            assert(bytes@.subrange(2, i + 1 as int).drop_last() =~= bytes@.subrange(2, i as int));
        }
        result = result * 16 + d;
        i = i + 1;
    }
    proof {
        assert(bytes@.subrange(2, n as int) =~= bytes@.subrange(2, bytes@.len() as int));
    }
    Ok(result)
}


/// The character for one hex digit value.
pub open spec fn hex_digit_char(v: int) -> char {
    if v == 0 { '0' } else if v == 1 { '1' } else if v == 2 { '2' } else if v == 3 { '3' }
    else if v == 4 { '4' } else if v == 5 { '5' } else if v == 6 { '6' } else if v == 7 { '7' }
    else if v == 8 { '8' } else if v == 9 { '9' } else if v == 10 { 'a' } else if v == 11 { 'b' }
    else if v == 12 { 'c' } else if v == 13 { 'd' } else if v == 14 { 'e' } else { 'f' }
}

/// The hex rendering of a number, most significant digit first, without
/// a `0x` prefix.
pub open spec fn hex_str(v: int) -> Seq<char>
    decreases v,
{
    if v < 16 {
        seq![hex_digit_char(v)]
    } else {
        hex_str(v / 16) + seq![hex_digit_char(v % 16)]
    }
}

/// The rendering of one interval slot as the kernel's debug output
/// shows it.
pub open spec fn interval_dbg(iv: Interval) -> Seq<char> {
    "Some(Interval { start: "@ + hex_str(iv.start as int) + ", length: "@ + hex_str(
        iv.length as int,
    ) + " })"@
}

/// The rendering of the intervals themselves, separated by commas.
pub open spec fn items_dbg(s: Seq<Interval>) -> Seq<char>
    decreases s.len(),
{
    if s.len() == 0 {
        Seq::empty()
    } else if s.len() == 1 {
        interval_dbg(s[0])
    } else {
        interval_dbg(s[0]) + ", "@ + items_dbg(s.subrange(1, s.len() as int))
    }
}

/// The whole debug rendering of an interval list.
pub open spec fn list_dbg(s: Seq<Interval>) -> Seq<char> {
    "IntervalList { list: ["@ + items_dbg(s) + "] }"@
}

/// Appending one interval to a rendered list appends its rendering,
/// after a separator when the list was not empty.
proof fn lemma_items_dbg_push(s: Seq<Interval>, x: Interval)
    ensures
        s.len() == 0 ==> items_dbg(s.push(x)) == interval_dbg(x),
        s.len() > 0 ==> items_dbg(s.push(x)) == items_dbg(s) + ", "@ + interval_dbg(x),
    decreases s.len(),
{
    if s.len() == 0 {
        assert(s.push(x)[0] == x);
    } else {
        let t = s.push(x);
        assert(t.subrange(1, t.len() as int) =~= s.subrange(1, s.len() as int).push(x));
        lemma_items_dbg_push(s.subrange(1, s.len() as int), x);
        if s.len() == 1 {
            assert(s.subrange(1, 1) =~= Seq::<Interval>::empty());
        }
    }
}

/// One hex digit as a string.
fn hex_digit_string(v: u64) -> (r: &'static str)
    requires
        v < 16,
    ensures
        r@ == seq![hex_digit_char(v as int)],
{
    proof {
        reveal_strlit("0");
        reveal_strlit("1");
        reveal_strlit("2");
        reveal_strlit("3");
        reveal_strlit("4");
        reveal_strlit("5");
        reveal_strlit("6");
        reveal_strlit("7");
        reveal_strlit("8");
        reveal_strlit("9");
        reveal_strlit("a");
        reveal_strlit("b");
        reveal_strlit("c");
        reveal_strlit("d");
        reveal_strlit("e");
        reveal_strlit("f");
    }
    let r: &'static str = if v == 0 { "0" } else if v == 1 { "1" } else if v == 2 { "2" }
    else if v == 3 { "3" } else if v == 4 { "4" } else if v == 5 { "5" } else if v == 6 { "6" }
    else if v == 7 { "7" } else if v == 8 { "8" } else if v == 9 { "9" } else if v == 10 { "a" }
    else if v == 11 { "b" } else if v == 12 { "c" } else if v == 13 { "d" } else if v == 14 { "e" }
    else { "f" };
    proof {
        assert(r@ =~= seq![hex_digit_char(v as int)]);
    }
    r
}

/// The hex rendering of a number, as [`hex_str`] spells it.
pub fn to_hex(v: u64) -> (r: String)
    ensures
        r@ == hex_str(v as int),
    decreases v,
{
    if v < 16 {
        let d = hex_digit_string(v);
        d.to_owned()
    } else {
        let mut s = to_hex(v / 16);
        s.append(hex_digit_string(v % 16));
        s
    }
}

impl Interval {
    /// Create an [`Interval`] from `start` and `length`.
    pub fn new(start: u64, length: u64) -> (r: Interval)
        ensures
            r.start == start,
            r.length == length,
    {
        Interval { start, length }
    }

    /// Create an [`Interval`] from its textual form, for example `0x1-0x3`,
    /// where the second number is the exclusive end.
    ///
    /// Succeeds exactly on well-formed input, and then returns the denoted
    /// interval.
    pub fn from(bytes: &[u8]) -> (r: Result<Interval, ()>)
        ensures
            r is Ok <==> interval_src_ok(bytes@),
            r matches Ok(iv) ==> iv == parsed_interval(bytes@),
    {
        let n = bytes.len();
        proof {
            lemma_first_byte_at(bytes@, DASH);
        }
        // Find the single '-' that separates the two numbers.
        let mut dash: usize = 0;
        let mut found = false;
        let mut i: usize = 0;
        while i < n
            invariant
                0 <= i <= n,
                n == bytes@.len(),
                !found ==> forall|j: int| 0 <= j < i ==> bytes@[j] != DASH,
                found ==> dash < i && bytes@[dash as int] == DASH && forall|j: int|
                    dash < j < i ==> bytes@[j] != DASH,
                found ==> dash == first_byte_at(bytes@, DASH),
            decreases n - i,
        {
            proof {
                lemma_first_byte_at(bytes@, DASH);
            }
            if bytes[i] == DASH {
                if found {
                    // A second separator makes the interval malformed.
                    return Err(());
                }
                dash = i;
                found = true;
            }
            i = i + 1;
        }
        proof {
            lemma_first_byte_at(bytes@, DASH);
        }
        if !found {
            return Err(());
        }
        let start = match parse_hex_token(&bytes[0..dash]) {
            Ok(v) => v,
            Err(_) => {
                proof {
                    assert(bytes@.subrange(0, dash as int) =~= bytes@.subrange(
                        0,
                        first_byte_at(bytes@, DASH),
                    ));
                }
                return Err(());
            },
        };
        let end = match parse_hex_token(&bytes[dash + 1..n]) {
            Ok(v) => v,
            Err(_) => {
                return Err(());
            },
        };
        // The second number is the exclusive end, so it may not be smaller
        // than the first.
        if end < start {
            return Err(());
        }
        Ok(Interval::new(start, end - start))
    }
}


/// `s` cut at every comma. A trailing comma yields an empty last chunk,
/// and an input without commas is a single chunk.
pub open spec fn split_at_commas(s: Seq<u8>) -> Seq<Seq<u8>>
    decreases s.len(),
{
    let p = first_byte_at(s, COMMA);
    if 0 <= p < s.len() {
        seq![s.subrange(0, p)] + split_at_commas(s.subrange(p + 1, s.len() as int))
    } else {
        seq![s]
    }
}

/// Sequential parsing of a sequence of textual intervals into `acc`,
/// stopping at the first malformed chunk or at capacity `cap`.
pub open spec fn parse_chunks(chunks: Seq<Seq<u8>>, acc: Seq<Interval>, cap: int) -> Result<
    Seq<Interval>,
    Error,
>
    decreases chunks.len(),
{
    if chunks.len() == 0 {
        Ok(acc)
    } else if !interval_src_ok(chunks[0]) {
        Err(Error::MalformedInterval)
    } else if acc.len() >= cap {
        Err(Error::ListFull)
    } else {
        parse_chunks(chunks.subrange(1, chunks.len() as int), acc.push(parsed_interval(chunks[0])), cap)
    }
}

/// What `IntervalList::from` returns for nonempty input.
pub open spec fn parse_interval_list(s: Seq<u8>, cap: int) -> Result<Seq<Interval>, Error> {
    parse_chunks(split_at_commas(s), Seq::empty(), cap)
}

/// An iterator over an [`IntervalList`].
pub struct Iter<'a, const N: usize> {
    index: usize,
    interval_list: &'a IntervalList<N>,
}

impl<'a, const N: usize> Iter<'a, N> {
    /// How far the iterator has come.
    pub closed spec fn index_spec(&self) -> int {
        self.index as int
    }

    /// The list the iterator walks.
    pub closed spec fn list_spec(&self) -> Seq<Interval> {
        self.interval_list@
    }

    /// Get the next item of the iterator.
    pub fn next(&mut self) -> (r: Option<&'a Interval>)
        ensures
            final(self).list_spec() == old(self).list_spec(),
            old(self).index_spec() >= old(self).list_spec().len() ==> (r is None
                && final(self).index_spec() == old(self).index_spec()),
            old(self).index_spec() < old(self).list_spec().len() ==> (r matches Some(iv) && *iv
                == old(self).list_spec()[old(self).index_spec()] && final(self).index_spec()
                == old(self).index_spec() + 1),
    {
        if self.index >= self.interval_list.len() {
            None
        } else {
            let result = &self.interval_list.list[self.index];
            self.index = self.index + 1;
            Some(result)
        }
    }
}

/// A static interval list holding at most `N` intervals in order.
#[derive(Debug)]
pub struct IntervalList<const N: usize> {
    list: Vec<Interval>,
}

impl<const N: usize> View for IntervalList<N> {
    type V = Seq<Interval>;

    closed spec fn view(&self) -> Seq<Interval> {
        self.list@
    }
}

impl<const N: usize> PartialEq for IntervalList<N> {
    /// Equality is positional: same length, same intervals in the same
    /// places.
    fn eq(&self, other: &IntervalList<N>) -> (r: bool) {
        if self.list.len() != other.list.len() {
            return false;
        }
        let n = self.list.len();
        let mut i: usize = 0;
        while i < n
            invariant
                0 <= i <= n,
                n == self@.len(),
                n == other@.len(),
                forall|j: int| 0 <= j < i ==> self@[j] == other@[j],
            decreases n - i,
        {
            if self.list[i] != other.list[i] {
                return false;
            }
            i = i + 1;
        }
        proof {
            assert(self@ =~= other@);
        }
        true
    }
}

impl<const N: usize> vstd::std_specs::cmp::PartialEqSpecImpl for IntervalList<N> {
    open spec fn obeys_eq_spec() -> bool {
        true
    }

    open spec fn eq_spec(&self, other: &IntervalList<N>) -> bool {
        self@ == other@
    }
}

impl<const N: usize> IntervalList<N> {
    /// Create an empty [`IntervalList`].
    pub fn new() -> (r: IntervalList<N>)
        ensures
            r@ == Seq::<Interval>::empty(),
    {
        IntervalList { list: Vec::new() }
    }

    /// Return the length of the list.
    pub fn len(&self) -> (r: usize)
        ensures
            r == self@.len(),
    {
        self.list.len()
    }

    /// Push an interval onto the end of the list.
    ///
    /// Fails, leaving the list unchanged, when the list already holds `N`
    /// intervals.
    pub fn push(&mut self, interval: Interval) -> (r: Result<(), Error>)
        ensures
            old(self)@.len() >= N ==> (r matches Err(e) && e == Error::ListFull && final(self)@
                == old(self)@),
            old(self)@.len() < N ==> (r is Ok && final(self)@ == old(self)@.push(interval)),
    {
        // If it is going to go beyond the size, return an error.
        if self.list.len() >= N {
            return Err(Error::ListFull);
        }
        self.list.push(interval);
        Ok(())
    }

    /// Read the interval at a position.
    pub fn get(&self, index: usize) -> (r: Interval)
        requires
            index < self@.len(),
        ensures
            r == self@[index as int],
    {
        self.list[index]
    }

    /// Get an [`Iter`] over this interval list.
    pub fn iter(&self) -> (r: Iter<N>)
        ensures
            r.index_spec() == 0,
            r.list_spec() == self@,
    {
        Iter { index: 0, interval_list: self }
    }

    /// Create an [`IntervalList`] from its textual form, for example
    /// `0x1-0x3,0x3-0x5`. An empty input yields an empty list; otherwise
    /// each comma-separated chunk must be a well-formed interval, and the
    /// chunks must fit into the capacity.
    #[verifier::rlimit(30)]
    pub fn from(bytes: &[u8]) -> (r: Result<IntervalList<N>, Error>)
        ensures
            bytes@.len() == 0 ==> (r is Ok && r->Ok_0@ == Seq::<Interval>::empty()),
            bytes@.len() > 0 ==> match parse_interval_list(bytes@, N as int) {
                Ok(ivs) => r is Ok && r->Ok_0@ == ivs,
                Err(e) => r is Err && r->Err_0 == e,
            },
    {
        let mut interval_list = IntervalList::<N>::new();

        // If the input is empty, return the empty list.
        if bytes.is_empty() {
            return Ok(interval_list);
        }

        let n = bytes.len();
        let ghost whole = parse_interval_list(bytes@, N as int);
        proof {
            assert(bytes@.subrange(0, n as int) =~= bytes@);
        }
        let mut chunk_start: usize = 0;
        let mut i: usize = 0;
        while i < n
            invariant
                0 <= chunk_start <= i <= n,
                n == bytes@.len(),
                n > 0,
                whole == parse_interval_list(bytes@, N as int),
                interval_list@.len() <= N,
                forall|j: int| chunk_start <= j < i ==> bytes@[j] != COMMA,
                parse_chunks(
                    split_at_commas(bytes@.subrange(chunk_start as int, n as int)),
                    interval_list@,
                    N as int,
                ) == whole,
            decreases n - i,
        {
            if bytes[i] == COMMA {
                proof {
                    let rest = bytes@.subrange(chunk_start as int, n as int);
                    let p = i - chunk_start;
                    lemma_split_head(rest, p as int);
                    assert(rest.subrange(0, p as int) =~= bytes@.subrange(
                        chunk_start as int,
                        i as int,
                    ));
                    assert(rest.subrange(p + 1, rest.len() as int) =~= bytes@.subrange(
                        i + 1,
                        n as int,
                    ));
                    lemma_parse_chunks_step(
                        rest.subrange(0, p as int),
                        split_at_commas(rest.subrange(p + 1, rest.len() as int)),
                        interval_list@,
                        N as int,
                    );
                }
                let interval = match Interval::from(&bytes[chunk_start..i]) {
                    Ok(v) => v,
                    Err(_) => {
                        proof {
                            assert(whole == Err::<Seq<Interval>, Error>(Error::MalformedInterval));
                        }
                        return Err(Error::MalformedInterval);
                    },
                };
                match interval_list.push(interval) {
                    Ok(_) => {},
                    Err(e) => {
                        proof {
                            assert(whole == Err::<Seq<Interval>, Error>(Error::ListFull));
                        }
                        return Err(e);
                    },
                }
                chunk_start = i + 1;
            }
            i = i + 1;
        }
        // The final chunk runs to the end of the input.
        proof {
            let rest = bytes@.subrange(chunk_start as int, n as int);
            lemma_split_none(rest);
            assert(seq![rest] =~= seq![rest] + Seq::<Seq<u8>>::empty());
            lemma_parse_chunks_step(rest, Seq::empty(), interval_list@, N as int);
        }
        let interval = match Interval::from(&bytes[chunk_start..n]) {
            Ok(v) => v,
            Err(_) => {
                proof {
                    assert(whole == Err::<Seq<Interval>, Error>(Error::MalformedInterval));
                }
                return Err(Error::MalformedInterval);
            },
        };
        match interval_list.push(interval) {
            Ok(_) => {},
            Err(e) => {
                proof {
                    assert(whole == Err::<Seq<Interval>, Error>(Error::ListFull));
                }
                return Err(e);
            },
        }
        proof {
            assert(whole == Ok::<Seq<Interval>, Error>(interval_list@));
        }
        Ok(interval_list)
    }

    /// Copy the intervals into a fresh vector.
    fn copy_items(&self) -> (r: Vec<Interval>)
        ensures
            r@ == self@,
    {
        let n = self.list.len();
        let mut out: Vec<Interval> = Vec::new();
        let mut i: usize = 0;
        while i < n
            invariant
                0 <= i <= n,
                n == self@.len(),
                out@ =~= self@.subrange(0, i as int),
            decreases n - i,
        {
            out.push(self.list[i]);
            i = i + 1;
        }
        proof {
            assert(out@ =~= self@);
        }
        out
    }

    /// Sort all intervals in the list, by start and then by length.
    pub fn sort(&mut self)
        ensures
            final(self)@.to_multiset() == old(self)@.to_multiset(),
            final(self)@.len() == old(self)@.len(),
            sorted_intervals(final(self)@),
    {
        broadcast use vstd::seq_lib::to_multiset_remove;
        broadcast use vstd::seq_lib::to_multiset_insert;
        broadcast use vstd::seq_lib::to_multiset_contains;
        broadcast use vstd::seq_lib::to_multiset_len;

        let n = self.list.len();
        let ghost orig = self@;
        if n <= 1 {
            return ;
        }
        let mut i: usize = 1;
        while i < n
            invariant
                1 <= i <= n,
                n == self@.len(),
                self@.to_multiset() == orig.to_multiset(),
                sorted_intervals(self@.subrange(0, i as int)),
            decreases n - i,
        {
            broadcast use vstd::seq_lib::to_multiset_remove;
            broadcast use vstd::seq_lib::to_multiset_insert;
            broadcast use vstd::seq_lib::to_multiset_contains;

            let x = self.list[i];
            let mut pos: usize = 0;
            while pos < i && (self.list[pos].start < x.start || (self.list[pos].start == x.start
                && self.list[pos].length <= x.length))
                invariant
                    0 <= pos <= i < n,
                    n == self@.len(),
                    x == self@[i as int],
                    forall|k: int| 0 <= k < pos ==> iv_le(self@[k], x),
                decreases i - pos,
            {
                pos = pos + 1;
            }
            let ghost s0 = self@;
            let item = self.list.remove(i);
            self.list.insert(pos, item);
            proof {
                assert(self@ =~= s0.subrange(0, pos as int) + seq![x] + s0.subrange(
                    pos as int,
                    i as int,
                ) + s0.subrange(i + 1, n as int));
                assert(s0.contains(x));
                assert(s0.to_multiset().count(x) > 0);
                assert(self@.to_multiset() =~= s0.to_multiset());
                assert(forall|k: int| 0 <= k < pos ==> self@[k] == #[trigger] s0[k]);
                assert(self@[pos as int] == x);
                assert(forall|k: int| pos < k <= i ==> #[trigger] self@[k] == s0[k - 1]);
                assert(forall|k: int| 0 <= k < i ==> s0.subrange(0, i as int)[k] == #[trigger] s0[
                k]);
                assert forall|k: int| pos <= k < i implies iv_le(x, #[trigger] s0[k]) by {
                    assert(!iv_le(s0[pos as int], x));
                    if k > pos {
                        assert(iv_le(s0.subrange(0, i as int)[pos as int], s0.subrange(
                            0,
                            i as int,
                        )[k]));
                    }
                }
                assert forall|a: int, b: int| 0 <= a < b < i + 1 implies iv_le(
                    self@[a],
                    self@[b],
                ) by {
                    if a < pos && b < pos {
                        assert(iv_le(s0.subrange(0, i as int)[a], s0.subrange(0, i as int)[b]));
                    } else if pos < a && pos < b {
                        assert(iv_le(s0.subrange(0, i as int)[a - 1], s0.subrange(0, i as int)[b
                            - 1]));
                    } else if a < pos && pos < b {
                        assert(iv_le(s0.subrange(0, i as int)[a], s0.subrange(0, i as int)[b
                            - 1]));
                    }
                }
                assert(sorted_intervals(self@.subrange(0, (i + 1) as int)));
            }
            i = i + 1;
        }
        proof {
            assert(self@.subrange(0, n as int) =~= self@);
        }
    }

    /// Render the list the way the kernel's debug output shows it, with
    /// the numbers in hex.
    pub fn debug_string(&self) -> (r: String)
        ensures
            r@ == list_dbg(self@),
    {
        let mut out = String::new();
        out.append("IntervalList { list: [");
        let n = self.list.len();
        let mut i: usize = 0;
        while i < n
            invariant
                0 <= i <= n,
                n == self@.len(),
                out@ == "IntervalList { list: ["@ + items_dbg(self@.subrange(0, i as int)),
            decreases n - i,
        {
            proof {
                lemma_items_dbg_push(self@.subrange(0, i as int), self@[i as int]);
                assert(self@.subrange(0, i + 1 as int) =~= self@.subrange(0, i as int).push(
                    self@[i as int],
                ));
            }
            if i > 0 {
                out.append(", ");
            }
            let iv = self.list[i];
            out.append("Some(Interval { start: ");
            let start_hex = to_hex(iv.start);
            out.append(start_hex.as_str());
            out.append(", length: ");
            let length_hex = to_hex(iv.length);
            out.append(length_hex.as_str());
            out.append(" })");
            i = i + 1;
        }
        out.append("] }");
        proof {
            assert(self@.subrange(0, n as int) =~= self@);
        }
        out
    }


    /// Check that every point of this list's intervals is covered by the
    /// other list's intervals.
    pub fn is_covered_by(&self, other: &IntervalList<N>) -> (r: bool)
        ensures
            r == covered(self@, other@),
    {
        let mut list1 = IntervalList::<N> { list: self.copy_items() };
        let mut list2 = IntervalList::<N> { list: other.copy_items() };
        list1.sort();
        list2.sort();
        proof {
            lemma_pts_same(self@, list1@);
            lemma_pts_same(other@, list2@);
        }
        let ghost gcov = covered(self@, other@);

        let n1 = list1.list.len();
        let n2 = list2.list.len();
        let mut j: usize = 0;

        // The sweep line: everything in the first list below it is known
        // to be covered.
        let mut line: u128 = 0;
        let mut idx1: usize = 0;
        while idx1 < n1
            invariant
                0 <= idx1 <= n1,
                0 <= j <= n2,
                n1 == list1@.len(),
                n2 == list2@.len(),
                sorted_intervals(list1@),
                sorted_intervals(list2@),
                gcov == covered(self@, other@),
                gcov == covered(list1@, list2@),
                forall|p: int| in_pts(self@, p) == in_pts(list1@, p),
                forall|p: int| in_pts(other@, p) == in_pts(list2@, p),
                forall|k: int| 0 <= k < idx1 ==> (#[trigger] list1@[k]).start + list1@[k].length
                    <= line as int,
                forall|k: int| 0 <= k < j ==> (#[trigger] list2@[k]).start + list2@[k].length
                    <= line as int,
                forall|p: int| p < line as int && in_pts(list1@, p) ==> in_pts(list2@, p),
            decreases n1 - idx1,
        {
            let item1 = list1.list[idx1];
            // Everything before this interval's start needs no covering,
            // so the sweep line may move forward to it.
            if (item1.start as u128) > line {
                proof {
                    assert forall|p: int|
                        p < item1.start as int && in_pts(list1@, p) implies in_pts(
                        list2@,
                        p,
                    ) by {
                        if !(p < line as int) {
                            let k = choose|k: int|
                                0 <= k < list1@.len() && (#[trigger] list1@[k]).start <= p
                                    < list1@[k].start + list1@[k].length;
                            if k < idx1 {
                                assert(list1@[k].start + list1@[k].length <= line as int);
                            } else {
                                assert(iv_le(list1@[idx1 as int], list1@[k]));
                            }
                        }
                    }
                }
                line = item1.start as u128;
            }
            // Consume every interval of the second list that starts at or
            // before the sweep line, extending the line to any new end.
            while j < n2 && (list2.list[j].start as u128) <= line
                invariant
                    0 <= j <= n2,
                    idx1 < n1,
                    n1 == list1@.len(),
                    n2 == list2@.len(),
                    sorted_intervals(list2@),
                    item1 == list1@[idx1 as int],
                    line >= item1.start as int,
                    forall|k: int| 0 <= k < idx1 ==> (#[trigger] list1@[k]).start
                        + list1@[k].length <= line as int,
                    forall|k: int| 0 <= k < j ==> (#[trigger] list2@[k]).start + list2@[k].length
                        <= line as int,
                    forall|p: int| p < line as int && in_pts(list1@, p) ==> in_pts(list2@, p),
                decreases n2 - j,
            {
                let item2 = list2.list[j];
                let end2 = item2.start as u128 + item2.length as u128;
                if end2 > line {
                    proof {
                        assert forall|p: int|
                            p < end2 as int && in_pts(list1@, p) implies in_pts(list2@, p) by {
                            if !(p < line as int) {
                                assert(list2@[j as int].start <= p < list2@[j as int].start
                                    + list2@[j as int].length);
                            }
                        }
                    }
                    line = end2;
                }
                j = j + 1;
            }
            // If the sweep line did not reach this interval's end, the
            // point at the line is not covered.
            let end1 = item1.start as u128 + item1.length as u128;
            if line < end1 {
                proof {
                    let w = line as int;
                    assert(list1@[idx1 as int].start <= w < list1@[idx1 as int].start
                        + list1@[idx1 as int].length);
                    assert(in_pts(list1@, w));
                    assert(!in_pts(list2@, w)) by {
                        assert forall|k: int| 0 <= k < list2@.len() implies !((
                        #[trigger] list2@[k]).start <= w < list2@[k].start + list2@[k].length) by {
                            if k >= j {
                                assert(j < n2 ==> iv_le(list2@[j as int], list2@[k]));
                            }
                        }
                    }
                }
                return false;
            }
            idx1 = idx1 + 1;
        }
        proof {
            assert forall|p: int| in_pts(list1@, p) implies in_pts(list2@, p) by {
                let k = choose|k: int|
                    0 <= k < list1@.len() && (#[trigger] list1@[k]).start <= p < list1@[k].start
                        + list1@[k].length;
                assert(list1@[k].start + list1@[k].length <= line as int);
            }
        }
        true
    }
}

/// One unfolding of `parse_chunks` at the head chunk.
proof fn lemma_parse_chunks_step(c: Seq<u8>, rest: Seq<Seq<u8>>, acc: Seq<Interval>, cap: int)
    ensures
        parse_chunks(seq![c] + rest, acc, cap) == if !interval_src_ok(c) {
            Err::<Seq<Interval>, Error>(Error::MalformedInterval)
        } else if acc.len() >= cap {
            Err::<Seq<Interval>, Error>(Error::ListFull)
        } else {
            parse_chunks(rest, acc.push(parsed_interval(c)), cap)
        },
{
    let chunks = seq![c] + rest;
    assert(chunks[0] == c);
    assert(chunks.subrange(1, chunks.len() as int) =~= rest);
}

/// When the first comma of `s` sits at `p`, splitting `s` yields the
/// chunk before `p` followed by the splitting of what comes after it.
proof fn lemma_split_head(s: Seq<u8>, p: int)
    requires
        0 <= p < s.len(),
        s[p] == COMMA,
        forall|j: int| 0 <= j < p ==> s[j] != COMMA,
    ensures
        split_at_commas(s) == seq![s.subrange(0, p)] + split_at_commas(
            s.subrange(p + 1, s.len() as int),
        ),
{
    lemma_first_byte_at(s, COMMA);
    let q = first_byte_at(s, COMMA);
    assert(q == p) by {
        if q < p {
            assert(s[q] == COMMA);
        }
        if q > p {
            assert(s[p] != COMMA);
        }
    }
}

/// Splitting a comma-free sequence yields that sequence as the only
/// chunk.
proof fn lemma_split_none(s: Seq<u8>)
    requires
        forall|j: int| 0 <= j < s.len() ==> s[j] != COMMA,
    ensures
        split_at_commas(s) == seq![s],
{
    lemma_first_byte_at(s, COMMA);
}



/// A well-formed textual interval denotes an interval whose end fits:
/// the start plus the length never passes the largest address.
pub proof fn lemma_parsed_interval_bounds(s: Seq<u8>)
    requires
        interval_src_ok(s),
    ensures
        parsed_interval(s).start + parsed_interval(s).length <= u64::MAX,
{
    let p = first_byte_at(s, DASH);
    let left = s.subrange(0, p);
    let right = s.subrange(p + 1, s.len() as int);
    lemma_hex_val_bound(left.subrange(2, left.len() as int));
    lemma_hex_val_bound(right.subrange(2, right.len() as int));
    lemma_pow16_mono(left.subrange(2, left.len() as int).len() as nat, 16);
    lemma_pow16_mono(right.subrange(2, right.len() as int).len() as nat, 16);
    assert(pow16(16) == 0x1_0000_0000_0000_0000) by {
        reveal_with_fuel(pow16, 17);
    }
}

/// Every interval of a fully parsed list keeps its end in range.
pub proof fn lemma_parse_chunks_bounds(chunks: Seq<Seq<u8>>, acc: Seq<Interval>, cap: int)
    requires
        forall|j: int|
            0 <= j < acc.len() ==> (#[trigger] acc[j]).start + acc[j].length <= u64::MAX,
        parse_chunks(chunks, acc, cap) is Ok,
    ensures
        forall|j: int|
            0 <= j < parse_chunks(chunks, acc, cap).unwrap().len() ==> (
            #[trigger] parse_chunks(chunks, acc, cap).unwrap()[j]).start + parse_chunks(
                chunks,
                acc,
                cap,
            ).unwrap()[j].length <= u64::MAX,
    decreases chunks.len(),
{
    if chunks.len() == 0 {
    } else {
        lemma_parsed_interval_bounds(chunks[0]);
        let acc2 = acc.push(parsed_interval(chunks[0]));
        assert(forall|j: int|
            0 <= j < acc2.len() ==> (#[trigger] acc2[j]).start + acc2[j].length <= u64::MAX);
        lemma_parse_chunks_bounds(chunks.subrange(1, chunks.len() as int), acc2, cap);
    }
}

/// Lexicographic order on intervals: by start, then by length.
pub open spec fn iv_le(a: Interval, b: Interval) -> bool {
    a.start < b.start || (a.start == b.start && a.length <= b.length)
}

/// Whether a sequence of intervals is sorted by [`iv_le`].
pub open spec fn sorted_intervals(s: Seq<Interval>) -> bool {
    forall|a: int, b: int| 0 <= a < b < s.len() ==> iv_le(s[a], s[b])
}

/// Whether the point `p` lies inside some interval of `s`.
pub open spec fn in_pts(s: Seq<Interval>, p: int) -> bool {
    exists|k: int| 0 <= k < s.len() && (#[trigger] s[k]).start <= p < s[k].start + s[k].length
}

/// Whether every point of the intervals of `a` lies inside some interval
/// of `b`.
pub open spec fn covered(a: Seq<Interval>, b: Seq<Interval>) -> bool {
    forall|p: int| in_pts(a, p) ==> in_pts(b, p)
}

/// Two interval sequences holding the same intervals cover the same
/// points.
pub proof fn lemma_pts_same(s1: Seq<Interval>, s2: Seq<Interval>)
    requires
        s1.to_multiset() == s2.to_multiset(),
    ensures
        forall|p: int| in_pts(s1, p) == in_pts(s2, p),
{
    broadcast use vstd::seq_lib::to_multiset_contains;

    assert forall|p: int| in_pts(s1, p) == in_pts(s2, p) by {
        if in_pts(s1, p) {
            let k = choose|k: int| 0 <= k < s1.len() && (#[trigger] s1[k]).start <= p < s1[k].start
                + s1[k].length;
            assert(s1.contains(s1[k]));
            assert(s1.to_multiset().count(s1[k]) > 0);
            assert(s2.to_multiset().count(s1[k]) > 0);
            assert(s2.contains(s1[k]));
            let k2 = choose|k2: int| 0 <= k2 < s2.len() && s2[k2] == s1[k];
            assert(0 <= k2 < s2.len() && (s2[k2]).start <= p < s2[k2].start + s2[k2].length);
        }
        if in_pts(s2, p) {
            let k = choose|k: int| 0 <= k < s2.len() && (#[trigger] s2[k]).start <= p < s2[k].start
                + s2[k].length;
            assert(s2.contains(s2[k]));
            assert(s2.to_multiset().count(s2[k]) > 0);
            assert(s1.to_multiset().count(s2[k]) > 0);
            assert(s1.contains(s2[k]));
            let k2 = choose|k2: int| 0 <= k2 < s1.len() && s1[k2] == s2[k];
            assert(0 <= k2 < s1.len() && (s1[k2]).start <= p < s1[k2].start + s1[k2].length);
        }
    }
}

/// Coverage is monotone in the covering list: more intervals never turn
/// a covered list into an uncovered one.
pub proof fn lemma_coverage_monotone(a: Seq<Interval>, b: Seq<Interval>, more: Seq<Interval>)
    requires
        covered(a, b),
    ensures
        covered(a, b + more),
{
    assert forall|p: int| in_pts(a, p) implies in_pts(b + more, p) by {
        let k = choose|k: int| 0 <= k < b.len() && (#[trigger] b[k]).start <= p < b[k].start
            + b[k].length;
        assert((b + more)[k] == b[k]);
    }
}

/// Coverage does not depend on the order of the covered list: permuting
/// it changes nothing.
pub proof fn lemma_coverage_permuted_a(a: Seq<Interval>, a2: Seq<Interval>, b: Seq<Interval>)
    requires
        a.to_multiset() == a2.to_multiset(),
    ensures
        covered(a, b) == covered(a2, b),
{
    lemma_pts_same(a, a2);
}

/// Coverage does not depend on the order of the covering list either.
pub proof fn lemma_coverage_permuted_b(a: Seq<Interval>, b: Seq<Interval>, b2: Seq<Interval>)
    requires
        b.to_multiset() == b2.to_multiset(),
    ensures
        covered(a, b) == covered(a, b2),
{
    lemma_pts_same(b, b2);
}

} // verus!
