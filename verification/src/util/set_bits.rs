//! Bit-field manipulation on 64-bit words.

use vstd::prelude::*;

verus! {

/// The value of bit `i` of `x`, as 0 or 1.
pub open spec fn bit_of(x: u64, i: u64) -> u64 {
    (x >> i) & 1
}

/// A mask with the low `n` bits set, for `0 < n <= 64`.
pub open spec fn low_mask(n: u64) -> u64
    recommends
        0 < n <= 64,
{
    !0u64 >> ((64 - n) as u64)
}

/// Set bits at position `start` to position `end`, not including `end`.
///
/// Bits `start..end` of the result hold `val`; every other bit keeps the
/// value it has in `var`. The word is 64 bits wide, so `end` may be at
/// most 64, and `val` must fit in `end - start` bits.
pub fn set_bits(var: u64, start: u8, end: u8, val: u64) -> (r: u64)
    requires
        start < end,
        end <= 64,
        val <= low_mask((end - start) as u64),
    ensures
        forall|i: u64|
            i < 64 ==> #[trigger] bit_of(r, i) == if start as u64 <= i < end as u64 {
                bit_of(val, (i - start as u64) as u64)
            } else {
                bit_of(var, i)
            },
{
    let width: u8 = 64;
    // Reset bits from start to end, excluding end.
    let cleared = var & !((!0u64 >> ((width - end + start) as u64)) << (start as u64));
    // Put the value into the cleared position.
    let r = cleared | (val << (start as u64));
    proof {
        let s = start as u64;
        let e = end as u64;
        assert forall|i: u64| i < 64 implies #[trigger] bit_of(r, i) == if s <= i < e {
            bit_of(val, (i - s) as u64)
        } else {
            bit_of(var, i)
        } by {
            let m = (64 - (e - s)) as u64;
            if s <= i < e {
                let d = (i - s) as u64;
                assert(s < e && e <= 64 && i < 64 && s <= i && i < e && d + s == i && m + e == 64
                    + s && val <= (!0u64 >> m) && r == (var & !((!0u64 >> m) << s)) | (val << s)
                    ==> ((r >> i) & 1) == ((val >> d) & 1)) by (bit_vector);
            } else {
                assert(s < e && e <= 64 && i < 64 && !(s <= i && i < e) && m + e == 64 + s && val
                    <= (!0u64 >> m) && r == (var & !((!0u64 >> m) << s)) | (val << s) ==> ((r >> i)
                    & 1) == ((var >> i) & 1)) by (bit_vector);
            }
        }
    }
    r
}

} // verus!
