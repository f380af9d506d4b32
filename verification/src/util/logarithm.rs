//! Base-two logarithm of exact powers of two.

use vstd::prelude::*;

verus! {

/// Apply logarithm base two.
///
/// Succeeds exactly when `val` is a power of two, and then returns the
/// exponent; any other input, zero included, is rejected.
pub fn lg(val: u64) -> (r: Result<u64, ()>)
    ensures
        match r {
            Ok(c) => c < 64 && val == 1u64 << c,
            Err(_) => forall|c: u64| c < 64 ==> val != 1u64 << c,
        },
{
    let orig = val;
    let mut val = val;
    let mut counter: u64 = 0;
    proof {
        assert(orig == orig << 0u64 && orig == orig >> 0u64) by (bit_vector);
    }
    while val > 0 && (val & 1) == 0
        invariant
            orig == 0 ==> val == 0,
            orig != 0 ==> val > 0 && counter <= 63 && orig == val << counter && val == orig
                >> counter,
        decreases val,
    {
        proof {
            assert(orig == val << counter && val == orig >> counter && val > 0 && val & 1 == 0
                && counter <= 63 ==> orig == (val >> 1) << ((counter + 1) as u64) && val >> 1
                == orig >> ((counter + 1) as u64) && val >> 1 < val && val >> 1 > 0 && counter + 1
                <= 63) by (bit_vector);
        }
        counter = counter + 1;
        val = val >> 1;
    }
    if val != 1 {
        proof {
            if orig == 0 {
                assert(forall|c: u64| c < 64 ==> 0u64 != (1u64 << c)) by (bit_vector);
            } else {
                let v = val;
                let k = counter;
                assert forall|c: u64| c < 64 implies orig != 1u64 << c by {
                    assert(v & 1 != 0 && v != 1 && k <= 63 && orig == v << k && v == orig >> k
                        && c < 64 ==> orig != (1u64 << c)) by (bit_vector);
                }
            }
        }
        Err(())
    } else {
        Ok(counter)
    }
}

} // verus!
