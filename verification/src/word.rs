//! Arithmetic on 32-bit two's-complement words.

use vstd::prelude::*;

verus! {

/// The low 32 bits of `n`, read as a signed two's-complement word.
#[verifier::opaque]
pub open spec fn wrap32(n: int) -> i32 {
    let low = n % 0x1_0000_0000;
    if low < 0x8000_0000 {
        low as i32
    } else {
        (low - 0x1_0000_0000) as i32
    }
}

/// A number that fits a signed word is left as it is.
pub proof fn lemma_wrap32_fits(n: int)
    requires
        i32::MIN <= n <= i32::MAX,
    ensures
        wrap32(n) == n,
{
    reveal(wrap32);
}

/// Wrapping may be done once at the end of a sum, or after every addition.
pub proof fn lemma_wrap32_add(a: int, b: int)
    ensures
        wrap32(wrap32(a) + b) == wrap32(a + b),
{
    reveal(wrap32);
}

/// Adds `delta` to a running total kept in a 32-bit word.
pub fn add_wrapping(total: i32, delta: i32) -> (sum: i32)
    ensures
        sum == wrap32(total + delta),
{
    proof {
        reveal(wrap32);
    }
    total.wrapping_add(delta)
}

} // verus!
