//! Decimal formatting of non-negative lengths held in twentieths of a pixel,
//! the way `{:.1}` and `{:.0}` print them: rounded to the nearest printable
//! value, ties to the even last digit.

use vstd::prelude::*;
use crate::text::{dec, dec_of, digit_char};

verus! {

/// Tenths of a pixel printed by `{:.1}` for `n` twentieths.
pub open spec fn tenths(n: nat) -> nat {
    let t = n / 2;
    if n % 2 == 0 || t % 2 == 0 {
        t
    } else {
        t + 1
    }
}

/// `{:.1}` of `n / 20`.
pub open spec fn fmt1(n: nat) -> Seq<char> {
    let t = tenths(n);
    dec(t / 10) + seq!['.', digit_char((t % 10) as int)]
}

/// Whole pixels printed by `{:.0}` for `n` twentieths.
pub open spec fn wholes(n: nat) -> nat {
    let q = n / 20;
    let r = n % 20;
    if r < 10 || (r == 10 && q % 2 == 0) {
        q
    } else {
        q + 1
    }
}

/// `{:.0}` of `n / 20`.
pub open spec fn fmt0(n: nat) -> Seq<char> {
    dec(wholes(n))
}

pub fn fmt1_of(n: u64) -> (r: Vec<char>)
    requires
        n < 0x1_0000_0000,
    ensures
        r@ == fmt1(n as nat),
{
    let t0 = n / 2;
    let t = if n % 2 == 0 || t0 % 2 == 0 {
        t0
    } else {
        t0 + 1
    };
    let mut r = dec_of(t / 10);
    r.push('.');
    r.push(((t % 10) as u32 + ('0' as u32)) as u8 as char);
    assert(r@ == dec((t / 10) as nat) + seq!['.', digit_char((t % 10) as int)]);
    r
}

pub fn fmt0_of(n: u64) -> (r: Vec<char>)
    requires
        n < 0x1_0000_0000,
    ensures
        r@ == fmt0(n as nat),
{
    let q = n / 20;
    let rem = n % 20;
    let w = if rem < 10 || (rem == 10 && q % 2 == 0) {
        q
    } else {
        q + 1
    };
    dec_of(w)
}

} // verus!
