use vstd::arithmetic::div_mod::{lemma_div_denominator, lemma_fundamental_div_mod};
use vstd::prelude::*;

verus! {

/// Remainder and quotient of `a` divided by `b`.
fn get_quorem(a: u64, b: u64) -> (r: (u64, u64))
    requires
        b > 0,
    ensures
        r.0 == a % b,
        r.1 == a / b,
{
    proof {
        lemma_fundamental_div_mod(a as int, b as int);
        assert((a - a % b) as int == b * (a / b) as int);
        assert(((b * (a / b) as int) / b as int) == a / b) by (nonlinear_arith)
            requires
                b > 0,
        ;
    }
    (a % b, (a - a % b) / b)
}

/// Splits a number of seconds into `(hours, minutes, seconds)`.
pub fn get_hms(seconds: u64) -> (r: (u64, u64, u64))
    ensures
        r.0 == seconds / 3600,
        r.1 == (seconds / 60) % 60,
        r.2 == seconds % 60,
{
    let (s, total_m) = get_quorem(seconds, 60);
    let (m, h) = get_quorem(total_m, 60);
    proof {
        lemma_div_denominator(seconds as int, 60, 60);
    }
    (h, m, s)
}

} // verus!
