//! Laws of whole numbers: which one a number is rounded to.

use crate::binary32::convert::{
    ceil_int, f_ceil, f_floor, f_of_int, f_round, f_to_i64, floor_int, frac_part, int_part,
    round_int, whole,
};
use crate::binary32::facts::lemma_units_zero;
use crate::binary32::{units, F32};
use crate::laws::clearings::lemma_back;
use crate::laws::distances::lemma_round;
use crate::laws::errors::{lemma_huge, one, size};
use crate::laws::rises::lemma_int;
use vstd::arithmetic::div_mod::lemma_fundamental_div_mod;
use vstd::prelude::*;

verus! {

/// A number of at most 8 million.
pub open spec fn countable(q: F32) -> bool {
    q.finite() && size(q.val()) <= 8_000_000 * one()
}

proof fn lemma_parts(q: F32)
    requires
        q.finite(),
    ensures
        units(q.mag()) == int_part(q) * one() + frac_part(q),
        0 <= frac_part(q) < one(),
{
    lemma_huge();
    lemma_fundamental_div_mod(units(q.mag()) as int, one());
    assert(int_part(q) * one() == one() * int_part(q)) by (nonlinear_arith);
}

proof fn lemma_held(k: int, v: int, u: int)
    requires
        u > 0,
        size(v) <= 8_000_000 * u,
        size(v - k * u) <= u,
    ensures
        -8_000_001 <= k <= 8_000_001,
{
    assert(-8_000_001 <= k <= 8_000_001) by (nonlinear_arith)
        requires
            u > 0,
            -(8_000_000 * u) <= v <= 8_000_000 * u,
            -u <= v - k * u <= u,
    ;
}

proof fn lemma_whole(k: int, neg: bool)
    requires
        -8_000_001 <= k <= 8_000_001,
    ensures
        whole(k, neg).finite(),
        whole(k, neg).val() == k * one(),
        f_to_i64(whole(k, neg)) == k,
{
    reveal(f_of_int);
    lemma_units_zero();
    lemma_int(k);
    lemma_back(k, neg);
    assert(0 * one() == 0);
}

/// The floor of a number is the last whole number that is not above it.
pub proof fn floors_are_at_most_one_below(q: F32)
    requires
        countable(q),
    ensures
        f_floor(q).finite(),
        ({
            let k = f_to_i64(f_floor(q));
            f_floor(q).val() == k * one() && k * one() <= q.val() < (k + 1) * one()
        }),
{
    lemma_huge();
    reveal(f_floor);
    lemma_parts(q);
    let (n, r, u, k) = (int_part(q) as int, frac_part(q) as int, one(), floor_int(q));
    assert((-n - 1) * u == -(n * u) - u && (-n) * u == -(n * u) && (n + 1) * u == n * u + u && (-n + 1)
        * u == -(n * u) + u && (-n - 1 + 1) * u == -(n * u)) by (nonlinear_arith);
    lemma_held(k, q.val(), u);
    lemma_whole(k, q.neg());
}

/// The ceiling of a number is the first whole number that is not below it.
pub proof fn ceilings_are_at_most_one_above(q: F32)
    requires
        countable(q),
    ensures
        f_ceil(q).finite(),
        ({
            let k = f_to_i64(f_ceil(q));
            f_ceil(q).val() == k * one() && (k - 1) * one() < q.val() <= k * one()
        }),
{
    lemma_huge();
    reveal(f_ceil);
    lemma_parts(q);
    let (n, r, u, k) = (int_part(q) as int, frac_part(q) as int, one(), ceil_int(q));
    assert((n + 1) * u == n * u + u && (-n) * u == -(n * u) && (-n - 1) * u == -(n * u) - u && (n - 1)
        * u == n * u - u && (n + 1 - 1) * u == n * u) by (nonlinear_arith);
    lemma_held(k, q.val(), u);
    lemma_whole(k, q.neg());
}

/// A number is rounded to the nearest whole number, and from half-way between
/// two away from zero.
pub proof fn roundings_are_nearest(q: F32)
    requires
        countable(q),
    ensures
        f_round(q).finite(),
        ({
            let k = f_to_i64(f_round(q));
            &&& f_round(q).val() == k * one()
            &&& 2 * size(q.val() - k * one()) <= one()
            &&& 2 * size(q.val() - k * one()) == one() ==> size(k * one()) > size(q.val())
        }),
{
    lemma_huge();
    reveal(f_round);
    lemma_parts(q);
    lemma_round(q);
    let (n, u, k) = (int_part(q) as int, one(), round_int(q));
    assert((-n - 1) * u == -(n * u) - u && (-n) * u == -(n * u) && (n + 1) * u == n * u + u && (-(n
        + 1)) * u == -(n * u) - u && n * u >= 0) by (nonlinear_arith)
        requires
            n >= 0,
            u > 0,
    ;
    lemma_held(k, q.val(), u);
    lemma_whole(k, q.neg());
}

} // verus!
