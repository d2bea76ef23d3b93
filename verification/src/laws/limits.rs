//! The bounds of a time limit, in ticks.

use crate::binary32::arith::f_div;
use crate::binary32::convert::{
    f_round, f_to_i64, f_to_u32, frac_part, int_part, one_units, round_int, whole,
};
use crate::binary32::facts::{
    lemma_pack_ge, lemma_pack_le, lemma_pack_steps, lemma_units_at, lemma_units_mono,
    lemma_units_zero,
};
use crate::binary32::order::f_clamp;
use crate::binary32::{fl, pack, units, F32};
use crate::parse::{limit_ticks, TIME_LIMIT_MAX, TIME_LIMIT_MIN, PHYSICS_DT};
use vstd::arithmetic::div_mod::{lemma_fundamental_div_mod, lemma_fundamental_div_mod_converse};
use vstd::arithmetic::power2::{
    lemma2_to64, lemma2_to64_rest, lemma_pow2_adds, lemma_pow2_pos, pow2,
};
use vstd::prelude::*;

verus! {

/// A time limit comes out between 600 and 144000 ticks, which is what its
/// bounds in seconds are; one that is not a number comes out as none.
pub proof fn limits_are_bounded(f: F32)
    ensures
        f.nan() ==> limit_ticks(f) == 0,
        !f.nan() ==> 600 <= limit_ticks(f) <= 144_000,
{
    reveal(f_div);
    reveal(f_round);
    reveal(f_to_i64);
    let x = f_clamp(f, fl(TIME_LIMIT_MIN), fl(TIME_LIMIT_MAX));
    let q = f_div(x, fl(PHYSICS_DT));
    if !f.nan() {
        lemma_quotient(x);
        lemma_rounded(q);
    }
}

proof fn lemma_powers(p: int, t: int, u: int)
    requires
        p == pow2(147),
        t == pow2(119),
        u == pow2(149),
    ensures
        p > 0,
        t > 0,
        u == 4 * p,
        u == 0x4000_0000 * t,
{
    lemma2_to64();
    lemma2_to64_rest();
    lemma_pow2_pos(147);
    lemma_pow2_pos(119);
    lemma_pow2_adds(147, 2);
    lemma_pow2_adds(119, 30);
}

proof fn lemma_quotient(x: F32)
    requires
        !x.nan(),
        fl(TIME_LIMIT_MIN).rank() <= x.rank() <= fl(TIME_LIMIT_MAX).rank(),
    ensures
        ({
            let q = f_div(x, fl(PHYSICS_DT));
            &&& q.finite()
            &&& !q.neg()
            &&& 2399 * pow2(147) <= units(q.mag()) <= 576_001 * pow2(147)
        }),
{
    reveal(f_div);
    let (p, t, u) = (pow2(147) as int, pow2(119) as int, pow2(149) as int);
    lemma_powers(p, t, u);
    lemma2_to64();
    let (lo, hi, d) = (fl(TIME_LIMIT_MIN), fl(TIME_LIMIT_MAX), fl(PHYSICS_DT));
    lemma_units_at(128, 0xa0_0000);
    lemma_pow2_adds(128, 21);
    assert(units(lo.mag()) == 5 * u) by (nonlinear_arith)
        requires
            units(lo.mag()) == 0xa0_0000 * pow2(128),
            u == pow2(128) * 0x20_0000,
    ;
    lemma_units_at(136, 0x96_0000);
    lemma_pow2_adds(136, 13);
    assert(units(hi.mag()) == 1200 * u) by (nonlinear_arith)
        requires
            units(hi.mag()) == 0x96_0000 * pow2(136),
            u == pow2(136) * 0x2000,
    ;
    lemma_units_at(119, 0x88_8889);
    assert(units(d.mag()) == 0x88_8889 * t);
    let (a, b) = (0x4415_f000nat, 0x480c_a010nat);
    lemma_units_at(135, 0x95_f000);
    lemma_pow2_adds(135, 12);
    assert(units(a) == 2399 * p) by (nonlinear_arith)
        requires
            units(a) == 0x95_f000 * pow2(135),
            p == pow2(135) * 0x1000,
    ;
    lemma_units_at(143, 0x8c_a010);
    lemma_pow2_adds(143, 4);
    assert(units(b) == 576_001 * p) by (nonlinear_arith)
        requires
            units(b) == 0x8c_a010 * pow2(143),
            p == pow2(143) * 16,
    ;
    let v = units(x.mag()) as int;
    if lo.mag() < x.mag() {
        lemma_units_mono(lo.mag(), x.mag());
    }
    if x.mag() < hi.mag() {
        lemma_units_mono(x.mag(), hi.mag());
    }
    assert(5 * u <= v <= 1200 * u);
    let den = units(d.mag());
    let num = (v * u) as nat;
    assert(num >= (2399 * p) * (0x88_8889 * t)) by (nonlinear_arith)
        requires
            num == v * u,
            v >= 5 * u,
            u == 4 * p,
            u == 0x4000_0000 * t,
            p > 0,
            t > 0,
    {
        assert(v * u >= (5 * u) * u) by (nonlinear_arith)
            requires
                v >= 5 * u,
                u > 0,
        ;
        assert((5 * u) * u == (5 * (4 * p)) * (0x4000_0000 * t)) by (nonlinear_arith)
            requires
                u == 4 * p,
                u == 0x4000_0000 * t,
        ;
        assert((5 * (4 * p)) * (0x4000_0000 * t) == 21_474_836_480 * (p * t)) by (nonlinear_arith);
        assert((2399 * p) * (0x88_8889 * t) == 21_465_889_751 * (p * t)) by (nonlinear_arith);
        assert(p * t > 0) by (nonlinear_arith)
            requires
                p > 0,
                t > 0,
        ;
    }
    assert(num <= (576_001 * p) * (0x88_8889 * t)) by (nonlinear_arith)
        requires
            num == v * u,
            0 <= v <= 1200 * u,
            u == 4 * p,
            u == 0x4000_0000 * t,
            p > 0,
            t > 0,
    {
        assert(v * u <= (1200 * u) * u) by (nonlinear_arith)
            requires
                v <= 1200 * u,
                u > 0,
        ;
        assert((1200 * u) * u == (1200 * (4 * p)) * (0x4000_0000 * t)) by (nonlinear_arith)
            requires
                u == 4 * p,
                u == 0x4000_0000 * t,
        ;
        assert((1200 * (4 * p)) * (0x4000_0000 * t) == 5_153_960_755_200 * (p * t)) by (nonlinear_arith);
        assert((576_001 * p) * (0x88_8889 * t) == 5_153_969_971_849 * (p * t)) by (nonlinear_arith);
        assert(p * t > 0) by (nonlinear_arith)
            requires
                p > 0,
                t > 0,
        ;
    }
    assert(den > 0);
    lemma_pack_ge(num, den, a);
    lemma_pack_le(num, den, b);
    let m = pack(num, den);
    if a < m {
        lemma_units_mono(a, m);
    }
    if m < b {
        lemma_units_mono(m, b);
    }
    lemma_units_zero();
}

proof fn lemma_rounded(q: F32)
    requires
        q.finite(),
        !q.neg(),
        2399 * pow2(147) <= units(q.mag()) <= 576_001 * pow2(147),
    ensures
        600 <= f_to_u32(f_round(q)) <= 144_000,
{
    reveal(f_round);
    reveal(f_to_i64);
    let (p, u) = (pow2(147) as int, pow2(149) as int);
    lemma_powers(p, pow2(119) as int, u);
    let v = units(q.mag()) as int;
    assert(one_units() == u);
    let (n, r) = (int_part(q) as int, frac_part(q) as int);
    lemma_fundamental_div_mod(v, u);
    assert(599 <= n <= 144_000 && (n == 599 ==> r >= 3 * p) && (n == 144_000 ==> r <= p)) by (nonlinear_arith)
        requires
            v == u * n + r,
            0 <= r < u,
            u == 4 * p,
            p > 0,
            2399 * p <= v <= 576_001 * p,
    ;
    let i = round_int(q);
    assert(600 <= i <= 144_000);
    let w = whole(i, false);
    lemma_pack_steps(i as nat, 149);
    assert((i * one_units()) as nat == i as nat * pow2(149));
    lemma_fundamental_div_mod_converse(i * u, u, i, 0);
    assert(int_part(w) == i);
}

} // verus!
