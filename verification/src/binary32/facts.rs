//! Facts about rounding and order: rounding keeps the order of values, so what
//! lies between two numbers stays between them.

use super::arith::{f_add, f_mul};
use super::order::{f_le, f_lt};
use super::rounding::lemma_excess_unique;
use super::{excess, nearest, pack, significand, step_of, units, F32, INF_BITS};
use vstd::arithmetic::div_mod::{
    lemma_div_denominator, lemma_fundamental_div_mod, lemma_fundamental_div_mod_converse,
    lemma_mod_division_less_than_divisor,
};
use vstd::arithmetic::power2::{lemma2_to64, lemma_pow2_adds, lemma_pow2_pos, lemma_pow2_unfold, pow2};
use vstd::prelude::*;

verus! {

/// A representable value rounds to itself.
pub proof fn lemma_pack_units(mag: nat)
    requires
        mag < INF_BITS,
    ensures
        pack(units(mag), 1) == mag,
{
    let k = step_of(mag);
    let m = significand(mag);
    let p = pow2(k);
    lemma_pow2_pos(k);
    assert(m * p == p * m) by (nonlinear_arith);
    lemma_fundamental_div_mod_converse(units(mag) as int, p as int, m as int, 0);
    lemma_excess_unique(units(mag), k);
    assert(units(mag) / 1 == units(mag));
    assert(1 * p == p);
}

/// The value of the pattern with step `s` and significand `m`.
pub proof fn lemma_units_at(s: nat, m: nat)
    requires
        (s == 0 && m <= 0x100_0000) || 0x80_0000 <= m <= 0x100_0000,
    ensures
        units(s * 0x80_0000 + m) == m * pow2(s),
{
    let mag = s * 0x80_0000 + m;
    lemma2_to64();
    if m == 0x100_0000 {
        assert(mag == (s + 2) * 0x80_0000);
        assert(mag / 0x80_0000 == s + 2);
        assert(step_of(mag) == s + 1);
        assert(significand(mag) == 0x80_0000);
        lemma_pow2_unfold(s + 1);
        assert(0x80_0000 * (2 * pow2(s)) == 0x100_0000 * pow2(s)) by (nonlinear_arith);
    } else if m >= 0x80_0000 {
        assert(mag / 0x80_0000 == s + 1);
        assert(step_of(mag) == s);
    }
}

/// Larger patterns have larger values.
pub proof fn lemma_units_mono(a: nat, b: nat)
    requires
        a < b,
    ensures
        units(a) < units(b),
    decreases b - a,
{
    let c = (b - 1) as nat;
    let k = step_of(c);
    let m = significand(c);
    lemma_pow2_pos(k);
    assert(m < 0x100_0000 && (k > 0 ==> m >= 0x80_0000)) by {
        assert(c / 0x80_0000 * 0x80_0000 <= c < c / 0x80_0000 * 0x80_0000 + 0x80_0000);
    }
    assert(b == k * 0x80_0000 + (m + 1));
    if k > 0 || m + 1 >= 0x80_0000 {
        lemma_units_at(k, m + 1);
    } else {
        lemma_units_at(0, m + 1);
    }
    assert((m + 1) * pow2(k) == m * pow2(k) + pow2(k)) by (nonlinear_arith);
    if a < c {
        lemma_units_mono(a, c);
    }
}

/// Comparing numbers is comparing their values.
pub proof fn order_is_by_value(a: F32, b: F32)
    requires
        a.finite(),
        b.finite(),
    ensures
        f_lt(a, b) == (a.val() < b.val()),
        f_le(a, b) == (a.val() <= b.val()),
{
    lemma_units_zero();
    if a.mag() < b.mag() {
        lemma_units_mono(a.mag(), b.mag());
    } else if b.mag() < a.mag() {
        lemma_units_mono(b.mag(), a.mag());
    }
    if a.mag() > 0 {
        lemma_units_mono(0, a.mag());
    }
    if b.mag() > 0 {
        lemma_units_mono(0, b.mag());
    }
}

pub proof fn lemma_units_zero()
    ensures
        units(0) == 0,
{
    lemma2_to64();
}

/// A bound on how many bits are left out.
pub proof fn lemma_excess_at_most(v: nat, k: nat)
    requires
        v < 0x100_0000 * pow2(k),
    ensures
        excess(v) <= k,
    decreases v,
{
    if v >= 0x100_0000 {
        lemma2_to64();
        assert(k > 0);
        lemma_pow2_unfold(k);
        assert(v / 2 < 0x100_0000 * pow2((k - 1) as nat)) by (nonlinear_arith)
            requires
                v < 0x100_0000 * (2 * pow2((k - 1) as nat)),
        ;
        lemma_excess_at_most(v / 2, (k - 1) as nat);
    }
}

/// What is left in is 24 bits.
pub proof fn lemma_excess_normal(v: nat)
    ensures
        v / pow2(excess(v)) < 0x100_0000,
        excess(v) > 0 ==> v / pow2(excess(v)) >= 0x80_0000,
    decreases v,
{
    lemma2_to64();
    if v < 0x100_0000 {
        assert(v / 1 == v);
    } else {
        let h = v / 2;
        lemma_excess_normal(h);
        let k = excess(h);
        lemma_pow2_unfold(k + 1);
        lemma_pow2_pos(k);
        lemma_div_denominator(v as int, 2, pow2(k) as int);
        assert(v / pow2(k + 1) == h / pow2(k));
        if k == 0 {
            assert(h / 1 == h);
        }
    }
}

/// More units leave out no fewer bits.
proof fn lemma_excess_mono(u: nat, v: nat)
    requires
        u <= v,
    ensures
        excess(u) <= excess(v),
    decreases v,
{
    if u >= 0x100_0000 {
        lemma_excess_mono(u / 2, v / 2);
    }
}

proof fn lemma_excess_units(mag: nat)
    requires
        mag < INF_BITS,
    ensures
        excess(units(mag)) == step_of(mag),
{
    let k = step_of(mag);
    let m = significand(mag);
    let p = pow2(k);
    lemma_pow2_pos(k);
    assert(m * p == p * m) by (nonlinear_arith);
    lemma_fundamental_div_mod_converse(units(mag) as int, p as int, m as int, 0);
    lemma_excess_unique(units(mag), k);
}

/// `nearest` is never far, and keeps to integers on either side.
pub(crate) proof fn lemma_nearest(n: nat, d: nat)
    requires
        d > 0,
    ensures
        n / d <= nearest(n, d) <= n / d + 1,
        2 * (nearest(n, d) * d) <= 2 * n + d,
        2 * n <= 2 * (nearest(n, d) * d) + d,
        forall|m: nat| n <= #[trigger] (m * d) ==> nearest(n, d) <= m,
{
    let q = n / d;
    let r = n % d;
    lemma_fundamental_div_mod(n as int, d as int);
    lemma_mod_division_less_than_divisor(n as int, d as int);
    assert((q + 1) * d == d * q + d && q * d == d * q) by (nonlinear_arith);
    assert forall|m: nat| n <= #[trigger] (m * d) implies nearest(n, d) <= m by {
        if nearest(n, d) > m {
            if nearest(n, d) == q {
                assert(m + 1 <= q);
                assert(m * d + d <= d * q) by (nonlinear_arith)
                    requires
                        m + 1 <= q,
                        d > 0,
                ;
            } else {
                assert(m <= q);
                assert(m * d <= d * q) by (nonlinear_arith)
                    requires
                        m <= q,
                        d > 0,
                ;
                assert(r == 0);
            }
        }
    }
}

/// The quotient that a pattern keeps, and its divisor.
pub(crate) proof fn lemma_kept(n: nat, d: nat)
    requires
        d > 0,
    ensures
        ({
            let k = excess(n / d);
            &&& pow2(k) > 0
            &&& d * pow2(k) > 0
            &&& n / (d * pow2(k)) == (n / d) / pow2(k)
            &&& n / (d * pow2(k)) < 0x100_0000
            &&& k > 0 ==> n / (d * pow2(k)) >= 0x80_0000
        }),
{
    let k = excess(n / d);
    lemma_pow2_pos(k);
    lemma_excess_normal(n / d);
    lemma_div_denominator(n as int, d as int, pow2(k) as int);
    assert(d * pow2(k) > 0) by (nonlinear_arith)
        requires
            d > 0,
            pow2(k) > 0,
    ;
}

/// What does not exceed a number is not rounded beyond it.
pub proof fn lemma_pack_le(n: nat, d: nat, b: nat)
    requires
        d > 0,
        b < INF_BITS,
        n <= units(b) * d,
    ensures
        pack(n, d) <= b,
{
    let k = excess(n / d);
    let s = step_of(b);
    let m = significand(b);
    lemma_kept(n, d);
    lemma_nearest(n, d * pow2(k));
    assert(n / d <= units(b)) by (nonlinear_arith)
        requires
            d > 0,
            n <= units(b) * d,
    ;
    lemma_excess_mono(n / d, units(b));
    lemma_excess_units(b);
    if k == s {
        assert(units(b) * d == m * (d * pow2(k))) by (nonlinear_arith)
            requires
                units(b) == m * pow2(k),
        ;
    }
}

/// What is not less than a number is not rounded below it.
pub proof fn lemma_pack_ge(n: nat, d: nat, b: nat)
    requires
        d > 0,
        b < INF_BITS,
        n >= units(b) * d,
    ensures
        pack(n, d) >= b,
{
    let k = excess(n / d);
    let s = step_of(b);
    let m = significand(b);
    lemma_kept(n, d);
    lemma_nearest(n, d * pow2(k));
    assert(n / d >= units(b)) by (nonlinear_arith)
        requires
            d > 0,
            n >= units(b) * d,
    ;
    lemma_excess_mono(units(b), n / d);
    lemma_excess_units(b);
    if k == s {
        assert(n / (d * pow2(k)) >= m) by (nonlinear_arith)
            requires
                d * pow2(k) > 0,
                n >= units(b) * d,
                units(b) == m * pow2(k),
        ;
    }
}

/// Nothing rounds to nothing.
pub proof fn lemma_pack_zero(d: nat)
    requires
        d > 0,
    ensures
        pack(0, d) == 0,
{
    lemma_units_zero();
    assert(0 <= units(0) * d) by (nonlinear_arith);
    lemma_pack_le(0, d, 0);
}

/// Rounding keeps the order.
pub proof fn lemma_pack_mono(n: nat, m: nat, d: nat)
    requires
        d > 0,
        n <= m,
    ensures
        pack(n, d) <= pack(m, d),
{
    let (j, k) = (excess(n / d), excess(m / d));
    lemma_kept(n, d);
    lemma_kept(m, d);
    assert(n / d <= m / d) by (nonlinear_arith)
        requires
            d > 0,
            n <= m,
    ;
    lemma_excess_mono(n / d, m / d);
    lemma_nearest(n, d * pow2(j));
    lemma_nearest(m, d * pow2(k));
    if j == k {
        let w = d * pow2(k);
        lemma_fundamental_div_mod(n as int, w as int);
        lemma_fundamental_div_mod(m as int, w as int);
        assert(n / w <= m / w) by (nonlinear_arith)
            requires
                w > 0,
                n <= m,
        ;
    }
}

/// What exceeds a number with an even significand by half a step at most is
/// not rounded beyond it.
pub proof fn lemma_pack_le_half(n: nat, d: nat, b: nat)
    requires
        d > 0,
        b < INF_BITS,
        significand(b) % 2 == 0,
        2 * n <= (2 * significand(b) + 1) * pow2(step_of(b)) * d,
    ensures
        pack(n, d) <= b,
{
    let k = excess(n / d);
    let s = step_of(b);
    let m = significand(b);
    let p = pow2(s);
    lemma_pow2_pos(s);
    if n <= units(b) * d {
        lemma_pack_le(n, d, b);
    } else {
        lemma_kept(n, d);
        assert(m < 0x100_0000);
        assert(n / d < 0x100_0000 * p) by (nonlinear_arith)
            requires
                d > 0,
                p > 0,
                m < 0x100_0000,
                2 * n <= (2 * m + 1) * p * d,
        ;
        lemma_excess_at_most(n / d, s);
        lemma_pack_ge(n, d, b);
        assert(n / d >= units(b)) by (nonlinear_arith)
            requires
                d > 0,
                n >= units(b) * d,
        ;
        lemma_excess_mono(units(b), n / d);
        lemma_excess_units(b);
        assert(k == s);
        let e = d * p;
        assert(n > m * e && 2 * n <= 2 * (m * e) + e) by (nonlinear_arith)
            requires
                n > (m * p) * d,
                2 * n <= (2 * m + 1) * p * d,
                e == d * p,
        ;
        assert(m * e == e * m) by (nonlinear_arith);
        lemma_fundamental_div_mod_converse(n as int, e as int, m as int, n - m * e);
        assert(nearest(n, e) == m);
    }
}

/// The value of a rounded pattern.
pub proof fn lemma_pack_value(n: nat, d: nat)
    requires
        d > 0,
        pack(n, d) < INF_BITS,
    ensures
        units(pack(n, d)) == nearest(n, d * pow2(excess(n / d))) * pow2(excess(n / d)),
{
    let k = excess(n / d);
    lemma_kept(n, d);
    lemma_nearest(n, d * pow2(k));
    lemma_units_at(k, nearest(n, d * pow2(k)));
}

/// A whole number of steps is kept exactly.
pub proof fn lemma_pack_steps(c: nat, k: nat)
    requires
        c < 0x100_0000,
        k <= 253,
    ensures
        pack(c * pow2(k), 1) < INF_BITS,
        units(pack(c * pow2(k), 1)) == c * pow2(k),
{
    let n = c * pow2(k);
    lemma_pow2_pos(k);
    assert(n < 0x100_0000 * pow2(k)) by (nonlinear_arith)
        requires
            c < 0x100_0000,
            n == c * pow2(k),
            pow2(k) > 0,
    ;
    assert(n / 1 == n);
    lemma_excess_at_most(n, k);
    let j = excess(n);
    let rest = (k - j) as nat;
    lemma_pow2_adds(j, rest);
    lemma_pow2_pos(j);
    let q = c * pow2(rest);
    assert(n == pow2(j) * q) by (nonlinear_arith)
        requires
            n == c * pow2(k),
            pow2(k) == pow2(j) * pow2(rest),
            q == c * pow2(rest),
    ;
    assert(q * pow2(j) == pow2(j) * q) by (nonlinear_arith);
    lemma_fundamental_div_mod_converse(n as int, pow2(j) as int, q as int, 0);
    assert(1 * pow2(j) == pow2(j));
    assert(nearest(n, pow2(j)) == q);
    lemma_kept(n, 1);
    assert(q < 0x100_0000);
    assert(j * 0x80_0000 + q < INF_BITS);
    lemma_pack_value(n, 1);
    assert(q * pow2(j) == pow2(j) * q) by (nonlinear_arith);
}

/// How far rounding moves a whole number of units.
pub proof fn lemma_pack_error(n: nat, k: nat)
    requires
        n < 0x100_0000 * pow2(k),
        pack(n, 1) < INF_BITS,
    ensures
        2 * units(pack(n, 1)) <= 2 * n + pow2(k),
        2 * n <= 2 * units(pack(n, 1)) + pow2(k),
{
    assert(n / 1 == n);
    lemma_excess_at_most(n, k);
    let j = excess(n);
    lemma_pack_value(n, 1);
    lemma_pow2_pos(j);
    assert(1 * pow2(j) == pow2(j));
    lemma_nearest(n, pow2(j));
    lemma_pow2_adds(j, (k - j) as nat);
    lemma_pow2_pos((k - j) as nat);
    assert(pow2(j) <= pow2(k)) by (nonlinear_arith)
        requires
            pow2(k) == pow2(j) * pow2((k - j) as nat),
            pow2((k - j) as nat) > 0,
            pow2(j) > 0,
    ;
}

/// A sum stays between numbers that its exact value lies between.
pub proof fn lemma_add_between(a: F32, b: F32, lo: F32, hi: F32)
    requires
        a.finite(),
        b.finite(),
        lo.finite(),
        hi.finite(),
        lo.val() <= a.val() + b.val() <= hi.val(),
    ensures
        f_add(a, b).finite(),
        lo.val() <= f_add(a, b).val() <= hi.val(),
{
    reveal(f_add);
    let s = a.val() + b.val();
    lemma_units_zero();
    if s > 0 {
        let n = s as nat;
        assert(units(hi.mag()) * 1 == units(hi.mag()));
        lemma_pack_le(n, 1, hi.mag());
        lemma_le_value(pack(n, 1), hi.mag());
        if lo.val() > 0 {
            assert(units(lo.mag()) * 1 == units(lo.mag()));
            lemma_pack_ge(n, 1, lo.mag());
            lemma_le_value(lo.mag(), pack(n, 1));
        }
    } else if s < 0 {
        let n = (-s) as nat;
        assert(units(lo.mag()) * 1 == units(lo.mag()));
        lemma_pack_le(n, 1, lo.mag());
        lemma_le_value(pack(n, 1), lo.mag());
        if hi.val() < 0 {
            assert(units(hi.mag()) * 1 == units(hi.mag()));
            lemma_pack_ge(n, 1, hi.mag());
            lemma_le_value(hi.mag(), pack(n, 1));
        }
    }
}

proof fn lemma_le_value(a: nat, b: nat)
    requires
        a <= b,
    ensures
        units(a) <= units(b),
{
    if a < b {
        lemma_units_mono(a, b);
    }
}

/// The sum of two finite numbers is a number.
pub proof fn lemma_add_is_a_number(a: F32, b: F32)
    requires
        a.finite(),
        b.finite(),
    ensures
        !f_add(a, b).nan(),
{
    reveal(f_add);
}

/// Adding a number that is not negative never leads down.
pub proof fn lemma_add_up(a: F32, b: F32)
    requires
        !a.nan(),
        b.finite(),
        !b.neg(),
    ensures
        f_le(a, f_add(a, b)),
{
    reveal(f_add);
    if a.finite() {
        let s = a.val() + b.val();
        assert(units(a.mag()) * 1 == units(a.mag()));
        lemma_units_zero();
        if !a.neg() {
            lemma_pack_ge(s as nat, 1, a.mag());
            if a.mag() > 0 {
                lemma_units_mono(0, a.mag());
            }
        } else if s < 0 {
            lemma_pack_le((-s) as nat, 1, a.mag());
        }
    }
}

/// A product stays between numbers that its exact value lies between.
pub proof fn lemma_mul_between(a: F32, b: F32, lo: F32, hi: F32)
    requires
        a.finite(),
        b.finite(),
        lo.finite(),
        hi.finite(),
        lo.val() * pow2(149) <= a.val() * b.val() <= hi.val() * pow2(149),
    ensures
        f_mul(a, b).finite(),
        lo.val() <= f_mul(a, b).val() <= hi.val(),
{
    reveal(f_mul);
    lemma_pow2_pos(149);
    lemma_units_zero();
    let u = pow2(149);
    let (x, y) = (units(a.mag()), units(b.mag()));
    let n = x * y;
    assert(a.val() * b.val() == if a.neg() != b.neg() {
        -(n as int)
    } else {
        n as int
    }) by (nonlinear_arith)
        requires
            n == x * y,
            a.val() == if a.neg() {
                -(x as int)
            } else {
                x as int
            },
            b.val() == if b.neg() {
                -(y as int)
            } else {
                y as int
            },
    ;
    let (l, h) = (lo.val(), hi.val());
    if a.neg() != b.neg() {
        assert(l <= 0 && n <= (-l) * u) by (nonlinear_arith)
            requires
                u > 0,
                n >= 0,
                l * u <= -n,
        ;
        lemma_rounded_below(n, u, lo.mag());
        if h < 0 {
            assert(n >= (-h) * u) by (nonlinear_arith)
                requires
                    -n <= h * u,
            ;
            lemma_rounded_above(n, u, hi.mag());
        }
    } else {
        assert(h >= 0) by (nonlinear_arith)
            requires
                u > 0,
                n >= 0,
                n <= h * u,
        ;
        lemma_rounded_below(n, u, hi.mag());
        if l > 0 {
            lemma_rounded_above(n, u, lo.mag());
        }
    }
}

proof fn lemma_rounded_below(n: nat, u: nat, b: nat)
    requires
        u > 0,
        b < INF_BITS,
        n <= units(b) * u,
    ensures
        pack(n, u) <= b,
        units(pack(n, u)) <= units(b),
{
    lemma_pack_le(n, u, b);
    lemma_le_value(pack(n, u), b);
}

proof fn lemma_rounded_above(n: nat, u: nat, b: nat)
    requires
        u > 0,
        b < INF_BITS,
        n >= units(b) * u,
    ensures
        pack(n, u) >= b,
        units(pack(n, u)) >= units(b),
{
    lemma_pack_ge(n, u, b);
    lemma_le_value(b, pack(n, u));
}

} // verus!
