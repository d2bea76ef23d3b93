//! Laws of rounding: how far the result of one operation is from the exact one.

use crate::binary32::arith::{
    f_add, f_div, f_mul, f_sqrt, is_root, lemma_root_exists, pack_root, root_floor,
};
use crate::binary32::facts::{
    lemma_add_between, lemma_excess_normal, lemma_kept, lemma_mul_between, lemma_nearest,
    lemma_pack_value, lemma_units_at, lemma_units_mono, lemma_units_zero,
};
use crate::binary32::{excess, nearest, pack, units, F32, INF_BITS};
use crate::laws::distances::lemma_div_between;
use crate::laws::rises::lemma_grid;
use vstd::arithmetic::div_mod::lemma_fundamental_div_mod;
use vstd::arithmetic::power2::{
    lemma2_to64, lemma2_to64_rest, lemma_pow2_adds, lemma_pow2_pos, pow2,
};
use vstd::prelude::*;

verus! {

/// The size of a number.
pub open spec fn size(x: int) -> int {
    if x < 0 {
        -x
    } else {
        x
    }
}

/// `1` in units.
pub open spec fn one() -> int {
    pow2(149) as int
}

proof fn lemma_rounded(n: nat, d: nat)
    requires
        d > 0,
        pack(n, d) < INF_BITS,
    ensures
        size(units(pack(n, d)) * d - n) * 0x100_0000 <= n + 0x80_0000 * d,
        d == 1 ==> size(units(pack(n, d)) - n) * 0x100_0000 <= n,
{
    let k = excess(n / d);
    let p = pow2(k);
    let w = d * p;
    lemma_kept(n, d);
    lemma_pack_value(n, d);
    lemma_nearest(n, w);
    let q = nearest(n, w);
    assert(units(pack(n, d)) * d == q * w) by (nonlinear_arith)
        requires
            units(pack(n, d)) == q * p,
            w == d * p,
    ;
    if k > 0 {
        lemma_fundamental_div_mod(n as int, w as int);
        assert(n >= 0x80_0000 * w) by (nonlinear_arith)
            requires
                n == w * (n / w) + n % w,
                n % w >= 0,
                n / w >= 0x80_0000,
                w > 0,
        ;
    } else {
        lemma2_to64();
        assert(w == d) by (nonlinear_arith)
            requires
                w == d * p,
                p == 1,
        ;
        if d == 1 {
            assert(n / 1 == n && n % 1 == 0);
            assert(q == n);
        }
    }
    if d == 1 {
        assert(units(pack(n, d)) * d == units(pack(n, d)));
    }
}

/// A sum is off by a part in `2^24` at most.
pub proof fn sums_are_near(a: F32, b: F32)
    requires
        a.finite(),
        b.finite(),
        f_add(a, b).finite(),
    ensures
        size(f_add(a, b).val() - (a.val() + b.val())) * 0x100_0000 <= size(a.val() + b.val()),
{
    reveal(f_add);
    lemma_units_zero();
    let s = a.val() + b.val();
    if s > 0 {
        lemma_rounded(s as nat, 1);
    } else if s < 0 {
        lemma_rounded((-s) as nat, 1);
    }
}

/// A product is off by a part in `2^24` at most, or by half of the smallest
/// step.
pub proof fn products_are_near(a: F32, b: F32)
    requires
        a.finite(),
        b.finite(),
        f_mul(a, b).finite(),
    ensures
        size(f_mul(a, b).val() * one() - a.val() * b.val()) * 0x100_0000 <= size(a.val() * b.val())
            + 0x80_0000 * one(),
{
    reveal(f_mul);
    lemma_units_zero();
    lemma_pow2_pos(149);
    let (x, y, u) = (units(a.mag()), units(b.mag()), pow2(149));
    let n = x * y;
    lemma_rounded(n, u);
    let m = units(pack(n, u));
    assert(n >= 0) by (nonlinear_arith)
        requires
            n == x * y,
    ;
    assert(size(a.val() * b.val()) == n && (a.neg() == b.neg() ==> a.val() * b.val() == n) && (a.neg()
        != b.neg() ==> a.val() * b.val() == -n)) by {
        assert(x * (-y) == -(x * y)) by (nonlinear_arith);
        assert((-x) * y == -(x * y)) by (nonlinear_arith);
        assert((-x) * (-y) == x * y) by (nonlinear_arith);
    }
    assert((-m) * u == -(m * u)) by (nonlinear_arith);
}

/// A quotient is off by a part in `2^24` at most, or by half of the smallest
/// step.
pub proof fn quotients_are_near(a: F32, b: F32)
    requires
        a.finite(),
        b.finite(),
        b.val() != 0,
        f_div(a, b).finite(),
    ensures
        size(f_div(a, b).val() * b.val() - a.val() * one()) * 0x100_0000 <= size(a.val() * one())
            + 0x80_0000 * size(b.val()),
{
    reveal(f_div);
    lemma_units_zero();
    lemma_pow2_pos(149);
    let (x, y, u) = (units(a.mag()), units(b.mag()), pow2(149));
    let n = x * u;
    lemma_rounded(n, y);
    let m = units(pack(n, y));
    assert(n >= 0) by (nonlinear_arith)
        requires
            n == x * u,
    ;
    assert((-x) * u == -(x * u)) by (nonlinear_arith);
    assert(m * (-y) == -(m * y)) by (nonlinear_arith);
    assert((-m) * y == -(m * y)) by (nonlinear_arith);
    assert((-m) * (-y) == m * y) by (nonlinear_arith);
}

/// The square of a root is off by a part in `2^21` at most.
pub proof fn roots_are_near(a: F32)
    requires
        a.finite(),
        a.val() >= 0,
    ensures
        f_sqrt(a).finite(),
        f_sqrt(a).val() >= 0,
        size(f_sqrt(a).val() * f_sqrt(a).val() - a.val() * one()) * 0x20_0000 <= a.val() * one(),
{
    reveal(f_sqrt);
    lemma2_to64();
    lemma_units_zero();
    lemma_pow2_pos(149);
    let u = pow2(149);
    if a.mag() == 0 {
        assert(0 * 0 == 0 && 0 * one() == 0) by (nonlinear_arith);
    } else {
        lemma_units_mono(0, a.mag());
        let v = units(a.mag());
        let x = v * u;
        assert(x >= u) by (nonlinear_arith)
            requires
                x == v * u,
                v >= 1,
        ;
        lemma_root_value(x, a.mag());
    }
}

pub(crate) proof fn lemma_square_of_product(a: int, b: int)
    by (nonlinear_arith)
    ensures
        (a * b) * (a * b) == (a * a) * (b * b),
{
}

proof fn lemma_one_more(a: int, b: int)
    by (nonlinear_arith)
    ensures
        (a + 1) * b == b * a + b,
{
}

proof fn lemma_next_square(a: int)
    by (nonlinear_arith)
    ensures
        (a + 1) * (a + 1) == a * a + 2 * a + 1,
{
}

pub(crate) proof fn lemma_shared_factor(a: int, b: int, c: int)
    by (nonlinear_arith)
    ensures
        (a + b) * c == a * c + b * c,
{
}

proof fn lemma_root_value(x: nat, mag: nat)
    requires
        x >= pow2(149),
        x == units(mag) * pow2(149),
        0 < mag < INF_BITS,
    ensures
        pack_root(x) < INF_BITS,
        size(units(pack_root(x)) * units(pack_root(x)) - x) * 0x20_0000 <= x,
{
    lemma2_to64();
    let r = root_floor(x);
    lemma_root_exists(x);
    assert(is_root(x, r));
    let k = excess(r);
    let p = pow2(k);
    lemma_pow2_pos(k);
    lemma_pow2_pos(2 * k);
    lemma_pow2_adds(k, k);
    lemma_excess_normal(r);
    // the root is large
    lemma_pow2_adds(74, 75);
    lemma_pow2_adds(24, 50);
    lemma_pow2_adds(74, 74);
    lemma_pow2_adds(148, 1);
    lemma_pow2_pos(74);
    lemma_pow2_pos(50);
    let h = pow2(74);
    assert(r >= h) by (nonlinear_arith)
        requires
            x < (r + 1) * (r + 1),
            x >= 2 * (h * h),
            r >= 0,
            h > 0,
    {
        if r < h {
            assert((r + 1) * (r + 1) <= h * h) by (nonlinear_arith)
                requires
                    r + 1 <= h,
                    r >= 0,
            ;
        }
    }
    assert(h >= 0x100_0000) by (nonlinear_arith)
        requires
            h == 0x100_0000 * pow2(50),
            pow2(50) > 0,
    ;
    assert(k > 0);
    let p2 = pow2(2 * k);
    let y = x / p2;
    lemma_fundamental_div_mod(x as int, p2 as int);
    let f = root_floor(y);
    lemma_root_exists(y);
    assert(is_root(y, f));
    lemma_fundamental_div_mod(r as int, p as int);
    let g = r / p;
    assert(g * p <= r < (g + 1) * p) by (nonlinear_arith)
        requires
            r == p * g + r % p,
            0 <= r % p < p,
    ;
    assert(f >= g) by (nonlinear_arith)
        requires
            g * p <= r,
            r * r <= x,
            x == p2 * y + x % p2,
            x % p2 < p2,
            p2 == p * p,
            y < (f + 1) * (f + 1),
            p > 0,
            f >= 0,
            g >= 0,
            r >= 0,
    {
        if f < g {
            assert((f + 1) * (f + 1) <= g * g) by (nonlinear_arith)
                requires
                    f + 1 <= g,
                    f >= 0,
            ;
            assert((g * p) * (g * p) <= r * r) by (nonlinear_arith)
                requires
                    0 <= g * p <= r,
            ;
            lemma_square_of_product(g as int, p as int);
            assert((y + 1) * p2 <= (g * g) * p2) by (nonlinear_arith)
                requires
                    y + 1 <= g * g,
                    p2 > 0,
            ;
            lemma_one_more(y as int, p2 as int);
        }
    }
    assert(f <= g) by (nonlinear_arith)
        requires
            r < (g + 1) * p,
            x < (r + 1) * (r + 1),
            x == p2 * y + x % p2,
            x % p2 >= 0,
            p2 == p * p,
            f * f <= y,
            p > 0,
            f >= 0,
            g >= 0,
            r >= 0,
    {
        if f > g {
            assert(f * f >= (g + 1) * (g + 1)) by (nonlinear_arith)
                requires
                    f >= g + 1,
                    g >= 0,
            ;
            assert((r + 1) * (r + 1) <= ((g + 1) * p) * ((g + 1) * p)) by (nonlinear_arith)
                requires
                    0 <= r + 1 <= (g + 1) * p,
            ;
            lemma_square_of_product((g + 1) as int, p as int);
            assert(p2 * y >= ((g + 1) * (g + 1)) * p2) by (nonlinear_arith)
                requires
                    y >= (g + 1) * (g + 1),
                    p2 > 0,
            ;
        }
    }
    assert(0x80_0000 <= f < 0x100_0000);
    let q = if 4 * x > (2 * f + 1) * (2 * f + 1) * p2 {
        f + 1
    } else {
        f
    };
    // the pattern is finite, since that of the radicand is
    assert(k * 0x80_0000 + q < INF_BITS) by {
        lemma_root_small(x, mag, r, k, g);
    }
    lemma_units_at(k, q);
    let m = q * p;
    assert((f * f) * p2 <= x < ((f + 1) * (f + 1)) * p2) by (nonlinear_arith)
        requires
            x == p2 * y + x % p2,
            0 <= x % p2 < p2,
            f * f <= y,
            y + 1 <= (f + 1) * (f + 1),
            p2 > 0,
    {
        assert((f * f) * p2 <= p2 * y) by (nonlinear_arith)
            requires
                f * f <= y,
                p2 > 0,
        ;
        assert((y + 1) * p2 <= ((f + 1) * (f + 1)) * p2) by (nonlinear_arith)
            requires
                y + 1 <= (f + 1) * (f + 1),
                p2 > 0,
        ;
        lemma_one_more(y as int, p2 as int);
    }
    assert(m * m == (q * q) * p2) by (nonlinear_arith)
        requires
            m == q * p,
            p2 == p * p,
    ;
    let (lo, hi) = ((f * f) * p2, ((f + 1) * (f + 1)) * p2);
    assert(m * m == lo || m * m == hi);
    assert((hi - lo) * 0x20_0000 <= lo) by (nonlinear_arith)
        requires
            lo == (f * f) * p2,
            hi == ((f + 1) * (f + 1)) * p2,
            f >= 0x80_0000,
            p2 > 0,
    {
        lemma_next_square(f as int);
        assert((2 * f + 1) * 0x20_0000 <= f * f) by (nonlinear_arith)
            requires
                f >= 0x80_0000,
        ;
        assert(((2 * f + 1) * p2) * 0x20_0000 <= (f * f) * p2) by (nonlinear_arith)
            requires
                (2 * f + 1) * 0x20_0000 <= f * f,
                p2 > 0,
        ;
        lemma_shared_factor((f * f) as int, (2 * f + 1) as int, p2 as int);
    }
}

/// A root has fewer bits than its radicand.
proof fn lemma_root_small(x: nat, mag: nat, r: nat, k: nat, g: nat)
    requires
        0 < mag < INF_BITS,
        x == units(mag) * pow2(149),
        r * r <= x,
        k > 0,
        g * pow2(k) <= r,
        g >= 0x80_0000,
    ensures
        k <= 200,
{
    if k > 200 {
        lemma2_to64();
        lemma_pow2_pos(149);
        lemma_units_mono(mag, INF_BITS as nat);
        lemma_units_at(253, 0x100_0000);
        assert(INF_BITS as nat == 253 * 0x80_0000 + 0x100_0000);
        lemma_pow2_adds(24, 253);
        lemma_pow2_adds(277, 149);
        let top = pow2(426);
        assert(x < top) by (nonlinear_arith)
            requires
                x == units(mag) * pow2(149),
                units(mag) < pow2(277),
                top == pow2(277) * pow2(149),
                pow2(149) > 0,
        ;
        lemma_pow2_adds(201, (k - 201) as nat);
        lemma_pow2_pos((k - 201) as nat);
        lemma_pow2_pos(201);
        let e = pow2(201);
        assert(pow2(k) >= e) by (nonlinear_arith)
            requires
                pow2(k) == e * pow2((k - 201) as nat),
                pow2((k - 201) as nat) >= 1,
                e > 0,
        ;
        lemma_pow2_adds(23, 201);
        lemma_pow2_pos(224);
        let t = pow2(224);
        assert(r >= t) by (nonlinear_arith)
            requires
                r >= g * pow2(k),
                g >= 0x80_0000,
                pow2(k) >= e,
                t == 0x80_0000 * e,
                e > 0,
        {
            assert(g * pow2(k) >= 0x80_0000 * e) by (nonlinear_arith)
                requires
                    g >= 0x80_0000,
                    pow2(k) >= e,
                    e > 0,
            ;
        }
        lemma_pow2_adds(224, 224);
        lemma_pow2_adds(426, 22);
        lemma_pow2_pos(426);
        assert(r * r >= t * t) by (nonlinear_arith)
            requires
                r >= t,
                t > 0,
        ;
    }
}

/// More than any result here comes to, in units.
pub(crate) closed spec fn huge() -> int {
    pow2(253) as int
}

pub(crate) proof fn lemma_huge()
    ensures
        one() > 0x1000_0000_0000,
        huge() >= 0x1000_0000_0000_0000 * one(),
{
    assert(pow2(60) == 0x1000_0000_0000_0000) by {
        lemma2_to64_rest();
    }
    lemma_pow2_adds(60, 89);
    lemma_pow2_pos(89);
    assert(pow2(149) >= 0x1000_0000_0000_0000) by (nonlinear_arith)
        requires
            pow2(149) == pow2(60) * pow2(89),
            pow2(89) >= 1,
            pow2(60) == 0x1000_0000_0000_0000,
    ;
    lemma_pow2_pos(149);
    lemma_pow2_pos(44);
    lemma_pow2_adds(149, 104);
    lemma_pow2_adds(60, 44);
    let (u, t) = (pow2(149), pow2(44));
    assert(u * (0x1000_0000_0000_0000 * t) >= 0x1000_0000_0000_0000 * u) by (nonlinear_arith)
        requires
            t >= 1,
            u > 0,
    ;
}

/// A sum of numbers that are not huge.
pub(crate) proof fn lemma_sum(a: F32, b: F32)
    requires
        a.finite(),
        b.finite(),
        size(a.val() + b.val()) <= 0x1000_0000_0000_0000 * one(),
    ensures
        f_add(a, b).finite(),
        size(f_add(a, b).val() - (a.val() + b.val())) * 0x100_0000 <= size(a.val() + b.val()),
        a.val() + b.val() >= 0 ==> f_add(a, b).val() >= 0,
        a.val() + b.val() <= 0 ==> f_add(a, b).val() <= 0,
{
    lemma_huge();
    let lo = lemma_grid(-1, 253);
    let hi = lemma_grid(1, 253);
    lemma_add_between(a, b, lo, hi);
    sums_are_near(a, b);
}

/// A product of numbers that are not huge.
pub(crate) proof fn lemma_product(a: F32, b: F32)
    requires
        a.finite(),
        b.finite(),
        size(a.val() * b.val()) <= 0x1000_0000_0000_0000 * (one() * one()),
    ensures
        f_mul(a, b).finite(),
        size(f_mul(a, b).val() * one() - a.val() * b.val()) * 0x100_0000 <= size(a.val() * b.val())
            + 0x80_0000 * one(),
{
    lemma_huge();
    let lo = lemma_grid(-1, 253);
    let hi = lemma_grid(1, 253);
    let (u, h, v) = (one(), huge(), a.val() * b.val());
    assert(-h * u <= v <= h * u) by (nonlinear_arith)
        requires
            -(0x1000_0000_0000_0000 * (u * u)) <= v <= 0x1000_0000_0000_0000 * (u * u),
            h >= 0x1000_0000_0000_0000 * u,
            u > 0,
    ;
    lemma_mul_between(a, b, lo, hi);
    products_are_near(a, b);
}

/// A quotient that is not huge.
pub(crate) proof fn lemma_quotient(a: F32, b: F32)
    requires
        a.finite(),
        b.finite(),
        b.val() > 0,
        size(a.val()) <= 0x1000_0000_0000_0000 * b.val(),
    ensures
        f_div(a, b).finite(),
        size(f_div(a, b).val() * b.val() - a.val() * one()) * 0x100_0000 <= size(a.val()) * one()
            + 0x80_0000 * b.val(),
{
    lemma_huge();
    let lo = lemma_grid(-1, 253);
    let hi = lemma_grid(1, 253);
    let (u, h, x, y) = (one(), huge(), a.val(), b.val());
    assert(-h * y <= x * u <= h * y) by (nonlinear_arith)
        requires
            -(0x1000_0000_0000_0000 * y) <= x <= 0x1000_0000_0000_0000 * y,
            h >= 0x1000_0000_0000_0000 * u,
            u > 0,
            y > 0,
    {
        let c = 0x1000_0000_0000_0000int;
        assert(x * u <= (c * y) * u && x * u >= (-(c * y)) * u) by (nonlinear_arith)
            requires
                -(c * y) <= x <= c * y,
                u > 0,
        ;
        assert(h * y >= (c * u) * y) by (nonlinear_arith)
            requires
                h >= c * u,
                y > 0,
        ;
    }
    lemma_div_between(a, b, lo, hi);
    quotients_are_near(a, b);
    assert(size(x * u) == size(x) * u) by (nonlinear_arith)
        requires
            u > 0,
    {
        if x < 0 {
            assert((-x) * u == -(x * u)) by (nonlinear_arith);
        }
    }
}

} // verus!
