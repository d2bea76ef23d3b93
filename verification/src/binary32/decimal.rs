//! Decimal notation.

use super::arith::lemma_pack_ratio;
use super::facts::lemma_excess_normal;
use super::rounding::round_pack;
use super::{excess, from_parts, nearest, pack, signed, F32, INF_BITS, NAN_BITS};
use crate::big::{big, big_ge, big_is_zero, big_mul_add, big_of, big_sub};
use crate::text::{
    decimal, digit_len, digit_value, digits_end, is_digit, is_word_any_case, same_ignoring_case,
    slice,
};
use vstd::arithmetic::div_mod::{lemma_div_is_ordered, lemma_fundamental_div_mod_converse};
use vstd::arithmetic::mul::lemma_mul_strictly_positive;
use vstd::arithmetic::power2::{
    lemma2_to64, lemma_pow2_adds, lemma_pow2_pos, lemma_pow2_strictly_increases, lemma_pow2_unfold,
    pow2,
};
use vstd::prelude::*;

verus! {

pub open spec fn pow10(n: nat) -> nat
    decreases n,
{
    if n == 0 {
        1
    } else {
        10 * pow10((n - 1) as nat)
    }
}

/// A leading sign, and what follows it.
pub open spec fn strip_sign(s: Seq<char>) -> (bool, Seq<char>) {
    if s.len() > 0 && s[0] == '-' {
        (true, s.drop_first())
    } else if s.len() > 0 && s[0] == '+' {
        (false, s.drop_first())
    } else {
        (false, s)
    }
}

/// An exponent: an optional sign, then digits only.
pub open spec fn parse_exponent(s: Seq<char>) -> Option<int> {
    let (neg, d) = strip_sign(s);
    if d.len() > 0 && digit_len(d) == d.len() {
        Some(if neg {
            -(decimal(d) as int)
        } else {
            decimal(d) as int
        })
    } else {
        None
    }
}

/// Digits with an optional point among them and an optional exponent behind:
/// all the digits, and the power of ten that the last of them counts.
pub open spec fn parse_decimal(s: Seq<char>) -> Option<(Seq<char>, int)> {
    let a = digit_len(s) as int;
    let r1 = s.subrange(a, s.len() as int);
    let dot = r1.len() > 0 && r1[0] == '.';
    let t = r1.drop_first();
    let b = digit_len(t) as int;
    let frac = if dot {
        t.subrange(0, b)
    } else {
        Seq::empty()
    };
    let r2 = if dot {
        t.subrange(b, t.len() as int)
    } else {
        r1
    };
    let digits = s.subrange(0, a) + frac;
    if digits.len() == 0 {
        None
    } else if r2.len() == 0 {
        Some((digits, -(frac.len() as int)))
    } else if r2[0] == 'e' || r2[0] == 'E' {
        match parse_exponent(r2.drop_first()) {
            Some(x) => Some((digits, x - frac.len())),
            None => None,
        }
    } else {
        None
    }
}

/// The magnitude nearest to `d * 10^e`.
pub open spec fn decimal_mag(d: nat, e: int) -> nat {
    if e >= 0 {
        pack(d * pow10(e as nat) * pow2(149), 1)
    } else {
        pack(d * pow2(149), pow10((-e) as nat))
    }
}

/// The number that `s` writes: an optional sign, then `inf`, `infinity` or
/// `nan` in any case, or a decimal number, rounded once.
pub open spec fn parse_f32(s: Seq<char>) -> Option<F32> {
    let (neg, r) = strip_sign(s);
    if same_ignoring_case(r, "inf"@) || same_ignoring_case(r, "infinity"@) {
        Some(signed(neg, INF_BITS as nat))
    } else if same_ignoring_case(r, "nan"@) {
        Some(signed(neg, NAN_BITS as nat))
    } else {
        match parse_decimal(r) {
            Some((digits, e)) => Some(signed(neg, decimal_mag(decimal(digits), e))),
            None => None,
        }
    }
}

proof fn lemma_pow10_adds(a: nat, b: nat)
    ensures
        pow10(a + b) == pow10(a) * pow10(b),
    decreases a,
{
    if a > 0 {
        lemma_pow10_adds((a - 1) as nat, b);
        assert(10 * (pow10((a - 1) as nat) * pow10(b)) == (10 * pow10((a - 1) as nat)) * pow10(b))
            by (nonlinear_arith);
    } else {
        assert(1 * pow10(b) == pow10(b));
    }
}

/// Ten lies between eight and sixteen.
proof fn lemma_pow10_bounds(n: nat)
    ensures
        pow2(3 * n) <= pow10(n) <= pow2(4 * n),
        pow10(n) > 0,
    decreases n,
{
    lemma2_to64();
    if n > 0 {
        let m = (n - 1) as nat;
        lemma_pow10_bounds(m);
        lemma_pow2_adds(3, 3 * m);
        lemma_pow2_adds(4, 4 * m);
    }
}

/// Less than half a unit rounds to nothing.
proof fn lemma_pack_tiny(n: nat, d: nat)
    requires
        2 * n < d,
    ensures
        pack(n, d) == 0,
{
    lemma_fundamental_div_mod_converse(n as int, d as int, 0, n as int);
    lemma2_to64();
    assert(d * 1 == d);
}

proof fn lemma_excess_at_least(v: nat, k: nat)
    requires
        v >= pow2(23 + k),
        k > 0,
    ensures
        excess(v) >= k,
    decreases k,
{
    lemma2_to64();
    lemma_pow2_unfold(23 + k);
    if k == 1 {
    } else {
        lemma_pow2_strictly_increases(24, 23 + k);
        lemma_excess_at_least(v / 2, (k - 1) as nat);
    }
}

/// A value beyond the largest finite number rounds to infinity.
proof fn lemma_pack_huge(v: nat)
    requires
        v >= pow2(277),
    ensures
        pack(v, 1) == INF_BITS,
{
    lemma_excess_at_least(v, 254);
    let k = excess(v / 1);
    assert(v / 1 == v);
    lemma_excess_normal(v);
    assert(1 * pow2(k) == pow2(k));
}

/// Everything the digits determine, once those before the first nonzero digit
/// are left out.
proof fn lemma_digits_bounds(s: Seq<u32>)
    requires
        s.len() > 0,
        s[0] > 0,
        forall|i: int| 0 <= i < s.len() ==> s[i] <= 9,
    ensures
        pow10((s.len() - 1) as nat) <= digits_value(s) < pow10(s.len()),
    decreases s.len(),
{
    let t = s.drop_last();
    assert(s.len() == 1 ==> t =~= Seq::<u32>::empty());
    if s.len() == 1 {
        assert(digits_value(t) == 0);
        assert(pow10(0) == 1);
        assert(pow10(1) == 10);
    } else {
        lemma_digits_bounds(t);
    }
}

/// The number with decimal digits `s`, most significant first.
pub open spec fn digits_value(s: Seq<u32>) -> nat
    decreases s.len(),
{
    if s.len() == 0 {
        0
    } else {
        digits_value(s.drop_last()) * 10 + s.last() as nat
    }
}

/// `v * 10^n`.
fn times_pow10(v: Vec<u32>, n: u128) -> (r: Vec<u32>)
    ensures
        big(r@) == big(v@) * pow10(n as nat),
{
    let ghost v0 = big(v@);
    let mut r: Vec<u32> = v;
    let mut i: u128 = 0;
    assert(v0 * 1 == v0);
    while i < n
        invariant
            i <= n,
            big(r@) == v0 * pow10(i as nat),
        decreases n - i,
    {
        proof {
            assert(v0 * (10 * pow10(i as nat)) == (v0 * pow10(i as nat)) * 10 + 0) by (nonlinear_arith);
        }
        r = big_mul_add(&r, 10, 0);
        i = i + 1;
    }
    r
}

/// The quotient of two big numbers in units, rounded to a magnitude.
fn pack_big(n: Vec<u32>, d: Vec<u32>) -> (r: u32)
    requires
        big(d@) > 0,
        big(n@) < big(d@) * pow2(900),
    ensures
        r == pack(big(n@), big(d@)),
        r <= INF_BITS,
{
    let ghost n0 = big(n@);
    let ghost d0 = big(d@);
    let mut t: Vec<u32> = d;
    let mut j: i32 = 0;
    proof {
        lemma2_to64();
        assert(d0 * 1 == d0);
    }
    while big_ge(&n, &t)
        invariant
            0 <= j <= 900,
            big(n@) == n0,
            big(t@) == d0 * pow2(j as nat),
            n0 < d0 * pow2(900),
            d0 > 0,
            j > 0 ==> 2 * n0 >= big(t@),
        decreases 900 - j,
    {
        proof {
            if j == 900 {
                assert(false);
            }
            lemma_pow2_unfold((j + 1) as nat);
            assert(d0 * (2 * pow2(j as nat)) == (d0 * pow2(j as nat)) * 2 + 0) by (nonlinear_arith);
        }
        t = big_mul_add(&t, 2, 0);
        j = j + 1;
    }
    // Thirty bits of the quotient by `t`, then whether anything is left.
    let ghost t0 = big(t@);
    let mut rem: Vec<u32> = n;
    let mut q: u128 = 0;
    let mut s: i32 = 0;
    assert(n0 * 1 == 0 * t0 + n0);
    while s < 30
        invariant
            0 <= s <= 30,
            big(t@) == t0,
            big(rem@) < t0,
            n0 * pow2(s as nat) == q * t0 + big(rem@),
            q < pow2(s as nat),
            pow2(30) == 0x4000_0000,
        decreases 30 - s,
    {
        let twice: Vec<u32> = big_mul_add(&rem, 2, 0);
        proof {
            lemma_pow2_unfold((s + 1) as nat);
            if s + 1 < 30 {
                lemma_pow2_strictly_increases((s + 1) as nat, 30);
            }
            assert(n0 * (2 * pow2(s as nat)) == 2 * (n0 * pow2(s as nat))) by (nonlinear_arith);
            assert((2 * q) * t0 == 2 * (q * t0) && (2 * q + 1) * t0 == 2 * (q * t0) + t0) by (nonlinear_arith);
        }
        if big_ge(&twice, &t) {
            rem = big_sub(&twice, &t);
            q = q * 2 + 1;
        } else {
            rem = twice;
            q = q * 2;
        }
        s = s + 1;
    }
    let sticky: bool = !big_is_zero(&rem);
    let e: i32 = j - 30;
    proof {
        let nn = n0 * pow2(30);
        lemma_pow2_pos(j as nat);
        lemma_mul_strictly_positive(d0 as int, pow2(j as nat) as int);
        lemma_fundamental_div_mod_converse(nn as int, t0 as int, q as int, big(rem@) as int);
        if e >= 0 {
            // n0 * 2^30 * 2^e over d0 * 2^j
            lemma_pow2_adds(30, e as nat);
            assert((nn * pow2(e as nat)) * d0 == n0 * t0) by (nonlinear_arith)
                requires
                    nn == n0 * pow2(30),
                    t0 == d0 * pow2(j as nat),
                    pow2(j as nat) == pow2(30) * pow2(e as nat),
            ;
            lemma_pack_ratio(nn * pow2(e as nat), t0, n0, d0);
        } else {
            let f = (-e) as nat;
            lemma_pow2_adds(j as nat, f);
            lemma_pow2_pos(f);
            assert(nn * d0 == n0 * (t0 * pow2(f))) by (nonlinear_arith)
                requires
                    nn == n0 * pow2(30),
                    t0 == d0 * pow2(j as nat),
                    pow2(30) == pow2(j as nat) * pow2(f),
            ;
            lemma_mul_strictly_positive(t0 as int, pow2(f) as int);
            lemma_pack_ratio(nn, t0 * pow2(f), n0, d0);
        }
        if e >= 0 {
            // A full quotient: the first bit is set.
            assert(q >= 0x2000_0000) by (nonlinear_arith)
                requires
                    n0 * 0x4000_0000 == q * t0 + big(rem@),
                    big(rem@) < t0,
                    2 * n0 >= t0,
            {
                if q < 0x2000_0000 {
                    assert(q * t0 <= 0x1fff_ffff * t0);
                    assert(n0 * 0x4000_0000 >= t0 * 0x2000_0000);
                }
            }
        }
    }
    round_pack(q, e, sticky, Ghost(n0 * pow2(30)), Ghost(t0))
}

/// The magnitude of the digits `ds` at the power of ten `e`. Beyond any
/// exponent that matters, `e` need only lie on the same side as `exact`.
fn round_digits(ds: &Vec<u32>, e: i128, Ghost(exact): Ghost<int>) -> (r: u32)
    requires
        forall|i: int| 0 <= i < ds.len() ==> ds[i] <= 9,
        ds.len() > 0 ==> ds[0] > 0,
        e == exact || exact >= e >= 0x100_0000_0000_0000_0000 || exact <= e
            <= -0x100_0000_0000_0000_0000,
        -0x100_0000_0000_0000_0000_0000_0000 <= e <= 0x100_0000_0000_0000_0000_0000_0000,
    ensures
        r == decimal_mag(digits_value(ds@), exact),
        r <= INF_BITS,
{
    let ghost v = digits_value(ds@);
    let n: i128 = ds.len() as i128;
    if n == 0 {
        proof {
            assert(v == 0);
            lemma_pow10_bounds(exact as nat);
            lemma_pow10_bounds((-exact) as nat);
            assert(0 * pow10(exact as nat) == 0);
            assert(0 * pow2(149) == 0);
            if exact >= 0 {
                lemma_pack_tiny(0, 1);
            } else {
                lemma_pack_tiny(0, pow10((-exact) as nat));
            }
        }
        return 0;
    }
    proof {
        lemma_digits_bounds(ds@);
    }
    if n - 1 + e >= 100 {
        proof {
            let a = (n - 1) as nat;
            lemma_pow2_pos(149);
            if exact >= 0 {
                lemma_pow10_adds(a, exact as nat);
                lemma_pow10_bounds(a + exact as nat);
                lemma_pow10_bounds(exact as nat);
                lemma_pow2_strictly_increases(128, 3 * (a + exact as nat));
                lemma_pow2_adds(128, 149);
                let w = v * pow10(exact as nat);
                assert(w >= pow10(a) * pow10(exact as nat)) by (nonlinear_arith)
                    requires
                        v >= pow10(a),
                        w == v * pow10(exact as nat),
                ;
                assert(w * pow2(149) >= pow2(277)) by (nonlinear_arith)
                    requires
                        w >= pow2(128),
                        pow2(277) == pow2(128) * pow2(149),
                ;
                lemma_pack_huge(w * pow2(149));
            } else {
                // Digits alone reach beyond: scale to a whole number of units.
                let m = (-exact) as nat;
                let b = (a - m) as nat;
                lemma_pow10_adds(b, m);
                lemma_pow10_bounds(b);
                lemma_pow10_bounds(m);
                lemma_pow2_strictly_increases(128, 3 * b);
                lemma_pow2_adds(128, 149);
                let u = v * pow2(149);
                let d = pow10(m);
                assert(u >= pow2(277) * d) by (nonlinear_arith)
                    requires
                        u == v * pow2(149),
                        v >= pow10(b) * d,
                        pow10(b) >= pow2(128),
                        pow2(277) == pow2(128) * pow2(149),
                {
                    assert(pow10(b) * d >= pow2(128) * d);
                    assert(v * pow2(149) >= (pow2(128) * d) * pow2(149));
                }
                lemma_pack_huge_ratio(u, d);
            }
        }
        return INF_BITS;
    }
    if n + e <= -100 {
        proof {
            let m = (-exact) as nat;
            let a = n as nat;
            let c = (m - a) as nat;
            lemma_pow10_adds(c, a);
            lemma_pow10_bounds(c);
            lemma_pow10_bounds(a);
            lemma_pow2_strictly_increases(150, 3 * c);
            lemma_pow2_unfold(150);
            lemma_pow2_pos(149);
            assert(2 * (v * pow2(149)) < pow10(m)) by (nonlinear_arith)
                requires
                    v < pow10(a),
                    pow10(m) == pow10(c) * pow10(a),
                    pow10(c) >= pow2(150),
                    pow2(150) == 2 * pow2(149),
                    pow2(149) > 0,
            {
                assert(v * pow2(150) < pow10(a) * pow2(150));
                assert(pow10(a) * pow2(150) <= pow10(a) * pow10(c));
            }
            lemma_pack_tiny(v * pow2(149), pow10(m));
        }
        return 0;
    }
    let mut num: Vec<u32> = big_of(0);
    let mut i: usize = 0;
    assert(ds@.subrange(0, 0) =~= Seq::<u32>::empty());
    while i < ds.len()
        invariant
            i <= ds.len(),
            big(num@) == digits_value(ds@.subrange(0, i as int)),
        decreases ds.len() - i,
    {
        proof {
            let t = ds@.subrange(0, i + 1);
            assert(t.drop_last() =~= ds@.subrange(0, i as int));
        }
        num = big_mul_add(&num, 10, ds[i]);
        i = i + 1;
    }
    assert(ds@.subrange(0, ds.len() as int) =~= ds@);
    if e >= 0 {
        num = times_pow10(num, e as u128);
    }
    let ghost w = big(num@);
    let mut k: u32 = 0;
    proof {
        lemma2_to64();
        assert(w * 1 == w);
    }
    while k < 149
        invariant
            k <= 149,
            big(num@) == w * pow2(k as nat),
        decreases 149 - k,
    {
        proof {
            lemma_pow2_unfold((k + 1) as nat);
            assert(w * (2 * pow2(k as nat)) == (w * pow2(k as nat)) * 2 + 0) by (nonlinear_arith);
        }
        num = big_mul_add(&num, 2, 0);
        k = k + 1;
    }
    let den: Vec<u32> = if e >= 0 {
        big_of(1)
    } else {
        assert(-e <= n + 100);
        times_pow10(big_of(1), (-e) as u128)
    };
    proof {
        let d = big(den@);
        let a = n as nat;
        assert(1 * pow10((-e) as nat) == pow10((-e) as nat));
        // w < d * 10^100 in either case.
        lemma_pow10_bounds(100);
        lemma_pow10_bounds(a);
        if e >= 0 {
            lemma_pow10_bounds(e as nat);
            lemma_pow10_adds(a, e as nat);
            lemma_pow10_mono((a + e) as nat, 100);
            assert(w < pow10(a) * pow10(e as nat)) by (nonlinear_arith)
                requires
                    w == v * pow10(e as nat),
                    v < pow10(a),
                    pow10(e as nat) > 0,
            ;
        } else {
            let m = (-e) as nat;
            lemma_pow10_bounds(m);
            if a <= m {
                lemma_pow10_mono(a, m);
                assert(d <= d * pow10(100)) by (nonlinear_arith)
                    requires
                        pow10(100) >= 1,
                        d >= 0,
                ;
            } else {
                lemma_pow10_adds((a - m) as nat, m);
                lemma_pow10_mono((a - m) as nat, 100);
                assert(pow10((a - m) as nat) * d <= d * pow10(100)) by (nonlinear_arith)
                    requires
                        pow10((a - m) as nat) <= pow10(100),
                        d >= 0,
                ;
            }
        }
        assert(w < d * pow10(100));
        lemma_pow2_pos(149);
        lemma_pow2_adds(400, 149);
        lemma_pow2_strictly_increases(549, 900);
        assert(w * pow2(149) < d * pow2(900)) by (nonlinear_arith)
            requires
                w < d * pow10(100),
                pow10(100) <= pow2(400),
                pow2(549) == pow2(400) * pow2(149),
                pow2(549) < pow2(900),
                pow2(149) > 0,
                d > 0,
        {
            assert(d * pow10(100) <= d * pow2(400));
            assert(w * pow2(149) < (d * pow2(400)) * pow2(149));
            assert((d * pow2(400)) * pow2(149) == d * pow2(549));
            assert(d * pow2(549) < d * pow2(900));
        }
    }
    pack_big(num, den)
}

proof fn lemma_pow10_mono(a: nat, b: nat)
    requires
        a <= b,
    ensures
        pow10(a) <= pow10(b),
    decreases b,
{
    if a < b {
        lemma_pow10_mono(a, (b - 1) as nat);
    }
}

proof fn lemma_pack_huge_ratio(n: nat, d: nat)
    requires
        d > 0,
        n >= pow2(277) * d,
    ensures
        pack(n, d) == INF_BITS,
{
    let v = n / d;
    assert(v >= pow2(277)) by {
        vstd::arithmetic::div_mod::lemma_div_is_ordered(
            (pow2(277) * d) as int,
            n as int,
            d as int,
        );
        vstd::arithmetic::div_mod::lemma_div_by_multiple(pow2(277) as int, d as int);
    }
    lemma_excess_at_least(v, 254);
    lemma_excess_normal(v);
    let k = excess(v);
    lemma_pow2_pos(k);
    vstd::arithmetic::div_mod::lemma_div_denominator(n as int, d as int, pow2(k) as int);
}

/// Appends the digits of `s` from `from` up to `to`, dropping zeros while
/// nothing stands before them.
fn push_digits(ds: &mut Vec<u32>, s: &Vec<char>, from: usize, to: usize, Ghost(head): Ghost<Seq<char>>)
    requires
        from <= to <= s.len(),
        forall|i: int| from <= i < to ==> is_digit(#[trigger] s@[i]),
        forall|i: int| 0 <= i < old(ds).len() ==> old(ds)[i] <= 9,
        old(ds).len() > 0 ==> old(ds)[0] > 0,
        digits_value(old(ds)@) == decimal(head),
    ensures
        forall|i: int| 0 <= i < final(ds).len() ==> final(ds)[i] <= 9,
        final(ds).len() > 0 ==> final(ds)[0] > 0,
        digits_value(final(ds)@) == decimal(head + s@.subrange(from as int, to as int)),
        final(ds).len() <= old(ds).len() + (to - from),
{
    let mut i: usize = from;
    let ghost n0 = ds.len();
    assert(head + s@.subrange(from as int, from as int) =~= head);
    while i < to
        invariant
            from <= i <= to <= s.len(),
            forall|j: int| from <= j < to ==> is_digit(#[trigger] s@[j]),
            forall|j: int| 0 <= j < ds.len() ==> ds[j] <= 9,
            ds.len() > 0 ==> ds[0] > 0,
            digits_value(ds@) == decimal(head + s@.subrange(from as int, i as int)),
            ds.len() <= n0 + (i - from),
        decreases to - i,
    {
        let d: u32 = digit_value(s[i]);
        let ghost before = ds@;
        proof {
            let t = head + s@.subrange(from as int, i + 1);
            assert(t.drop_last() =~= head + s@.subrange(from as int, i as int));
        }
        if ds.len() > 0 || d > 0 {
            ds.push(d);
            assert(ds@.drop_last() =~= before);
        }
        i = i + 1;
    }
}

/// The exponent written from `from` to the end of `s`, held to a range far
/// wider than any that matters.
fn exponent(s: &Vec<char>, from: usize) -> (r: Option<i128>)
    requires
        from <= s.len(),
    ensures
        match (r, parse_exponent(s@.subrange(from as int, s.len() as int))) {
            (Some(e), Some(x)) => (e == x && -EXP_LIMIT <= x <= EXP_LIMIT) || (x >= e && e == EXP_LIMIT) || (x <= e
                && e == -EXP_LIMIT),
            (None, None) => true,
            _ => false,
        },
{
    let n: usize = s.len();
    let ghost rest = s@.subrange(from as int, n as int);
    let neg: bool = from < n && s[from] == '-';
    let a: usize = if from < n && (s[from] == '-' || s[from] == '+') {
        from + 1
    } else {
        from
    };
    let ghost d = s@.subrange(a as int, n as int);
    assert(d == strip_sign(rest).1) by {
        assert(a == from + 1 ==> d =~= rest.drop_first());
    }
    let end: usize = digits_end(s, a);
    if a == n || end != n {
        return None;
    }
    let mut v: i128 = 0;
    let mut i: usize = a;
    assert(d.subrange(0, 0) =~= Seq::<char>::empty());
    while i < n
        invariant
            a <= i <= n,
            n == s.len(),
            d == s@.subrange(a as int, n as int),
            forall|j: int| a <= j < n ==> is_digit(#[trigger] s@[j]),
            0 <= v <= EXP_LIMIT,
            v == decimal(d.subrange(0, i - a)) || (v == EXP_LIMIT && decimal(d.subrange(0, i - a)) >= EXP_LIMIT),
        decreases n - i,
    {
        proof {
            let t = d.subrange(0, i - a + 1);
            assert(t.drop_last() =~= d.subrange(0, i - a));
            assert(t.last() == s@[i as int]);
        }
        let w: i128 = v * 10 + digit_value(s[i]) as i128;
        v = if w > EXP_LIMIT {
            EXP_LIMIT
        } else {
            w
        };
        i = i + 1;
    }
    assert(d.subrange(0, n - a) =~= d);
    Some(if neg {
        -v
    } else {
        v
    })
}

/// Beyond this exponent every nonzero number overflows or vanishes.
pub const EXP_LIMIT: i128 = 0x1000_0000_0000_0000_0000_0000;

/// Where the digits of a decimal number stand, and its exponent: whole part
/// up to `.0`, fraction from `.1` to `.2`.
fn scan(body: &Vec<char>) -> (r: Option<(usize, usize, usize, i128)>)
    ensures
        match (r, parse_decimal(body@)) {
            (Some((i, f0, f1, x)), Some((digits, e))) => {
                &&& i <= f0 <= f1 <= body.len()
                &&& digits == body@.subrange(0, i as int) + body@.subrange(f0 as int, f1 as int)
                &&& forall|j: int| 0 <= j < i ==> is_digit(#[trigger] body@[j])
                &&& forall|j: int| f0 <= j < f1 ==> is_digit(#[trigger] body@[j])
                &&& -EXP_LIMIT <= x <= EXP_LIMIT
                &&& (x == e + (f1 - f0)) || (e + (f1 - f0) >= x && x == EXP_LIMIT) || (e + (f1 - f0) <= x
                    && x == -EXP_LIMIT)
            },
            (None, None) => true,
            _ => false,
        },
{
    let m: usize = body.len();
    assert(body@.subrange(0, m as int) =~= body@);
    let i: usize = digits_end(body, 0);
    let ghost r1 = body@.subrange(i as int, m as int);
    let dot: bool = i < m && body[i] == '.';
    let f0: usize = if dot {
        i + 1
    } else {
        i
    };
    let f1: usize = if dot {
        digits_end(body, f0)
    } else {
        f0
    };
    let ghost frac = body@.subrange(f0 as int, f1 as int);
    let ghost r2 = body@.subrange(f1 as int, m as int);
    let ghost digits = body@.subrange(0, i as int) + frac;
    proof {
        if dot {
            let t = r1.drop_first();
            assert(t =~= body@.subrange(f0 as int, m as int));
            assert(t.subrange(0, f1 - f0) =~= frac);
            assert(t.subrange(f1 - f0, t.len() as int) =~= r2);
        } else {
            assert(frac =~= Seq::<char>::empty());
        }
        assert(digits.len() == i + (f1 - f0));
    }
    if i == 0 && f1 == f0 {
        return None;
    }
    assert(r2.len() == m - f1);
    if f1 == m {
        assert(parse_decimal(body@) == Some((digits, -(frac.len() as int))));
        return Some((i, f0, f1, 0));
    }
    assert(r2[0] == body@[f1 as int]);
    if body[f1] == 'e' || body[f1] == 'E' {
        assert(r2.drop_first() =~= body@.subrange(f1 + 1, m as int));
        match exponent(body, f1 + 1) {
            Some(x) => Some((i, f0, f1, x)),
            None => None,
        }
    } else {
        None
    }
}

/// The number that `s` writes.
pub fn number(s: &Vec<char>) -> (r: Option<F32>)
    ensures
        r == parse_f32(s@),
{
    let n: usize = s.len();
    let neg: bool = n > 0 && s[0] == '-';
    let a: usize = if n > 0 && (s[0] == '-' || s[0] == '+') {
        1
    } else {
        0
    };
    let body: Vec<char> = slice(s, a, n);
    assert(body@ == strip_sign(s@).1) by {
        assert(a == 1 ==> body@ =~= s@.drop_first());
        assert(a == 0 ==> body@ =~= s@);
    }
    if is_word_any_case(&body, "inf") || is_word_any_case(&body, "infinity") {
        return Some(from_parts(neg, INF_BITS));
    }
    if is_word_any_case(&body, "nan") {
        return Some(from_parts(neg, NAN_BITS));
    }
    match scan(&body) {
        None => None,
        Some((i, f0, f1, x)) => {
            let ghost (digits, exact) = parse_decimal(body@)->0;
            let ghost whole = body@.subrange(0, i as int);
            let mut ds: Vec<u32> = Vec::new();
            push_digits(&mut ds, &body, 0, i, Ghost(Seq::empty()));
            assert(Seq::<char>::empty() + whole =~= whole);
            push_digits(&mut ds, &body, f0, f1, Ghost(whole));
            let mag: u32 = round_digits(&ds, x - (f1 - f0) as i128, Ghost(exact));
            Some(from_parts(neg, mag))
        },
    }
}

} // verus!
