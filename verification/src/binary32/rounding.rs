//! The one rounding step that every operation ends in.

use super::{excess, nearest, pack, INF_BITS};
use vstd::arithmetic::div_mod::{
    lemma_div_denominator, lemma_fundamental_div_mod, lemma_fundamental_div_mod_converse,
    lemma_mod_division_less_than_divisor,
};
use vstd::arithmetic::mul::{
    lemma_mul_inequality, lemma_mul_is_commutative, lemma_mul_strictly_positive,
};
use vstd::arithmetic::power2::{
    lemma_pow2_adds, lemma_pow2_pos, lemma_pow2_unfold, pow2,
};
use vstd::prelude::*;

verus! {

/// `n / d` units scaled by `2^e`, rounded to a magnitude pattern.
pub open spec fn pack_scaled(n: nat, d: nat, e: int) -> nat {
    if e >= 0 {
        pack(n * pow2(e as nat), d)
    } else {
        pack(n, d * pow2((-e) as nat))
    }
}

/// `excess` is the one count that leaves a normalised 24-bit quotient.
pub proof fn lemma_excess_unique(v: nat, k: nat)
    requires
        v / pow2(k) < 0x100_0000,
        k == 0 || v / pow2(k) >= 0x80_0000,
    ensures
        excess(v) == k,
    decreases k,
{
    lemma_pow2_pos(k);
    if k == 0 {
        assert(pow2(0) == 1) by {
            vstd::arithmetic::power2::lemma2_to64();
        }
        assert(v / 1 == v);
    } else {
        lemma_pow2_unfold(k);
        lemma_pow2_pos((k - 1) as nat);
        lemma_div_denominator(v as int, 2, pow2((k - 1) as nat) as int);
        assert((v / 2) / pow2((k - 1) as nat) == v / pow2(k));
        assert(v >= 0x100_0000) by {
            lemma_fundamental_div_mod(v as int, pow2(k) as int);
            lemma_mul_inequality(0x80_0000, (v / pow2(k)) as int, pow2(k) as int);
            lemma_mul_is_commutative((v / pow2(k)) as int, pow2(k) as int);
            lemma_mod_division_less_than_divisor(v as int, pow2(k) as int);
            assert(pow2(k) >= 2);
            assert(0x80_0000 * pow2(k) >= 0x100_0000) by (nonlinear_arith)
                requires
                    pow2(k) >= 2,
            ;
        }
        lemma_excess_unique(v / 2, (k - 1) as nat);
    }
}

/// Rounding looks only at the ratio.
pub proof fn lemma_nearest_scale(n: nat, d: nat, c: nat)
    requires
        d > 0,
        c > 0,
    ensures
        nearest(n * c, d * c) == nearest(n, d),
        (n * c) / (d * c) == n / d,
{
    let q = n / d;
    let r = n % d;
    lemma_fundamental_div_mod(n as int, d as int);
    lemma_mod_division_less_than_divisor(n as int, d as int);
    assert(n * c == q * (d * c) + r * c && 0 <= r * c < d * c) by (nonlinear_arith)
        requires
            n == d * q + r,
            0 <= r < d,
            c > 0,
    ;
    lemma_fundamental_div_mod_converse((n * c) as int, (d * c) as int, q as int, (r * c) as int);
    assert((2 * (r * c) < d * c) == (2 * r < d)) by (nonlinear_arith)
        requires
            c > 0,
    ;
    assert((2 * (r * c) == d * c) == (2 * r == d)) by (nonlinear_arith)
        requires
            c > 0,
    ;
}

/// Dropping one more bit: quotient and remainder by twice the divisor.
proof fn lemma_halve(n: nat, b: nat)
    requires
        b > 0,
    ensures
        n / (2 * b) == (n / b) / 2,
        n % (2 * b) == n % b + ((n / b) % 2) * b,
{
    let t = n / b;
    let rest = n % b;
    lemma_fundamental_div_mod(n as int, b as int);
    lemma_mod_division_less_than_divisor(n as int, b as int);
    let q = t / 2;
    let odd = t % 2;
    assert(n == q * (2 * b) + (rest + odd * b)) by (nonlinear_arith)
        requires
            n == b * t + rest,
            t == 2 * q + odd,
    ;
    assert(0 <= rest + odd * b < 2 * b) by (nonlinear_arith)
        requires
            0 <= rest < b,
            odd == 0 || odd == 1,
    ;
    lemma_fundamental_div_mod_converse(n as int, (2 * b) as int, q as int, (rest + odd * b) as int);
}

/// What `nearest` gives once the integer part, the first dropped bit and
/// whether anything follows it are known.
proof fn lemma_nearest_from_bits(n: nat, b: nat, g: bool, st: bool)
    requires
        b > 0,
        g <==> 2 * (n % b) >= b,
        st <==> n % b != 0 && 2 * (n % b) != b,
    ensures
        nearest(n, b) == if g && (st || (n / b) % 2 == 1) {
            n / b + 1
        } else {
            n / b
        },
{
}

/// `pack_scaled` read off a quotient `t` that has `j` bits dropped.
proof fn lemma_pack_from_quotient(n: nat, d: nat, e: int, j: nat)
    requires
        d > 0,
        e + j >= 0,
        n / (d * pow2(j)) < 0x100_0000,
        e + j == 0 || n / (d * pow2(j)) >= 0x80_0000,
    ensures
        ({
            let b = (e + j) * 0x80_0000 + nearest(n, d * pow2(j));
            pack_scaled(n, d, e) == if b < INF_BITS {
                b as int
            } else {
                INF_BITS as int
            }
        }),
{
    let k = (e + j) as nat;
    lemma_pow2_pos(j);
    lemma_pow2_pos(k);
    lemma_mul_strictly_positive(d as int, pow2(j) as int);
    if e >= 0 {
        let c = pow2(e as nat);
        lemma_pow2_pos(e as nat);
        lemma_pow2_adds(e as nat, j);
        assert(d * pow2(k) == (d * pow2(j)) * c) by (nonlinear_arith)
            requires
                pow2(k) == c * pow2(j),
        ;
        lemma_nearest_scale(n, d * pow2(j), c);
        lemma_div_denominator((n * c) as int, d as int, pow2(k) as int);
        lemma_excess_unique((n * c) / d, k);
    } else {
        let c = pow2((-e) as nat);
        lemma_pow2_pos((-e) as nat);
        lemma_pow2_adds((-e) as nat, k);
        assert((d * c) * pow2(k) == d * pow2(j)) by (nonlinear_arith)
            requires
                pow2(j) == c * pow2(k),
        ;
        lemma_mul_strictly_positive(d as int, c as int);
        lemma_div_denominator(n as int, (d * c) as int, pow2(k) as int);
        lemma_excess_unique(n / (d * c), k);
    }
}

/// Rounds the number whose integer part in units of `2^e` is `m`, with
/// `sticky` telling whether anything lies below that.
pub(crate) fn round_pack(m: u128, e: i32, sticky: bool, Ghost(n): Ghost<nat>, Ghost(d): Ghost<nat>) -> (r: u32)
    requires
        d > 0,
        m == n / d,
        sticky <==> n % d != 0,
        m < 0x1000_0000_0000_0000_0000_0000_0000,
        -1000 <= e <= 1000,
        e <= 0 || m >= 0x80_0000,
        sticky ==> m >= 0x100_0000 || e < 0,
    ensures
        r == pack_scaled(n, d, e as int),
        r <= INF_BITS,
{
    let mut t: u128 = m;
    let mut g: bool = false;
    let mut st: bool = sticky;
    let mut k: i32 = e;
    let ghost mut j: nat = 0;
    assert(pow2(0) == 1 && d * pow2(0) == d) by {
        vstd::arithmetic::power2::lemma2_to64();
    }
    while t >= 0x100_0000 || k < 0
        invariant
            d > 0,
            -1000 <= e <= 1000,
            k == e + j,
            k <= 1200,
            t < 0x1000_0000_0000_0000_0000_0000_0000,
            t == n / (d * pow2(j)),
            k > 1000 ==> t as int * pow2((k - 1000) as nat) < 0x1000_0000_0000_0000_0000_0000_0000,
            j == 0 ==> !g && (st <==> n % (d * pow2(j)) != 0),
            j > 0 ==> (g <==> 2 * (n % (d * pow2(j))) >= d * pow2(j)),
            j > 0 ==> (st <==> n % (d * pow2(j)) != 0 && 2 * (n % (d * pow2(j))) != d * pow2(j)),
            k <= 0 || t >= 0x80_0000,
            j == 0 ==> (sticky <==> st) && t == m,
            sticky ==> m >= 0x100_0000 || e < 0,
        decreases t, (if k < 0 { -k } else { 0 }),
    {
        let ghost b = d * pow2(j);
        proof {
            lemma_pow2_pos(j);
            lemma_mul_strictly_positive(d as int, pow2(j) as int);
            lemma_halve(n, b);
            lemma_pow2_unfold((j + 1) as nat);
            assert(d * pow2(j + 1) == 2 * b) by (nonlinear_arith)
                requires
                    pow2(j + 1) == 2 * pow2(j),
                    b == d * pow2(j),
            ;
            lemma_mod_division_less_than_divisor(n as int, b as int);
            assert(((n / b) % 2) * b == if (n / b) % 2 == 1 {
                b as int
            } else {
                0
            }) by (nonlinear_arith)
                requires
                    b > 0,
            ;
        }
        assert(k < 1200) by {
            if k >= 1000 {
                let p = pow2((k - 1000) as nat);
                lemma_pow2_pos((k - 1000) as nat);
                if k >= 1150 {
                    lemma_pow2_adds(112, (k - 1112) as nat);
                    lemma_pow2_pos((k - 1112) as nat);
                    lemma_pow2_adds(56, 56);
                    vstd::arithmetic::power2::lemma2_to64();
                    vstd::arithmetic::power2::lemma2_to64_rest();
                    assert(t as int * p >= 0x1000_0000_0000_0000_0000_0000_0000) by (nonlinear_arith)
                        requires
                            t >= 1,
                            p == pow2(112) * pow2((k - 1112) as nat),
                            pow2(112) == pow2(56) * pow2(56),
                            pow2(56) == 0x100_0000_0000_0000,
                            pow2((k - 1112) as nat) >= 1,
                    ;
                }
            }
        }
        proof {
            if k >= 1000 {
                let p = pow2((k - 1000) as nat);
                lemma_pow2_unfold((k + 1 - 1000) as nat);
                if k == 1000 {
                    vstd::arithmetic::power2::lemma2_to64();
                }
                assert((t / 2) as int * (2 * p) <= t as int * p) by (nonlinear_arith)
                    requires
                        p >= 0,
                        t >= 0,
                        (t / 2) * 2 <= t,
                ;
            }
        }
        st = st || g;
        g = t % 2 == 1;
        t = t / 2;
        k = k + 1;
        proof {
            j = (j + 1) as nat;
        }
    }
    let up: bool = g && (st || t % 2 == 1);
    proof {
        lemma_pow2_pos(j);
        lemma_mul_strictly_positive(d as int, pow2(j) as int);
        if j > 0 {
            lemma_nearest_from_bits(n, d * pow2(j), g, st);
        }
        lemma_pack_from_quotient(n, d, e as int, j);
    }
    let q: u64 = if up {
        t as u64 + 1
    } else {
        t as u64
    };
    let b: u64 = (k as u64) * 0x80_0000 + q;
    if b < INF_BITS as u64 {
        b as u32
    } else {
        INF_BITS
    }
}

} // verus!
