//! Natural numbers of any size, as little-endian vectors of 32-bit limbs.

use vstd::arithmetic::power2::{lemma2_to64, lemma_pow2_adds, lemma_pow2_pos, pow2};
use vstd::prelude::*;

verus! {

/// The weight of limb `i`.
pub open spec fn weight(i: nat) -> nat {
    pow2(32 * i)
}

/// Limb `i`; zero beyond the end.
pub open spec fn limb(s: Seq<u32>, i: nat) -> nat {
    if i < s.len() {
        s[i as int] as nat
    } else {
        0
    }
}

/// The value of the lowest `i` limbs.
pub open spec fn low(s: Seq<u32>, i: nat) -> nat
    decreases i,
{
    if i == 0 {
        0
    } else {
        low(s, (i - 1) as nat) + limb(s, (i - 1) as nat) * weight((i - 1) as nat)
    }
}

/// The value of all limbs.
pub open spec fn big(s: Seq<u32>) -> nat {
    low(s, s.len())
}

proof fn lemma_weight_step(i: nat)
    ensures
        weight(0) == 1,
        weight(i + 1) == weight(i) * 0x1_0000_0000,
        weight(i) > 0,
{
    lemma2_to64();
    lemma_pow2_adds(32 * i, 32);
    lemma_pow2_pos(32 * i);
}

proof fn lemma_low_bound(s: Seq<u32>, i: nat)
    ensures
        low(s, i) < weight(i),
    decreases i,
{
    lemma_weight_step(i);
    if i > 0 {
        let j = (i - 1) as nat;
        lemma_low_bound(s, j);
        lemma_weight_step(j);
        let l = limb(s, j);
        let w = weight(j);
        assert(low(s, j) + l * w < w * 0x1_0000_0000) by (nonlinear_arith)
            requires
                low(s, j) < w,
                l <= 0xffff_ffff,
        ;
    }
}

proof fn lemma_low_beyond(s: Seq<u32>, i: nat)
    requires
        i >= s.len(),
    ensures
        low(s, i) == big(s),
    decreases i,
{
    if i > s.len() {
        lemma_low_beyond(s, (i - 1) as nat);
        assert(limb(s, (i - 1) as nat) * weight((i - 1) as nat) == 0) by (nonlinear_arith)
            requires
                limb(s, (i - 1) as nat) == 0,
        ;
    }
}

proof fn lemma_low_same(s: Seq<u32>, t: Seq<u32>, i: nat)
    requires
        i <= s.len(),
        i <= t.len(),
        forall|j: int| 0 <= j < i ==> s[j] == t[j],
    ensures
        low(s, i) == low(t, i),
    decreases i,
{
    if i > 0 {
        lemma_low_same(s, t, (i - 1) as nat);
    }
}

/// `v * m + a`.
pub fn big_mul_add(v: &Vec<u32>, m: u32, a: u32) -> (r: Vec<u32>)
    ensures
        big(r@) == big(v@) * m + a,
{
    let mut r: Vec<u32> = Vec::new();
    let mut carry: u64 = a as u64;
    let mut i: usize = 0;
    proof {
        lemma_weight_step(0);
    }
    assert(low(r@, 0) + carry * weight(0) == low(v@, 0) * m + a) by {
        assert(0 * m == 0);
    }
    while i < v.len()
        invariant
            i <= v.len(),
            r.len() == i,
            carry <= 0xffff_ffff,
            low(r@, i as nat) + carry * weight(i as nat) == low(v@, i as nat) * m + a,
        decreases v.len() - i,
    {
        assert(v[i as int] as u64 * m as u64 + carry <= 0xffff_ffff * 0xffff_ffff + 0xffff_ffff) by (nonlinear_arith)
            requires
                v[i as int] <= 0xffff_ffff,
                m <= 0xffff_ffff,
                carry <= 0xffff_ffff,
        ;
        let t: u64 = v[i] as u64 * m as u64 + carry;
        let lo: u32 = (t % 0x1_0000_0000) as u32;
        let ghost old_r = r@;
        r.push(lo);
        proof {
            let w = weight(i as nat);
            lemma_weight_step(i as nat);
            lemma_low_same(old_r, r@, i as nat);
            let c2 = t / 0x1_0000_0000;
            assert(lo * w + c2 * (w * 0x1_0000_0000) == t * w) by (nonlinear_arith)
                requires
                    t == c2 * 0x1_0000_0000 + lo,
            ;
            assert(t * w == (v[i as int] * w) * m + carry * w) by (nonlinear_arith)
                requires
                    t == v[i as int] * m + carry,
            ;
            assert((low(v@, i as nat) + v[i as int] * w) * m == low(v@, i as nat) * m + (v[i as int] * w) * m)
                by (nonlinear_arith);
        }
        carry = t / 0x1_0000_0000;
        i = i + 1;
    }
    let ghost old_r = r@;
    r.push(carry as u32);
    proof {
        lemma_low_same(old_r, r@, i as nat);
    }
    r
}

fn limb_at(v: &Vec<u32>, i: usize) -> (r: u32)
    ensures
        r == limb(v@, i as nat),
{
    if i < v.len() {
        v[i]
    } else {
        0
    }
}

fn longer(a: &Vec<u32>, b: &Vec<u32>) -> (n: usize)
    ensures
        n >= a.len(),
        n >= b.len(),
        n == a.len() || n == b.len(),
{
    if a.len() > b.len() {
        a.len()
    } else {
        b.len()
    }
}

/// `a >= b`.
pub fn big_ge(a: &Vec<u32>, b: &Vec<u32>) -> (r: bool)
    ensures
        r == (big(a@) >= big(b@)),
{
    let n: usize = longer(a, b);
    let mut i: usize = n;
    proof {
        lemma_low_beyond(a@, n as nat);
        lemma_low_beyond(b@, n as nat);
    }
    while i > 0
        invariant
            i <= n,
            low(a@, n as nat) == big(a@),
            low(b@, n as nat) == big(b@),
            low(a@, n as nat) - low(a@, i as nat) == low(b@, n as nat) - low(b@, i as nat),
        decreases i,
    {
        let j: usize = i - 1;
        let x: u32 = limb_at(a, j);
        let y: u32 = limb_at(b, j);
        if x != y {
            proof {
                lemma_low_bound(a@, j as nat);
                lemma_low_bound(b@, j as nat);
                let w = weight(j as nat);
                if x > y {
                    assert(x * w >= y * w + w) by (nonlinear_arith)
                        requires
                            x >= y + 1,
                            w >= 0,
                    ;
                } else {
                    assert(y * w >= x * w + w) by (nonlinear_arith)
                        requires
                            y >= x + 1,
                            w >= 0,
                    ;
                }
            }
            return x > y;
        }
        i = j;
    }
    true
}

/// `a - b`.
pub fn big_sub(a: &Vec<u32>, b: &Vec<u32>) -> (r: Vec<u32>)
    requires
        big(a@) >= big(b@),
    ensures
        big(r@) == big(a@) - big(b@),
{
    let n: usize = longer(a, b);
    let mut r: Vec<u32> = Vec::new();
    let mut borrow: u64 = 0;
    let mut i: usize = 0;
    assert(0 * weight(0) == 0);
    while i < n
        invariant
            i <= n,
            r.len() == i,
            borrow == 0 || borrow == 1,
            low(r@, i as nat) - borrow * weight(i as nat) == low(a@, i as nat) - low(b@, i as nat),
        decreases n - i,
    {
        let x: u64 = limb_at(a, i) as u64;
        let y: u64 = limb_at(b, i) as u64 + borrow;
        let ghost old_borrow = borrow;
        let d: u64;
        if x >= y {
            d = x - y;
            borrow = 0;
        } else {
            d = x + 0x1_0000_0000 - y;
            borrow = 1;
        }
        let ghost old_r = r@;
        r.push(d as u32);
        proof {
            let w = weight(i as nat);
            lemma_weight_step(i as nat);
            lemma_low_same(old_r, r@, i as nat);
            assert(d * w - borrow * (w * 0x1_0000_0000) == x * w - (y - old_borrow) * w - old_borrow * w)
                by (nonlinear_arith)
                requires
                    d - borrow * 0x1_0000_0000 == x - y,
            ;
        }
        i = i + 1;
    }
    proof {
        lemma_low_beyond(a@, n as nat);
        lemma_low_beyond(b@, n as nat);
        lemma_low_bound(r@, n as nat);
        lemma_weight_step(n as nat);
        assert(borrow == 1 ==> borrow * weight(n as nat) == weight(n as nat));
        assert(0 * weight(n as nat) == 0);
    }
    r
}

/// Whether `v` is 0.
pub fn big_is_zero(v: &Vec<u32>) -> (r: bool)
    ensures
        r == (big(v@) == 0),
{
    let z: Vec<u32> = Vec::new();
    big_ge(&z, v)
}

/// `m` itself.
pub fn big_of(m: u32) -> (r: Vec<u32>)
    ensures
        big(r@) == m,
{
    let z: Vec<u32> = Vec::new();
    let r = big_mul_add(&z, 0, m);
    r
}

} // verus!
