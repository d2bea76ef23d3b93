//! Solid rock: whether a point lies inside a hand-drawn polygon.

use crate::binary32::arith::{f_add, f_div, f_mul, f_sub};
use crate::binary32::order::f_lt;
use crate::binary32::F32;
use crate::level::{Terrain, Vec2};
use vstd::prelude::*;

verus! {

/// Whether the edge from `a` to `b` crosses the ray that leaves `p` rightwards.
pub open spec fn crosses(a: Vec2, b: Vec2, p: Vec2) -> bool {
    f_lt(p.y, a.y) != f_lt(p.y, b.y) && f_lt(
        p.x,
        f_add(f_div(f_mul(f_sub(b.x, a.x), f_sub(p.y, a.y)), f_sub(b.y, a.y)), a.x),
    )
}

/// How many of the first `n` edges of a polygon the ray crosses.
pub open spec fn crossings(poly: Seq<Vec2>, p: Vec2, n: nat) -> nat
    decreases n,
{
    if n == 0 {
        0
    } else {
        crossings(poly, p, (n - 1) as nat) + if crosses(
            poly[n - 1],
            poly[n as int % poly.len() as int],
            p,
        ) {
            1nat
        } else {
            0
        }
    }
}

/// Inside a closed polygon: an odd number of crossings.
pub open spec fn inside(poly: Seq<Vec2>, p: Vec2) -> bool {
    crossings(poly, p, poly.len()) % 2 == 1
}

/// Inside any of the polygons.
pub open spec fn in_rock(polys: Seq<Seq<Vec2>>, p: Vec2) -> bool {
    exists|i: int| 0 <= i < polys.len() && inside(#[trigger] polys[i], p)
}

fn is_inside(poly: &Vec<Vec2>, p: Vec2) -> (r: bool)
    ensures
        r == inside(poly@, p),
{
    let n: usize = poly.len();
    let mut odd: bool = false;
    let mut i: usize = 0;
    while i < n
        invariant
            i <= n,
            n == poly.len(),
            odd == (crossings(poly@, p, i as nat) % 2 == 1),
        decreases n - i,
    {
        let next: usize = if i + 1 == n {
            0
        } else {
            i + 1
        };
        proof {
            if i + 1 < n {
                vstd::arithmetic::div_mod::lemma_small_mod((i + 1) as nat, n as nat);
            } else {
                vstd::arithmetic::div_mod::lemma_mod_self_0(n as int);
            }
        }
        let a: Vec2 = poly[i];
        let b: Vec2 = poly[next];
        if p.y.lt(a.y) != p.y.lt(b.y) {
            let x: F32 = b.x.minus(a.x).times(p.y.minus(a.y)).over(b.y.minus(a.y)).plus(a.x);
            if p.x.lt(x) {
                odd = !odd;
            }
        }
        i = i + 1;
    }
    odd
}

impl Terrain {
    /// Whether `p` lies in solid rock.
    pub fn point_in_rock(&self, p: Vec2) -> (r: bool)
        ensures
            r == in_rock(self@.polys, p),
    {
        let mut i: usize = 0;
        while i < self.polys.len()
            invariant
                i <= self.polys.len(),
                forall|j: int| 0 <= j < i ==> !inside(#[trigger] self@.polys[j], p),
            decreases self.polys.len() - i,
        {
            if is_inside(&self.polys[i], p) {
                assert(inside(self@.polys[i as int], p));
                return true;
            }
            assert(!inside(self@.polys[i as int], p));
            i = i + 1;
        }
        false
    }
}

} // verus!
