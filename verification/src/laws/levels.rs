//! Laws of level files, and of the level that a recording carries.

use crate::binary32::arith::f_neg;
use crate::binary32::decimal::parse_f32;
use crate::binary32::order::f_le;
use crate::binary32::{fl, F32};
use crate::laws::limits::limits_are_bounded;
use crate::level::{demo_level, LevelView};
use crate::parse::{
    draft, is_geometry, parse_level, set_level, GOAL_MAX, GOAL_MIN, GRAVITY_MAX, GRAVITY_MIN,
    PAD_SPACING_MAX, PAD_SPACING_MIN, REFUEL_MAX, REFUEL_MIN, START_FUEL_MAX, START_FUEL_MIN,
    TANK_MAX, TANK_MIN, THRUST_MAX, THRUST_MIN,
};
use crate::text::{find, lines, split_once, trim};
use vstd::prelude::*;

verus! {

/// An empty file describes the demo world.
pub proof fn empty_file_is_demo()
    ensures
        parse_level(seq![]) == demo_level(),
{
    let s = Seq::<char>::empty();
    reveal_with_fuel(draft, 3);
    reveal_with_fuel(lines, 2);
    assert(split_once(s, '\n') is None);
    assert(lines(s) =~= seq![s]);
    assert(lines(s).drop_last() =~= seq![]);
    assert(trim(s).len() == 0);
}

/// `k` is a key that level files know.
pub open spec fn known_key(k: Seq<char>) -> bool {
    ||| is_geometry(k)
    ||| k == "name"@
    ||| k == "scoring"@
    ||| k == "shafts"@
    ||| k == "endless"@
    ||| k == "obstacles"@
    ||| k == "pad_spacing"@
    ||| k == "time_limit"@
    ||| k == "goal_distance"@
    ||| k == "fuel"@
    ||| k == "gravity"@
    ||| k == "thrust"@
    ||| k == "hull"@
    ||| k == "refuel_rate"@
    ||| k == "start_fuel"@
    ||| k == "seed"@
}

/// A line that says nothing: blank, a comment, without `=`, or with a key that
/// nobody knows.
pub open spec fn idle_line(line: Seq<char>) -> bool {
    let l = trim(line);
    ||| l.len() == 0
    ||| l[0] == '#'
    ||| match split_once(l, '=') {
        Some((k, v)) => !known_key(trim(k)),
        None => true,
    }
}

/// A line that says nothing changes nothing, wherever it stands among others.
pub proof fn idle_lines_change_nothing(a: Seq<Seq<char>>, x: Seq<char>, b: Seq<Seq<char>>)
    requires
        idle_line(x),
    ensures
        draft(a + seq![x] + b) == draft(a + b),
    decreases b.len(),
{
    let (with, without) = (a + seq![x] + b, a + b);
    if b.len() == 0 {
        assert(with.drop_last() =~= a);
        assert(with.last() == x);
        assert(without =~= a);
    } else {
        idle_lines_change_nothing(a, x, b.drop_last());
        assert(with.drop_last() =~= a + seq![x] + b.drop_last());
        assert(without.drop_last() =~= a + b.drop_last());
    }
}

/// A line that says nothing changes nothing of a file, wherever a line can
/// begin: before, between or after the others.
pub proof fn idle_lines_change_no_file(before: Seq<char>, x: Seq<char>, after: Seq<char>)
    requires
        idle_line(x),
        !x.contains('\n'),
        before.len() == 0 || before.last() == '\n',
    ensures
        parse_level(before + x + seq!['\n'] + after) == parse_level(before + after),
        parse_level(before + x) == parse_level(before),
{
    let none = Seq::<char>::empty();
    lemma_one_line(x);
    lemma_one_line(none);
    lemma_lines(x, after);
    let a = if before.len() == 0 {
        assert(before + x + seq!['\n'] + after =~= x + seq!['\n'] + after);
        assert(before + after =~= after);
        assert(before + x =~= x);
        assert(before =~= none);
        Seq::<Seq<char>>::empty()
    } else {
        let p = before.drop_last();
        lemma_lines(p, x + seq!['\n'] + after);
        lemma_lines(p, after);
        lemma_lines(p, x);
        lemma_lines(p, none);
        assert(before + x + seq!['\n'] + after =~= p + seq!['\n'] + (x + seq!['\n'] + after));
        assert(before + after =~= p + seq!['\n'] + after);
        assert(before + x =~= p + seq!['\n'] + x);
        assert(before =~= p + seq!['\n'] + none);
        lines(p)
    };
    let b = lines(after);
    assert(lines(before + x + seq!['\n'] + after) =~= a + seq![x] + b);
    assert(lines(before + after) =~= a + b);
    let end = Seq::<Seq<char>>::empty();
    assert(lines(before + x) =~= a + seq![x] + end);
    assert(lines(before) =~= a + seq![none] + end);
    idle_lines_change_nothing(a, x, b);
    idle_lines_change_nothing(a, x, end);
    assert(trim(none).len() == 0);
    idle_lines_change_nothing(a, none, end);
}

pub(crate) proof fn lemma_find(s: Seq<char>, t: Seq<char>, c: char)
    ensures
        find(s, c) <= s.len(),
        find(s + t, c) == if find(s, c) < s.len() {
            find(s, c)
        } else {
            s.len() + find(t, c)
        },
        find(s, c) < s.len() ==> s.contains(c),
    decreases s.len(),
{
    if s.len() == 0 {
        assert(s + t =~= t);
    } else if s[0] != c {
        lemma_find(s.drop_first(), t, c);
        assert((s + t).drop_first() =~= s.drop_first() + t);
        if find(s, c) < s.len() {
            let i = choose|i: int| 0 <= i < s.drop_first().len() && s.drop_first()[i] == c;
            assert(s[i + 1] == c);
        }
    } else {
        assert(s.contains(c));
    }
}

proof fn lemma_one_line(s: Seq<char>)
    requires
        !s.contains('\n'),
    ensures
        lines(s) == seq![s],
{
    lemma_find(s, s, '\n');
}

/// A line feed parts the lines before it from those after it.
proof fn lemma_lines(s: Seq<char>, t: Seq<char>)
    ensures
        lines(s + seq!['\n'] + t) == lines(s) + lines(t),
    decreases s.len(),
{
    let whole = s + seq!['\n'] + t;
    let rest = seq!['\n'] + t;
    assert(whole =~= s + rest);
    lemma_find(s, rest, '\n');
    let i = find(s, '\n') as int;
    if i < s.len() {
        let b = s.subrange(i + 1, s.len() as int);
        lemma_lines(b, t);
        assert(whole.subrange(0, i) =~= s.subrange(0, i));
        assert(whole.subrange(i + 1, whole.len() as int) =~= b + seq!['\n'] + t);
        assert(seq![s.subrange(0, i)] + (lines(b) + lines(t)) =~= lines(s) + lines(t));
    } else {
        assert(rest[0] == '\n');
        assert(whole.subrange(0, i) =~= s);
        assert(whole.subrange(i + 1, whole.len() as int) =~= t);
    }
}

/// A line that sets `k`.
pub open spec fn sets(line: Seq<char>, k: Seq<char>) -> bool {
    let l = trim(line);
    &&& l.len() > 0 && l[0] != '#'
    &&& match split_once(l, '=') {
        Some((name, v)) => trim(name) == k,
        None => false,
    }
}

/// What the key `k` sets is as in the demo world. Shafts, boulders and the
/// finish are none of a hand-drawn world's.
pub open spec fn as_demo(l: LevelView, k: Seq<char>) -> bool {
    let d = demo_level();
    &&& k == "name"@ ==> l.name == d.name
    &&& k == "scoring"@ ==> l.scoring == d.scoring
    &&& k == "endless"@ ==> l.endless == d.endless
    &&& k == "pad_spacing"@ ==> l.pad_spacing == d.pad_spacing
    &&& k == "time_limit"@ ==> l.time_limit_ticks == d.time_limit_ticks
    &&& k == "fuel"@ ==> l.fuel_max == d.fuel_max
    &&& k == "gravity"@ ==> l.gravity_y == d.gravity_y
    &&& k == "thrust"@ ==> l.thrust_force == d.thrust_force
    &&& k == "hull"@ ==> l.hull_max == d.hull_max
    &&& k == "refuel_rate"@ ==> l.refuel_per_s == d.refuel_per_s
    &&& k == "start_fuel"@ ==> l.start_fuel == d.start_fuel
    &&& k == "seed"@ ==> l.seed == d.seed && l.random_seed == d.random_seed
    &&& k == "poly"@ ==> l.terrain == d.terrain
    &&& l.terrain is None ==> {
        &&& k == "shafts"@ ==> l.shafts == d.shafts
        &&& k == "obstacles"@ ==> l.obstacles == d.obstacles
        &&& k == "goal_distance"@ ==> l.goal_distance == d.goal_distance
    }
}

/// What a file does not set is as in the demo world.
pub proof fn unset_keys_keep_the_demo(text: Seq<char>, k: Seq<char>)
    requires
        forall|i: int| 0 <= i < lines(text).len() ==> !sets(#[trigger] lines(text)[i], k),
    ensures
        as_demo(parse_level(text), k),
{
    lemma_unset(lines(text), k);
}

proof fn lemma_unset(ls: Seq<Seq<char>>, k: Seq<char>)
    requires
        forall|i: int| 0 <= i < ls.len() ==> !sets(#[trigger] ls[i], k),
    ensures
        as_demo(draft(ls).level, k),
        draft(ls).level.terrain is None,
        k == "poly"@ ==> draft(ls).polys.len() == 0,
    decreases ls.len(),
{
    if ls.len() > 0 {
        let a = ls.drop_last();
        assert forall|i: int| 0 <= i < a.len() implies !sets(#[trigger] a[i], k) by {
            assert(a[i] == ls[i]);
        }
        lemma_unset(a, k);
        assert(!sets(ls[ls.len() - 1], k));
    }
}

/// A hand-drawn world has nothing of the generator's: no shafts, no boulders,
/// no finish.
pub proof fn drawn_worlds_are_only_drawn(text: Seq<char>)
    requires
        parse_level(text).terrain is Some,
    ensures
        !parse_level(text).shafts,
        !parse_level(text).obstacles,
        parse_level(text).goal_distance == fl(0),
        parse_level(text).terrain->0.polys.len() > 0,
{
    lemma_no_terrain(lines(text));
}

proof fn lemma_no_terrain(ls: Seq<Seq<char>>)
    ensures
        draft(ls).level.terrain is None,
    decreases ls.len(),
{
    if ls.len() > 0 {
        lemma_no_terrain(ls.drop_last());
    }
}

/// A number that is unset, out of order, or between two bounds.
pub open spec fn within(x: F32, unset: F32, lo: F32, hi: F32) -> bool {
    x == unset || x.nan() || (f_le(lo, x) && f_le(x, hi))
}

/// Every number of a level is unset or within its bounds.
pub open spec fn tame(l: LevelView) -> bool {
    &&& within(l.pad_spacing, demo_level().pad_spacing, fl(PAD_SPACING_MIN), fl(PAD_SPACING_MAX))
    &&& within(l.goal_distance, fl(0), fl(GOAL_MIN), fl(GOAL_MAX))
    &&& within(l.fuel_max, fl(0), fl(TANK_MIN), fl(TANK_MAX))
    &&& within(l.gravity_y, fl(0), f_neg(fl(GRAVITY_MAX)), f_neg(fl(GRAVITY_MIN)))
    &&& within(l.thrust_force, fl(0), fl(THRUST_MIN), fl(THRUST_MAX))
    &&& within(l.hull_max, fl(0), fl(TANK_MIN), fl(TANK_MAX))
    &&& within(l.refuel_per_s, fl(0), fl(REFUEL_MIN), fl(REFUEL_MAX))
    &&& within(l.start_fuel, fl(0), fl(START_FUEL_MIN), fl(START_FUEL_MAX))
    &&& l.time_limit_ticks == 0 || 600 <= l.time_limit_ticks <= 144_000
}

/// Whatever a file says, its numbers come out within their bounds; only a file
/// that asks for NaN gets NaN.
pub proof fn files_are_tamed(text: Seq<char>)
    ensures
        tame(parse_level(text)),
{
    lemma_tame(lines(text));
}

proof fn lemma_tame(ls: Seq<Seq<char>>)
    ensures
        tame(draft(ls).level),
    decreases ls.len(),
{
    if ls.len() > 0 {
        let d = draft(ls.drop_last());
        lemma_tame(ls.drop_last());
        let l = trim(ls.last());
        match split_once(l, '=') {
            Some((k, v)) => {
                lemma_set_tame(d.level, trim(k), trim(v));
            },
            None => {},
        }
    }
}

proof fn lemma_set_tame(l: LevelView, k: Seq<char>, v: Seq<char>)
    requires
        tame(l),
    ensures
        tame(set_level(l, k, v)),
{
    match parse_f32(v) {
        Some(f) => limits_are_bounded(f),
        None => {},
    }
}

/// A level goes into a recording's header and comes back as it was, but for
/// its name, for the flag that its seed is rolled, and, in a hand-drawn world,
/// for shafts and boulders, which such a world never has.
pub proof fn header_keeps_the_level(l: LevelView)
    ensures
        l.params().level() == (LevelView {
            name: "(replay)"@,
            random_seed: false,
            shafts: l.shafts && l.terrain is None,
            obstacles: l.obstacles && l.terrain is None,
            ..l
        }),
{
}

/// The header of a level that came from a file survives the round trip.
pub proof fn header_survives(l: LevelView)
    requires
        l.terrain is Some ==> !l.shafts && !l.obstacles,
    ensures
        l.params().level().params() == l.params(),
{
}

/// Free of NaN.
pub open spec fn clean(l: LevelView) -> bool {
    &&& !l.pad_spacing.nan()
    &&& !l.goal_distance.nan()
    &&& !l.fuel_max.nan()
    &&& !l.gravity_y.nan()
    &&& !l.thrust_force.nan()
    &&& !l.hull_max.nan()
    &&& !l.refuel_per_s.nan()
    &&& !l.start_fuel.nan()
    &&& match l.terrain {
        Some(t) => t.ordered(),
        None => true,
    }
}

/// A file is the same file as the level that was loaded from it, whatever seed
/// was rolled for it since.
pub proof fn a_file_is_itself(l: LevelView, seed: u32)
    requires
        clean(l),
    ensures
        l.same_file(l),
        l.random_seed ==> l.same_file(LevelView { seed, ..l }),
{
}

/// Without a rolled seed, another seed is another file.
pub proof fn a_fixed_seed_counts(l: LevelView, o: LevelView)
    requires
        !l.random_seed || !o.random_seed,
        l.seed != o.seed,
    ensures
        !l.same_file(o),
{
}

} // verus!
