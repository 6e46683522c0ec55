//! Editing of nested splines. Positions, slopes and values are in millionths.

use vstd::prelude::*;

verus! {

/// A spline over one axis whose values are splines over the next: a constant,
/// or knots.
#[derive(Debug)]
pub enum NestedSpline {
    Constant(i64),
    Multipoint(Vec<NestedKnot>),
}

/// A knot: where it is, what the spline is there, and its slope.
#[derive(Debug)]
pub struct NestedKnot {
    pub loc: i64,
    pub val: NestedSpline,
    pub slope: i64,
}

/// Number of axes a spline can vary on.
pub const MAX_DEPTH: usize = 3;

/// The name of an axis.
pub open spec fn axis_text(depth: usize) -> Seq<char> {
    if depth == 0 {
        "continentalness (c)"@
    } else if depth == 1 {
        "terrain_shape (s)"@
    } else if depth == 2 {
        "ridges_pv (r)"@
    } else {
        "(beyond inputs)"@
    }
}

/// The name of the axis that a spline at `depth` varies on.
pub fn axis_name(depth: usize) -> (t: &'static str)
    ensures
        t@ == axis_text(depth),
{
    if depth == 0 {
        "continentalness (c)"
    } else if depth == 1 {
        "terrain_shape (s)"
    } else if depth == 2 {
        "ridges_pv (r)"
    } else {
        "(beyond inputs)"
    }
}

/// Every spline with knots has at least one, at every depth: it can be
/// evaluated.
pub open spec fn sound(s: NestedSpline) -> bool
    decreases s,
{
    match s {
        NestedSpline::Constant(_) => true,
        NestedSpline::Multipoint(knots) => knots@.len() > 0 && forall|i: int|
            0 <= i < knots@.len() ==> knot_sound(#[trigger] knots@[i]),
    }
}

/// The spline at a knot can be evaluated.
pub open spec fn knot_sound(k: NestedKnot) -> bool
    decreases k,
{
    sound(k.val)
}

/// The spline with the constant value `v`.
pub open spec fn constant(v: i64) -> NestedSpline {
    NestedSpline::Constant(v)
}

/// A knot with a constant value and no slope.
pub open spec fn plain_knot(loc: i64, v: i64) -> NestedKnot {
    NestedKnot { loc, val: constant(v), slope: 0 }
}

/// The knots of a spline.
pub open spec fn knots_of(s: NestedSpline) -> Seq<NestedKnot> {
    match s {
        NestedSpline::Constant(_) => Seq::empty(),
        NestedSpline::Multipoint(knots) => knots@,
    }
}

/// Turn a constant into two knots with its value, at -1 and 1, if there is an
/// axis left at `depth`; whether the spline changed.
pub fn to_multipoint(spline: &mut NestedSpline, depth: usize) -> (changed: bool)
    requires
        sound(*old(spline)),
    ensures
        sound(*final(spline)),
        changed == (*old(spline) is Constant && depth < MAX_DEPTH),
        changed ==> *final(spline) is Multipoint && knots_of(*final(spline)) == seq![
            plain_knot((-1_000_000) as i64, (*old(spline))->Constant_0),
            plain_knot(1_000_000, (*old(spline))->Constant_0),
        ],
        !changed ==> *final(spline) == *old(spline),
{
    let value: Option<i64> = match &*spline {
        NestedSpline::Constant(v) => Some(*v),
        NestedSpline::Multipoint(_) => None,
    };
    match value {
        Some(v) => {
            if depth >= MAX_DEPTH {
                return false;
            }
            let mut knots: Vec<NestedKnot> = Vec::new();
            knots.push(NestedKnot { loc: -1_000_000, val: NestedSpline::Constant(v), slope: 0 });
            knots.push(NestedKnot { loc: 1_000_000, val: NestedSpline::Constant(v), slope: 0 });
            assert forall|i: int| 0 <= i < knots@.len() implies knot_sound(
                #[trigger] knots@[i],
            ) by {
                assert(sound(constant(v)));
            }
            assert(knots@ =~= seq![plain_knot((-1_000_000) as i64, v), plain_knot(1_000_000, v)]);
            *spline = NestedSpline::Multipoint(knots);
            true
        },
        None => false,
    }
}

/// Replace a spline by a constant.
pub fn collapse(spline: &mut NestedSpline)
    ensures
        *final(spline) == constant(0),
        sound(*final(spline)),
{
    *spline = NestedSpline::Constant(0);
}

/// Remove a knot. A spline that loses its last knot becomes the constant 0.
pub fn remove_knot(spline: &mut NestedSpline, i: usize)
    requires
        sound(*old(spline)),
        i < knots_of(*old(spline)).len(),
    ensures
        sound(*final(spline)),
        knots_of(*old(spline)).len() == 1 ==> *final(spline) == constant(0),
        knots_of(*old(spline)).len() > 1 ==> *final(spline) is Multipoint && knots_of(
            *final(spline),
        ) == knots_of(*old(spline)).remove(i as int),
{
    let mut taken: NestedSpline = NestedSpline::Constant(0);
    std::mem::swap(&mut taken, spline);
    match taken {
        NestedSpline::Multipoint(knots) => {
            let mut rest: Vec<NestedKnot> = knots;
            let ghost before = rest@;
            let _ = rest.remove(i);
            if rest.len() > 0 {
                assert forall|k: int| 0 <= k < rest@.len() implies knot_sound(
                    #[trigger] rest@[k],
                ) by {
                    if k < i {
                        assert(knot_sound(before[k]));
                    } else {
                        assert(knot_sound(before[k + 1]));
                    }
                }
                *spline = NestedSpline::Multipoint(rest);
            }
        },
        NestedSpline::Constant(_) => {},
    }
}

/// Whether the knots stand in order.
pub open spec fn rising(s: Seq<NestedKnot>) -> bool {
    forall|i: int, j: int| 0 <= i <= j < s.len() ==> (#[trigger] s[i]).loc <= (#[trigger] s[j]).loc
}

/// The middle between two positions, rounded down.
pub open spec fn middle(a: i64, b: i64) -> i64 {
    ((a + b) / 2) as i64
}

/// Where a knot goes among the first `n` knots: behind those that stand no
/// further on.
pub open spec fn slot(s: Seq<NestedKnot>, loc: i64, n: int) -> int
    decreases n,
{
    if n <= 0 {
        0
    } else if s[n - 1].loc <= loc {
        n
    } else {
        slot(s, loc, n - 1)
    }
}

/// Knots sorted by position; of equals, the first stays first.
pub open spec fn arranged(s: Seq<NestedKnot>) -> Seq<NestedKnot>
    decreases s.len(),
{
    if s.len() == 0 {
        Seq::empty()
    } else {
        let rest = arranged(s.drop_last());
        rest.insert(slot(rest, s.last().loc, rest.len() as int), s.last())
    }
}

proof fn lemma_slot(s: Seq<NestedKnot>, loc: i64, n: int)
    requires
        0 <= n <= s.len(),
    ensures
        0 <= slot(s, loc, n) <= n,
        forall|k: int| slot(s, loc, n) <= k < n ==> (#[trigger] s[k]).loc > loc,
        slot(s, loc, n) > 0 ==> s[slot(s, loc, n) - 1].loc <= loc,
    decreases n,
{
    if n > 0 {
        lemma_slot(s, loc, n - 1);
    }
}

proof fn lemma_arranged(s: Seq<NestedKnot>)
    ensures
        arranged(s).len() == s.len(),
        rising(arranged(s)),
        arranged(s).to_multiset() == s.to_multiset(),
    decreases s.len(),
{
    broadcast use vstd::seq_lib::group_to_multiset_ensures;

    if s.len() > 0 {
        lemma_arranged(s.drop_last());
        let rest = arranged(s.drop_last());
        let e = s.last();
        let p = slot(rest, e.loc, rest.len() as int);
        lemma_slot(rest, e.loc, rest.len() as int);
        let out = rest.insert(p, e);
        assert forall|i: int, j: int| 0 <= i <= j < out.len() implies (#[trigger] out[i]).loc <= (
        #[trigger] out[j]).loc by {
            let a = if i < p {
                i
            } else {
                i - 1
            };
            let b = if j < p {
                j
            } else {
                j - 1
            };
            if i != p {
                assert(out[i] == rest[a]);
            }
            if j != p {
                assert(out[j] == rest[b]);
            }
            if i < p && j == p {
                assert(rest[i].loc <= rest[p - 1].loc);
            }
        }
        assert(s =~= s.drop_last().push(e));
        assert(out.to_multiset() == rest.to_multiset().insert(e));
    } else {
        assert(arranged(s) =~= s);
    }
}

/// Adding a knot leaves the knots in order, and none is lost.
pub proof fn law_added_knots_stay_in_order(knots: Seq<NestedKnot>, added: NestedKnot)
    ensures
        rising(arranged(knots.push(added))),
        arranged(knots.push(added)).to_multiset() == knots.push(added).to_multiset(),
        arranged(knots.push(added)).len() == knots.len() + 1,
{
    lemma_arranged(knots.push(added));
}

fn arrange(knots: Vec<NestedKnot>) -> (out: Vec<NestedKnot>)
    requires
        forall|i: int| 0 <= i < knots@.len() ==> knot_sound(#[trigger] knots@[i]),
    ensures
        out@ == arranged(knots@),
        forall|i: int| 0 <= i < out@.len() ==> knot_sound(#[trigger] out@[i]),
{
    let ghost all = knots@;
    let mut rest: Vec<NestedKnot> = knots;
    let mut back: Vec<NestedKnot> = Vec::new();
    while rest.len() > 0
        invariant
            rest@.len() + back@.len() == all.len(),
            forall|i: int| 0 <= i < all.len() ==> knot_sound(#[trigger] all[i]),
            rest@ == all.take(rest@.len() as int),
            forall|i: int|
                0 <= i < back@.len() ==> #[trigger] back@[i] == all[all.len() - 1 - i],
        decreases rest@.len(),
    {
        match rest.pop() {
            Some(k) => {
                back.push(k);
            },
            None => {},
        }
        assert(rest@ =~= all.take(rest@.len() as int));
    }
    let mut out: Vec<NestedKnot> = Vec::new();
    assert(all.take(0) =~= Seq::<NestedKnot>::empty());
    while back.len() > 0
        invariant
            out@.len() + back@.len() == all.len(),
            forall|i: int| 0 <= i < all.len() ==> knot_sound(#[trigger] all[i]),
            forall|i: int| 0 <= i < out@.len() ==> knot_sound(#[trigger] out@[i]),
            out@ == arranged(all.take(out@.len() as int)),
            forall|i: int|
                0 <= i < back@.len() ==> #[trigger] back@[i] == all[all.len() - 1 - i],
        decreases back@.len(),
    {
        let ghost n = out@.len() as int;
        assert(back@[back@.len() - 1] == all[n]);
        if let Some(k) = back.pop() {
            assert(k == all[n]);
            assert(knot_sound(all[n]));
            let ghost sorted = out@;
            let mut at: usize = out.len();
            while at > 0 && out[at - 1].loc > k.loc
                invariant
                    at <= out@.len(),
                    sorted == out@,
                    slot(sorted, k.loc, at as int) == slot(sorted, k.loc, sorted.len() as int),
                decreases at,
            {
                at = at - 1;
            }
            out.insert(at, k);
            proof {
                assert(all.take(n + 1).drop_last() =~= all.take(n));
                assert(out@ == arranged(all.take(n + 1)));
                assert forall|i: int| 0 <= i < out@.len() implies knot_sound(
                    #[trigger] out@[i],
                ) by {
                    if i < at {
                        assert(out@[i] == sorted[i]);
                    } else if i > at {
                        assert(out@[i] == sorted[i - 1]);
                    }
                }
            }
        }
    }
    assert(all.take(all.len() as int) =~= all);
    out
}

/// Add a knot with the value 0 in the middle between the first and the last
/// knot, and sort the knots by position.
pub fn add_knot(spline: &mut NestedSpline)
    requires
        sound(*old(spline)),
        *old(spline) is Multipoint,
    ensures
        sound(*final(spline)),
        *final(spline) is Multipoint,
        knots_of(*final(spline)) == arranged(
            knots_of(*old(spline)).push(
                plain_knot(
                    middle(
                        knots_of(*old(spline)).first().loc,
                        knots_of(*old(spline)).last().loc,
                    ),
                    0,
                ),
            ),
        ),
{
    let mut taken: NestedSpline = NestedSpline::Constant(0);
    std::mem::swap(&mut taken, spline);
    match taken {
        NestedSpline::Multipoint(knots) => {
            let mut all: Vec<NestedKnot> = knots;
            let ghost before = all@;
            let lo: i128 = all[0].loc as i128;
            let hi: i128 = all[all.len() - 1].loc as i128;
            let sum: i128 = lo + hi + 0x1_0000_0000_0000_0000;
            let loc: i64 = (sum / 2 - 0x8000_0000_0000_0000) as i64;
            assert(loc == middle(before.first().loc, before.last().loc));
            all.push(NestedKnot { loc, val: NestedSpline::Constant(0), slope: 0 });
            assert forall|i: int| 0 <= i < all@.len() implies knot_sound(#[trigger] all@[i]) by {
                if i < before.len() {
                    assert(knot_sound(before[i]));
                } else {
                    assert(sound(constant(0)));
                }
            }
            proof {
                lemma_arranged(all@);
            }
            let out: Vec<NestedKnot> = arrange(all);
            *spline = NestedSpline::Multipoint(out);
        },
        NestedSpline::Constant(_) => {},
    }
}

} // verus!
