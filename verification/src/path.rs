//! Path elements over an abstract point type, and the structural passes
//! that the expansion pipeline runs on them: canonicalization, subpath
//! splitting, degenerate-element removal and run reversal.
//!
//! The point type is a parameter: these passes never look inside a point,
//! and where a geometric judgment is needed (is a segment degenerate, do
//! two points coincide) the caller supplies it as a function.

use vstd::prelude::*;

verus! {

/// One element of a path, with points of type `P`.
#[derive(Copy, Clone, Debug, PartialEq)]
pub enum PathEl<P> {
    /// Start a new subpath at the point.
    MoveTo(P),
    /// Straight segment to the point.
    LineTo(P),
    /// Quadratic segment: control point, end point.
    QuadTo(P, P),
    /// Cubic segment: two control points, end point.
    CurveTo(P, P, P),
    /// Close the current subpath back to its start.
    ClosePath,
}

/// Whether the element draws a segment.
pub open spec fn is_drawing<P>(el: PathEl<P>) -> bool {
    el is LineTo || el is QuadTo || el is CurveTo
}

/// The on-curve point an element ends at (`None` for `ClosePath`).
pub open spec fn spec_end_point<P>(el: PathEl<P>) -> Option<P> {
    match el {
        PathEl::MoveTo(p) => Some(p),
        PathEl::LineTo(p) => Some(p),
        PathEl::QuadTo(_, p) => Some(p),
        PathEl::CurveTo(_, _, p) => Some(p),
        PathEl::ClosePath => None,
    }
}

/// The on-curve point an element ends at (`None` for `ClosePath`).
pub fn end_point<P: Copy>(el: &PathEl<P>) -> (r: Option<P>)
    ensures
        r == spec_end_point(*el),
{
    match el {
        PathEl::MoveTo(p) => Some(*p),
        PathEl::LineTo(p) => Some(*p),
        PathEl::QuadTo(_, p) => Some(*p),
        PathEl::CurveTo(_, _, p) => Some(*p),
        PathEl::ClosePath => None,
    }
}

/// A canonical element list: every subpath starts with a `MoveTo`, and a
/// `ClosePath` is only ever the last element of its subpath.
pub open spec fn canonical<P>(s: Seq<PathEl<P>>) -> bool {
    &&& (s.len() > 0 ==> s[0] is MoveTo)
    &&& forall|i: int| 0 <= i < s.len() - 1 ==> #[trigger] close_then_move(s, i)
}

/// A `ClosePath` at `i` is followed by a `MoveTo`.
pub open spec fn close_then_move<P>(s: Seq<PathEl<P>>, i: int) -> bool {
    s[i] is ClosePath ==> s[i + 1] is MoveTo
}

/// State of the canonicalizing walk.
pub struct CanonState<P> {
    /// Start point of the current subpath (`None` before the first one).
    pub start: Option<P>,
    /// Whether the last element emitted was a `ClosePath`.
    pub after_close: bool,
    /// Elements emitted so far.
    pub out: Seq<PathEl<P>>,
}

/// One step of canonicalization.
///
/// A leading `ClosePath` closes nothing and is dropped; a leading drawing
/// element becomes a `MoveTo` to its end point; an element following a
/// `ClosePath` without a `MoveTo` starts a new subpath at the closed
/// subpath's start, materialized as an explicit `MoveTo`.
pub open spec fn canon_step<P>(st: CanonState<P>, el: PathEl<P>) -> CanonState<P> {
    match el {
        PathEl::MoveTo(p) => CanonState { start: Some(p), after_close: false, out: st.out.push(el) },
        PathEl::ClosePath => match st.start {
            None => st,
            Some(s) => CanonState {
                start: st.start,
                after_close: true,
                out: if st.after_close {
                    st.out.push(PathEl::MoveTo(s)).push(PathEl::ClosePath)
                } else {
                    st.out.push(PathEl::ClosePath)
                },
            },
        },
        _ => match st.start {
            None => {
                let p = spec_end_point(el)->0;
                CanonState { start: Some(p), after_close: st.after_close, out: st.out.push(PathEl::MoveTo(p)) }
            },
            Some(s) => CanonState {
                start: st.start,
                after_close: false,
                out: if st.after_close { st.out.push(PathEl::MoveTo(s)).push(el) } else { st.out.push(el) },
            },
        },
    }
}

/// The walk's state after the first `k` elements.
pub open spec fn canon_run<P>(els: Seq<PathEl<P>>, k: nat) -> CanonState<P>
    decreases k,
{
    if k == 0 {
        CanonState { start: None, after_close: false, out: Seq::empty() }
    } else {
        canon_step(canon_run(els, (k - 1) as nat), els[k - 1])
    }
}

/// The canonical form of an element list.
pub open spec fn spec_canonicalize<P>(els: Seq<PathEl<P>>) -> Seq<PathEl<P>> {
    canon_run(els, els.len()).out
}

/// What the canonicalizing walk keeps true.
pub open spec fn canon_inv<P>(st: CanonState<P>) -> bool {
    &&& canonical(st.out)
    &&& (st.start is Some <==> st.out.len() > 0)
    &&& (st.out.len() > 0 ==> (st.after_close <==> st.out.last() is ClosePath))
    &&& (st.out.len() == 0 ==> !st.after_close)
}

proof fn lemma_canon_step_inv<P>(st: CanonState<P>, el: PathEl<P>)
    requires
        canon_inv(st),
    ensures
        canon_inv(canon_step(st, el)),
{
    let st2 = canon_step(st, el);
    let o = st.out;
    let o2 = st2.out;
    assert forall|i: int| 0 <= i < o2.len() - 1 implies #[trigger] close_then_move(o2, i) by {
        if i < o.len() - 1 {
            assert(close_then_move(o, i));
            assert(o2[i] == o[i]);
            assert(o2[i + 1] == o[i + 1]);
        } else if i == o.len() - 1 {
            assert(o2[i] == o.last());
        }
    }
}

proof fn lemma_canon_run_inv<P>(els: Seq<PathEl<P>>, k: nat)
    requires
        k <= els.len(),
    ensures
        canon_inv(canon_run(els, k)),
    decreases k,
{
    if k > 0 {
        lemma_canon_run_inv(els, (k - 1) as nat);
        lemma_canon_step_inv(canon_run(els, (k - 1) as nat), els[k - 1]);
    }
}

/// Canonicalization always yields a canonical list: every subpath starts
/// with a `MoveTo`, and `ClosePath` only ends a subpath.
pub proof fn lemma_canonicalize_is_canonical<P>(els: Seq<PathEl<P>>)
    ensures
        canonical(spec_canonicalize(els)),
{
    lemma_canon_run_inv(els, els.len());
}

/// A canonical list is left exactly as it is.
pub proof fn lemma_canonical_is_fixed_point<P>(s: Seq<PathEl<P>>)
    requires
        canonical(s),
    ensures
        spec_canonicalize(s) == s,
{
    lemma_canon_prefix(s, s.len());
    assert(s.subrange(0, s.len() as int) =~= s);
}

proof fn lemma_canon_prefix<P>(s: Seq<PathEl<P>>, k: nat)
    requires
        canonical(s),
        k <= s.len(),
    ensures
        canon_run(s, k).out == s.subrange(0, k as int),
        k > 0 ==> canon_run(s, k).start is Some,
        k > 0 ==> (canon_run(s, k).after_close <==> s[k - 1] is ClosePath),
        k == 0 ==> !canon_run(s, k).after_close,
    decreases k,
{
    if k > 0 {
        lemma_canon_prefix(s, (k - 1) as nat);
        let st = canon_run(s, (k - 1) as nat);
        if k >= 2 {
            assert(close_then_move(s, k - 2));
        }
        if k == 1 {
            assert(s[0] is MoveTo);
        }
        assert(canon_run(s, k).out =~= s.subrange(0, k as int));
    }
}

/// Canonicalizing twice is the same as canonicalizing once.
pub proof fn lemma_canonicalize_idempotent<P>(els: Seq<PathEl<P>>)
    ensures
        spec_canonicalize(spec_canonicalize(els)) == spec_canonicalize(els),
{
    lemma_canonicalize_is_canonical(els);
    lemma_canonical_is_fixed_point(spec_canonicalize(els));
}

/// Canonicalize an element list (see [`canon_step`] for the rules).
pub fn canonicalize<P: Copy>(els: &Vec<PathEl<P>>) -> (r: Vec<PathEl<P>>)
    ensures
        r@ == spec_canonicalize(els@),
        canonical(r@),
{
    let mut start: Option<P> = None;
    let mut after_close = false;
    let mut out: Vec<PathEl<P>> = Vec::new();
    let mut i: usize = 0;
    while i < els.len()
        invariant
            i <= els.len(),
            start == canon_run(els@, i as nat).start,
            after_close == canon_run(els@, i as nat).after_close,
            out@ == canon_run(els@, i as nat).out,
        decreases els.len() - i,
    {
        let el = els[i];
        match el {
            PathEl::MoveTo(p) => {
                out.push(el);
                start = Some(p);
                after_close = false;
            },
            PathEl::ClosePath => match start {
                None => {},
                Some(s) => {
                    if after_close {
                        out.push(PathEl::MoveTo(s));
                    }
                    out.push(PathEl::ClosePath);
                    after_close = true;
                },
            },
            PathEl::LineTo(p) | PathEl::QuadTo(_, p) | PathEl::CurveTo(_, _, p) => match start {
                None => {
                    out.push(PathEl::MoveTo(p));
                    start = Some(p);
                },
                Some(s) => {
                    if after_close {
                        out.push(PathEl::MoveTo(s));
                        after_close = false;
                    }
                    out.push(el);
                },
            },
        }
        i = i + 1;
    }
    proof {
        lemma_canonicalize_is_canonical(els@);
    }
    out
}


/// State of the degenerate-element filter.
pub struct DropState<P> {
    /// Start point of the current subpath.
    pub start: Option<P>,
    /// The current point: where the last kept element ended.
    pub last: Option<P>,
    /// Elements kept so far.
    pub out: Seq<PathEl<P>>,
}

/// One step of the filter: `deg` is the judgment on this element, taken
/// against the current point. Only drawing elements are ever dropped.
pub open spec fn drop_step<P>(st: DropState<P>, el: PathEl<P>, deg: bool) -> DropState<P> {
    match el {
        PathEl::MoveTo(p) => DropState { start: Some(p), last: Some(p), out: st.out.push(el) },
        PathEl::ClosePath => DropState { start: st.start, last: st.start, out: st.out.push(el) },
        _ => if deg {
            st
        } else {
            DropState { start: st.start, last: spec_end_point(el), out: st.out.push(el) }
        },
    }
}

/// The filter's state after the first `k` elements, given the judgments.
pub open spec fn drop_run<P>(els: Seq<PathEl<P>>, degs: Seq<bool>, k: nat) -> DropState<P>
    decreases k,
{
    if k == 0 {
        DropState { start: None, last: None, out: Seq::empty() }
    } else {
        drop_step(drop_run(els, degs, (k - 1) as nat), els[k - 1], degs[k - 1])
    }
}

/// The first `k` judgments are what `f` answered for each drawing element,
/// asked about the current point and the element.
pub open spec fn judged_prefix<P, F: Fn(P, PathEl<P>) -> bool>(
    f: F,
    els: Seq<PathEl<P>>,
    degs: Seq<bool>,
    k: int,
) -> bool {
    forall|i: int|
        0 <= i < k && #[trigger] is_drawing(els[i]) ==> {
            let st = drop_run(els, degs, i as nat);
            &&& st.last is Some
            &&& call_ensures(f, (st.last->0, els[i]), degs[i])
        }
}

/// The judgments `degs` are what `f` answered for each drawing element.
pub open spec fn judged_by<P, F: Fn(P, PathEl<P>) -> bool>(
    f: F,
    els: Seq<PathEl<P>>,
    degs: Seq<bool>,
) -> bool {
    &&& degs.len() == els.len()
    &&& judged_prefix(f, els, degs, els.len() as int)
}

/// The shape the filter keeps while walking a canonical list.
pub open spec fn drop_walk_inv<P>(els: Seq<PathEl<P>>, degs: Seq<bool>, i: int) -> bool {
    let st = drop_run(els, degs, i as nat);
    &&& canonical(st.out)
    &&& (i > 0 ==> st.last is Some && st.start is Some && st.out.len() > 0)
    &&& (st.out.len() > 0 && st.out.last() is ClosePath ==> i > 0 && els[i - 1] is ClosePath)
}

proof fn lemma_judged_extend<P, F: Fn(P, PathEl<P>) -> bool>(
    f: F,
    els: Seq<PathEl<P>>,
    before: Seq<bool>,
    deg: bool,
    i: int,
)
    requires
        0 <= i < els.len(),
        before.len() == i,
        judged_prefix(f, els, before, i),
        is_drawing(els[i]) ==> drop_run(els, before, i as nat).last is Some
            && call_ensures(f, (drop_run(els, before, i as nat).last->0, els[i]), deg),
    ensures
        judged_prefix(f, els, before.push(deg), i + 1),
{
    let after = before.push(deg);
    assert forall|j: int| 0 <= j < i + 1 && #[trigger] is_drawing(els[j]) implies {
        let st = drop_run(els, after, j as nat);
        &&& st.last is Some
        &&& call_ensures(f, (st.last->0, els[j]), after[j])
    } by {
        lemma_drop_run_prefix(els, before, after, j as nat);
    }
}

proof fn lemma_push_keeps_canonical<P>(o: Seq<PathEl<P>>, el: PathEl<P>)
    requires
        canonical(o),
        o.len() == 0 ==> el is MoveTo,
        o.len() > 0 && o.last() is ClosePath ==> el is MoveTo,
    ensures
        canonical(o.push(el)),
{
    let o2 = o.push(el);
    assert forall|t: int| 0 <= t < o2.len() - 1 implies #[trigger] close_then_move(o2, t) by {
        if t < o.len() - 1 {
            assert(close_then_move(o, t));
            assert(o2[t] == o[t] && o2[t + 1] == o[t + 1]);
        } else {
            assert(o2[t] == o.last());
        }
    }
}

proof fn lemma_drop_walk_step<P>(els: Seq<PathEl<P>>, degs: Seq<bool>, i: int)
    requires
        0 <= i < els.len(),
        i < degs.len(),
        canonical(els),
        drop_walk_inv(els, degs, i),
    ensures
        drop_walk_inv(els, degs, i + 1),
{
    let st = drop_run(els, degs, i as nat);
    let st2 = drop_run(els, degs, (i + 1) as nat);
    let el = els[i];
    assert(st2 == drop_step(st, el, degs[i]));
    let o = st.out;
    if i > 0 {
        assert(close_then_move(els, i - 1));
    }
    assert(i == 0 ==> el is MoveTo);
    if el is MoveTo || el is ClosePath || !degs[i] {
        let o2 = o.push(el);
        assert(st2.out == o2);
        lemma_push_keeps_canonical(o, el);
        assert(o2.last() == el);
    } else {
        assert(st2 == st);
        assert(!(o.len() > 0 && o.last() is ClosePath));
    }
}

/// Remove the drawing elements that `is_degenerate` judges to cover no
/// distance from the current point. `MoveTo` and `ClosePath` are kept, and
/// the next element is then judged from the previous kept point, so a
/// dropped element never moves the current point.
#[verifier::rlimit(40)]
pub fn drop_degenerate<P: Copy, F: Fn(P, PathEl<P>) -> bool>(
    els: &Vec<PathEl<P>>,
    is_degenerate: &F,
) -> (r: Vec<PathEl<P>>)
    requires
        canonical(els@),
        forall|p: P, el: PathEl<P>| is_degenerate.requires((p, el)),
    ensures
        exists|degs: Seq<bool>|
            judged_by(*is_degenerate, els@, degs) && r@ == #[trigger] drop_run(els@, degs, els@.len() as nat).out,
        canonical(r@),
        kept_judged_sound(*is_degenerate, r@),
{
    let mut start: Option<P> = None;
    let mut last: Option<P> = None;
    let mut out: Vec<PathEl<P>> = Vec::new();
    let ghost mut degs: Seq<bool> = Seq::empty();
    let mut i: usize = 0;
    while i < els.len()
        invariant
            i <= els.len(),
            canonical(els@),
            forall|p: P, el: PathEl<P>| is_degenerate.requires((p, el)),
            degs.len() == i,
            judged_prefix(*is_degenerate, els@, degs, i as int),
            drop_walk_inv(els@, degs, i as int),
            start == drop_run(els@, degs, i as nat).start,
            last == drop_run(els@, degs, i as nat).last,
            out@ == drop_run(els@, degs, i as nat).out,
        decreases els.len() - i,
    {
        let el = els[i];
        let ghost before = degs;
        let deg: bool = match el {
            PathEl::MoveTo(_) | PathEl::ClosePath => false,
            PathEl::LineTo(p) | PathEl::QuadTo(_, p) | PathEl::CurveTo(_, _, p) => {
                proof {
                    if i == 0 {
                        assert(els@[0] is MoveTo);
                    }
                }
                let cur = match last {
                    Some(c) => c,
                    None => p,
                };
                is_degenerate(cur, el)
            },
        };
        proof {
            lemma_judged_extend(*is_degenerate, els@, before, deg, i as int);
            degs = before.push(deg);
            lemma_drop_run_prefix(els@, before, degs, i as nat);
        }
        match el {
            PathEl::MoveTo(p) => {
                out.push(el);
                start = Some(p);
                last = Some(p);
            },
            PathEl::ClosePath => {
                out.push(el);
                last = start;
            },
            PathEl::LineTo(p) | PathEl::QuadTo(_, p) | PathEl::CurveTo(_, _, p) => {
                if !deg {
                    out.push(el);
                    last = Some(p);
                }
            },
        }
        proof {
            assert(drop_run(els@, degs, (i + 1) as nat) == drop_step(drop_run(els@, degs, i as nat), els@[i as int], degs[i as int]));
            lemma_drop_walk_step(els@, degs, i as int);
        }
        i = i + 1;
    }
    proof {
        assert(judged_by(*is_degenerate, els@, degs));
        assert(drop_run(els@, degs, els@.len() as nat).out == out@);
        lemma_drop_keeps_only_judged_sound(*is_degenerate, els@, degs);
    }
    out
}

/// Every drawing element of `out` was judged non-degenerate (`f` answered
/// `false`) from the on-curve point the element before it ends at.
pub open spec fn kept_judged_sound<P, F: Fn(P, PathEl<P>) -> bool>(f: F, out: Seq<PathEl<P>>) -> bool {
    forall|t: int|
        0 < t < out.len() && #[trigger] is_drawing(out[t]) ==> {
            &&& spec_end_point(out[t - 1]) is Some
            &&& call_ensures(f, (spec_end_point(out[t - 1])->0, out[t]), false)
        }
}

proof fn lemma_drop_run_sound<P, F: Fn(P, PathEl<P>) -> bool>(
    f: F,
    els: Seq<PathEl<P>>,
    degs: Seq<bool>,
    k: nat,
)
    requires
        canonical(els),
        judged_by(f, els, degs),
        k <= els.len(),
    ensures
        drop_walk_inv(els, degs, k as int),
        kept_judged_sound(f, drop_run(els, degs, k).out),
        ({
            let st = drop_run(els, degs, k);
            st.out.len() > 0 && !(st.out.last() is ClosePath) ==> st.last == spec_end_point(st.out.last())
        }),
    decreases k,
{
    if k > 0 {
        let i = (k - 1) as int;
        lemma_drop_run_sound(f, els, degs, (k - 1) as nat);
        lemma_drop_walk_step(els, degs, i);
        let st = drop_run(els, degs, i as nat);
        let st2 = drop_run(els, degs, k);
        let el = els[i];
        assert(st2 == drop_step(st, el, degs[i]));
        if is_drawing(el) && !degs[i] {
            assert(i > 0) by {
                if i == 0 {
                    assert(els[0] is MoveTo);
                }
            }
            assert(close_then_move(els, i - 1));
            assert(call_ensures(f, (st.last->0, els[i]), degs[i]));
        }
        let o = st.out;
        let o2 = st2.out;
        assert forall|t: int| 0 < t < o2.len() && #[trigger] is_drawing(o2[t]) implies {
            &&& spec_end_point(o2[t - 1]) is Some
            &&& call_ensures(f, (spec_end_point(o2[t - 1])->0, o2[t]), false)
        } by {
            if t < o.len() {
                assert(o2[t] == o[t] && o2[t - 1] == o[t - 1]);
                assert(is_drawing(o[t]));
            } else {
                assert(o2[t - 1] == o.last());
            }
        }
    }
}

/// What `drop_degenerate` keeps is free of degenerate elements: every
/// drawing element in its output was judged non-degenerate from the
/// on-curve point the element before it ends at, which is where it starts.
pub proof fn lemma_drop_keeps_only_judged_sound<P, F: Fn(P, PathEl<P>) -> bool>(
    f: F,
    els: Seq<PathEl<P>>,
    degs: Seq<bool>,
)
    requires
        canonical(els),
        judged_by(f, els, degs),
    ensures
        kept_judged_sound(f, drop_run(els, degs, els.len()).out),
{
    lemma_drop_run_sound(f, els, degs, els.len());
}

proof fn lemma_drop_run_prefix<P>(els: Seq<PathEl<P>>, a: Seq<bool>, b: Seq<bool>, k: nat)
    requires
        k <= a.len(),
        k <= b.len(),
        forall|j: int| 0 <= j < k ==> a[j] == b[j],
    ensures
        drop_run(els, a, k) == drop_run(els, b, k),
    decreases k,
{
    if k > 0 {
        lemma_drop_run_prefix(els, a, b, (k - 1) as nat);
    }
}


/// `r` lists the subpaths of `els` as index ranges `[start, end)`: they
/// tile the list in order, and a new subpath begins exactly at each
/// `MoveTo` (and at index 0).
pub open spec fn subpath_ranges_ok<P>(els: Seq<PathEl<P>>, r: Seq<(usize, usize)>) -> bool {
    &&& (els.len() == 0 <==> r.len() == 0)
    &&& (r.len() > 0 ==> r[0].0 == 0 && r.last().1 == els.len())
    &&& forall|k: int| 0 <= k < r.len() ==> #[trigger] r[k].0 < r[k].1 && r[k].1 <= els.len()
    &&& forall|k: int| 0 <= k < r.len() - 1 ==> #[trigger] r[k].1 == r[k + 1].0
    &&& forall|k: int, j: int| #![trigger r[k], els[j]] 0 <= k < r.len() && r[k].0 < j < r[k].1 ==> !(els[j] is MoveTo)
    &&& forall|k: int| 0 <= k < r.len() - 1 ==> #[trigger] els[r[k].1 as int] is MoveTo
}

/// Split an element list into subpaths: a new subpath begins at each
/// `MoveTo`. Returns `[start, end)` index ranges.
pub fn subpath_ranges<P>(els: &Vec<PathEl<P>>) -> (r: Vec<(usize, usize)>)
    ensures
        subpath_ranges_ok(els@, r@),
{
    let n = els.len();
    let mut r: Vec<(usize, usize)> = Vec::new();
    let mut i: usize = 0;
    while i < n
        invariant
            n == els@.len(),
            i <= n,
            (i == 0 <==> r@.len() == 0),
            r@.len() > 0 ==> r@[0].0 == 0 && r@.last().1 == i,
            forall|k: int| 0 <= k < r@.len() ==> #[trigger] r@[k].0 < r@[k].1 && r@[k].1 <= i,
            forall|k: int| 0 <= k < r@.len() - 1 ==> #[trigger] r@[k].1 == r@[k + 1].0,
            forall|k: int, j: int| #![trigger r@[k], els@[j]] 0 <= k < r@.len() && r@[k].0 < j < r@[k].1 ==> !(els@[j] is MoveTo),
            forall|k: int| 0 <= k < r@.len() - 1 ==> #[trigger] els@[r@[k].1 as int] is MoveTo,
            i < n && r@.len() > 0 ==> els@[i as int] is MoveTo,
        decreases n - i,
    {
        let start = i;
        i = i + 1;
        while i < n && !is_move(&els[i])
            invariant
                n == els@.len(),
                start < i <= n,
                forall|j: int| start < j < i ==> !(#[trigger] els@[j] is MoveTo),
            decreases n - i,
        {
            i = i + 1;
        }
        let ghost old_r = r@;
        r.push((start, i));
        proof {
            assert forall|k: int, j: int| #![trigger r@[k], els@[j]] 0 <= k < r@.len() && r@[k].0 < j < r@[k].1 implies !(els@[j] is MoveTo) by {
                if k < old_r.len() {
                    assert(r@[k] == old_r[k]);
                }
            }
            assert forall|k: int| 0 <= k < r@.len() - 1 implies #[trigger] els@[r@[k].1 as int] is MoveTo by {
                if k < old_r.len() - 1 {
                    assert(r@[k] == old_r[k]);
                } else {
                    assert(r@[k] == old_r.last());
                }
            }
        }
    }
    r
}

/// Whether the element is a `MoveTo`.
pub fn is_move<P>(el: &PathEl<P>) -> (r: bool)
    ensures
        r == el is MoveTo,
{
    match el {
        PathEl::MoveTo(_) => true,
        _ => false,
    }
}

/// Whether a subpath (a non-empty run of elements) is closed: its last
/// element is a `ClosePath`.
pub fn is_closed<P>(sub: &[PathEl<P>]) -> (r: bool)
    ensures
        r == (sub@.len() > 0 && sub@.last() is ClosePath),
{
    if sub.len() == 0 {
        false
    } else {
        match sub[sub.len() - 1] {
            PathEl::ClosePath => true,
            _ => false,
        }
    }
}

/// The start point of a subpath: the point of its leading `MoveTo`.
pub fn start_point<P: Copy>(sub: &[PathEl<P>]) -> (r: Option<P>)
    ensures
        r == (if sub@.len() > 0 && sub@[0] is MoveTo { Some(sub@[0]->MoveTo_0) } else { None }),
{
    if sub.len() == 0 {
        None
    } else {
        match sub[0] {
            PathEl::MoveTo(p) => Some(p),
            _ => None,
        }
    }
}

/// The point a subpath ends at: its start if it is closed or draws
/// nothing, else the end point of its last element.
pub open spec fn spec_subpath_end<P>(sub: Seq<PathEl<P>>) -> Option<P> {
    let start = if sub.len() > 0 && sub[0] is MoveTo { Some(sub[0]->MoveTo_0) } else { None };
    if sub.len() == 0 || sub.last() is ClosePath {
        start
    } else {
        spec_end_point(sub.last())
    }
}

/// The point a subpath ends at (see [`spec_subpath_end`]).
pub fn subpath_end<P: Copy>(sub: &[PathEl<P>]) -> (r: Option<P>)
    ensures
        r == spec_subpath_end(sub@),
{
    let start = start_point(sub);
    if sub.len() == 0 {
        start
    } else {
        match sub[sub.len() - 1] {
            PathEl::ClosePath => start,
            el => end_point(&el),
        }
    }
}

/// An open run: a `MoveTo` followed by drawing elements only.
pub open spec fn open_run<P>(run: Seq<PathEl<P>>) -> bool {
    &&& run.len() > 0
    &&& run[0] is MoveTo
    &&& forall|i: int| 1 <= i < run.len() ==> is_drawing(#[trigger] run[i])
}

/// A drawing element traversed backwards, given where it started.
pub open spec fn spec_reverse_el<P>(el: PathEl<P>, from: P) -> PathEl<P> {
    match el {
        PathEl::LineTo(_) => PathEl::LineTo(from),
        PathEl::QuadTo(p1, _) => PathEl::QuadTo(p1, from),
        PathEl::CurveTo(p1, p2, _) => PathEl::CurveTo(p2, p1, from),
        _ => el,
    }
}

/// The drawing elements of an open run, traversed from its end back to its
/// start (without the leading `MoveTo`).
pub open spec fn spec_reversed_tail<P>(run: Seq<PathEl<P>>) -> Seq<PathEl<P>> {
    let n = run.len() as int;
    Seq::new(
        (n - 1) as nat,
        |k: int| spec_reverse_el(run[n - 1 - k], spec_end_point(run[n - 2 - k])->0),
    )
}

/// An open run traversed backwards: a `MoveTo` to its end point, then its
/// elements in reverse.
pub open spec fn spec_reversed_run<P>(run: Seq<PathEl<P>>) -> Seq<PathEl<P>> {
    seq![PathEl::MoveTo(spec_end_point(run.last())->0)] + spec_reversed_tail(run)
}

/// Append the elements of `run` (an open run) to `out`, traversed from the
/// run's end back to its start. The caller's current point must be the
/// run's end point.
pub fn extend_reversed<P: Copy>(out: &mut Vec<PathEl<P>>, run: &Vec<PathEl<P>>)
    requires
        open_run(run@),
    ensures
        final(out)@ == old(out)@ + spec_reversed_tail(run@),
{
    let ghost start = out@;
    let n = run.len();
    let mut i = n - 1;
    while i > 0
        invariant
            n == run@.len(),
            open_run(run@),
            i < n,
            out@ == start + spec_reversed_tail(run@).subrange(0, (n - 1 - i) as int),
        decreases i,
    {
        let from = match end_point(&run[i - 1]) {
            Some(p) => p,
            None => {
                proof {
                    if i - 1 > 0 {
                        assert(is_drawing(run@[i - 1]));
                    }
                }
                return;
            },
        };
        let el = match run[i] {
            PathEl::LineTo(_) => PathEl::LineTo(from),
            PathEl::QuadTo(p1, _) => PathEl::QuadTo(p1, from),
            PathEl::CurveTo(p1, p2, _) => PathEl::CurveTo(p2, p1, from),
            other => other,
        };
        out.push(el);
        proof {
            let t = spec_reversed_tail(run@);
            assert(t[(n - 1 - i) as int] == el);
            assert(t.subrange(0, (n - i) as int) =~= t.subrange(0, (n - 1 - i) as int).push(el));
        }
        i = i - 1;
    }
    proof {
        let t = spec_reversed_tail(run@);
        assert(t.subrange(0, (n - 1) as int) =~= t);
    }
}

/// Reversing an open run twice gives the run back, element for element.
pub proof fn lemma_reverse_run_involution<P>(run: Seq<PathEl<P>>)
    requires
        open_run(run),
    ensures
        open_run(spec_reversed_run(run)),
        spec_reversed_run(spec_reversed_run(run)) == run,
{
    let n = run.len() as int;
    let r = spec_reversed_run(run);
    assert(r.len() == n);
    // the end point of each reversed element
    assert forall|k: int| 0 <= k < n implies #[trigger] spec_end_point(r[k]) == spec_end_point(run[n - 1 - k]) by {
        if k > 0 {
            assert(r[k] == spec_reverse_el(run[n - 1 - (k - 1)], spec_end_point(run[n - 2 - (k - 1)])->0));
            assert(is_drawing(run[n - k]));
            if n - 1 - k > 0 {
                assert(is_drawing(run[n - 1 - k]));
            }
        } else {
            if n - 1 > 0 {
                assert(is_drawing(run[n - 1]));
            }
        }
    }
    assert forall|i: int| 1 <= i < r.len() implies is_drawing(#[trigger] r[i]) by {
        assert(is_drawing(run[n - i]));
    }
    let rr = spec_reversed_run(r);
    assert forall|k: int| 0 <= k < n implies #[trigger] rr[k] == run[k] by {
        if k == 0 {
            assert(spec_end_point(r[n - 1]) == spec_end_point(run[0]));
        } else {
            assert(is_drawing(run[k]));
            assert(spec_end_point(r[n - 1 - k]) == spec_end_point(run[k]));
            assert(spec_end_point(r[n - k]) == spec_end_point(run[k - 1]));
            if k - 1 > 0 {
                assert(is_drawing(run[k - 1]));
            }
            assert(r[n - k] == spec_reverse_el(run[k], spec_end_point(run[k - 1])->0));
        }
    }
    assert(rr =~= run);
}


/// In a canonical list every subpath starts with its `MoveTo`, and a
/// `ClosePath` can only be the last element of its subpath.
pub proof fn lemma_canonical_subpaths<P>(els: Seq<PathEl<P>>, r: Seq<(usize, usize)>)
    requires
        canonical(els),
        subpath_ranges_ok(els, r),
    ensures
        forall|k: int| 0 <= k < r.len() ==> #[trigger] els[r[k].0 as int] is MoveTo,
        forall|k: int, j: int|
            #![trigger r[k], els[j]]
            0 <= k < r.len() && r[k].0 <= j < r[k].1 - 1 ==> !(els[j] is ClosePath),
{
    assert forall|k: int| 0 <= k < r.len() implies #[trigger] els[r[k].0 as int] is MoveTo by {
        if k > 0 {
            assert(r[k - 1].1 == r[k].0);
            assert(els[r[k - 1].1 as int] is MoveTo);
        }
    }
    assert forall|k: int, j: int|
        #![trigger r[k], els[j]]
        0 <= k < r.len() && r[k].0 <= j < r[k].1 - 1 implies !(els[j] is ClosePath) by {
        assert(close_then_move(els, j));
        assert(r[k].0 < j + 1 < r[k].1);
        assert(!(els[j + 1] is MoveTo));
    }
}


/// The runs joined end to end: the first run whole, each later run without
/// its leading element (the `MoveTo` that repeats the previous run's end).
pub open spec fn spec_spliced<P>(runs: Seq<Seq<PathEl<P>>>) -> Seq<PathEl<P>>
    decreases runs.len(),
{
    if runs.len() == 0 {
        Seq::empty()
    } else if runs.len() == 1 {
        runs[0]
    } else {
        spec_spliced(runs.drop_last()) + runs.last().drop_first()
    }
}

/// The element sequences of a list of runs.
pub open spec fn runs_view<P>(runs: Seq<Vec<PathEl<P>>>) -> Seq<Seq<PathEl<P>>> {
    runs.map_values(|v: Vec<PathEl<P>>| v@)
}

/// Join non-empty runs end to end (see [`spec_spliced`]).
pub fn splice_runs<P: Copy>(runs: &Vec<Vec<PathEl<P>>>) -> (r: Vec<PathEl<P>>)
    requires
        forall|k: int| 0 <= k < runs@.len() ==> #[trigger] runs@[k]@.len() > 0,
    ensures
        r@ == spec_spliced(runs_view(runs@)),
{
    let mut out: Vec<PathEl<P>> = Vec::new();
    let mut k: usize = 0;
    while k < runs.len()
        invariant
            k <= runs@.len(),
            forall|j: int| 0 <= j < runs@.len() ==> #[trigger] runs@[j]@.len() > 0,
            out@ == spec_spliced(runs_view(runs@).subrange(0, k as int)),
        decreases runs@.len() - k,
    {
        let run = &runs[k];
        let first: usize = if k == 0 { 0 } else { 1 };
        let ghost before = out@;
        assert(run@.len() > 0);
        let mut i: usize = first;
        while i < run.len()
            invariant
                run@.len() > 0,
                first <= 1,
                first <= i <= run@.len(),
                out@ == before + run@.subrange(first as int, i as int),
            decreases run@.len() - i,
        {
            out.push(run[i]);
            proof {
                assert(run@.subrange(first as int, (i + 1) as int) =~= run@.subrange(first as int, i as int).push(run@[i as int]));
            }
            i = i + 1;
        }
        proof {
            let rs = runs_view(runs@);
            assert(rs.subrange(0, (k + 1) as int).drop_last() =~= rs.subrange(0, k as int));
            assert(rs[k as int] == run@);
            assert(rs.subrange(0, (k + 1) as int).last() == run@);
            if k == 0 {
                assert(out@ =~= run@);
            } else {
                assert(run@.subrange(1, run@.len() as int) =~= run@.drop_first());
            }
        }
        k = k + 1;
    }
    proof {
        assert(runs_view(runs@).subrange(0, runs@.len() as int) =~= runs_view(runs@));
    }
    out
}

/// After a clipped seam join, a ring ends at the clip point instead of back
/// at its `MoveTo`: start the ring there, so the implicit closing chord does
/// not retrace a sliver. Applies only when the first drawn element is a
/// line (the clip point then lies on it). `same` compares two points.
pub fn reanchor_seam<P: Copy, F: Fn(P, P) -> bool>(els: &mut Vec<PathEl<P>>, same: &F)
    requires
        forall|a: P, b: P| same.requires((a, b)),
    ensures
        ({
            let o = old(els)@;
            let applies = o.len() >= 2 && o[1] is LineTo && o[0] is MoveTo && spec_end_point(o.last()) is Some;
            &&& !applies ==> final(els)@ == o
            &&& applies ==> exists|b: bool|
                call_ensures(*same, (spec_end_point(o.last())->0, o[0]->MoveTo_0), b) && final(els)@ == (if b {
                    o
                } else {
                    o.update(0, PathEl::MoveTo(spec_end_point(o.last())->0))
                })
        }),
{
    let n = els.len();
    if n < 2 {
        return;
    }
    match els[1] {
        PathEl::LineTo(_) => {},
        _ => {
            return;
        },
    }
    let start = match els[0] {
        PathEl::MoveTo(p) => p,
        _ => {
            return;
        },
    };
    let last = match end_point(&els[n - 1]) {
        Some(p) => p,
        None => {
            return;
        },
    };
    let b = same(last, start);
    if !b {
        els.set(0, PathEl::MoveTo(last));
    }
}

/// Before appending a curve offset to a boundary, connect the boundary's
/// current end to the offset's start with a line when they differ (after an
/// inner clip the boundary ends at the clip point). `same` compares points.
pub fn heal_start<P: Copy, F: Fn(P, P) -> bool>(side: &mut Vec<PathEl<P>>, offset: &Vec<PathEl<P>>, same: &F)
    requires
        forall|a: P, b: P| same.requires((a, b)),
    ensures
        ({
            let o = old(side)@;
            let applies = offset@.len() > 0 && offset@[0] is MoveTo && o.len() > 0 && spec_end_point(o.last()) is Some;
            &&& !applies ==> final(side)@ == o
            &&& applies ==> exists|b: bool|
                call_ensures(*same, (spec_end_point(o.last())->0, offset@[0]->MoveTo_0), b) && final(side)@ == (if b {
                    o
                } else {
                    o.push(PathEl::LineTo(offset@[0]->MoveTo_0))
                })
        }),
{
    if offset.len() == 0 || side.len() == 0 {
        return;
    }
    let start = match offset[0] {
        PathEl::MoveTo(p) => p,
        _ => {
            return;
        },
    };
    let n = side.len();
    let cur = match end_point(&side[n - 1]) {
        Some(p) => p,
        None => {
            return;
        },
    };
    let b = same(cur, start);
    if !b {
        side.push(PathEl::LineTo(start));
    }
}


/// Every point an element carries (control points and end point).
pub open spec fn el_points<P>(el: PathEl<P>) -> Seq<P> {
    match el {
        PathEl::MoveTo(p) => seq![p],
        PathEl::LineTo(p) => seq![p],
        PathEl::QuadTo(p1, p2) => seq![p1, p2],
        PathEl::CurveTo(p1, p2, p3) => seq![p1, p2, p3],
        PathEl::ClosePath => Seq::empty(),
    }
}

/// Whether a subpath draws nothing: every point after its leading `MoveTo`
/// coincides with the start, so the expansion has no tangent to work with
/// and the subpath renders as a dot at most. `same` compares two points;
/// the answer is `true` exactly when every comparison it was asked came
/// back `true`.
pub fn is_zero_length<P: Copy, F: Fn(P, P) -> bool>(sub: &[PathEl<P>], same: &F) -> (r: bool)
    requires
        forall|a: P, b: P| same.requires((a, b)),
        sub@.len() > 0,
        sub@[0] is MoveTo,
        forall|i: int| 1 <= i < sub@.len() ==> !(#[trigger] sub@[i] is MoveTo),
    ensures
        r ==> forall|i: int, j: int|
            1 <= i < sub@.len() && 0 <= j < el_points(sub@[i]).len() ==> call_ensures(
                *same,
                (#[trigger] el_points(sub@[i])[j], sub@[0]->MoveTo_0),
                true,
            ),
        !r ==> exists|i: int, j: int|
            1 <= i < sub@.len() && 0 <= j < el_points(sub@[i]).len() && call_ensures(
                *same,
                (#[trigger] el_points(sub@[i])[j], sub@[0]->MoveTo_0),
                false,
            ),
{
    let start = match sub[0] {
        PathEl::MoveTo(p) => p,
        _ => {
            return false;
        },
    };
    let n = sub.len();
    let mut i: usize = 1;
    while i < n
        invariant
            n == sub@.len(),
            1 <= i <= n,
            start == sub@[0]->MoveTo_0,
            forall|a: P, b: P| same.requires((a, b)),
            forall|k: int, j: int|
                1 <= k < i && 0 <= j < el_points(sub@[k]).len() ==> call_ensures(
                    *same,
                    (#[trigger] el_points(sub@[k])[j], start),
                    true,
                ),
        decreases n - i,
    {
        let el = sub[i];
        let pts = el_points_vec(&el);
        let mut j: usize = 0;
        while j < pts.len()
            invariant
                pts@ == el_points(el),
                n == sub@.len(),
                1 <= i < n,
                el == sub@[i as int],
                j <= pts@.len(),
                start == sub@[0]->MoveTo_0,
                forall|a: P, b: P| same.requires((a, b)),
                forall|t: int| 0 <= t < j ==> call_ensures(*same, (#[trigger] el_points(el)[t], start), true),
            decreases pts@.len() - j,
        {
            let b = same(pts[j], start);
            if !b {
                assert(call_ensures(*same, (el_points(sub@[i as int])[j as int], sub@[0]->MoveTo_0), false));
                return false;
            }
            j = j + 1;
        }
        proof {
            assert forall|k: int, t: int|
                1 <= k < i + 1 && 0 <= t < el_points(sub@[k]).len() implies call_ensures(
                    *same,
                    (#[trigger] el_points(sub@[k])[t], start),
                    true,
                ) by {
                if k == i {
                    assert(call_ensures(*same, (el_points(el)[t], start), true));
                }
            }
        }
        i = i + 1;
    }
    true
}

/// The points an element carries, as a vector.
pub fn el_points_vec<P: Copy>(el: &PathEl<P>) -> (r: Vec<P>)
    ensures
        r@ == el_points(*el),
{
    let mut v = Vec::new();
    match el {
        PathEl::MoveTo(p) => {
            v.push(*p);
        },
        PathEl::LineTo(p) => {
            v.push(*p);
        },
        PathEl::QuadTo(p1, p2) => {
            v.push(*p1);
            v.push(*p2);
        },
        PathEl::CurveTo(p1, p2, p3) => {
            v.push(*p1);
            v.push(*p2);
            v.push(*p3);
        },
        PathEl::ClosePath => {},
    }
    proof {
        assert(v@ =~= el_points(*el));
    }
    v
}

/// Total number of elements over all runs.
pub open spec fn total_len<P>(runs: Seq<Seq<PathEl<P>>>) -> nat
    decreases runs.len(),
{
    if runs.len() == 0 {
        0
    } else {
        total_len(runs.drop_last()) + runs.last().len()
    }
}

/// Splicing drops exactly one element (the repeated `MoveTo`) from every
/// run after the first, and keeps everything else; splicing open runs
/// gives one open run, a single subpath with its only `MoveTo` in front.
pub proof fn lemma_splice_drops_only_the_joins<P>(runs: Seq<Seq<PathEl<P>>>)
    requires
        runs.len() > 0,
        forall|k: int| 0 <= k < runs.len() ==> #[trigger] runs[k].len() > 0,
    ensures
        spec_spliced(runs).len() + runs.len() - 1 == total_len(runs),
        spec_spliced(runs).len() >= runs[0].len(),
        spec_spliced(runs).take(runs[0].len() as int) == runs[0],
        (forall|k: int| 0 <= k < runs.len() ==> open_run(#[trigger] runs[k])) ==> open_run(spec_spliced(runs)),
    decreases runs.len(),
{
    if runs.len() > 1 {
        let init = runs.drop_last();
        assert forall|k: int| 0 <= k < init.len() implies #[trigger] init[k].len() > 0 by {
            assert(init[k] == runs[k]);
        }
        lemma_splice_drops_only_the_joins(init);
        let a = spec_spliced(init);
        let t = runs.last().drop_first();
        assert(spec_spliced(runs) == a + t);
        assert(t.len() == runs.last().len() - 1);
        assert(total_len(runs) == total_len(init) + runs.last().len());
        assert(init[0] == runs[0]);
        assert((a + t).take(runs[0].len() as int) =~= a.take(runs[0].len() as int));
        if forall|k: int| 0 <= k < runs.len() ==> open_run(#[trigger] runs[k]) {
            assert forall|k: int| 0 <= k < init.len() implies open_run(#[trigger] init[k]) by {
                assert(init[k] == runs[k]);
                assert(open_run(runs[k]));
            }
            assert(open_run(runs.last()));
            let s = a + t;
            assert forall|i: int| 1 <= i < s.len() implies is_drawing(#[trigger] s[i]) by {
                if i >= a.len() {
                    assert(s[i] == runs.last()[i - a.len() + 1]);
                } else {
                    assert(s[i] == a[i]);
                }
            }
        }
    } else {
        assert(spec_spliced(runs) == runs[0]);
        assert(runs.drop_last() =~= Seq::<Seq<PathEl<P>>>::empty());
        assert(total_len(runs.drop_last()) == 0);
        assert(total_len(runs) == runs[0].len());
        assert(runs[0].take(runs[0].len() as int) =~= runs[0]);
    }
}

} // verus!
