//! Dash patterns: validation, the SVG repetition rule, and which cap each
//! dash edge wears.
//!
//! Entries at even indices are dash lengths, entries at odd indices gaps.
//! An odd-length pattern reads as if written twice, so `2, 7, 4` equals
//! `2, 7, 4, 2, 7, 4` and dashes and gaps never swap roles as the pattern
//! repeats. A pattern that cannot be used renders solid.

use vstd::prelude::*;
use crate::style::Cap;

verus! {

/// What a dash pattern entry is, as far as validation is concerned.
#[derive(Copy, Clone, Debug, PartialEq, Eq, Structural)]
pub enum DashEntry {
    /// Exactly zero.
    Zero,
    /// Finite and positive.
    Positive,
    /// Negative or not finite.
    Unusable,
}

/// A validated pattern's shape.
#[derive(Copy, Clone, Debug, PartialEq, Eq, Structural)]
pub struct DashPlan {
    /// Some "on" entry has length zero: those dashes become dots.
    pub has_zero_dashes: bool,
    /// The pattern has odd length and repeats doubled.
    pub doubled: bool,
    /// Length of the effective (even-length) pattern.
    pub effective_len: usize,
}

/// Whether a pattern can be used: non-empty, every entry finite and
/// non-negative, some entry positive, and a finite sum.
pub open spec fn spec_usable(entries: Seq<DashEntry>, sum_finite: bool) -> bool {
    &&& entries.len() > 0
    &&& forall|i: int| 0 <= i < entries.len() ==> #[trigger] entries[i] != DashEntry::Unusable
    &&& exists|i: int| 0 <= i < entries.len() && #[trigger] entries[i] == DashEntry::Positive
    &&& sum_finite
}

/// Entry `i` of an `n`-entry pattern is "on" somewhere: at an even index,
/// or at any index when the pattern is odd and so repeats with flipped
/// parity.
pub open spec fn spec_on_somewhere(n: int, i: int) -> bool {
    n % 2 == 1 || i % 2 == 0
}

/// Some zero-length entry is "on" somewhere.
pub open spec fn spec_has_zero_dashes(entries: Seq<DashEntry>) -> bool {
    exists|i: int|
        0 <= i < entries.len() && #[trigger] entries[i] == DashEntry::Zero && spec_on_somewhere(
            entries.len() as int,
            i,
        )
}

/// Validate a pattern. `entries` classifies each entry; `sum_finite` says
/// whether the entries' sum is finite. `None` means the pattern is unusable
/// and the stroke renders solid.
pub fn plan_dashes(entries: &Vec<DashEntry>, sum_finite: bool) -> (r: Option<DashPlan>)
    requires
        entries@.len() <= usize::MAX / 2,
    ensures
        r is Some <==> spec_usable(entries@, sum_finite),
        r matches Some(p) ==> {
            &&& p.has_zero_dashes == spec_has_zero_dashes(entries@)
            &&& p.doubled == (entries@.len() % 2 == 1)
            &&& p.effective_len == (if p.doubled { 2 * entries@.len() } else { entries@.len() })
        },
{
    let n = entries.len();
    if n == 0 {
        return None;
    }
    let mut any_positive = false;
    let mut has_zero = false;
    let mut i: usize = 0;
    while i < n
        invariant
            n == entries@.len(),
            i <= n,
            forall|j: int| 0 <= j < i ==> #[trigger] entries@[j] != DashEntry::Unusable,
            any_positive <==> exists|j: int| 0 <= j < i && #[trigger] entries@[j] == DashEntry::Positive,
            has_zero <==> exists|j: int|
                0 <= j < i && #[trigger] entries@[j] == DashEntry::Zero && spec_on_somewhere(n as int, j),
        decreases n - i,
    {
        match entries[i] {
            DashEntry::Unusable => {
                assert(!spec_usable(entries@, sum_finite));
                return None;
            },
            DashEntry::Positive => {
                any_positive = true;
            },
            DashEntry::Zero => {
                if n % 2 == 1 || i % 2 == 0 {
                    has_zero = true;
                }
            },
        }
        i = i + 1;
    }
    if !any_positive || !sum_finite {
        return None;
    }
    let doubled = n % 2 == 1;
    Some(DashPlan { has_zero_dashes: has_zero, doubled, effective_len: if doubled { 2 * n } else { n } })
}

/// The effective pattern: an odd-length pattern written twice, an
/// even-length one as it is.
pub open spec fn spec_effective<T>(p: Seq<T>) -> Seq<T> {
    if p.len() % 2 == 1 { p + p } else { p }
}

/// The effective (even-length) form of a pattern.
pub fn effective_pattern<T: Copy>(p: &Vec<T>) -> (r: Vec<T>)
    requires
        p@.len() <= usize::MAX / 2,
    ensures
        r@ == spec_effective(p@),
{
    let n = p.len();
    let mut r: Vec<T> = Vec::new();
    let reps: usize = if n % 2 == 1 { 2 } else { 1 };
    let mut k: usize = 0;
    while k < reps
        invariant
            n == p@.len(),
            reps == (if n % 2 == 1 { 2usize } else { 1usize }),
            k <= reps,
            k == 0 ==> r@ == Seq::<T>::empty(),
            k == 1 ==> r@ == p@,
            k == 2 ==> r@ == p@ + p@,
        decreases reps - k,
    {
        let ghost before = r@;
        let mut i: usize = 0;
        while i < n
            invariant
                n == p@.len(),
                i <= n,
                r@ == before + p@.subrange(0, i as int),
            decreases n - i,
        {
            r.push(p[i]);
            proof {
                assert(p@.subrange(0, (i + 1) as int) =~= p@.subrange(0, i as int).push(p@[i as int]));
            }
            i = i + 1;
        }
        proof {
            assert(p@.subrange(0, n as int) =~= p@);
            if k == 0 {
                assert(before + p@ =~= p@);
            }
        }
        k = k + 1;
    }
    r
}

/// An odd-length pattern reads doubled: it behaves exactly like the same
/// pattern written twice, at any offset.
pub proof fn lemma_odd_pattern_reads_doubled<T>(p: Seq<T>)
    requires
        p.len() % 2 == 1,
    ensures
        spec_effective(p) == spec_effective(p + p),
{
    assert((p + p).len() % 2 == 0);
}

/// In the effective pattern dashes and gaps alternate by index parity, and
/// for an odd pattern every entry appears once as a dash and once as a gap.
pub proof fn lemma_every_entry_takes_both_roles<T>(p: Seq<T>, k: int)
    requires
        p.len() % 2 == 1,
        0 <= k < p.len(),
    ensures
        spec_effective(p)[k] == p[k],
        spec_effective(p)[k + p.len()] == p[k],
        k % 2 != (k + p.len()) % 2,
{
}

/// `has_zero_dashes` says exactly that some zero entry sits at an even
/// ("on") index of the effective pattern.
pub proof fn lemma_zero_dashes_are_on_entries(entries: Seq<DashEntry>)
    requires
        entries.len() > 0,
    ensures
        spec_has_zero_dashes(entries) <==> exists|j: int|
            0 <= j < spec_effective(entries).len() && j % 2 == 0
                && #[trigger] spec_effective(entries)[j] == DashEntry::Zero,
{
    let n = entries.len() as int;
    let e = spec_effective(entries);
    if spec_has_zero_dashes(entries) {
        let i = choose|i: int|
            0 <= i < n && #[trigger] entries[i] == DashEntry::Zero && spec_on_somewhere(n, i);
        if i % 2 == 0 {
            assert(e[i] == DashEntry::Zero);
        } else {
            assert(e[i + n] == DashEntry::Zero);
            assert((i + n) % 2 == 0);
        }
    }
    if exists|j: int| 0 <= j < e.len() && j % 2 == 0 && #[trigger] e[j] == DashEntry::Zero {
        let j = choose|j: int| 0 <= j < e.len() && j % 2 == 0 && #[trigger] e[j] == DashEntry::Zero;
        if j < n {
            assert(entries[j] == DashEntry::Zero);
            assert(spec_on_somewhere(n, j));
        } else {
            assert(entries[j - n] == DashEntry::Zero);
            assert(n % 2 == 1);
            assert(spec_on_somewhere(n, j - n));
        }
    }
}

/// The caps of one dash's two edges.
///
/// A dash that is a whole closed ring has no edges (the style caps pass
/// through unused). On a closed subpath every edge was made by dashing and
/// wears the dash cap. On an open subpath an edge keeps the style's start
/// or end cap exactly when it lies on the subpath's true start or end.
pub open spec fn spec_dash_caps(
    ring: bool,
    closed: bool,
    at_true_start: bool,
    at_true_end: bool,
    start_cap: Cap,
    end_cap: Cap,
    dash_cap: Cap,
) -> (Cap, Cap) {
    if ring {
        (start_cap, end_cap)
    } else if closed {
        (dash_cap, dash_cap)
    } else {
        (if at_true_start { start_cap } else { dash_cap }, if at_true_end { end_cap } else { dash_cap })
    }
}

/// The caps of one dash's leading and trailing edges (see
/// [`spec_dash_caps`]).
pub fn dash_caps(
    ring: bool,
    closed: bool,
    at_true_start: bool,
    at_true_end: bool,
    start_cap: Cap,
    end_cap: Cap,
    dash_cap: Cap,
) -> (r: (Cap, Cap))
    ensures
        r == spec_dash_caps(ring, closed, at_true_start, at_true_end, start_cap, end_cap, dash_cap),
{
    if ring {
        (start_cap, end_cap)
    } else if closed {
        (dash_cap, dash_cap)
    } else {
        (if at_true_start { start_cap } else { dash_cap }, if at_true_end { end_cap } else { dash_cap })
    }
}

/// True endpoints keep the style's caps; every edge that dashing created
/// wears the dash cap.
pub proof fn lemma_dash_edges_wear_dash_cap(
    closed: bool,
    at_true_start: bool,
    at_true_end: bool,
    start_cap: Cap,
    end_cap: Cap,
    dash_cap: Cap,
)
    ensures
        ({
            let (s, e) = spec_dash_caps(false, closed, at_true_start, at_true_end, start_cap, end_cap, dash_cap);
            &&& (closed || !at_true_start ==> s == dash_cap)
            &&& (closed || !at_true_end ==> e == dash_cap)
            &&& (!closed && at_true_start ==> s == start_cap)
            &&& (!closed && at_true_end ==> e == end_cap)
        }),
{
}

/// The shape of a dot drawn for a zero-length dash.
#[derive(Copy, Clone, Debug, PartialEq, Eq, Structural)]
pub enum DotShape {
    /// A disc of the band's width.
    Circle,
    /// A square of the band's width, oriented along the path.
    Square,
}

/// Whether zero-length dashes are drawn as dots: only when the pattern has
/// some and the dash cap is not `Butt` (a butt-capped zero dash is empty).
pub fn wants_dots(has_zero_dashes: bool, dash_cap: Cap) -> (r: bool)
    ensures
        r == (has_zero_dashes && dash_cap != Cap::Butt),
{
    has_zero_dashes && !matches!(dash_cap, Cap::Butt)
}

/// The dot for a zero-length dash: a circle for a round cap, an oriented
/// square for a square cap when the path gives an orientation there, and
/// nothing for a butt cap or an unoriented square.
pub fn dot_shape(cap: Cap, oriented: bool) -> (r: Option<DotShape>)
    ensures
        r == (match cap {
            Cap::Round => Some(DotShape::Circle),
            Cap::Square => if oriented { Some(DotShape::Square) } else { None },
            Cap::Butt => None,
        }),
{
    match cap {
        Cap::Round => Some(DotShape::Circle),
        Cap::Square => if oriented { Some(DotShape::Square) } else { None },
        Cap::Butt => None,
    }
}

} // verus!
