//! Whole-stroke decisions: when a path needs splitting at its crossings,
//! when a zero-length subpath draws a dot, when closed contours take the
//! set-theoretic region construction, and how that construction is
//! emitted.
//!
//! For closed contours with a one-sided band the outline is built as a set:
//! `Inside(w) = F \ E` and `Outside(w) = D \ F`, where `F` is the fill and
//! `E`, `D` are its erosion and dilation by `w`. The emission is the source
//! contours (wound so the fill lies on the right of travel) plus the eroded
//! or dilated boundary wound the other way.

use vstd::prelude::*;
use crate::style::{Cap, StrokeAlignment, StrokeSide, spec_opposite};

verus! {

/// A centered band: an explicit `Center` side, or `Center` alignment with
/// no explicit side.
pub open spec fn spec_is_centered(side_override: Option<StrokeSide>, alignment: StrokeAlignment) -> bool {
    match side_override {
        Some(s) => s == StrokeSide::Center,
        None => alignment == StrokeAlignment::Center,
    }
}

/// Whether the band is centered (see [`spec_is_centered`]).
pub fn is_centered(side_override: Option<StrokeSide>, alignment: StrokeAlignment) -> (r: bool)
    ensures
        r == spec_is_centered(side_override, alignment),
{
    match side_override {
        Some(StrokeSide::Center) => true,
        Some(_) => false,
        None => match alignment {
            StrokeAlignment::Center => true,
            _ => false,
        },
    }
}

/// Whether subpaths are split at their self-intersections: only one-sided
/// bands need it. Centered bands do not flip sides across a crossing, and
/// their overlaps add under nonzero winding.
pub fn needs_split(side_override: Option<StrokeSide>, alignment: StrokeAlignment) -> (r: bool)
    ensures
        r == !spec_is_centered(side_override, alignment),
{
    !is_centered(side_override, alignment)
}

/// Whether a zero-length subpath draws a dot: it has no tangent, hence no
/// side and no orientation, so only a centered band with round caps on both
/// ends draws one (a disc of the band's width).
pub fn zero_length_dot(
    side_override: Option<StrokeSide>,
    alignment: StrokeAlignment,
    start_cap: Cap,
    end_cap: Cap,
) -> (r: bool)
    ensures
        r == (spec_is_centered(side_override, alignment) && start_cap == Cap::Round && end_cap == Cap::Round),
{
    is_centered(side_override, alignment) && matches!(start_cap, Cap::Round) && matches!(end_cap, Cap::Round)
}

/// What the stroke decided about one piece (a subpath or a lobe of one).
#[derive(Copy, Clone, Debug, PartialEq, Eq, Structural)]
pub struct PieceSides {
    /// The piece is closed.
    pub closed: bool,
    /// The side its band goes on.
    pub side: StrokeSide,
    /// The side facing the fill (closed one-sided pieces only).
    pub fill_side: Option<StrokeSide>,
    /// Its effective width is positive.
    pub has_width: bool,
}

/// A piece takes part in the region construction: closed, one-sided, and
/// of positive width.
pub open spec fn spec_region_member(p: PieceSides) -> bool {
    p.closed && p.side != StrokeSide::Center && p.has_width
}

/// The indices in `m` are exactly the region members of `pieces`, in
/// increasing order.
pub open spec fn spec_members_exact(pieces: Seq<PieceSides>, m: Seq<usize>) -> bool {
    &&& forall|i: int, j: int| 0 <= i < j < m.len() ==> m[i] < m[j]
    &&& forall|i: int| 0 <= i < m.len() ==> #[trigger] m[i] < pieces.len() && spec_region_member(pieces[m[i] as int])
    &&& forall|x: int| 0 <= x < pieces.len() && spec_region_member(#[trigger] pieces[x]) ==> m.contains(x as usize)
}

/// The region construction applies with the given direction: the stroke is
/// solid, some piece is a member, and every member knows its fill side and
/// faces it the same way (`into_fill`: the band lies on the fill's side).
pub open spec fn spec_region_applies(pieces: Seq<PieceSides>, dashed: bool, into_fill: bool) -> bool {
    &&& !dashed
    &&& exists|x: int| 0 <= x < pieces.len() && spec_region_member(#[trigger] pieces[x])
    &&& forall|x: int|
        0 <= x < pieces.len() && spec_region_member(#[trigger] pieces[x]) ==> pieces[x].fill_side is Some
            && (pieces[x].fill_side->0 == pieces[x].side) == into_fill
}

/// The region construction for a set of pieces.
#[derive(Clone, Debug)]
pub struct RegionPlan {
    /// The member pieces, by index, in increasing order.
    pub members: Vec<usize>,
    /// The bands lie on the fill's side: build the erosion (`Inside`);
    /// otherwise the dilation (`Outside`).
    pub into_fill: bool,
}

/// Decide whether the closed one-sided pieces are built as a region.
///
/// The set formulation needs every member to face the fill the same way.
/// That always holds for `Inside`/`Outside`; an explicit side on a compound
/// path can disagree, and then every contour keeps its direct band, as do
/// dashed strokes.
pub fn plan_region(pieces: &Vec<PieceSides>, dashed: bool) -> (r: Option<RegionPlan>)
    ensures
        (r is Some) <==> (spec_region_applies(pieces@, dashed, true) || spec_region_applies(pieces@, dashed, false)),
        r matches Some(plan) ==> spec_members_exact(pieces@, plan.members@) && spec_region_applies(
            pieces@,
            dashed,
            plan.into_fill,
        ),
{
    let n = pieces.len();
    let mut members: Vec<usize> = Vec::new();
    let mut uniform: Option<bool> = None;
    let mut consistent = true;
    let mut i: usize = 0;
    while i < n
        invariant
            n == pieces@.len(),
            i <= n,
            forall|a: int, b: int| 0 <= a < b < members@.len() ==> members@[a] < members@[b],
            forall|a: int| 0 <= a < members@.len() ==> #[trigger] members@[a] < i && spec_region_member(pieces@[members@[a] as int]),
            forall|x: int| 0 <= x < i && spec_region_member(#[trigger] pieces@[x]) ==> members@.contains(x as usize),
            (members@.len() == 0) <==> !(exists|x: int| 0 <= x < i && spec_region_member(#[trigger] pieces@[x])),
            consistent ==> (uniform is Some <==> members@.len() > 0),
            consistent ==> forall|x: int|
                0 <= x < i && spec_region_member(#[trigger] pieces@[x]) ==> pieces@[x].fill_side is Some
                    && (pieces@[x].fill_side->0 == pieces@[x].side) == uniform->0,
            !consistent ==> exists|x: int, y: int|
                0 <= x < i && 0 <= y < i && spec_region_member(#[trigger] pieces@[x]) && spec_region_member(#[trigger] pieces@[y])
                    && (pieces@[x].fill_side is None || (pieces@[y].fill_side is Some
                        && (pieces@[x].fill_side->0 == pieces@[x].side) != (pieces@[y].fill_side->0 == pieces@[y].side))),
        decreases n - i,
    {
        let p = pieces[i];
        let member = p.closed && p.side != StrokeSide::Center && p.has_width;
        if member {
            let ghost before = members@;
            members.push(i);
            proof {
                assert forall|x: int| 0 <= x < i + 1 && spec_region_member(#[trigger] pieces@[x]) implies members@.contains(x as usize) by {
                    if x < i {
                        let k = choose|k: int| 0 <= k < before.len() && before[k] == x as usize;
                        assert(members@[k] == x as usize);
                    } else {
                        assert(members@[before.len() as int] == x as usize);
                    }
                }
            }
            if consistent {
                match p.fill_side {
                    None => {
                        consistent = false;
                        proof {
                            assert(spec_region_member(pieces@[i as int]));
                        }
                    },
                    Some(f) => {
                        let faces = f == p.side;
                        match uniform {
                            None => {
                                uniform = Some(faces);
                            },
                            Some(u) => {
                                if u != faces {
                                    consistent = false;
                                    proof {
                                        let x0 = members@[0] as int;
                                        assert(spec_region_member(pieces@[x0]));
                                        assert(spec_region_member(pieces@[i as int]));
                                    }
                                }
                            },
                        }
                    },
                }
            }
        }
        i = i + 1;
    }
    if dashed || members.len() == 0 || !consistent {
        proof {
            if !consistent && !dashed {
                let (x, y) = choose|x: int, y: int|
                    0 <= x < n && 0 <= y < n && spec_region_member(#[trigger] pieces@[x]) && spec_region_member(#[trigger] pieces@[y])
                        && (pieces@[x].fill_side is None || (pieces@[y].fill_side is Some
                            && (pieces@[x].fill_side->0 == pieces@[x].side) != (pieces@[y].fill_side->0 == pieces@[y].side)));
                assert(!spec_region_applies(pieces@, dashed, true));
                assert(!spec_region_applies(pieces@, dashed, false));
            }
        }
        return None;
    }
    let into_fill = match uniform {
        Some(u) => u,
        None => true,
    };
    proof {
        if spec_region_applies(pieces@, dashed, !into_fill) {
            let x0 = members@[0] as int;
            assert(spec_region_member(pieces@[x0]));
        }
    }
    Some(RegionPlan { members, into_fill })
}

/// Whether a closed contour is re-wound for the region construction: the
/// construction wants the fill on the right of travel, so a contour whose
/// fill lies on its left is reversed.
pub fn reverse_for_region(fill_side: StrokeSide) -> (r: bool)
    ensures
        r == (fill_side == StrokeSide::Left),
        fill_side != StrokeSide::Center ==> (if r { spec_opposite(fill_side) } else { fill_side }) == StrokeSide::Right,
{
    match fill_side {
        StrokeSide::Left => true,
        _ => false,
    }
}

/// How the region outline is emitted.
#[derive(Copy, Clone, Debug, PartialEq, Eq, Structural)]
pub enum RegionEmission {
    /// `F \ E`: the source contours, then the erosion boundary reversed.
    ContoursThenReversedLoops,
    /// `D \ F`: the dilation boundary, then the source contours reversed.
    LoopsThenReversedContours,
    /// Nothing: an outside band with no dilation boundary has no region.
    Nothing,
}

/// Decide the region emission. An empty erosion means the inside stroke
/// saturates: the contours alone fill the shape. An empty dilation boundary
/// emits nothing, since bare reversed contours would paint the shape itself.
pub fn region_emission(into_fill: bool, loops_empty: bool) -> (r: RegionEmission)
    ensures
        into_fill ==> r == RegionEmission::ContoursThenReversedLoops,
        !into_fill && !loops_empty ==> r == RegionEmission::LoopsThenReversedContours,
        !into_fill && loops_empty ==> r == RegionEmission::Nothing,
{
    if into_fill {
        RegionEmission::ContoursThenReversedLoops
    } else if !loops_empty {
        RegionEmission::LoopsThenReversedContours
    } else {
        RegionEmission::Nothing
    }
}

/// The outcome of classifying each offset loop whole, from samples taken
/// on it, when no cut falls inside any loop.
///
/// `samples[i]` counts loop `i`'s valid and invalid samples; `substantial[i]`
/// says whether it bounds meaningful area. `None` means the samples
/// disagree on some loop, and the full cut-prune-stitch pipeline must run.
pub open spec fn spec_fast_keep(samples: Seq<(usize, usize)>, substantial: Seq<bool>) -> Option<Seq<bool>> {
    if exists|i: int| 0 <= i < samples.len() && #[trigger] samples[i].0 > 0 && samples[i].1 > 0 {
        None
    } else {
        Some(Seq::new(samples.len(), |i: int| samples[i].1 == 0 && substantial[i]))
    }
}

/// Classify offset loops whole (see [`spec_fast_keep`]).
pub fn fast_path_keep(samples: &Vec<(usize, usize)>, substantial: &Vec<bool>) -> (r: Option<Vec<bool>>)
    requires
        samples@.len() == substantial@.len(),
    ensures
        r is None <==> spec_fast_keep(samples@, substantial@) is None,
        r matches Some(keep) ==> keep@ == spec_fast_keep(samples@, substantial@)->0,
{
    let n = samples.len();
    let mut keep: Vec<bool> = Vec::new();
    let mut i: usize = 0;
    while i < n
        invariant
            n == samples@.len(),
            n == substantial@.len(),
            i <= n,
            keep@.len() == i,
            forall|j: int| 0 <= j < i ==> #[trigger] keep@[j] == (samples@[j].1 == 0 && substantial@[j]),
            forall|j: int| 0 <= j < i ==> !(#[trigger] samples@[j].0 > 0 && samples@[j].1 > 0),
        decreases n - i,
    {
        let (valid, invalid) = samples[i];
        if valid > 0 && invalid > 0 {
            return None;
        }
        keep.push(invalid == 0 && substantial[i]);
        i = i + 1;
    }
    proof {
        assert(keep@ =~= Seq::new(n as nat, |j: int| samples@[j].1 == 0 && substantial@[j]));
    }
    Some(keep)
}

/// The majority of three samples.
pub open spec fn spec_majority(a: bool, b: bool, c: bool) -> bool {
    (a && b) || (a && c) || (b && c)
}

/// Classify a cut piece by three samples, majority wins. The first two
/// samples (at the middle and the first quarter) settle it when they agree;
/// the third (at the last quarter) is taken only on a disagreement.
pub fn keep_by_majority<F: Fn(u8) -> bool>(sample: &F) -> (r: bool)
    requires
        forall|k: u8| sample.requires((k,)),
    ensures
        exists|a: bool, b: bool|
            call_ensures(*sample, (0u8,), a) && call_ensures(*sample, (1u8,), b) && (a == b ==> r == a) && (a
                != b ==> call_ensures(*sample, (2u8,), r)),
{
    let first = sample(0);
    let second = sample(1);
    if second == first {
        return first;
    }
    sample(2)
}

/// Settling on the first two samples when they agree is the majority of
/// all three, whatever the third would have said.
pub proof fn lemma_two_agreeing_samples_are_the_majority(a: bool, c: bool)
    ensures
        spec_majority(a, a, c) == a,
        spec_majority(a, !a, c) == c,
{
}

/// An explicit `Left` or `Right` side is a one-sided band, whatever the
/// alignment: it is never centered, its subpaths are split at their
/// crossings, and a zero-length subpath draws no dot. The two sides are
/// treated alike. Without an explicit side, only `Center` alignment is
/// centered.
pub proof fn lemma_explicit_side_is_one_sided(s: StrokeSide, a: StrokeAlignment, start_cap: Cap, end_cap: Cap)
    ensures
        spec_is_centered(Some(s), a) <==> s == StrokeSide::Center,
        spec_is_centered(Some(StrokeSide::Left), a) == spec_is_centered(Some(StrokeSide::Right), a),
        spec_is_centered(None, a) <==> a == StrokeAlignment::Center,
        s != StrokeSide::Center ==> !(spec_is_centered(Some(s), a) && start_cap == Cap::Round && end_cap == Cap::Round),
{
}

} // verus!
