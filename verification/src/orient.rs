//! Per-subpath side resolution: mapping the user-facing alignment onto a
//! geometric left/right side.
//!
//! For closed subpaths `Inside` means the side of the filled region of the
//! whole compound path. The own-disk rule (the sign of the subpath's signed
//! area) answers that for outer boundaries but inverts it for holes, so the
//! caller probes the fill at a point just inside the subpath's own disk and
//! hands the answer to [`fill_side_from`]. Holes then stroke into the ring,
//! and reversing a subpath's winding changes nothing.

use vstd::prelude::*;
use crate::style::{StrokeAlignment, StrokeSide, spec_opposite};

verus! {

/// Outcome of side resolution for one subpath or lobe.
#[derive(Copy, Clone, Debug, PartialEq, Eq, Structural)]
pub struct Resolved {
    /// The geometric side the band goes on.
    pub side: StrokeSide,
    /// The side facing the filled region (closed, one-sided cases only).
    pub fill_side: Option<StrokeSide>,
}

/// Whether the style asks for a one-sided band: an explicit `Left`/`Right`
/// side, or (without an explicit side) `Inside`/`Outside` alignment.
pub open spec fn spec_wants_one_sided(alignment: StrokeAlignment, side_override: Option<StrokeSide>) -> bool {
    match side_override {
        Some(StrokeSide::Left) | Some(StrokeSide::Right) => true,
        Some(StrokeSide::Center) => false,
        None => alignment == StrokeAlignment::Inside || alignment == StrokeAlignment::Outside,
    }
}

/// Whether the fill has to be probed for this subpath: only closed
/// subpaths with a one-sided band need to know which side faces the fill.
pub open spec fn spec_needs_fill_probe(
    alignment: StrokeAlignment,
    side_override: Option<StrokeSide>,
    closed: bool,
) -> bool {
    closed && spec_wants_one_sided(alignment, side_override)
}

/// The side of a closed subpath that faces the filled region.
///
/// `own_disk_right` says whether the subpath's own interior lies on the
/// right of travel (signed area `>= 0`). `probe_filled` is the whole path's
/// fill at a point verified to lie inside the own disk, or `None` when no
/// such point was found (degenerate geometry): then the own-disk rule
/// decides.
pub open spec fn spec_fill_side(own_disk_right: bool, probe_filled: Option<bool>) -> StrokeSide {
    let own_disk = if own_disk_right { StrokeSide::Right } else { StrokeSide::Left };
    match probe_filled {
        Some(true) => own_disk,
        Some(false) => spec_opposite(own_disk),
        None => own_disk,
    }
}

/// The geometric side a band goes on.
///
/// An explicit side wins. Otherwise `Center` stays centered; an open
/// subpath maps `Inside` to the right and `Outside` to the left; a closed
/// subpath puts `Inside` on the side facing the fill and `Outside` across
/// from it.
pub open spec fn spec_resolve_side(
    alignment: StrokeAlignment,
    side_override: Option<StrokeSide>,
    closed: bool,
    fill: Option<StrokeSide>,
) -> StrokeSide {
    match side_override {
        Some(s) => s,
        None => match alignment {
            StrokeAlignment::Center => StrokeSide::Center,
            StrokeAlignment::Inside => if !closed {
                StrokeSide::Right
            } else {
                match fill {
                    Some(f) => f,
                    None => StrokeSide::Right,
                }
            },
            StrokeAlignment::Outside => if !closed {
                StrokeSide::Left
            } else {
                match fill {
                    Some(f) => spec_opposite(f),
                    None => StrokeSide::Left,
                }
            },
        },
    }
}

/// Whether the style asks for a one-sided band.
pub fn wants_one_sided(alignment: StrokeAlignment, side_override: Option<StrokeSide>) -> (r: bool)
    ensures
        r == spec_wants_one_sided(alignment, side_override),
{
    match side_override {
        Some(StrokeSide::Left) | Some(StrokeSide::Right) => true,
        Some(StrokeSide::Center) => false,
        None => match alignment {
            StrokeAlignment::Inside | StrokeAlignment::Outside => true,
            StrokeAlignment::Center => false,
        },
    }
}

/// Whether the fill has to be probed before [`resolve`] can run.
pub fn needs_fill_probe(
    alignment: StrokeAlignment,
    side_override: Option<StrokeSide>,
    closed: bool,
) -> (r: bool)
    ensures
        r == spec_needs_fill_probe(alignment, side_override, closed),
{
    closed && wants_one_sided(alignment, side_override)
}

/// The side of a closed subpath facing the filled region, from its own-disk
/// orientation and the fill probe (see [`spec_fill_side`]).
pub fn fill_side_from(own_disk_right: bool, probe_filled: Option<bool>) -> (r: StrokeSide)
    ensures
        r == spec_fill_side(own_disk_right, probe_filled),
        r != StrokeSide::Center,
{
    let own_disk = if own_disk_right { StrokeSide::Right } else { StrokeSide::Left };
    match probe_filled {
        Some(filled) => if filled { own_disk } else { own_disk.opposite() },
        None => own_disk,
    }
}

/// Resolve the band side of one subpath.
///
/// `fill` is the side facing the fill, present exactly when
/// [`needs_fill_probe`] asked for it.
pub fn resolve(
    alignment: StrokeAlignment,
    side_override: Option<StrokeSide>,
    closed: bool,
    fill: Option<StrokeSide>,
) -> (r: Resolved)
    requires
        fill is Some <==> spec_needs_fill_probe(alignment, side_override, closed),
    ensures
        r.side == spec_resolve_side(alignment, side_override, closed, fill),
        r.fill_side == fill,
{
    let side = match side_override {
        Some(s) => s,
        None => match alignment {
            StrokeAlignment::Center => StrokeSide::Center,
            StrokeAlignment::Inside => if !closed {
                StrokeSide::Right
            } else {
                match fill {
                    Some(f) => f,
                    None => StrokeSide::Right,
                }
            },
            StrokeAlignment::Outside => if !closed {
                StrokeSide::Left
            } else {
                match fill {
                    Some(f) => f.opposite(),
                    None => StrokeSide::Left,
                }
            },
        },
    };
    Resolved { side, fill_side: fill }
}

/// How a band of the given side splits its width, in halves of the width:
/// `(left, right)`. The band spans `[P - left/2 * w * n, P + right/2 * w * n]`.
pub open spec fn spec_side_halves(side: StrokeSide) -> (u8, u8) {
    match side {
        StrokeSide::Center => (1, 1),
        StrokeSide::Right => (0, 2),
        StrokeSide::Left => (2, 0),
    }
}

/// Split a band's width across the two sides of the path, in halves of the
/// width (`Center` gives one half to each side).
pub fn side_halves(side: StrokeSide) -> (r: (u8, u8))
    ensures
        r == spec_side_halves(side),
        r.0 + r.1 == 2,
{
    match side {
        StrokeSide::Center => (1, 1),
        StrokeSide::Right => (0, 2),
        StrokeSide::Left => (2, 0),
    }
}

/// Reversing a closed subpath's winding never changes where its one-sided
/// band lands: the own disk moves to the other side of travel while the
/// probe's answer stays the same, so the resolved side flips exactly as the
/// travel direction does, which is the same physical side.
pub proof fn lemma_reversal_invariance(
    alignment: StrokeAlignment,
    own_disk_right: bool,
    probe_filled: Option<bool>,
)
    requires
        alignment != StrokeAlignment::Center,
    ensures
        spec_resolve_side(alignment, None, true, Some(spec_fill_side(!own_disk_right, probe_filled)))
            == spec_opposite(
            spec_resolve_side(alignment, None, true, Some(spec_fill_side(own_disk_right, probe_filled))),
        ),
{
}

/// Inside and outside bands of the same subpath lie on opposite sides,
/// open or closed, so together they cover both sides of the path.
pub proof fn lemma_inside_outside_complementary(closed: bool, fill: Option<StrokeSide>)
    requires
        closed ==> fill is Some && fill != Some(StrokeSide::Center),
    ensures
        spec_resolve_side(StrokeAlignment::Inside, None, closed, fill) == spec_opposite(
            spec_resolve_side(StrokeAlignment::Outside, None, closed, fill),
        ),
        spec_resolve_side(StrokeAlignment::Inside, None, closed, fill) != StrokeSide::Center,
{
}

/// An explicit side always wins over alignment, for every subpath.
pub proof fn lemma_override_wins(
    alignment: StrokeAlignment,
    side: StrokeSide,
    closed: bool,
    fill: Option<StrokeSide>,
)
    ensures
        spec_resolve_side(alignment, Some(side), closed, fill) == side,
{
}

/// An inside band of a closed subpath faces the fill; a hole (own disk not
/// filled) therefore strokes away from its own disk, into the ring.
pub proof fn lemma_inside_faces_fill(own_disk_right: bool, filled: bool)
    ensures
        spec_resolve_side(
            StrokeAlignment::Inside,
            None,
            true,
            Some(spec_fill_side(own_disk_right, Some(filled))),
        ) == (if own_disk_right == filled { StrokeSide::Right } else { StrokeSide::Left }),
{
}

/// A one-sided band puts the whole width on one side and nothing on the
/// other; opposite sides mirror the split.
pub proof fn lemma_halves_mirror(side: StrokeSide)
    ensures
        spec_side_halves(spec_opposite(side)).0 == spec_side_halves(side).1,
        spec_side_halves(spec_opposite(side)).1 == spec_side_halves(side).0,
        side != StrokeSide::Center ==> spec_side_halves(side).0 == 0 || spec_side_halves(side).1 == 0,
{
}

/// A centered stroke stays centered: with no explicit side, `Center`
/// alignment puts half the width on each side of every subpath, open or
/// closed, whatever the fill probe said; and only `Center` alignment does.
pub proof fn lemma_center_alignment_is_centered(closed: bool, fill: Option<StrokeSide>)
    ensures
        spec_resolve_side(StrokeAlignment::Center, None, closed, fill) == StrokeSide::Center,
        closed ==> fill != Some(StrokeSide::Center) ==> spec_resolve_side(StrokeAlignment::Inside, None, closed, fill)
            != StrokeSide::Center && spec_resolve_side(StrokeAlignment::Outside, None, closed, fill)
            != StrokeSide::Center,
        !closed ==> spec_resolve_side(StrokeAlignment::Inside, None, closed, fill) != StrokeSide::Center
            && spec_resolve_side(StrokeAlignment::Outside, None, closed, fill) != StrokeSide::Center,
{
}

} // verus!
