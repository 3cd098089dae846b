//! The join decision at a corner of a band.
//!
//! At each corner the geometry reduces to a few facts: which way the path
//! turns, whether it turns at all (nearly straight continuations get no
//! join), whether the corner is a crossing vertex of the source, whether a
//! miter stays within its limit, and which side a round join's arc sweeps.
//! From those and the band's shape this module decides what each boundary
//! receives. A boundary at distance zero is the source path itself and is
//! never touched here: its corner *is* the joint.

use vstd::prelude::*;
use crate::style::{Join, StrokeSide};

verus! {

/// The sign of the cross product of the incoming and outgoing tangents.
#[derive(Copy, Clone, Debug, PartialEq, Eq, Structural)]
pub enum Turn {
    /// Positive cross product: the path turns clockwise (right, Y-down).
    Right,
    /// Negative cross product: the path turns counter-clockwise (left).
    Left,
    /// Zero cross product: straight on, or a full reversal.
    Straight,
}

/// What the geometry decided about one corner.
#[derive(Copy, Clone, Debug, PartialEq, Eq, Structural)]
pub struct Corner {
    /// The direction of the turn.
    pub turn: Turn,
    /// A nearly straight continuation (positive dot product, cross product
    /// below the join threshold): no join at all.
    pub nearly_straight: bool,
    /// The corner is a crossing vertex of the source subpath.
    pub at_crossing: bool,
    /// A miter at this corner stays within the miter limit.
    pub miter_ok: bool,
    /// The turn angle `atan2(cross, dot)` is positive: a round join sweeps
    /// on the left boundary.
    pub round_left_outer: bool,
}

/// The shape of the band being expanded.
#[derive(Copy, Clone, Debug, PartialEq, Eq, Structural)]
pub struct BandShape {
    /// The left boundary lies at a positive distance.
    pub has_left: bool,
    /// The right boundary lies at a positive distance.
    pub has_right: bool,
    /// Emit the raw offset (no inner clip, no crossing-tip handling), for
    /// the region construction.
    pub raw_offset: bool,
    /// The join style.
    pub join: Join,
}

/// One piece of join geometry appended to a boundary.
#[derive(Copy, Clone, Debug, PartialEq, Eq, Structural)]
pub enum CornerOp {
    /// A line to the corner vertex itself.
    Vertex,
    /// A line to the boundary's offset point for the outgoing segment.
    Offset,
    /// A line to the miter point.
    MiterPoint,
    /// A round arc from the incoming to the outgoing offset point.
    RoundArc,
}

/// Which boundary, if any, is the outer side of a one-sided band at a
/// crossing tip.
pub open spec fn spec_crossing_tip(c: Corner, b: BandShape) -> Option<StrokeSide> {
    if b.raw_offset || !c.at_crossing {
        None
    } else if c.turn == Turn::Right && b.has_left && !b.has_right {
        Some(StrokeSide::Left)
    } else if c.turn == Turn::Left && b.has_right && !b.has_left {
        Some(StrokeSide::Right)
    } else {
        None
    }
}

/// Which boundary of a one-sided band is the inner side of the turn, to be
/// clipped at the offset lines' intersection before anything else.
pub open spec fn spec_inner_clip(c: Corner, b: BandShape) -> Option<StrokeSide> {
    if b.raw_offset {
        None
    } else if c.turn == Turn::Right && !b.has_left && b.has_right {
        Some(StrokeSide::Right)
    } else if c.turn == Turn::Left && !b.has_right && b.has_left {
        Some(StrokeSide::Left)
    } else {
        None
    }
}

/// The ops a boundary gets, given whether it exists.
pub open spec fn ops_if(present: bool, ops: Seq<CornerOp>) -> Seq<CornerOp> {
    if present { ops } else { Seq::empty() }
}

/// The styled join: `(left ops, right ops)`.
///
/// Bevel joins connect each boundary to its next offset point. A miter
/// within its limit puts the miter point on the outer boundary and routes
/// the inner one through the vertex. A round join sweeps an arc on the side
/// its angle says and connects the other side straight.
pub open spec fn spec_styled_ops(c: Corner, b: BandShape) -> (Seq<CornerOp>, Seq<CornerOp>) {
    let bevel = (ops_if(b.has_left, seq![CornerOp::Offset]), ops_if(b.has_right, seq![CornerOp::Offset]));
    match b.join {
        Join::Bevel => bevel,
        Join::Miter => if c.miter_ok && c.turn == Turn::Right && b.has_left {
            (seq![CornerOp::MiterPoint, CornerOp::Offset], ops_if(b.has_right, seq![CornerOp::Vertex, CornerOp::Offset]))
        } else if c.miter_ok && c.turn == Turn::Left && b.has_right {
            (ops_if(b.has_left, seq![CornerOp::Vertex, CornerOp::Offset]), seq![CornerOp::MiterPoint, CornerOp::Offset])
        } else {
            bevel
        },
        Join::Round => if c.round_left_outer {
            (ops_if(b.has_left, seq![CornerOp::RoundArc]), ops_if(b.has_right, seq![CornerOp::Offset]))
        } else {
            (ops_if(b.has_left, seq![CornerOp::Offset]), ops_if(b.has_right, seq![CornerOp::RoundArc]))
        },
    }
}

/// The plan for one corner.
#[derive(Clone, Debug)]
pub enum JoinPlan {
    /// Nearly straight: no join geometry at all.
    Omit,
    /// Crossing tip of a one-sided band: route the given boundary through
    /// the vertex and on to its offset point, and nothing else.
    CrossingTip(StrokeSide),
    /// Regular join.
    Emit {
        /// Try to clip this boundary (the inner side of a one-sided band) at
        /// the offset lines' intersection; when the clip succeeds the corner
        /// is done, otherwise the boundary first routes through the vertex.
        inner_clip: Option<StrokeSide>,
        /// Styled ops for the left boundary.
        left: Vec<CornerOp>,
        /// Styled ops for the right boundary.
        right: Vec<CornerOp>,
        /// Raw mode: the left ops are outer join geometry to record.
        tag_left: bool,
        /// Raw mode: the right ops are outer join geometry to record.
        tag_right: bool,
    },
}

/// The two ways an arc can be drawn agree with the turn: a right turn
/// sweeps left-outer, a left turn right-outer.
pub open spec fn corner_consistent(c: Corner) -> bool {
    &&& (c.turn == Turn::Right ==> c.round_left_outer)
    &&& (c.turn == Turn::Left ==> !c.round_left_outer)
}

fn ops_when(present: bool, a: CornerOp) -> (r: Vec<CornerOp>)
    ensures
        r@ == ops_if(present, seq![a]),
{
    let mut v = Vec::new();
    if present {
        v.push(a);
    }
    proof {
        if present {
            assert(v@ =~= seq![a]);
        } else {
            assert(v@ =~= Seq::<CornerOp>::empty());
        }
    }
    v
}

fn ops_when2(present: bool, a: CornerOp, b: CornerOp) -> (r: Vec<CornerOp>)
    ensures
        r@ == ops_if(present, seq![a, b]),
{
    let mut v = Vec::new();
    if present {
        v.push(a);
        v.push(b);
    }
    proof {
        if present {
            assert(v@ =~= seq![a, b]);
        } else {
            assert(v@ =~= Seq::<CornerOp>::empty());
        }
    }
    v
}

/// The styled join ops for both boundaries (see [`spec_styled_ops`]).
pub fn styled_ops(c: Corner, b: BandShape) -> (r: (Vec<CornerOp>, Vec<CornerOp>))
    ensures
        r.0@ == spec_styled_ops(c, b).0,
        r.1@ == spec_styled_ops(c, b).1,
{
    match b.join {
        Join::Bevel => (ops_when(b.has_left, CornerOp::Offset), ops_when(b.has_right, CornerOp::Offset)),
        Join::Miter => if c.miter_ok && c.turn == Turn::Right && b.has_left {
            (ops_when2(true, CornerOp::MiterPoint, CornerOp::Offset), ops_when2(b.has_right, CornerOp::Vertex, CornerOp::Offset))
        } else if c.miter_ok && c.turn == Turn::Left && b.has_right {
            (ops_when2(b.has_left, CornerOp::Vertex, CornerOp::Offset), ops_when2(true, CornerOp::MiterPoint, CornerOp::Offset))
        } else {
            (ops_when(b.has_left, CornerOp::Offset), ops_when(b.has_right, CornerOp::Offset))
        },
        Join::Round => if c.round_left_outer {
            (ops_when(b.has_left, CornerOp::RoundArc), ops_when(b.has_right, CornerOp::Offset))
        } else {
            (ops_when(b.has_left, CornerOp::Offset), ops_when(b.has_right, CornerOp::RoundArc))
        },
    }
}

/// Decide the join at one corner.
pub fn plan_join(c: Corner, b: BandShape) -> (r: JoinPlan)
    ensures
        c.nearly_straight ==> r is Omit,
        !c.nearly_straight && spec_crossing_tip(c, b) is Some ==> r == JoinPlan::CrossingTip(spec_crossing_tip(c, b)->0),
        !c.nearly_straight && spec_crossing_tip(c, b) is None ==> match r {
            JoinPlan::Emit { inner_clip, left, right, tag_left, tag_right } => {
                &&& inner_clip == spec_inner_clip(c, b)
                &&& left@ == spec_styled_ops(c, b).0
                &&& right@ == spec_styled_ops(c, b).1
                &&& tag_left == (b.raw_offset && c.turn == Turn::Right && b.has_left)
                &&& tag_right == (b.raw_offset && c.turn == Turn::Left && b.has_right)
            },
            _ => false,
        },
{
    if c.nearly_straight {
        return JoinPlan::Omit;
    }
    if !b.raw_offset && c.at_crossing {
        if c.turn == Turn::Right && b.has_left && !b.has_right {
            return JoinPlan::CrossingTip(StrokeSide::Left);
        }
        if c.turn == Turn::Left && b.has_right && !b.has_left {
            return JoinPlan::CrossingTip(StrokeSide::Right);
        }
    }
    let inner_clip = if b.raw_offset {
        None
    } else if c.turn == Turn::Right && !b.has_left && b.has_right {
        Some(StrokeSide::Right)
    } else if c.turn == Turn::Left && !b.has_right && b.has_left {
        Some(StrokeSide::Left)
    } else {
        None
    };
    let (left, right) = styled_ops(c, b);
    JoinPlan::Emit {
        inner_clip,
        left,
        right,
        tag_left: b.raw_offset && c.turn == Turn::Right && b.has_left,
        tag_right: b.raw_offset && c.turn == Turn::Left && b.has_right,
    }
}

/// A boundary at distance zero is never touched by a join: it stays the
/// source path, element for element.
pub proof fn lemma_zero_side_untouched(c: Corner, b: BandShape)
    ensures
        !b.has_left ==> spec_crossing_tip(c, b) != Some(StrokeSide::Left)
            && spec_inner_clip(c, b) != Some(StrokeSide::Left)
            && spec_styled_ops(c, b).0.len() == 0,
        !b.has_right ==> spec_crossing_tip(c, b) != Some(StrokeSide::Right)
            && spec_inner_clip(c, b) != Some(StrokeSide::Right)
            && spec_styled_ops(c, b).1.len() == 0,
{
}

/// The inner side of a turn never receives styled join geometry: it only
/// connects straight to its next offset point (after the vertex when the
/// inner clip fails), while the outer side carries the join style.
pub proof fn lemma_inner_side_plain(c: Corner, b: BandShape)
    requires
        corner_consistent(c),
    ensures
        c.turn == Turn::Right ==> spec_styled_ops(c, b).1 == ops_if(b.has_right, seq![CornerOp::Offset])
            || spec_styled_ops(c, b).1 == ops_if(b.has_right, seq![CornerOp::Vertex, CornerOp::Offset]),
        c.turn == Turn::Left ==> spec_styled_ops(c, b).0 == ops_if(b.has_left, seq![CornerOp::Offset])
            || spec_styled_ops(c, b).0 == ops_if(b.has_left, seq![CornerOp::Vertex, CornerOp::Offset]),
{
}

/// Mirroring a corner (the band's sides and the turn swapped) mirrors the
/// join: what the left boundary got, the right one gets.
pub proof fn lemma_join_mirror(c: Corner, b: BandShape)
    requires
        corner_consistent(c),
        c.turn != Turn::Straight,
    ensures
        ({
            let mc = Corner {
                turn: if c.turn == Turn::Right { Turn::Left } else { Turn::Right },
                round_left_outer: !c.round_left_outer,
                ..c
            };
            let mb = BandShape { has_left: b.has_right, has_right: b.has_left, ..b };
            &&& spec_styled_ops(mc, mb).0 == spec_styled_ops(c, b).1
            &&& spec_styled_ops(mc, mb).1 == spec_styled_ops(c, b).0
        }),
{
}

/// A miter join within its limit is sharp: the miter point goes on the
/// outer boundary of the turn whenever that boundary exists, for a
/// one-sided band as for a centered one, and the outer boundary then moves
/// on to its next offset point.
pub proof fn lemma_miter_within_limit_is_sharp(c: Corner, b: BandShape)
    requires
        c.miter_ok,
        b.join == Join::Miter,
    ensures
        c.turn == Turn::Right && b.has_left ==> spec_styled_ops(c, b).0 == seq![CornerOp::MiterPoint, CornerOp::Offset],
        c.turn == Turn::Left && b.has_right ==> spec_styled_ops(c, b).1 == seq![CornerOp::MiterPoint, CornerOp::Offset],
{
}

/// Only a miter join within its limit ever emits a miter point, and only on
/// the outer side of the turn.
pub proof fn lemma_miter_point_only_outside(c: Corner, b: BandShape)
    ensures
        spec_styled_ops(c, b).0.contains(CornerOp::MiterPoint) ==> b.join == Join::Miter && c.miter_ok
            && c.turn == Turn::Right,
        spec_styled_ops(c, b).1.contains(CornerOp::MiterPoint) ==> b.join == Join::Miter && c.miter_ok
            && c.turn == Turn::Left,
{
    let (l, r) = spec_styled_ops(c, b);
    if l.contains(CornerOp::MiterPoint) {
        let i = choose|i: int| 0 <= i < l.len() && l[i] == CornerOp::MiterPoint;
    }
    if r.contains(CornerOp::MiterPoint) {
        let i = choose|i: int| 0 <= i < r.len() && r[i] == CornerOp::MiterPoint;
    }
}

} // verus!
