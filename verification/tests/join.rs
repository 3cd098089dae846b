use kurbo_se::join::{plan_join, styled_ops, BandShape, Corner, CornerOp, JoinPlan, Turn};
use kurbo_se::{Join, StrokeSide};

fn corner(turn: Turn) -> Corner {
    Corner {
        turn,
        nearly_straight: false,
        at_crossing: false,
        miter_ok: true,
        round_left_outer: turn == Turn::Right,
    }
}

fn band(has_left: bool, has_right: bool, join: Join) -> BandShape {
    BandShape { has_left, has_right, raw_offset: false, join }
}

fn emit(p: JoinPlan) -> (Option<StrokeSide>, Vec<CornerOp>, Vec<CornerOp>, bool, bool) {
    match p {
        JoinPlan::Emit { inner_clip, left, right, tag_left, tag_right } => (inner_clip, left, right, tag_left, tag_right),
        other => panic!("expected a regular join, got {other:?}"),
    }
}

#[test]
fn nearly_straight_corners_get_no_join() {
    let mut c = corner(Turn::Right);
    c.nearly_straight = true;
    assert!(matches!(plan_join(c, band(true, true, Join::Round)), JoinPlan::Omit));
}

/// Centered miter, right turn: the miter point goes on the left (outer)
/// boundary, the right boundary routes through the vertex.
#[test]
fn centered_miter_right_turn() {
    let (clip, left, right, _, _) = emit(plan_join(corner(Turn::Right), band(true, true, Join::Miter)));
    assert_eq!(clip, None);
    assert_eq!(left, vec![CornerOp::MiterPoint, CornerOp::Offset]);
    assert_eq!(right, vec![CornerOp::Vertex, CornerOp::Offset]);
}

#[test]
fn miter_past_limit_bevels() {
    let mut c = corner(Turn::Left);
    c.miter_ok = false;
    let (_, left, right, _, _) = emit(plan_join(c, band(true, true, Join::Miter)));
    assert_eq!(left, vec![CornerOp::Offset]);
    assert_eq!(right, vec![CornerOp::Offset]);
}

#[test]
fn round_join_sweeps_the_outer_side() {
    let (_, left, right, _, _) = emit(plan_join(corner(Turn::Left), band(true, true, Join::Round)));
    assert_eq!(left, vec![CornerOp::Offset]);
    assert_eq!(right, vec![CornerOp::RoundArc]);
}

/// A right band (left boundary on the source) turning right: the right
/// side is the inner one and is clipped; the source side gets nothing.
#[test]
fn one_sided_inner_corner_is_clipped() {
    let (clip, left, right, _, _) = emit(plan_join(corner(Turn::Right), band(false, true, Join::Miter)));
    assert_eq!(clip, Some(StrokeSide::Right));
    assert!(left.is_empty());
    assert_eq!(right, vec![CornerOp::Offset]);
}

#[test]
fn one_sided_outer_crossing_tip_routes_through_vertex() {
    let mut c = corner(Turn::Right);
    c.at_crossing = true;
    assert!(matches!(plan_join(c, band(true, false, Join::Round)), JoinPlan::CrossingTip(StrokeSide::Left)));
    let mut raw = band(true, false, Join::Round);
    raw.raw_offset = true;
    let (clip, left, right, tag_left, tag_right) = emit(plan_join(c, raw));
    assert_eq!(clip, None);
    assert_eq!(left, vec![CornerOp::RoundArc]);
    assert!(right.is_empty());
    assert!(tag_left && !tag_right);
}

#[test]
fn source_side_never_touched() {
    for turn in [Turn::Left, Turn::Right, Turn::Straight] {
        for join in [Join::Bevel, Join::Miter, Join::Round] {
            let (l, _) = styled_ops(corner(turn), band(false, true, join));
            assert!(l.is_empty());
            let (_, r) = styled_ops(corner(turn), band(true, false, join));
            assert!(r.is_empty());
        }
    }
}
