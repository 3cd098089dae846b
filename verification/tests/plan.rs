use kurbo_se::plan::{
    fast_path_keep, is_centered, keep_by_majority, needs_split, plan_region, region_emission,
    reverse_for_region, zero_length_dot, PieceSides, RegionEmission,
};
use kurbo_se::{Cap, StrokeAlignment, StrokeSide};

fn piece(side: StrokeSide, fill: Option<StrokeSide>) -> PieceSides {
    PieceSides { closed: true, side, fill_side: fill, has_width: true }
}

#[test]
fn centered_bands_skip_splitting() {
    assert!(is_centered(None, StrokeAlignment::Center));
    assert!(is_centered(Some(StrokeSide::Center), StrokeAlignment::Inside));
    assert!(!needs_split(None, StrokeAlignment::Center));
    assert!(needs_split(None, StrokeAlignment::Outside));
    assert!(needs_split(Some(StrokeSide::Left), StrokeAlignment::Center));
}

#[test]
fn zero_length_subpath_dot_needs_round_caps_and_center() {
    assert!(zero_length_dot(None, StrokeAlignment::Center, Cap::Round, Cap::Round));
    assert!(!zero_length_dot(None, StrokeAlignment::Center, Cap::Butt, Cap::Butt));
    assert!(!zero_length_dot(None, StrokeAlignment::Center, Cap::Round, Cap::Square));
    assert!(!zero_length_dot(None, StrokeAlignment::Inside, Cap::Round, Cap::Round));
}

/// A donut stroked inside: both contours face the fill.
#[test]
fn donut_inside_is_one_region() {
    let pieces = vec![
        piece(StrokeSide::Right, Some(StrokeSide::Right)),
        piece(StrokeSide::Right, Some(StrokeSide::Right)),
    ];
    let plan = plan_region(&pieces, false).unwrap();
    assert_eq!(plan.members, vec![0, 1]);
    assert!(plan.into_fill);
    assert!(plan_region(&pieces, true).is_none());
}

#[test]
fn outside_region_is_a_dilation() {
    let pieces = vec![
        piece(StrokeSide::Left, Some(StrokeSide::Right)),
        PieceSides { closed: false, side: StrokeSide::Left, fill_side: None, has_width: true },
    ];
    let plan = plan_region(&pieces, false).unwrap();
    assert_eq!(plan.members, vec![0]);
    assert!(!plan.into_fill);
}

/// An explicit side on a compound path can face the fill on one contour
/// and away from it on another: no region then.
#[test]
fn disagreeing_contours_keep_direct_bands() {
    let pieces = vec![
        piece(StrokeSide::Right, Some(StrokeSide::Right)),
        piece(StrokeSide::Right, Some(StrokeSide::Left)),
    ];
    assert!(plan_region(&pieces, false).is_none());
    let centered = vec![piece(StrokeSide::Center, None)];
    assert!(plan_region(&centered, false).is_none());
}

#[test]
fn region_emission_rules() {
    assert_eq!(region_emission(true, true), RegionEmission::ContoursThenReversedLoops);
    assert_eq!(region_emission(false, false), RegionEmission::LoopsThenReversedContours);
    assert_eq!(region_emission(false, true), RegionEmission::Nothing);
    assert!(reverse_for_region(StrokeSide::Left));
    assert!(!reverse_for_region(StrokeSide::Right));
}

#[test]
fn fast_path_classifies_whole_loops() {
    assert_eq!(
        fast_path_keep(&vec![(3, 0), (0, 3), (3, 0)], &vec![true, true, false]),
        Some(vec![true, false, false])
    );
    assert_eq!(fast_path_keep(&vec![(3, 0), (2, 1)], &vec![true, true]), None);
}

#[test]
fn majority_of_three_samples() {
    assert!(keep_by_majority(&|k: u8| k != 2));
    assert!(!keep_by_majority(&|k: u8| k == 2 && false));
    assert!(keep_by_majority(&|k: u8| k == 0 || k == 2));
    assert!(!keep_by_majority(&|k: u8| k == 0));
}
