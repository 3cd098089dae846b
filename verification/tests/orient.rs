use kurbo_se::orient::{fill_side_from, needs_fill_probe, resolve, side_halves, wants_one_sided};
use kurbo_se::{StrokeAlignment, StrokeSide};

fn closed_side(alignment: StrokeAlignment, own_disk_right: bool, probe: Option<bool>) -> StrokeSide {
    assert!(needs_fill_probe(alignment, None, true));
    let fill = fill_side_from(own_disk_right, probe);
    resolve(alignment, None, true, Some(fill)).side
}

#[test]
fn opposite_swaps_left_and_right() {
    assert_eq!(StrokeSide::Left.opposite(), StrokeSide::Right);
    assert_eq!(StrokeSide::Right.opposite(), StrokeSide::Left);
    assert_eq!(StrokeSide::Center.opposite(), StrokeSide::Center);
    for s in [StrokeSide::Left, StrokeSide::Right, StrokeSide::Center] {
        assert_eq!(s.opposite().opposite(), s);
    }
}

#[test]
fn defaults_are_centered() {
    assert_eq!(StrokeAlignment::default(), StrokeAlignment::Center);
    assert_eq!(StrokeSide::default(), StrokeSide::Center);
}

/// A clockwise rectangle (positive area) whose inside probe is filled.
#[test]
fn inside_of_clockwise_contour_is_right() {
    assert_eq!(closed_side(StrokeAlignment::Inside, true, Some(true)), StrokeSide::Right);
    assert_eq!(closed_side(StrokeAlignment::Outside, true, Some(true)), StrokeSide::Left);
}

/// The same rectangle reversed: negative area, own disk on the left.
#[test]
fn inside_of_counter_clockwise_contour_is_left() {
    assert_eq!(closed_side(StrokeAlignment::Inside, false, Some(true)), StrokeSide::Left);
    assert_eq!(closed_side(StrokeAlignment::Outside, false, Some(true)), StrokeSide::Right);
}

/// A counter-clockwise hole: its own disk (on the left) is not filled, so
/// the inside band goes right, into the ring.
#[test]
fn hole_inside_strokes_into_the_ring() {
    assert_eq!(closed_side(StrokeAlignment::Inside, false, Some(false)), StrokeSide::Right);
    // A clockwise contour nested in a clockwise outer one winds twice and
    // stays filled: its own disk side.
    assert_eq!(closed_side(StrokeAlignment::Inside, true, Some(true)), StrokeSide::Right);
}

/// Reversing a contour flips its own disk but not the probe's answer.
#[test]
fn reversal_keeps_the_physical_side() {
    for alignment in [StrokeAlignment::Inside, StrokeAlignment::Outside] {
        for probe in [Some(true), Some(false), None] {
            let a = closed_side(alignment, true, probe);
            let b = closed_side(alignment, false, probe);
            assert_eq!(a, b.opposite());
        }
    }
}

/// No verified inside point: the own-disk rule decides.
#[test]
fn degenerate_probe_falls_back_to_own_disk() {
    assert_eq!(fill_side_from(true, None), StrokeSide::Right);
    assert_eq!(fill_side_from(false, None), StrokeSide::Left);
}

#[test]
fn open_subpath_convention_and_override() {
    assert!(!needs_fill_probe(StrokeAlignment::Inside, None, false));
    assert_eq!(resolve(StrokeAlignment::Inside, None, false, None).side, StrokeSide::Right);
    assert_eq!(resolve(StrokeAlignment::Outside, None, false, None).side, StrokeSide::Left);
    assert_eq!(
        resolve(StrokeAlignment::Inside, Some(StrokeSide::Left), false, None).side,
        StrokeSide::Left
    );
}

#[test]
fn centered_needs_no_probe() {
    assert!(!needs_fill_probe(StrokeAlignment::Center, None, true));
    assert!(!needs_fill_probe(StrokeAlignment::Inside, Some(StrokeSide::Center), true));
    assert!(needs_fill_probe(StrokeAlignment::Center, Some(StrokeSide::Right), true));
    let r = resolve(StrokeAlignment::Center, None, true, None);
    assert_eq!(r.side, StrokeSide::Center);
    assert_eq!(r.fill_side, None);
    assert!(wants_one_sided(StrokeAlignment::Outside, None));
    assert!(!wants_one_sided(StrokeAlignment::Outside, Some(StrokeSide::Center)));
}

#[test]
fn explicit_side_on_closed_contour_keeps_fill_side() {
    let r = resolve(StrokeAlignment::Center, Some(StrokeSide::Left), true, Some(StrokeSide::Right));
    assert_eq!(r.side, StrokeSide::Left);
    assert_eq!(r.fill_side, Some(StrokeSide::Right));
}

#[test]
fn width_split_by_side() {
    assert_eq!(side_halves(StrokeSide::Center), (1, 1));
    assert_eq!(side_halves(StrokeSide::Right), (0, 2));
    assert_eq!(side_halves(StrokeSide::Left), (2, 0));
}
