use kurbo_se::path::{
    canonicalize, drop_degenerate, end_point, extend_reversed, heal_start, is_closed, is_zero_length,
    reanchor_seam, splice_runs, start_point, subpath_end, subpath_ranges, PathEl,
};

type Pt = (f64, f64);

fn same(a: Pt, b: Pt) -> bool {
    a == b
}

fn degenerate(from: Pt, el: PathEl<Pt>) -> bool {
    match el {
        PathEl::LineTo(p) => p == from,
        PathEl::QuadTo(p1, p2) => p1 == from && p2 == from,
        PathEl::CurveTo(p1, p2, p3) => p1 == from && p2 == from && p3 == from,
        _ => false,
    }
}

/// Canonicalize and drop degenerate segments, as the stroker does.
fn canon(els: &[PathEl<Pt>]) -> Vec<PathEl<Pt>> {
    let c = canonicalize(&els.to_vec());
    drop_degenerate(&c, &degenerate)
}

#[test]
fn inserts_moveto_after_close() {
    let els = canon(&[
        PathEl::MoveTo((1.0, 2.0)),
        PathEl::LineTo((3.0, 2.0)),
        PathEl::ClosePath,
        PathEl::LineTo((5.0, 5.0)),
    ]);
    assert_eq!(
        els,
        [
            PathEl::MoveTo((1.0, 2.0)),
            PathEl::LineTo((3.0, 2.0)),
            PathEl::ClosePath,
            PathEl::MoveTo((1.0, 2.0)),
            PathEl::LineTo((5.0, 5.0)),
        ]
    );
}

#[test]
fn double_close_becomes_degenerate_subpath() {
    let els = canon(&[
        PathEl::MoveTo((1.0, 2.0)),
        PathEl::LineTo((3.0, 2.0)),
        PathEl::ClosePath,
        PathEl::ClosePath,
    ]);
    assert_eq!(
        els,
        [
            PathEl::MoveTo((1.0, 2.0)),
            PathEl::LineTo((3.0, 2.0)),
            PathEl::ClosePath,
            PathEl::MoveTo((1.0, 2.0)),
            PathEl::ClosePath,
        ]
    );
}

#[test]
fn leading_lineto_becomes_moveto() {
    let els = canon(&[PathEl::LineTo((3.0, 2.0)), PathEl::LineTo((4.0, 2.0))]);
    assert_eq!(els, [PathEl::MoveTo((3.0, 2.0)), PathEl::LineTo((4.0, 2.0))]);
}

#[test]
fn subpath_split_and_classify() {
    let els = canon(&[
        PathEl::MoveTo((0.0, 0.0)),
        PathEl::LineTo((1.0, 0.0)),
        PathEl::ClosePath,
        PathEl::MoveTo((5.0, 5.0)),
        PathEl::LineTo((6.0, 5.0)),
        PathEl::MoveTo((9.0, 9.0)),
        PathEl::LineTo((9.0, 9.0)),
    ]);
    let subs: Vec<&[PathEl<Pt>]> = subpath_ranges(&els).iter().map(|&(a, b)| &els[a..b]).collect();
    assert_eq!(subs.len(), 3);
    assert!(is_closed(subs[0]) && !is_closed(subs[1]) && !is_closed(subs[2]));
    assert!(!is_zero_length(subs[0], &same) && !is_zero_length(subs[1], &same));
    assert!(is_zero_length(subs[2], &same));
    assert_eq!(subpath_end(subs[1]), Some((6.0, 5.0)));
}

#[test]
fn leading_close_is_dropped() {
    let els = canonicalize(&vec![PathEl::ClosePath, PathEl::MoveTo((1.0, 1.0)), PathEl::ClosePath]);
    assert_eq!(els, [PathEl::MoveTo((1.0, 1.0)), PathEl::ClosePath]);
}

#[test]
fn canonicalize_is_idempotent() {
    let raw = vec![
        PathEl::QuadTo((0.0, 1.0), (2.0, 2.0)),
        PathEl::ClosePath,
        PathEl::ClosePath,
        PathEl::CurveTo((1.0, 1.0), (2.0, 1.0), (3.0, 3.0)),
        PathEl::ClosePath,
        PathEl::LineTo((7.0, 7.0)),
    ];
    let once = canonicalize(&raw);
    let twice = canonicalize(&once);
    assert_eq!(once, twice);
    assert_eq!(
        once,
        vec![
            PathEl::MoveTo((2.0, 2.0)),
            PathEl::ClosePath,
            PathEl::MoveTo((2.0, 2.0)),
            PathEl::ClosePath,
            PathEl::MoveTo((2.0, 2.0)),
            PathEl::CurveTo((1.0, 1.0), (2.0, 1.0), (3.0, 3.0)),
            PathEl::ClosePath,
            PathEl::MoveTo((2.0, 2.0)),
            PathEl::LineTo((7.0, 7.0)),
        ]
    );
}

/// A degenerate element is judged from the last kept point.
#[test]
fn degenerate_segments_are_dropped() {
    let els = canon(&[
        PathEl::MoveTo((0.0, 0.0)),
        PathEl::LineTo((0.0, 0.0)),
        PathEl::CurveTo((0.0, 0.0), (0.0, 0.0), (0.0, 0.0)),
        PathEl::LineTo((4.0, 0.0)),
        PathEl::QuadTo((4.0, 0.0), (4.0, 0.0)),
        PathEl::ClosePath,
    ]);
    assert_eq!(
        els,
        [PathEl::MoveTo((0.0, 0.0)), PathEl::LineTo((4.0, 0.0)), PathEl::ClosePath]
    );
}

#[test]
fn ranges_tile_the_list() {
    let els = vec![
        PathEl::MoveTo((0.0, 0.0)),
        PathEl::LineTo((1.0, 0.0)),
        PathEl::MoveTo((2.0, 0.0)),
        PathEl::MoveTo((3.0, 0.0)),
        PathEl::LineTo((4.0, 0.0)),
        PathEl::ClosePath,
    ];
    assert_eq!(subpath_ranges(&els), vec![(0, 2), (2, 3), (3, 6)]);
    assert!(subpath_ranges::<Pt>(&vec![]).is_empty());
    assert_eq!(start_point(&els[3..6]), Some((3.0, 0.0)));
    assert_eq!(subpath_end(&els[3..6]), Some((3.0, 0.0)));
    assert_eq!(subpath_end(&els[2..3]), Some((2.0, 0.0)));
}

/// Reversing a run swaps cubic control points and re-targets each element
/// to its predecessor's end; reversing twice restores it.
#[test]
fn reversed_run_round_trips() {
    let run = vec![
        PathEl::MoveTo((0.0, 0.0)),
        PathEl::LineTo((1.0, 0.0)),
        PathEl::QuadTo((2.0, 1.0), (3.0, 0.0)),
        PathEl::CurveTo((4.0, 1.0), (5.0, 2.0), (6.0, 0.0)),
    ];
    let mut rev = vec![PathEl::MoveTo((6.0, 0.0))];
    extend_reversed(&mut rev, &run);
    assert_eq!(
        rev,
        vec![
            PathEl::MoveTo((6.0, 0.0)),
            PathEl::CurveTo((5.0, 2.0), (4.0, 1.0), (3.0, 0.0)),
            PathEl::QuadTo((2.0, 1.0), (1.0, 0.0)),
            PathEl::LineTo((0.0, 0.0)),
        ]
    );
    let mut back = vec![PathEl::MoveTo((0.0, 0.0))];
    extend_reversed(&mut back, &rev);
    assert_eq!(back, run);
}

#[test]
fn splice_drops_repeated_moveto() {
    let a = vec![PathEl::MoveTo((0.0, 0.0)), PathEl::LineTo((1.0, 0.0))];
    let b = vec![PathEl::MoveTo((1.0, 0.0)), PathEl::LineTo((1.0, 1.0))];
    let joined = splice_runs(&vec![a, b]);
    assert_eq!(
        joined,
        vec![PathEl::MoveTo((0.0, 0.0)), PathEl::LineTo((1.0, 0.0)), PathEl::LineTo((1.0, 1.0))]
    );
}

#[test]
fn seam_reanchors_at_clip_point() {
    let mut ring = vec![
        PathEl::MoveTo((0.0, 2.0)),
        PathEl::LineTo((8.0, 2.0)),
        PathEl::LineTo((8.0, 8.0)),
        PathEl::LineTo((2.0, 2.0)),
    ];
    reanchor_seam(&mut ring, &same);
    assert_eq!(ring[0], PathEl::MoveTo((2.0, 2.0)));
    let mut curve_first = vec![
        PathEl::MoveTo((0.0, 0.0)),
        PathEl::QuadTo((1.0, 1.0), (2.0, 0.0)),
        PathEl::LineTo((5.0, 5.0)),
    ];
    let before = curve_first.clone();
    reanchor_seam(&mut curve_first, &same);
    assert_eq!(curve_first, before);
}

#[test]
fn heal_connects_only_when_apart() {
    let mut side = vec![PathEl::MoveTo((0.0, 0.0)), PathEl::LineTo((1.0, 0.0))];
    heal_start(&mut side, &vec![PathEl::MoveTo((1.0, 0.0))], &same);
    assert_eq!(side.len(), 2);
    heal_start(&mut side, &vec![PathEl::MoveTo((1.0, 1.0))], &same);
    assert_eq!(side.last(), Some(&PathEl::LineTo((1.0, 1.0))));
}

#[test]
fn kept_drawing_elements_start_away_from_their_end() {
    let els: Vec<PathEl<i32>> = vec![
        PathEl::MoveTo(0),
        PathEl::LineTo(0),
        PathEl::LineTo(5),
        PathEl::QuadTo(7, 5),
        PathEl::CurveTo(1, 2, 3),
        PathEl::LineTo(3),
        PathEl::ClosePath,
        PathEl::MoveTo(9),
        PathEl::LineTo(9),
    ];
    let degenerate = |from: i32, el: PathEl<i32>| end_point(&el) == Some(from);
    let kept = drop_degenerate(&els, &degenerate);
    assert_eq!(
        kept,
        vec![
            PathEl::MoveTo(0),
            PathEl::LineTo(5),
            PathEl::CurveTo(1, 2, 3),
            PathEl::ClosePath,
            PathEl::MoveTo(9),
        ]
    );
    for t in 1..kept.len() {
        if !matches!(kept[t], PathEl::MoveTo(_) | PathEl::ClosePath) {
            let from = end_point(&kept[t - 1]).expect("a drawing element follows an on-curve point");
            assert!(!degenerate(from, kept[t]));
        }
    }
}
