use kurbo_se::stitch::{stitch_pieces, Chain, Reach};

fn touching(_: usize, _: usize) -> Reach {
    Reach::Touching
}

fn walk(owner: &[Option<usize>], near: &[&[usize]], gap: impl Fn(usize, usize) -> Reach) -> Vec<Chain> {
    let owner = owner.to_vec();
    let near: Vec<Vec<usize>> = near.iter().map(|n| n.to_vec()).collect();
    stitch_pieces(&owner, &near, &gap)
}

fn pieces(chains: &[Chain]) -> Vec<Vec<usize>> {
    chains.iter().map(|c| c.pieces.clone()).collect()
}

#[test]
fn closed_ring_is_one_loop() {
    let chains = walk(&[Some(0); 3], &[&[1], &[2], &[0]], touching);
    assert_eq!(pieces(&chains), vec![vec![0, 1, 2]]);
    assert_eq!(chains[0].bridged, vec![false, false, false]);
}

#[test]
fn continuation_prefers_lowest_index_on_any_contour() {
    // Piece 0 ends where both 3 (another contour) and 1 start: 1 wins.
    let chains = walk(
        &[Some(0), Some(0), Some(1), Some(1)],
        &[&[3, 1], &[0], &[3], &[2]],
        touching,
    );
    assert_eq!(pieces(&chains), vec![vec![0, 1], vec![2, 3]]);
}

#[test]
fn crossing_contours_merge() {
    // 0 hands over to contour 1 at an intersection and comes back.
    let chains = walk(
        &[Some(0), Some(0), Some(1), Some(1)],
        &[&[3], &[0], &[1], &[2]],
        touching,
    );
    assert_eq!(pieces(&chains), vec![vec![0, 3, 2, 1]]);
}

#[test]
fn dropped_pieces_are_skipped_and_bridged() {
    // Piece 1 was dropped (a bevel chord): 0 bridges to 2.
    let gap = |a: usize, b: usize| if (a, b) == (0, 2) { Reach::Bridge } else { Reach::Touching };
    let chains = walk(&[Some(0), None, Some(0)], &[&[], &[], &[0]], gap);
    assert_eq!(pieces(&chains), vec![vec![0, 2]]);
    assert_eq!(chains[0].bridged, vec![false, true]);
}

#[test]
fn bridge_wraps_around_the_contour() {
    // The last piece of contour 0 falls back to its first unwalked piece.
    let gap = |a: usize, b: usize| if (a, b) == (2, 1) { Reach::Bridge } else { Reach::Touching };
    let chains = walk(&[Some(0), Some(0), Some(0)], &[&[2], &[], &[]], gap);
    assert_eq!(pieces(&chains), vec![vec![0, 2, 1]]);
    assert_eq!(chains[0].bridged, vec![false, false, true]);
}

#[test]
fn too_far_leaves_the_hole() {
    let gap = |a: usize, b: usize| if (a, b) == (0, 2) { Reach::TooFar } else { Reach::Touching };
    let chains = walk(&[Some(0), None, Some(0)], &[&[], &[], &[0]], gap);
    assert_eq!(pieces(&chains), vec![vec![0], vec![2]]);
}

#[test]
fn lone_pieces_do_not_bridge() {
    let chains = walk(&[Some(0), Some(1)], &[&[], &[]], touching);
    assert_eq!(pieces(&chains), vec![vec![0], vec![1]]);
}

#[test]
fn near_entries_out_of_range_or_dropped_are_ignored() {
    let chains = walk(&[Some(0), None, Some(0)], &[&[9, 1, 2], &[], &[0]], touching);
    assert_eq!(pieces(&chains), vec![vec![0, 2]]);
}

#[test]
fn every_survivor_walked_once() {
    let owner = [Some(0), None, Some(1), Some(0), Some(1), None, Some(0)];
    let chains = walk(&owner, &[&[4], &[], &[3], &[], &[6], &[], &[0]], touching);
    let mut seen: Vec<usize> = pieces(&chains).concat();
    seen.sort();
    assert_eq!(seen, vec![0, 2, 3, 4, 6]);
}

#[test]
fn nothing_survives_nothing_walked() {
    let chains = walk(&[None, None], &[&[1], &[0]], touching);
    assert!(chains.is_empty());
}
