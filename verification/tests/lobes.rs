use kurbo_se::lobes::{assemble_lobes, piece_closed};

fn check_partition(pieces: &[Vec<usize>], n: usize) {
    let mut seen = vec![false; n];
    for p in pieces {
        assert!(!p.is_empty());
        for w in p.windows(2) {
            assert!(w[0] < w[1]);
        }
        for &a in p {
            assert!(!seen[a]);
            seen[a] = true;
        }
    }
    assert!(seen.iter().all(|s| *s));
}

/// A bowtie crosses itself once. Cut there, the closed contour's arcs are
/// (after the seam merge) one arc from the crossing back to it through the
/// seam, and one arc through the other lobe: two lobes.
#[test]
fn bowtie_crossing_gives_two_lobes() {
    let pieces = assemble_lobes(&vec![Some(0), Some(0)], 1);
    assert_eq!(pieces, vec![vec![1], vec![0]]);
    check_partition(&pieces, 2);
}

/// An open curve with one loop: lead-in arc, the loop, the lead-out strand.
#[test]
fn cubic_loop_gives_loop_and_strand() {
    let pieces = assemble_lobes(&vec![Some(0), Some(0), None], 1);
    assert_eq!(pieces, vec![vec![1], vec![0, 2]]);
    check_partition(&pieces, 3);
    assert!(piece_closed(false, true, false));
    assert!(!piece_closed(true, true, false));
}

/// A figure-eight crossing at its center anchor (closed): two lobes.
#[test]
fn figure_eight_gives_two_lobes() {
    let pieces = assemble_lobes(&vec![Some(0), Some(0)], 1);
    assert_eq!(pieces.len(), 2);
    assert!(piece_closed(true, false, true));
}

/// Nested loops close innermost first.
#[test]
fn nested_crossings_close_inside_out() {
    // arcs: 0 ->c0, 1 ->c1, 2 ->c1, 3 ->c0, 4 -> end
    let pieces = assemble_lobes(&vec![Some(0), Some(1), Some(1), Some(0), None], 2);
    assert_eq!(pieces, vec![vec![2], vec![1, 3], vec![0, 4]]);
    check_partition(&pieces, 5);
}

/// Interleaved crossings (a pretzel) decompose only partially; every arc
/// still lands in exactly one piece.
#[test]
fn interleaved_crossings_still_partition() {
    // 0 ->c0, 1 ->c1, 2 ->c0, 3 ->c1, 4 -> end
    let pieces = assemble_lobes(&vec![Some(0), Some(1), Some(0), Some(1), None], 2);
    assert_eq!(pieces, vec![vec![1, 2], vec![0, 3, 4]]);
    check_partition(&pieces, 5);
}

#[test]
fn no_arcs_no_pieces() {
    assert!(assemble_lobes(&vec![], 0).is_empty());
    assert_eq!(assemble_lobes(&vec![None], 0), vec![vec![0]]);
}
