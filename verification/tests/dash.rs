use kurbo_se::dash::{
    dash_caps, dot_shape, effective_pattern, plan_dashes, wants_dots, DashEntry, DashPlan, DotShape,
};
use kurbo_se::Cap;

fn classify(pattern: &[f64]) -> (Vec<DashEntry>, bool) {
    let entries = pattern
        .iter()
        .map(|&d| {
            if !d.is_finite() || d < 0.0 {
                DashEntry::Unusable
            } else if d == 0.0 {
                DashEntry::Zero
            } else {
                DashEntry::Positive
            }
        })
        .collect();
    let sum: f64 = pattern.iter().sum();
    (entries, sum.is_finite())
}

fn sanitize(pattern: &[f64]) -> Option<DashPlan> {
    let (entries, sum_finite) = classify(pattern);
    plan_dashes(&entries, sum_finite)
}

#[test]
fn sanitize_rejects_bad_patterns() {
    assert!(sanitize(&[]).is_none());
    assert!(sanitize(&[0.0, 0.0]).is_none());
    assert!(sanitize(&[4.0, -2.0]).is_none());
    assert!(sanitize(&[4.0, f64::NAN]).is_none());
    assert!(sanitize(&[4.0, f64::INFINITY]).is_none());
    assert!(sanitize(&[4.0, 2.0]).is_some());
}

#[test]
fn detects_zero_dashes() {
    assert!(sanitize(&[0.0, 5.0]).unwrap().has_zero_dashes);
    assert!(!sanitize(&[5.0, 0.0]).unwrap().has_zero_dashes);
    // Odd-length: every entry takes both roles.
    assert!(sanitize(&[5.0, 5.0, 0.0]).unwrap().has_zero_dashes);
}

#[test]
fn overflowing_sum_renders_solid() {
    assert!(sanitize(&[f64::MAX, f64::MAX]).is_none());
}

#[test]
fn odd_pattern_doubles() {
    let p = sanitize(&[2.0, 7.0, 4.0]).unwrap();
    assert!(p.doubled);
    assert_eq!(p.effective_len, 6);
    assert_eq!(effective_pattern(&vec![2.0, 7.0, 4.0]), vec![2.0, 7.0, 4.0, 2.0, 7.0, 4.0]);
    assert_eq!(
        effective_pattern(&vec![2.0, 7.0, 4.0]),
        effective_pattern(&vec![2.0, 7.0, 4.0, 2.0, 7.0, 4.0])
    );
    assert_eq!(effective_pattern(&vec![2.0, 4.0, 6.0, 8.0]), vec![2.0, 4.0, 6.0, 8.0]);
}

#[test]
fn caps_of_dash_edges() {
    let (s, e) = dash_caps(false, false, true, false, Cap::Square, Cap::Square, Cap::Round);
    assert_eq!((s, e), (Cap::Square, Cap::Round));
    let (s, e) = dash_caps(false, true, true, true, Cap::Square, Cap::Square, Cap::Round);
    assert_eq!((s, e), (Cap::Round, Cap::Round));
    let (s, e) = dash_caps(true, true, false, false, Cap::Butt, Cap::Square, Cap::Round);
    assert_eq!((s, e), (Cap::Butt, Cap::Square));
}

#[test]
fn dots_for_zero_dashes() {
    assert!(wants_dots(true, Cap::Round));
    assert!(!wants_dots(true, Cap::Butt));
    assert!(!wants_dots(false, Cap::Round));
    assert_eq!(dot_shape(Cap::Round, false), Some(DotShape::Circle));
    assert_eq!(dot_shape(Cap::Square, true), Some(DotShape::Square));
    assert_eq!(dot_shape(Cap::Square, false), None);
    assert_eq!(dot_shape(Cap::Butt, true), None);
}
