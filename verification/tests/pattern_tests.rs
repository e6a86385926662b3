use hide_qr::pattern::compute_alignment_positions;
use hide_qr::pattern::get_potential_alignment_positions;
use hide_qr::pattern::is_finder_pattern;
use hide_qr::pattern::is_length_or_mode_pattern;
use hide_qr::pattern::is_timing_pattern;
use hide_qr::pattern::module_can_be_overwritten;
use hide_qr::zigzag::zigzag_coordinates;

#[test]
fn version_one_has_no_alignment_positions() {
    assert_eq!(get_potential_alignment_positions(1), Vec::<i32>::new());
    assert_eq!(compute_alignment_positions(1, 21), Vec::<(i32, i32)>::new());
}

#[test]
fn version_two_has_single_center_at_18_18() {
    assert_eq!(get_potential_alignment_positions(2), vec![6, 18]);
    let centers = compute_alignment_positions(2, 25);
    assert_eq!(centers, vec![(18, 18)]);
    assert!(!is_finder_pattern(25, 18, 18));
}

#[test]
fn version_seven_candidates_follow_formula() {
    // interval 2, distance 32, step 16: 6, 22, 38.
    assert_eq!(get_potential_alignment_positions(7), vec![6, 22, 38]);
}

#[test]
fn classifier_marks_known_regions() {
    assert!(is_timing_pattern(6, 14));
    assert!(is_timing_pattern(14, 6));
    assert!(!is_timing_pattern(5, 5));
    assert!(is_finder_pattern(21, 0, 0));
    assert!(is_finder_pattern(21, 0, 20));
    assert!(is_finder_pattern(21, 20, 0));
    assert!(!is_finder_pattern(21, 20, 20));
    assert!(is_length_or_mode_pattern(21, 20, 20));
    assert!(is_length_or_mode_pattern(21, 19, 15));
    assert!(!is_length_or_mode_pattern(21, 18, 20));
}

#[test]
fn zigzag_coordinates_are_writable_and_distinct() {
    let aligns = compute_alignment_positions(2, 25);
    let coords = zigzag_coordinates(25, &aligns);
    assert!(!coords.is_empty());
    for &(x, y) in &coords {
        assert!(x < 25 && y < 25);
        assert!(module_can_be_overwritten(25, &aligns, x, y));
    }
    for i in 0..coords.len() {
        for j in (i + 1)..coords.len() {
            assert_ne!(coords[i], coords[j]);
        }
    }
}

#[test]
fn zigzag_starts_at_bottom_right_outside_header() {
    // Size 21: the rightmost column pair is scanned upward from the
    // bottom; the six reserved header rows are skipped, so the first
    // writable coordinate is (20, 14).
    let aligns = compute_alignment_positions(1, 21);
    let coords = zigzag_coordinates(21, &aligns);
    assert_eq!(coords[0], (20, 14));
    assert_eq!(coords[1], (19, 14));
}

#[test]
fn version_seven_centers_drop_finder_overlaps() {
    // Candidates {6, 22, 38} give nine cross-product pairs; the three
    // corners that overlap finder patterns are dropped.
    let centers = compute_alignment_positions(7, 45);
    assert_eq!(centers.len(), 6);
    assert!(!centers.contains(&(6, 6)));
    assert!(!centers.contains(&(6, 38)));
    assert!(!centers.contains(&(38, 6)));
    assert!(centers.contains(&(22, 22)));
    assert!(centers.contains(&(38, 38)));
}
