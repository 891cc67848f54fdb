use libgibson::cell::{Cell, Style};
use libgibson::diff::compute_diff;
use libgibson::surface::Surface;

#[test]
fn test_identical_surfaces_empty_diff() {
    let mut s1 = Surface::new(10, 2);
    s1.print_str(0, 0, "hello", Style::default(), None);
    let s2 = s1.clone();

    let diff = compute_diff(Some(&s1), &s2);
    assert!(diff.is_empty());
    assert_eq!(diff.patches.len(), 0);
    assert_eq!(diff.rows_to_clear, 0);
}

#[test]
fn test_single_cell_diff() {
    let mut s1 = Surface::new(10, 2);
    s1.print_str(0, 0, "hello", Style::default(), None);

    let mut s2 = s1.clone();
    s2.print_str(1, 0, "a", Style::default(), None); // "hallo"

    let diff = compute_diff(Some(&s1), &s2);
    assert!(!diff.is_empty());
    assert_eq!(diff.patches.len(), 1);
    let patch = &diff.patches[0];
    assert_eq!(patch.y, 0);
    assert_eq!(patch.runs.len(), 1);
    assert_eq!(patch.runs[0].x, 1);
    assert_eq!(patch.runs[0].cells.len(), 1);
    assert_eq!(patch.runs[0].cells[0].glyph.grapheme.as_str(), "a");
}

#[test]
fn test_erase_to_eol_when_text_shrinks() {
    let mut s1 = Surface::new(20, 2);
    s1.print_str(0, 0, "hello world 12345", Style::default(), None);

    let mut s2 = Surface::new(20, 2);
    s2.print_str(0, 0, "hello", Style::default(), None);

    let diff = compute_diff(Some(&s1), &s2);
    assert_eq!(diff.patches.len(), 1);
    let patch = &diff.patches[0];
    assert_eq!(patch.erase_eol_from, Some(5));
}

#[test]
fn test_height_shrink_clears_rows() {
    let s1 = Surface::new(10, 5);
    let s2 = Surface::new(10, 2);

    let diff = compute_diff(Some(&s1), &s2);
    assert_eq!(diff.rows_to_clear, 3);
}

// -----------------------------------------------------------------------
// Logical damage accounting (erase-to-EOL + cleared rows).
// -----------------------------------------------------------------------

#[test]
fn logical_damage_counts_erase_to_eol_cells() {
    let mut s1 = Surface::new(20, 1);
    s1.print_str(0, 0, "HELLO WORLD", Style::default(), None);
    let s2 = Surface::new(20, 1);

    let diff = compute_diff(Some(&s1), &s2);
    // The erased region is columns 0..20 (the whole row).
    assert_eq!(diff.patches[0].erase_eol_from, Some(0));
    // Explicit runs may be empty; the logical count must still see the erase.
    assert_eq!(diff.explicit_dirty_count(), 0);
    assert_eq!(diff.logical_dirty_count(), 20);
    assert_eq!(diff.logical_dirty_cells().len(), 20);
}

#[test]
fn logical_damage_counts_shrinking_line_region() {
    let mut s1 = Surface::new(20, 1);
    s1.print_str(0, 0, "hello world 12345", Style::default(), None);
    let mut s2 = Surface::new(20, 1);
    s2.print_str(0, 0, "hello", Style::default(), None);

    let diff = compute_diff(Some(&s1), &s2);
    assert_eq!(diff.patches[0].erase_eol_from, Some(5));
    // Cells 5..20 are logically erased.
    assert_eq!(diff.logical_dirty_count(), 15);
    let cells = diff.logical_dirty_cells();
    assert!(cells.iter().all(|(_, y)| *y == 0));
    assert!(cells.iter().any(|(x, _)| *x == 5));
    assert!(cells.iter().any(|(x, _)| *x == 19));
    assert!(!cells.iter().any(|(x, _)| *x == 4));
}

#[test]
fn logical_damage_counts_cleared_trailing_rows() {
    let s1 = Surface::new(10, 5);
    let s2 = Surface::new(10, 2);
    let diff = compute_diff(Some(&s1), &s2);
    // Rows 2, 3, 4 cleared, each 10 columns wide.
    assert_eq!(diff.logical_dirty_count(), 30);
    let cells = diff.logical_dirty_cells();
    assert!(cells.iter().any(|(x, y)| *x == 9 && *y == 4));
    assert!(cells.iter().all(|(_, y)| *y >= 2));
}

#[test]
fn logical_damage_is_zero_for_identical_surfaces() {
    let mut s1 = Surface::new(12, 3);
    s1.print_str(0, 0, "stable", Style::default(), None);
    let s2 = s1.clone();
    let diff = compute_diff(Some(&s1), &s2);
    assert_eq!(diff.logical_dirty_count(), 0);
    assert!(diff.logical_dirty_cells().is_empty());
}

#[test]
fn logical_damage_superset_of_explicit_runs() {
    let mut s1 = Surface::new(30, 2);
    s1.print_str(0, 0, "AAAA", Style::default(), None);
    s1.print_str(0, 1, "long second row of text", Style::default(), None);
    let mut s2 = Surface::new(30, 2);
    s2.print_str(0, 0, "ABBB", Style::default(), None);
    s2.print_str(0, 1, "short", Style::default(), None);
    let diff = compute_diff(Some(&s1), &s2);
    assert!(diff.logical_dirty_count() >= diff.explicit_dirty_count());
    // Explicit runs are a strict subset here (row 1 shrank to a CSI K).
    assert!(diff.logical_dirty_count() > diff.explicit_dirty_count());
}

// -----------------------------------------------------------------------
// Exact semantic delta vs affected footprint.
// -----------------------------------------------------------------------

#[test]
fn affected_footprint_counts_already_blank_cells_but_exact_does_not() {
    // prev: "HELLO WORLD" then blanks; next: all blanks addressed by CSI K.
    let mut s1 = Surface::new(20, 1);
    s1.print_str(0, 0, "HELLO WORLD", Style::default(), None);
    let s2 = Surface::new(20, 1);
    let diff = compute_diff(Some(&s1), &s2);
    // Affected = every addressed cell (the whole row).
    assert_eq!(diff.affected_cell_count(), 20);
    assert_eq!(diff.logical_dirty_count(), 20);
    // Exact = only the 10 non-blank glyph cells (the space between the words
    // is already blank and did not change).
    assert_eq!(diff.exact_changed_cell_count(), 10);
    assert!(diff.exact_changed_cell_count() < diff.affected_cell_count());
}

#[test]
fn exact_delta_is_zero_for_identical_surfaces_and_changed_counts_differ() {
    let mut s1 = Surface::new(12, 3);
    s1.print_str(0, 0, "stable", Style::default(), None);
    let s2 = s1.clone();
    let diff = compute_diff(Some(&s1), &s2);
    assert_eq!(diff.exact_changed_cell_count(), 0);
    assert_eq!(diff.affected_cell_count(), 0);

    let mut s3 = s1.clone();
    s3.print_str(1, 0, "X", Style::default(), None);
    let d3 = compute_diff(Some(&s1), &s3);
    assert_eq!(d3.exact_changed_cell_count(), 1);
    assert_eq!(d3.affected_cell_count(), 1);
}

#[test]
fn affected_footprint_may_exceed_removed_surface_area() {
    // Shrinking height addresses cleared trailing rows, so the affected count
    // can exceed the live (next) area. That is why it is shown as a count.
    let mut s1 = Surface::new(10, 5);
    for y in 0..5 {
        s1.print_str(0, y, "XXXXXXXXXX", Style::default(), None);
    }
    let s2 = Surface::new(10, 2);
    let diff = compute_diff(Some(&s1), &s2);
    let next_area = 10 * 2;
    assert!(
        diff.affected_cell_count() > next_area,
        "affected {} should exceed live area {} (removed rows)",
        diff.affected_cell_count(),
        next_area
    );
    // exact counts every non-blank cell that vanished: 20 on the surviving
    // blanked rows + 30 on the removed rows.
    assert_eq!(diff.exact_changed_cell_count(), 50);
    // A true state delta never exceeds the union area (prev ∪ next = 50 here).
    assert!(diff.exact_changed_cell_count() <= 10 * 5);
}

#[test]
fn exact_delta_matches_cell_by_cell_comparison() {
    // Property: the count equals a direct prev/next cell comparison, treating
    // absent cells as blank.
    let mut prev = Surface::new(8, 3);
    prev.print_str(0, 0, "hello", Style::default(), None);
    prev.print_str(1, 2, "xyz", Style::default(), None);
    let mut next = Surface::new(8, 3);
    next.print_str(0, 0, "heLLo", Style::default(), None);

    let diff = compute_diff(Some(&prev), &next);
    let mut direct = 0usize;
    for y in 0..3 {
        for x in 0..8 {
            let p = prev.get(x, y).unwrap();
            let n = next.get(x, y).unwrap();
            let blank = |c: &Cell| {
                let g = c.glyph.grapheme.as_str();
                (g.is_empty() || g == " ") && c.style.is_default()
            };
            let changed = match (blank(p), blank(n)) {
                (true, true) => false,
                (true, false) => true,
                (false, true) => true,
                (false, false) => p != n,
            };
            if changed {
                direct += 1;
            }
        }
    }
    assert_eq!(diff.exact_changed_cell_count(), direct);
}
