use vger::contour::{contours, Verb};
use vger::winding::contour_edges;

use Verb::{Close, CurveTo, LineTo, MoveTo, QuadTo};

#[test]
fn two_closed_squares_make_two_contours_of_four_points() {
    let verbs = [MoveTo, LineTo, LineTo, LineTo, Close, MoveTo, LineTo, LineTo, LineTo, Close];
    assert_eq!(contours(&verbs), vec![0..4, 4..8]);
}

#[test]
fn an_empty_path_has_no_contour() {
    assert_eq!(contours(&[]), Vec::<std::ops::Range<usize>>::new());
    assert_eq!(contours(&[Close, Close]), Vec::<std::ops::Range<usize>>::new());
}

#[test]
fn a_contour_left_open_ends_with_the_path() {
    assert_eq!(contours(&[MoveTo, LineTo, LineTo]), vec![0..3]);
    assert_eq!(contours(&[MoveTo, LineTo, Close, MoveTo, QuadTo]), vec![0..2, 2..5]);
}

#[test]
fn curves_take_two_and_three_points() {
    assert_eq!(contours(&[MoveTo, QuadTo, CurveTo, Close]), vec![0..6]);
    assert_eq!(contours(&[MoveTo, CurveTo, MoveTo, QuadTo]), vec![0..4, 4..7]);
}

#[test]
fn a_move_after_a_move_keeps_the_lone_point() {
    assert_eq!(contours(&[MoveTo, MoveTo, Close, Close]), vec![0..1, 1..2]);
}

#[test]
fn a_path_without_a_move_starts_at_the_first_point() {
    assert_eq!(contours(&[LineTo, LineTo]), vec![0..2]);
    assert_eq!(contours(&[LineTo, Close, LineTo]), vec![0..1, 1..2]);
}

#[test]
fn contours_cover_every_point_once() {
    let verbs = [MoveTo, LineTo, QuadTo, Close, Close, MoveTo, CurveTo, MoveTo, LineTo];
    let ranges = contours(&verbs);
    assert_eq!(ranges, vec![0..4, 4..8, 8..10]);
    let mut next = 0;
    for r in &ranges {
        assert_eq!(r.start, next);
        assert!(r.start < r.end);
        next = r.end;
    }
    assert_eq!(next, 10);
}

#[test]
fn each_contour_is_closed_on_its_own_first_point() {
    let edges = contour_edges(&[0..3, 3..5]);
    assert_eq!(edges, vec![(2, 0), (0, 1), (1, 2), (4, 3), (3, 4)]);
}

#[test]
fn a_lone_point_closes_on_itself() {
    assert_eq!(contour_edges(&[0..1, 1..4]), vec![(0, 0), (3, 1), (1, 2), (2, 3)]);
    assert_eq!(contour_edges(&[]), Vec::<(usize, usize)>::new());
}

#[test]
fn no_edge_bridges_two_contours() {
    let verbs = [MoveTo, LineTo, LineTo, LineTo, Close, MoveTo, LineTo, LineTo, LineTo, Close];
    let ranges = contours(&verbs);
    let edges = contour_edges(&ranges);
    assert_eq!(edges.len(), 8);
    for (a, b) in edges {
        assert!(ranges.iter().any(|r| r.contains(&a) && r.contains(&b)));
    }
}

#[test]
fn two_paths_joined_keep_their_contours() {
    let a = [MoveTo, LineTo, QuadTo, Close];
    let b = [MoveTo, CurveTo, MoveTo, LineTo];
    let joined = contours(&[&a[..], &b[..]].concat());
    let total = 4;
    let mut expected = contours(&a);
    expected.extend(contours(&b).into_iter().map(|r| r.start + total..r.end + total));
    assert_eq!(joined, expected);
    assert_eq!(joined, vec![0..4, 4..8, 8..10]);
}

#[test]
fn contours_start_where_a_move_or_close_falls() {
    let verbs = [LineTo, MoveTo, QuadTo, Close, Close, MoveTo, LineTo];
    // Points before each MoveTo or Close: 1, 4, 4, 4; the path ends at 6.
    let starts: Vec<usize> = contours(&verbs).iter().map(|r| r.start).collect();
    assert_eq!(starts, vec![0, 1, 4]);
}

#[test]
fn a_path_of_curves_holds_three_points_per_verb() {
    let verbs = [CurveTo, CurveTo, CurveTo];
    assert_eq!(contours(&verbs), vec![0..9]);
}
