use k2g::stitching::{
    bbox_nm, close_enough, dist_sq, nest_contours, nm, offset_delta_nm, shape_to_fragment, signed_area_nm2,
    open_chain_message, split_offsets, stitch_fragments, BoardEdgeShape, BoardPoint, Contour, Fragment, OpenChain,
};

/// The messages of open chains, the gap formatted as the stitching service formats it.
fn messages(chains: &[OpenChain]) -> Vec<String> {
    chains
        .iter()
        .map(|c| open_chain_message(c, &format!("{:.1}", (c.gap_sq_nm2 as f64).sqrt() / 1_000.0)))
        .collect()
}

const CM: i64 = 10_000_000;

fn pt(x: i64, y: i64) -> BoardPoint {
    BoardPoint { x_nm: x, y_nm: y }
}

fn segment(label: &str, a: (i64, i64), b: (i64, i64)) -> Fragment {
    Fragment { points: vec![a, b], is_closed: false, label: label.to_string() }
}

fn square(x0: i64, y0: i64, side: i64) -> Vec<(i64, i64)> {
    vec![(x0, y0), (x0 + side, y0), (x0 + side, y0 + side), (x0, y0 + side)]
}

#[test]
fn a_board_point_is_its_nanometre_pair() {
    assert_eq!(nm(&pt(-5, 7)), (-5, 7));
}

#[test]
fn squared_distances_are_exact_and_saturate() {
    assert_eq!(dist_sq((0, 0), (3, 4)), 25);
    assert_eq!(dist_sq((-3, -4), (0, 0)), 25);
    assert_eq!(dist_sq((0, 0), (3_037_000_500, 0)), i64::MAX);
    assert_eq!(dist_sq((0, 0), (3_037_000_499, 0)), 3_037_000_499i64 * 3_037_000_499);
}

#[test]
fn endpoints_within_ten_micrometres_coincide() {
    assert!(close_enough((0, 0), (10_000, 0)));
    assert!(close_enough((0, 0), (6_000, 8_000)));
    assert!(!close_enough((0, 0), (10_001, 0)));
    assert!(!close_enough((0, 0), (7_072, 7_072)));
}

#[test]
fn the_bounding_box_of_nothing_is_empty() {
    assert_eq!(bbox_nm(&[]), (i64::MAX, i64::MAX, i64::MIN, i64::MIN));
    assert_eq!(bbox_nm(&[(3, -1), (-2, 5), (0, 0)]), (-2, -1, 3, 5));
}

#[test]
fn the_shoelace_area_is_signed_and_halved_toward_zero() {
    assert_eq!(signed_area_nm2(&[(0, 0), (10, 0), (10, 10), (0, 10)]), 100);
    assert_eq!(signed_area_nm2(&[(0, 10), (10, 10), (10, 0), (0, 0)]), -100);
    assert_eq!(signed_area_nm2(&[(0, 0), (3, 0), (0, 1)]), 1);
    assert_eq!(signed_area_nm2(&[(0, 0), (0, 1), (3, 0)]), -1);
    assert_eq!(signed_area_nm2(&[]), 0);
}

#[test]
fn straight_shapes_become_two_point_fragments() {
    let track = BoardEdgeShape::Track { id: Some("e1".to_string()), start: pt(0, 0), end: pt(5, 5) };
    let f = shape_to_fragment(&track, 3, &vec![]).unwrap();
    assert_eq!(f.points, vec![(0, 0), (5, 5)]);
    assert!(!f.is_closed);
    assert_eq!(f.label, "e1");

    let seg = BoardEdgeShape::GraphicSegment { id: None, start: pt(1, 2), end: pt(3, 4) };
    let f = shape_to_fragment(&seg, 7, &vec![]).unwrap();
    assert_eq!(f.points, vec![(1, 2), (3, 4)]);
    assert_eq!(f.label, "shape#7");
}

#[test]
fn curves_take_their_flattened_points_and_end() {
    let arc = BoardEdgeShape::Arc { id: None, start: pt(0, 0), mid: pt(5, 5), end: pt(10, 0) };
    let f = shape_to_fragment(&arc, 0, &vec![(0, 0), (5, 5)]).unwrap();
    assert_eq!(f.points, vec![(0, 0), (5, 5), (10, 0)]);
    assert!(!f.is_closed);
    assert!(shape_to_fragment(&arc, 0, &vec![]).is_none(), "a single point is no fragment");

    let circle = BoardEdgeShape::GraphicCircle { id: None, center: pt(0, 0), radius_point: pt(5, 0) };
    let f = shape_to_fragment(&circle, 1, &vec![(5, 0), (0, 5), (-5, 0), (0, -5)]).unwrap();
    assert!(f.is_closed);
    assert_eq!(f.points.len(), 4);

    let polygon = BoardEdgeShape::GraphicPolygon { id: Some("p".to_string()), point_count: 6 };
    assert!(shape_to_fragment(&polygon, 2, &vec![(1, 1)]).is_none());
}

#[test]
fn four_scrambled_sides_stitch_into_one_closed_square() {
    let fragments = vec![
        segment("bottom", (0, 0), (CM, 0)),
        segment("right", (CM, CM), (CM, 0)),
        segment("top", (0, CM), (CM, CM)),
        segment("left", (0, 0), (0, CM)),
    ];
    let (closed, warnings) = stitch_fragments(fragments);
    assert!(warnings.is_empty(), "{:?}", messages(&warnings));
    assert_eq!(closed, vec![vec![(0, 0), (CM, 0), (CM, CM), (0, CM), (0, 0)]]);
}

#[test]
fn gaps_within_tolerance_still_close() {
    let fragments = vec![
        segment("a", (0, 0), (CM, 0)),
        segment("b", (CM + 5_000, 3_000), (CM, CM)),
        segment("c", (CM, CM), (4_000, -2_000)),
    ];
    let (closed, warnings) = stitch_fragments(fragments);
    assert!(warnings.is_empty());
    assert_eq!(closed.len(), 1);
    assert_eq!(closed[0], vec![(0, 0), (CM, 0), (CM, CM), (4_000, -2_000)]);
}

#[test]
fn a_chain_that_does_not_close_is_reported_with_its_gap() {
    let fragments = vec![segment("a", (0, 0), (CM, 0)), segment("b", (CM, 0), (CM, CM))];
    let (closed, warnings) = stitch_fragments(fragments);
    assert!(closed.is_empty());
    assert_eq!(messages(&warnings), vec!["open chain starting at fragment 'a' (3pts, gap 14142.1µm)".to_string()]);
}

#[test]
fn self_closing_fragments_pass_through_first() {
    let circle = Fragment { points: square(0, 0, CM), is_closed: true, label: "c".to_string() };
    let fragments = vec![
        segment("a", (0, 0), (CM, 0)),
        circle,
        segment("b", (CM, 0), (0, CM)),
        segment("d", (0, CM), (0, 0)),
    ];
    let (closed, warnings) = stitch_fragments(fragments);
    assert!(warnings.is_empty());
    assert_eq!(closed.len(), 2);
    assert_eq!(closed[0], square(0, 0, CM));
    assert_eq!(closed[1], vec![(0, 0), (CM, 0), (0, CM), (0, 0)]);
}

#[test]
fn a_stray_segment_is_an_open_contour() {
    let (closed, warnings) = stitch_fragments(vec![segment("stray", (0, 0), (CM, 0))]);
    assert!(closed.is_empty());
    assert_eq!(messages(&warnings), vec!["open chain starting at fragment 'stray' (2pts, gap 10000.0µm)".to_string()]);
}

#[test]
fn a_degenerate_closed_chain_is_neither_kept_nor_reported() {
    let (closed, warnings) = stitch_fragments(vec![segment("dot", (0, 0), (3, 4))]);
    assert!(closed.is_empty());
    assert!(warnings.is_empty());
}

fn contour_points(c: &Contour) -> Vec<(i64, i64)> {
    c.points.clone()
}

#[test]
fn contours_are_ordered_outer_first_and_larger_first() {
    let small_outer = square(5 * CM, 0, CM);
    let big_outer = square(0, 0, 4 * CM);
    let hole = square(CM, CM, CM);
    let result = nest_contours(
        vec![hole.clone(), small_outer.clone(), big_outer.clone()],
        vec![1, 0, 0],
        vec![String::new(); 3],
        vec![],
    );
    assert!(result.errors.is_empty());
    let order: Vec<Vec<(i64, i64)>> = result.contours.iter().map(contour_points).collect();
    assert_eq!(order, vec![big_outer, small_outer, hole]);
    let holes: Vec<bool> = result.contours.iter().map(|c| c.is_hole).collect();
    assert_eq!(holes, vec![false, false, true]);
}

#[test]
fn equal_keys_keep_their_order() {
    let a = square(0, 0, CM);
    let b = square(2 * CM, 0, CM);
    let result = nest_contours(vec![a.clone(), b.clone()], vec![0, 0], vec![String::new(); 2], vec![]);
    assert_eq!(result.contours[0].points, a);
    assert_eq!(result.contours[1].points, b);
}

#[test]
fn a_floating_island_and_an_open_contour_are_errors() {
    let outer = square(0, 0, 10_000_000);
    let hole = square(1_000_000, 1_000_000, 5_000_000);
    let island = square(2_000_000, 2_000_000, 1_000_000);
    let result = nest_contours(
        vec![island, outer, hole],
        vec![2, 0, 1],
        vec!["(2.000,2.000)-(3.000,3.000)".to_string(), String::new(), String::new()],
        vec!["open chain starting at fragment 'x' (3pts, gap 1.0µm)".to_string()],
    );
    assert_eq!(
        result.errors,
        vec![
            "Open contour: open chain starting at fragment 'x' (3pts, gap 1.0µm)".to_string(),
            "Floating island at depth 2 (contour inside a hole) — bbox (2.000,2.000)-(3.000,3.000) mm".to_string(),
        ]
    );
    assert_eq!(result.contours.len(), 3);
    assert!(!result.contours[2].is_hole, "depth two is even: an island, not a hole");
}

#[test]
fn an_island_is_described_by_the_bounding_box_text_it_is_given() {
    let island = vec![(-1_500, -400), (2_499, 0), (0, 1_234_567)];
    let result = nest_contours(vec![island], vec![3], vec!["(-0.002,-0.000)-(0.002,1.235)".to_string()], vec![]);
    assert_eq!(
        result.errors,
        vec!["Floating island at depth 3 (contour inside a hole) — bbox (-0.002,-0.000)-(0.002,1.235) mm".to_string()]
    );
    assert!(result.contours[0].is_hole);
}

#[test]
fn an_open_chain_is_named_after_the_fragment_it_starts_from() {
    let fragments = vec![
        segment("a", (0, 0), (CM, 0)),
        segment("b", (CM, 0), (CM, CM)),
        segment("c", (CM, CM), (0, 0)),
        segment("d", (5 * CM, 0), (6 * CM, 0)),
        segment("e", (6 * CM, 0), (6 * CM, CM)),
    ];
    let (closed, open) = stitch_fragments(fragments);
    assert_eq!(closed.len(), 1);
    assert_eq!(open.len(), 1);
    assert_eq!(open[0].label, "d");
    assert_eq!(open[0].points, 3);
    assert_eq!(open[0].gap_sq_nm2, 2 * CM * CM);
}

#[test]
fn the_gap_is_shown_as_the_caller_formats_it() {
    let chain = OpenChain { label: "x".to_string(), points: 4, gap_sq_nm2: 0 };
    assert_eq!(open_chain_message(&chain, "1.1"), "open chain starting at fragment 'x' (4pts, gap 1.1µm)");
}

#[test]
fn without_closed_contours_only_the_open_ones_are_reported() {
    let result = nest_contours(vec![], vec![], vec![], vec!["w".to_string()]);
    assert!(result.contours.is_empty());
    assert_eq!(result.errors, vec!["Open contour: w".to_string()]);
}

#[test]
fn offset_paths_are_sorted_by_the_contour_they_came_from() {
    let outer = Contour { points: square(0, 0, CM), is_hole: false };
    let hole = Contour { points: square(CM / 4, CM / 4, CM / 2), is_hole: true };
    let empty = Contour { points: vec![], is_hole: false };

    let contours = vec![outer, hole, empty];
    let offsets = vec![vec![vec![(1, 1)], vec![(2, 2)]], vec![vec![(3, 3)]], vec![vec![(9, 9)]]];
    let (outer_paths, hole_paths) = split_offsets(&contours, offsets);
    assert_eq!(outer_paths, vec![vec![(1, 1)], vec![(2, 2)]]);
    assert_eq!(hole_paths, vec![vec![(3, 3)]]);
}

#[test]
fn a_hole_is_offset_outward_and_an_outline_inward() {
    let hole = Contour { points: square(0, 0, CM), is_hole: true };
    let outer = Contour { points: square(0, 0, CM), is_hole: false };
    assert_eq!(offset_delta_nm(&hole, 500_000), 500_000);
    assert_eq!(offset_delta_nm(&outer, 500_000), -500_000);
}
