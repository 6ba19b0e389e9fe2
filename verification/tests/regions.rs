use truck_shapeops::regions::{plan_split_regions, sort_outlines, LoopSummary};

fn lp(num_points: usize, area: i64) -> LoopSummary {
    // areas in units of the tolerance: |area| < 1 is negligible
    LoopSummary {
        num_points,
        negligible: area.abs() < 1,
        outer: area > 1,
        inner: area < -1,
        area_key: if area > 0 { area as u64 } else { 0 },
    }
}

fn plan(loops: &[LoopSummary], num_curves: usize, inside: &[Vec<bool>]) -> Vec<(usize, Vec<usize>)> {
    plan_split_regions(&loops.to_vec(), num_curves, &inside.to_vec())
        .into_iter()
        .map(|r| (r.outline, r.holes))
        .collect()
}

#[test]
fn no_curves_gives_the_face_itself() {
    let loops = vec![lp(4, 100), lp(4, -10), lp(3, -5)];
    let inside = vec![vec![false; 3]; 3];
    assert_eq!(plan(&loops, 0, &inside), vec![(0, vec![1, 2])]);
}

#[test]
fn no_curves_keeps_holes_of_any_area() {
    // even a hole with negligible area stays with the face
    let loops = vec![lp(4, 100), lp(2, 0)];
    let inside = vec![vec![false; 2]; 2];
    assert_eq!(plan(&loops, 0, &inside), vec![(0, vec![1])]);
}

#[test]
fn curve_loop_becomes_region_and_takes_hole() {
    // loops: curve 0 (outer, area 5), curve 1 (two points), boundary 2 (area 10), hole 3
    let loops = vec![lp(4, 5), lp(2, 50), lp(4, 10), lp(4, -2)];
    let mut inside = vec![vec![false; 4]; 4];
    inside[3][0] = true;
    inside[3][2] = true;
    assert_eq!(plan(&loops, 2, &inside), vec![(0, vec![3]), (2, vec![])]);
}

#[test]
fn outlines_sorted_by_area() {
    // curve loops 0 (area 30) and 1 (area 20), boundary 2 (area 10)
    let loops = vec![lp(4, 30), lp(4, 20), lp(4, 10)];
    let inside = vec![vec![false; 3]; 3];
    assert_eq!(plan(&loops, 2, &inside), vec![(2, vec![]), (1, vec![]), (0, vec![])]);
}

#[test]
fn negligible_and_clockwise_curves() {
    // curve 0 negligible, curve 1 clockwise (a hole), boundary 2, hole 3 outside everything
    let loops = vec![lp(5, 0), lp(5, -7), lp(4, 10), lp(4, -3)];
    let mut inside = vec![vec![false; 4]; 4];
    inside[1][2] = true;
    assert_eq!(plan(&loops, 2, &inside), vec![(2, vec![1])]);
}

#[test]
fn hole_goes_to_smallest_containing_outline() {
    // curve 0 (area 4) inside boundary 1 (area 50); hole 2 inside both
    let loops = vec![lp(6, 4), lp(4, 50), lp(4, -2)];
    let mut inside = vec![vec![false; 3]; 3];
    inside[2][0] = true;
    inside[2][1] = true;
    assert_eq!(plan(&loops, 1, &inside), vec![(0, vec![2]), (1, vec![])]);
}

#[test]
fn reversed_boundary_is_a_hole() {
    // curve 0 outer; the boundary is clockwise and so becomes a hole
    let loops = vec![lp(4, 8), lp(4, -9)];
    let mut inside = vec![vec![false; 2]; 2];
    inside[1][0] = true;
    assert_eq!(plan(&loops, 1, &inside), vec![(0, vec![1])]);
}

#[test]
fn sort_keeps_index_order_on_ties() {
    let loops = vec![lp(4, 7), lp(4, 3), lp(4, 7), lp(4, 3), lp(4, 1)];
    let order = sort_outlines(&loops, &vec![0, 1, 2, 3, 4]);
    assert_eq!(order, vec![4, 1, 3, 0, 2]);
}

#[test]
fn sort_of_no_outlines() {
    let loops = vec![lp(4, 7)];
    assert!(sort_outlines(&loops, &vec![]).is_empty());
}
