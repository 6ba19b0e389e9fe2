use truck_shapeops::chains::{extract_chains, link_points, GridSource, LinkedIntersectionPoint};

fn pt(g: GridSource) -> LinkedIntersectionPoint {
    LinkedIntersectionPoint::new(g)
}

fn linked(next: Option<usize>, prev: Option<usize>) -> LinkedIntersectionPoint {
    LinkedIntersectionPoint { grid_source: GridSource::FixedU0(0), next, prev }
}

fn links(pts: &[LinkedIntersectionPoint]) -> Vec<(Option<usize>, Option<usize>)> {
    pts.iter().map(|p| (p.next, p.prev)).collect()
}

#[test]
fn new_point_has_no_links() {
    let p = pt(GridSource::FixedV1(3));
    assert_eq!(p.grid_source, GridSource::FixedV1(3));
    assert_eq!(p.next, None);
    assert_eq!(p.prev, None);
}

#[test]
fn grid_sources_compare_by_variant_and_index() {
    assert_eq!(GridSource::FixedU0(1), GridSource::FixedU0(1));
    assert_ne!(GridSource::FixedU0(1), GridSource::FixedU0(2));
    assert_ne!(GridSource::FixedU0(1), GridSource::FixedV0(1));
    assert_ne!(GridSource::FixedU1(0), GridSource::FixedV1(0));
}

#[test]
fn link_points_picks_nearest_successor() {
    // three points on a line: 0 -- 1 -- 2, all from different iso-lines
    let mut pts = vec![
        pt(GridSource::FixedU0(0)),
        pt(GridSource::FixedV0(0)),
        pt(GridSource::FixedU1(0)),
    ];
    let cand = vec![
        vec![Some(0), Some(10), Some(20)],
        vec![Some(10), Some(0), Some(10)],
        vec![Some(20), Some(10), Some(0)],
    ];
    link_points(&mut pts, &cand);
    // 0 -> 1 (nearest); for 1, points 0 and 2 tie at 10 and the first one wins;
    // 2 then finds no point without predecessor
    assert_eq!(links(&pts), vec![(Some(1), Some(1)), (Some(0), Some(0)), (None, None)]);
}

#[test]
fn link_points_skips_same_iso_line_and_far_points() {
    let mut pts = vec![
        pt(GridSource::FixedU0(0)),
        pt(GridSource::FixedU0(0)),
        pt(GridSource::FixedV0(1)),
        pt(GridSource::FixedV0(2)),
    ];
    let cand = vec![
        vec![Some(0), Some(1), None, Some(5)],
        vec![Some(1), Some(0), Some(3), None],
        vec![None, Some(3), Some(0), Some(4)],
        vec![Some(5), None, Some(4), Some(0)],
    ];
    link_points(&mut pts, &cand);
    // 0: 1 shares the iso-line, 2 is too far, so 3
    // 1: 0 shares the iso-line, 3 is too far, so 2
    // 2: 0 is too far, 3 has a predecessor, so 1
    // 3: 1 and 2 have predecessors, so 0
    assert_eq!(pts[0].next, Some(3));
    assert_eq!(pts[3].prev, Some(0));
    assert_eq!(pts[1].next, Some(2));
    assert_eq!(pts[2].prev, Some(1));
    assert_eq!(pts[2].next, Some(1));
    assert_eq!(pts[1].prev, Some(2));
    assert_eq!(pts[3].next, Some(0));
    assert_eq!(pts[0].prev, Some(3));
}

#[test]
fn link_points_keeps_existing_successor() {
    let mut pts = vec![
        LinkedIntersectionPoint { grid_source: GridSource::FixedU0(0), next: Some(2), prev: None },
        pt(GridSource::FixedV0(0)),
        LinkedIntersectionPoint { grid_source: GridSource::FixedV0(1), next: None, prev: Some(0) },
    ];
    let cand = vec![
        vec![Some(0), Some(1), Some(2)],
        vec![Some(1), Some(0), Some(1)],
        vec![Some(2), Some(1), Some(0)],
    ];
    link_points(&mut pts, &cand);
    assert_eq!(pts[0].next, Some(2));
    // 1 links to 0 (first of the ties among points without predecessor)
    assert_eq!(pts[1].next, Some(0));
    assert_eq!(pts[0].prev, Some(1));
    // 2 may only go to 1, which has no predecessor yet
    assert_eq!(pts[2].next, Some(1));
    assert_eq!(pts[1].prev, Some(2));
}

#[test]
fn link_points_on_no_points() {
    let mut pts: Vec<LinkedIntersectionPoint> = vec![];
    link_points(&mut pts, &vec![]);
    assert!(pts.is_empty());
}

#[test]
fn extract_open_chain_and_loop() {
    let pts = vec![
        linked(Some(1), None),
        linked(Some(2), Some(0)),
        linked(None, Some(1)),
        linked(Some(4), Some(4)),
        linked(Some(3), Some(3)),
        linked(None, None),
    ];
    let chains = extract_chains(&pts);
    assert_eq!(chains, vec![vec![0, 1, 2], vec![3, 4]]);
}

#[test]
fn extract_chains_drops_single_points() {
    let pts = vec![linked(None, None), linked(None, None)];
    assert!(extract_chains(&pts).is_empty());
}

#[test]
fn extract_chains_stops_at_visited_point() {
    // 0 -> 1 -> 2 and 3 -> 1: the walk from 3 stops at once
    let pts = vec![
        linked(Some(1), None),
        linked(Some(2), Some(0)),
        linked(None, Some(1)),
        linked(Some(1), None),
    ];
    assert_eq!(extract_chains(&pts), vec![vec![0, 1, 2]]);
}

#[test]
fn extract_chains_of_empty_input() {
    assert!(extract_chains(&vec![]).is_empty());
}

#[test]
fn linked_fresh_points_form_alternating_chains() {
    let sources = [
        GridSource::FixedU0(0),
        GridSource::FixedV0(0),
        GridSource::FixedU0(1),
        GridSource::FixedV0(1),
        GridSource::FixedU1(0),
    ];
    let mut pts: Vec<_> = sources.iter().map(|&g| pt(g)).collect();
    // points on a line at positions 0, 1, 2, 3, 10
    let pos: [u64; 5] = [0, 1, 2, 3, 10];
    let cand: Vec<Vec<Option<u64>>> = (0..5)
        .map(|i| {
            (0..5)
                .map(|j| {
                    let d = pos[i].abs_diff(pos[j]);
                    if d < 5 { Some(d) } else { None }
                })
                .collect()
        })
        .collect();
    link_points(&mut pts, &cand);
    for (i, p) in pts.iter().enumerate() {
        if let Some(j) = p.next {
            assert_eq!(pts[j].prev, Some(i));
            assert_ne!(p.grid_source, pts[j].grid_source);
        }
    }
    let chains = extract_chains(&pts);
    assert!(!chains.is_empty());
    let mut seen = vec![false; pts.len()];
    for c in &chains {
        assert!(c.len() >= 2);
        for w in c.windows(2) {
            assert_eq!(pts[w[0]].next, Some(w[1]));
            assert_eq!(pts[w[1]].prev, Some(w[0]));
            assert_ne!(pts[w[0]].grid_source, pts[w[1]].grid_source);
        }
        for &x in c {
            assert!(!seen[x]);
            seen[x] = true;
        }
    }
}

#[test]
fn linking_twice_changes_nothing() {
    let mut pts = vec![
        pt(GridSource::FixedU0(0)),
        pt(GridSource::FixedU0(0)),
        pt(GridSource::FixedV0(1)),
        pt(GridSource::FixedV0(2)),
        pt(GridSource::FixedU1(3)),
    ];
    let cand = vec![
        vec![Some(0), Some(1), None, Some(5), Some(2)],
        vec![Some(1), Some(0), Some(3), None, None],
        vec![None, Some(3), Some(0), Some(4), Some(1)],
        vec![Some(5), None, Some(4), Some(0), Some(6)],
        vec![Some(2), None, Some(1), Some(6), Some(0)],
    ];
    link_points(&mut pts, &cand);
    let once = links(&pts);
    link_points(&mut pts, &cand);
    assert_eq!(links(&pts), once);
}
