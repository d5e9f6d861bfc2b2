use noverlap::{detect, find_collisions, overlap, Node, Settings, UNIT};

fn node(x: f64, y: f64, radius: f64) -> Node {
    Node {
        x: (x * 1e6).round() as i64,
        y: (y * 1e6).round() as i64,
        radius: (radius * 1e6).round() as i64,
    }
}

fn settings(grid_size: u32) -> Settings {
    Settings { margin: 0, ratio: UNIT, expansion: 1_100_000, grid_size, speed: UNIT }
}

#[test]
fn circles_closer_than_their_radii_collide() {
    assert!(overlap(&node(0.0, 0.0, 1.0), &node(1.0, 0.0, 1.0), &settings(1)));
    assert!(overlap(&node(0.0, 0.0, 1.0), &node(1.4, 1.4, 1.0), &settings(1)));
}

#[test]
fn circles_further_apart_do_not_collide() {
    assert!(!overlap(&node(0.0, 0.0, 1.0), &node(3.0, 0.0, 1.0), &settings(1)));
    assert!(!overlap(&node(0.0, 0.0, 1.0), &node(1.5, 1.5, 1.0), &settings(1)));
}

#[test]
fn circles_that_touch_do_not_collide() {
    assert!(!overlap(&node(0.0, 0.0, 1.0), &node(2.0, 0.0, 1.0), &settings(1)));
    assert!(!overlap(&node(0.0, 0.0, 2.0), &node(3.0, 4.0, 3.0), &settings(1)));
    assert!(overlap(&node(0.0, 0.0, 2.0), &node(3.0, 4.0, 3.000001), &settings(1)));
}

#[test]
fn collision_uses_the_inflated_radii() {
    let apart = (node(0.0, 0.0, 1.0), node(3.0, 0.0, 1.0));
    let padded = Settings { margin: 600_000, ..settings(1) };
    assert!(overlap(&apart.0, &apart.1, &padded));
    let scaled = Settings { ratio: 1_600_000, ..settings(1) };
    assert!(overlap(&apart.0, &apart.1, &scaled));
    let shrunk = Settings { ratio: 400_000, ..settings(1) };
    assert!(!overlap(&node(0.0, 0.0, 1.0), &node(1.0, 0.0, 1.0), &shrunk));
}

#[test]
fn points_at_one_place_do_not_overlap() {
    assert!(!overlap(&node(1.0, 1.0, 0.0), &node(1.0, 1.0, 0.0), &settings(1)));
}

#[test]
fn coincident_circles_collide() {
    assert!(overlap(&node(1.0, 1.0, 0.5), &node(1.0, 1.0, 0.5), &settings(1)));
}

#[test]
fn radii_that_sum_below_zero_never_collide() {
    let cfg = Settings { margin: -2 * UNIT, ..settings(1) };
    assert!(!overlap(&node(0.0, 0.0, 1.0), &node(0.0, 0.0, 1.0), &cfg));
}

#[test]
fn find_collisions_pairs_the_earlier_member_first() {
    let nodes = vec![node(0.0, 0.0, 1.0), node(1.0, 0.0, 1.0), node(0.5, 0.5, 1.0)];
    let hits = find_collisions(&nodes, &settings(1), &vec![vec![0, 1, 2]]);
    assert_eq!(hits, vec![(0, 1), (0, 2), (1, 2)]);
}

#[test]
fn find_collisions_passes_over_a_pair_met_in_an_earlier_cell() {
    let nodes = vec![node(0.0, 0.0, 1.0), node(1.0, 0.0, 1.0)];
    let grid = vec![vec![0, 1], vec![0, 1], vec![0, 1], vec![0, 1]];
    assert_eq!(find_collisions(&nodes, &settings(2), &grid), vec![(0, 1)]);
}

#[test]
fn find_collisions_walks_cell_by_cell() {
    let nodes = vec![
        node(0.0, 0.0, 1.0),
        node(1.0, 0.0, 1.0),
        node(0.5, 0.5, 1.0),
        node(9.0, 9.0, 1.0),
    ];
    let grid = vec![vec![1, 2], vec![0, 1, 2, 3], vec![], vec![0, 2]];
    assert_eq!(find_collisions(&nodes, &settings(2), &grid), vec![(1, 2), (0, 1), (0, 2)]);
}

#[test]
fn find_collisions_keeps_only_colliding_pairs() {
    let nodes = vec![node(0.0, 0.0, 1.0), node(5.0, 0.0, 1.0), node(5.5, 0.0, 1.0)];
    assert_eq!(find_collisions(&nodes, &settings(1), &vec![vec![0, 1, 2]]), vec![(1, 2)]);
}

#[test]
fn find_collisions_in_empty_cells_finds_nothing() {
    let nodes = vec![node(0.0, 0.0, 1.0)];
    let grid: Vec<Vec<u32>> = vec![vec![], vec![0], vec![], vec![]];
    assert!(find_collisions(&nodes, &settings(2), &grid).is_empty());
}

#[test]
fn detect_finds_a_pair_that_shares_four_cells_once() {
    let nodes = vec![node(0.0, 0.0, 1.0), node(0.5, 0.5, 1.0)];
    assert_eq!(detect(&nodes, &settings(2)), vec![(0, 1)]);
}

#[test]
fn detect_checks_a_wide_node_against_every_cell_it_spans() {
    // The first node spans the whole grid; the others sit in its four corners.
    let nodes = vec![
        node(0.0, 0.0, 3.0),
        node(-2.0, -2.0, 0.5),
        node(-2.0, 2.0, 0.5),
        node(2.0, -2.0, 0.5),
        node(2.0, 2.0, 0.5),
    ];
    let mut hits = detect(&nodes, &settings(2));
    hits.sort();
    assert_eq!(hits, vec![(0, 1), (0, 2), (0, 3), (0, 4)]);
}

#[test]
fn detect_agrees_across_grid_sizes() {
    let nodes = vec![
        node(0.0, 0.0, 1.0),
        node(1.5, 0.2, 1.0),
        node(-3.0, 4.0, 0.7),
        node(-2.5, 3.2, 0.6),
        node(6.0, -6.0, 2.0),
        node(4.5, -4.8, 0.4),
        node(0.3, 1.1, 0.2),
    ];
    let mut expected = detect(&nodes, &settings(1));
    expected.sort();
    assert_eq!(expected, vec![(0, 1), (0, 6), (2, 3), (4, 5)]);
    for g in 2..9 {
        let mut hits = detect(&nodes, &settings(g));
        hits.sort();
        assert_eq!(hits, expected);
    }
}

#[test]
fn detect_among_no_nodes_finds_nothing() {
    assert!(detect(&vec![], &settings(3)).is_empty());
}

#[test]
fn detect_records_pairs_of_more_than_half_a_million_nodes() {
    let side: i64 = 729;
    let count = (side * side) as usize;
    assert!(count > 524_288);
    let mut nodes: Vec<Node> = (0..count as i64)
        .map(|k| Node { x: 10 * UNIT * (k % side), y: 10 * UNIT * (k / side), radius: UNIT })
        .collect();
    // The first two and the last two nodes overlap; all others stand ten units apart.
    nodes[1].x = UNIT;
    nodes[count - 1].x = nodes[count - 2].x + UNIT;
    let mut hits = detect(&nodes, &settings(365));
    hits.sort();
    assert_eq!(hits, vec![(0, 1), (count as u32 - 2, count as u32 - 1)]);
}

#[test]
fn find_collisions_tells_pairs_of_late_nodes_apart() {
    // Pairs whose two indices are large and close are recorded apart from one another.
    let count: usize = 70_000;
    let mut nodes: Vec<Node> =
        (0..count as i64).map(|k| Node { x: 10 * UNIT * k, y: 0, radius: UNIT }).collect();
    for k in [65_535usize, 65_536, 65_537, 69_999] {
        nodes[k].x = nodes[k - 1].x + UNIT;
    }
    let late: Vec<u32> = (65_530..70_000).collect();
    let grid = vec![late.clone(), late.clone(), vec![69_998, 69_999]];
    let hits = find_collisions(&nodes, &settings(2), &grid);
    assert_eq!(hits, vec![(65_534, 65_535), (65_535, 65_536), (65_536, 65_537), (69_998, 69_999)]);
}
