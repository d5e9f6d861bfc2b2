use noverlap::{accumulate, advance, count_coincident, integrate, Node, LIMIT, UNIT};

fn node(x: f64, y: f64, radius: f64) -> Node {
    Node {
        x: (x * 1e6).round() as i64,
        y: (y * 1e6).round() as i64,
        radius: (radius * 1e6).round() as i64,
    }
}

#[test]
fn a_collision_pushes_the_later_node_along_the_line_of_centres() {
    let nodes = vec![node(0.0, 0.0, 1.0), node(1.0, 0.0, 1.0)];
    let sums = accumulate(&nodes, &vec![(0, 1)], &vec![], 0, 0);
    // (1, 0) / 1 * (1 + 1) = (2, 0)
    assert_eq!(sums, vec![(0, 0), (2_000_000, 0)]);
}

#[test]
fn the_push_is_weighted_by_the_raw_radius_of_the_earlier_node() {
    let nodes = vec![node(0.0, 0.0, 2.0), node(3.0, 4.0, 7.0)];
    let sums = accumulate(&nodes, &vec![(0, 1)], &vec![], 0, 0);
    // (3, 4) / 5 * (1 + 2) = (1.8, 2.4)
    assert_eq!(sums, vec![(0, 0), (1_800_000, 2_400_000)]);
}

#[test]
fn the_push_points_away_from_the_earlier_node() {
    let nodes = vec![node(0.0, 0.0, 0.0), node(-3.0, -4.0, 1.0)];
    let sums = accumulate(&nodes, &vec![(0, 1)], &vec![], 0, 0);
    assert_eq!(sums, vec![(0, 0), (-600_000, -800_000)]);
}

#[test]
fn pushes_on_one_node_add_up() {
    let nodes = vec![node(0.0, 0.0, 1.0), node(2.0, 0.0, 1.0), node(1.0, 0.0, 1.0)];
    let sums = accumulate(&nodes, &vec![(0, 2), (1, 2)], &vec![], 0, 0);
    // From node 0: (+2, 0); from node 1: (-2, 0).
    assert_eq!(sums, vec![(0, 0), (0, 0), (0, 0)]);
    let sums = accumulate(&nodes, &vec![(0, 1), (0, 2)], &vec![], 0, 0);
    assert_eq!(sums, vec![(0, 0), (2_000_000, 0), (2_000_000, 0)]);
}

#[test]
fn coincident_nodes_are_nudged_by_jitter_times_the_extents() {
    let nodes = vec![node(1.0, 1.0, 1.0), node(1.0, 1.0, 1.0)];
    let sums = accumulate(&nodes, &vec![(0, 1)], &vec![(1_000, -2_500)], 2_000_000, 4_000_000);
    // 2 * 0.001 = 0.002 and 4 * -0.0025 = -0.01
    assert_eq!(sums, vec![(0, 0), (2_000, -10_000)]);
}

#[test]
fn coincident_collisions_take_the_jitter_in_turn() {
    let nodes = vec![
        node(1.0, 1.0, 1.0),
        node(1.0, 1.0, 1.0),
        node(2.0, 1.0, 1.0),
        node(1.0, 1.0, 1.0),
    ];
    let hits = vec![(0, 1), (0, 2), (0, 3), (1, 3)];
    let jitters = vec![(1_000, 1_000), (2_000, 2_000), (-4_000, 3_000)];
    let sums = accumulate(&nodes, &hits, &jitters, UNIT as i128, UNIT as i128);
    assert_eq!(
        sums,
        vec![(0, 0), (1_000, 1_000), (2_000_000, 0), (2_000 - 4_000, 2_000 + 3_000)]
    );
}

#[test]
fn without_collisions_nothing_accumulates() {
    let nodes = vec![node(0.0, 0.0, 1.0), node(9.0, 0.0, 1.0)];
    assert_eq!(accumulate(&nodes, &vec![], &vec![(1, 1)], 5, 5), vec![(0, 0), (0, 0)]);
}

#[test]
fn count_coincident_counts_pairs_at_one_point() {
    let nodes = vec![
        node(1.0, 1.0, 1.0),
        node(1.0, 1.0, 2.0),
        node(2.0, 1.0, 1.0),
        node(1.0, 1.0, 1.0),
    ];
    assert_eq!(count_coincident(&nodes, &vec![(0, 1), (0, 2), (0, 3), (1, 3), (2, 3)]), 3);
    assert_eq!(count_coincident(&nodes, &vec![(0, 2), (1, 2)]), 0);
    assert_eq!(count_coincident(&nodes, &vec![]), 0);
}

#[test]
fn advance_applies_a_tenth_of_the_correction_times_speed() {
    // 1 + 2 * 0.1 * 1 = 1.2
    assert_eq!(advance(UNIT, 2_000_000, UNIT), Some(1_200_000));
    // 1 - 2 * 0.1 * 1 = 0.8
    assert_eq!(advance(UNIT, -2_000_000, UNIT), Some(800_000));
    // 1 + 2 * 0.1 * 0.5 = 1.1
    assert_eq!(advance(UNIT, 2_000_000, 500_000), Some(1_100_000));
    // 1 + 2 * 0.1 * 3 = 1.6
    assert_eq!(advance(UNIT, 2_000_000, 3 * UNIT), Some(1_600_000));
}

#[test]
fn advance_rounds_toward_zero() {
    assert_eq!(advance(0, 25, UNIT), Some(2));
    assert_eq!(advance(0, -25, UNIT), Some(-2));
    assert_eq!(advance(0, 9, UNIT), Some(0));
    assert_eq!(advance(0, -9, UNIT), Some(0));
    assert_eq!(advance(0, 30, 333_333), Some(0));
}

#[test]
fn advance_at_speed_zero_stays() {
    assert_eq!(advance(123, 2_000_000, 0), Some(123));
    assert_eq!(advance(123, i128::MAX, 0), Some(123));
    assert_eq!(advance(-LIMIT, i128::MIN + 1, 0), Some(-LIMIT));
}

#[test]
fn advance_beyond_the_limit_is_refused() {
    assert_eq!(advance(LIMIT, 10, UNIT), None);
    assert_eq!(advance(-LIMIT, -10, UNIT), None);
    assert_eq!(advance(LIMIT, 9, UNIT), Some(LIMIT));
    assert_eq!(advance(0, i128::MAX, 1), None);
    assert_eq!(advance(0, i128::MIN + 1, 1), None);
    assert_eq!(advance(0, 10 * LIMIT as i128, UNIT), Some(LIMIT));
    assert_eq!(advance(0, 10 * LIMIT as i128 + 10, UNIT), None);
}

#[test]
fn integrate_moves_every_node_and_keeps_the_radii() {
    let nodes = vec![node(0.0, 0.0, 1.0), node(1.0, 0.0, 2.0), node(5.0, 5.0, 3.0)];
    let sums = vec![(0, 0), (2_000_000, 0), (-1_000_000, 4_000_000)];
    assert_eq!(
        integrate(&nodes, &sums, 2 * UNIT),
        Some(vec![node(0.0, 0.0, 1.0), node(1.4, 0.0, 2.0), node(4.8, 5.8, 3.0)])
    );
}

#[test]
fn integrate_refuses_a_move_beyond_the_limit() {
    let nodes = vec![node(0.0, 0.0, 1.0), Node { x: 0, y: LIMIT, radius: 0 }];
    assert_eq!(integrate(&nodes, &vec![(0, 0), (0, 10)], UNIT), None);
    assert_eq!(integrate(&nodes, &vec![(0, 0), (10, 0)], UNIT).map(|v| v.len()), Some(2));
}
