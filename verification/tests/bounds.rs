use noverlap::{expand, inflate, tight_bounds, BoundingBox, Node, Settings, UNIT};

fn settings(margin: i64, ratio: i64) -> Settings {
    Settings { margin, ratio, expansion: UNIT, grid_size: 1, speed: UNIT }
}

fn node(x: f64, y: f64, radius: f64) -> Node {
    Node {
        x: (x * 1e6).round() as i64,
        y: (y * 1e6).round() as i64,
        radius: (radius * 1e6).round() as i64,
    }
}

#[test]
fn inflate_scales_then_pads() {
    // 1.5 * 2 + 0.25 = 3.25
    assert_eq!(inflate(&node(0.0, 0.0, 1.5), &settings(250_000, 2 * UNIT)), 3_250_000);
}

#[test]
fn inflate_with_ratio_one_and_no_margin_is_the_radius() {
    assert_eq!(inflate(&node(5.0, -5.0, 0.75), &settings(0, UNIT)), 750_000);
}

#[test]
fn inflate_may_shrink_below_zero() {
    assert_eq!(inflate(&node(0.0, 0.0, 1.0), &settings(-3 * UNIT, UNIT)), -2_000_000);
}

#[test]
fn tight_bounds_of_one_node() {
    let b = tight_bounds(&vec![node(2.0, -1.0, 0.5)], &settings(0, UNIT));
    assert_eq!(
        b,
        BoundingBox { x_min: 1_500_000, x_max: 2_500_000, y_min: -1_500_000, y_max: -500_000 }
    );
}

#[test]
fn tight_bounds_take_the_upper_edge_from_y() {
    let nodes = vec![node(0.0, 0.0, 1.0), node(3.0, 10.0, 2.0)];
    let b = tight_bounds(&nodes, &settings(0, UNIT));
    assert_eq!(
        b,
        BoundingBox { x_min: -1_000_000, x_max: 5_000_000, y_min: -1_000_000, y_max: 12_000_000 }
    );
}

#[test]
fn tight_bounds_use_the_inflated_radius() {
    let nodes = vec![node(0.0, 0.0, 1.0), node(4.0, 0.0, 1.0)];
    let b = tight_bounds(&nodes, &settings(500_000, 2 * UNIT));
    assert_eq!(
        b,
        BoundingBox { x_min: -2_500_000, x_max: 6_500_000, y_min: -2_500_000, y_max: 2_500_000 }
    );
}

#[test]
fn tight_bounds_of_a_point() {
    let b = tight_bounds(&vec![node(1.0, 1.0, 0.0)], &settings(0, UNIT));
    assert_eq!(
        b,
        BoundingBox { x_min: 1_000_000, x_max: 1_000_000, y_min: 1_000_000, y_max: 1_000_000 }
    );
}

#[test]
fn tight_bounds_of_no_nodes() {
    let b = tight_bounds(&vec![], &settings(0, UNIT));
    assert_eq!(b, BoundingBox { x_min: 0, x_max: 0, y_min: 0, y_max: 0 });
}

#[test]
fn expand_grows_around_the_centre() {
    let b = BoundingBox { x_min: 0, x_max: 2_000_000, y_min: 0, y_max: 4_000_000 };
    assert_eq!(
        expand(&b, 1_100_000),
        BoundingBox { x_min: -100_000, x_max: 2_100_000, y_min: -200_000, y_max: 4_200_000 }
    );
}

#[test]
fn expand_by_one_keeps_the_box() {
    let b = BoundingBox { x_min: -3, x_max: 7, y_min: 10, y_max: 20 };
    assert_eq!(expand(&b, UNIT), b);
}

#[test]
fn expand_keeps_a_point_a_point() {
    let b = BoundingBox { x_min: 5, x_max: 5, y_min: -5, y_max: -5 };
    assert_eq!(expand(&b, 3 * UNIT), b);
}

#[test]
fn expanded_box_holds_every_circle() {
    let nodes = vec![node(0.0, 0.0, 1.0), node(3.3, -7.1, 2.0), node(-4.0, 2.5, 0.3)];
    let cfg = settings(100_000, 1_500_000);
    let grown = expand(&tight_bounds(&nodes, &cfg), 1_000_001);
    for n in &nodes {
        let s = inflate(n, &cfg);
        assert!(grown.x_min <= n.x as i128 - s);
        assert!(grown.x_max >= n.x as i128 + s);
        assert!(grown.y_min <= n.y as i128 - s);
        assert!(grown.y_max >= n.y as i128 + s);
    }
}
