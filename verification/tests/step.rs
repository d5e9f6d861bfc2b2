use noverlap::{
    create_computer_ctx, get_converged, get_node_matrix, iterate, iterate_with_jitter, prepare,
    Context, LayoutError, Settings, LIMIT, MAX_GRID, UNIT,
};

fn raw(values: &[f64]) -> Vec<i64> {
    values.iter().map(|v| (v * 1e6).round() as i64).collect()
}

fn store(values: &[f64]) -> Context {
    create_computer_ctx(raw(values)).unwrap()
}

fn overlaps(m: &[i64]) -> bool {
    let n = m.len() / 3;
    for a in 0..n {
        for b in a + 1..n {
            let dx = (m[3 * b] - m[3 * a]) as i128;
            let dy = (m[3 * b + 1] - m[3 * a + 1]) as i128;
            let reach = (m[3 * a + 2] + m[3 * b + 2]) as i128;
            if dx * dx + dy * dy < reach * reach {
                return true;
            }
        }
    }
    false
}

#[test]
fn separate_circles_do_not_move() {
    let mut ctx = store(&[0.0, 0.0, 1.0, 3.0, 0.0, 1.0]);
    assert_eq!(iterate(0, UNIT, 1_100_000, 1, UNIT, &mut ctx), Ok(()));
    assert_eq!(ctx.matrix, raw(&[0.0, 0.0, 1.0, 3.0, 0.0, 1.0]));
    assert!(get_converged(&ctx));
}

#[test]
fn separate_circles_do_not_move_on_any_grid() {
    let start = raw(&[0.0, 0.0, 1.0, 3.0, 0.0, 1.0, -4.0, 7.5, 2.0, 10.0, -10.0, 0.5]);
    for g in 1..12 {
        let mut ctx = create_computer_ctx(start.clone()).unwrap();
        ctx.converged = false;
        assert_eq!(iterate(0, UNIT, 1_250_000, g, 3 * UNIT, &mut ctx), Ok(()));
        assert_eq!(ctx.matrix, start);
        assert!(get_converged(&ctx));
    }
}

#[test]
fn overlapping_circles_push_the_later_one() {
    let mut ctx = store(&[0.0, 0.0, 1.0, 1.0, 0.0, 1.0]);
    assert_eq!(iterate(0, UNIT, 1_100_000, 1, UNIT, &mut ctx), Ok(()));
    // delta = (1, 0) / 1 * (1 + 1) = (2, 0); x = 1 + 2 * 0.1 * 1 = 1.2
    assert_eq!(ctx.matrix, raw(&[0.0, 0.0, 1.0, 1.2, 0.0, 1.0]));
    assert!(!get_converged(&ctx));
}

#[test]
fn speed_scales_the_move() {
    let mut ctx = store(&[0.0, 0.0, 1.0, 1.0, 0.0, 1.0]);
    assert_eq!(iterate(0, UNIT, 1_100_000, 1, 2_500_000, &mut ctx), Ok(()));
    assert_eq!(ctx.matrix, raw(&[0.0, 0.0, 1.0, 1.5, 0.0, 1.0]));
    let mut ctx = store(&[0.0, 0.0, 1.0, 1.0, 0.0, 1.0]);
    assert_eq!(iterate(0, UNIT, 1_100_000, 1, 0, &mut ctx), Ok(()));
    assert_eq!(ctx.matrix, raw(&[0.0, 0.0, 1.0, 1.0, 0.0, 1.0]));
    assert!(!get_converged(&ctx));
}

#[test]
fn margin_and_ratio_inflate_the_collision_radius_only() {
    // Padded radii 1.6 each: 3 < 3.2. The push still uses the raw radius 1.
    let mut ctx = store(&[0.0, 0.0, 1.0, 3.0, 0.0, 1.0]);
    assert_eq!(iterate(600_000, UNIT, 1_100_000, 2, UNIT, &mut ctx), Ok(()));
    assert_eq!(ctx.matrix, raw(&[0.0, 0.0, 1.0, 3.2, 0.0, 1.0]));
    assert!(!get_converged(&ctx));
    let mut ctx = store(&[0.0, 0.0, 1.0, 3.0, 0.0, 1.0]);
    assert_eq!(iterate(0, 1_600_000, 1_100_000, 2, 2 * UNIT, &mut ctx), Ok(()));
    assert_eq!(ctx.matrix, raw(&[0.0, 0.0, 1.0, 3.4, 0.0, 1.0]));
    assert!(!get_converged(&ctx));
}

#[test]
fn only_the_later_node_of_a_collision_moves() {
    let mut ctx = store(&[5.0, 5.0, 2.0, 4.0, 4.0, 1.0]);
    assert_eq!(iterate(0, UNIT, 1_100_000, 3, UNIT, &mut ctx), Ok(()));
    assert_eq!(&ctx.matrix[0..3], &raw(&[5.0, 5.0, 2.0])[..]);
    assert!(ctx.matrix[3] < 4 * UNIT);
    assert!(ctx.matrix[4] < 4 * UNIT);
    assert_eq!(ctx.matrix[5], UNIT);
}

#[test]
fn a_chain_of_collisions_pushes_each_later_node() {
    let mut ctx = store(&[0.0, 0.0, 1.0, 1.0, 0.0, 1.0, 2.0, 0.0, 1.0, 3.0, 0.0, 1.0, 4.0, 0.0, 1.0]);
    assert_eq!(iterate(0, UNIT, 1_100_000, 3, UNIT, &mut ctx), Ok(()));
    assert_eq!(
        ctx.matrix,
        raw(&[0.0, 0.0, 1.0, 1.2, 0.0, 1.0, 2.2, 0.0, 1.0, 3.2, 0.0, 1.0, 4.2, 0.0, 1.0])
    );
}

#[test]
fn two_overlapping_circles_separate_within_fifty_steps() {
    let mut ctx = store(&[0.0, 0.0, 1.0, 1.0, 0.0, 1.0]);
    let mut steps = 0;
    loop {
        assert_eq!(iterate(0, UNIT, 1_100_000, 1, UNIT, &mut ctx), Ok(()));
        steps += 1;
        if get_converged(&ctx) {
            break;
        }
        assert!(steps < 50);
    }
    assert_eq!(steps, 6);
    assert_eq!(ctx.matrix, raw(&[0.0, 0.0, 1.0, 2.0, 0.0, 1.0]));
}

#[test]
fn a_row_of_circles_separates_within_fifty_steps() {
    let mut ctx = store(&[0.0, 0.0, 1.0, 1.0, 0.0, 1.0, 2.0, 0.0, 1.0, 3.0, 0.0, 1.0, 4.0, 0.0, 1.0]);
    let mut steps = 0;
    while steps < 50 {
        assert_eq!(iterate(0, UNIT, 1_100_000, 3, UNIT, &mut ctx), Ok(()));
        steps += 1;
        if get_converged(&ctx) {
            break;
        }
    }
    assert!(get_converged(&ctx));
    assert!(!overlaps(&ctx.matrix));
    assert_eq!(
        ctx.matrix,
        raw(&[0.0, 0.0, 1.0, 2.0, 0.0, 1.0, 4.0, 0.0, 1.0, 6.0, 0.0, 1.0, 8.0, 0.0, 1.0])
    );
}

#[test]
fn a_cluster_of_ten_circles_separates_within_fifty_steps() {
    let mut ctx = store(&[
        0.0, 0.0, 1.0, 0.3, 0.4, 1.0, -0.6, 0.2, 0.5, 1.5, 1.5, 2.0, -1.0, -1.0, 0.8, 2.0, -0.5,
        0.6, 0.1, -1.4, 0.7, -2.0, 1.0, 1.0, 1.0, 2.5, 0.4, -0.2, 0.9, 0.3,
    ]);
    let mut steps = 0;
    while steps < 50 {
        assert_eq!(iterate(0, UNIT, 1_200_000, 4, 2 * UNIT, &mut ctx), Ok(()));
        steps += 1;
        if get_converged(&ctx) {
            break;
        }
    }
    assert!(get_converged(&ctx));
    assert!(!overlaps(&ctx.matrix));
}

#[test]
fn coincident_circles_take_the_supplied_jitter() {
    let mut ctx = store(&[2.0, 2.0, 1.0, 2.0, 2.0, 1.0]);
    let res = iterate_with_jitter(0, UNIT, UNIT, 1, UNIT, &vec![(4_000, -2_000)], &mut ctx);
    assert_eq!(res, Ok(()));
    // The tight box is 2 wide and 2 high: the nudge is (0.008, -0.004), damped to a tenth.
    assert_eq!(ctx.matrix, vec![2 * UNIT, 2 * UNIT, UNIT, 2_000_800, 1_999_600, UNIT]);
    assert!(!get_converged(&ctx));
}

#[test]
fn repulsion_takes_over_once_coincident_circles_are_apart() {
    let mut ctx = store(&[2.0, 2.0, 1.0, 2.0, 2.0, 1.0]);
    let res = iterate_with_jitter(0, UNIT, UNIT, 1, UNIT, &vec![(4_000, -2_000)], &mut ctx);
    assert_eq!(res, Ok(()));
    // No jitter is needed any more: the centres are 0.000894 apart.
    assert_eq!(iterate_with_jitter(0, UNIT, UNIT, 1, UNIT, &vec![], &mut ctx), Ok(()));
    // 0.0008 * 2 / 0.000894 = 1.789709, a tenth of which is 0.178970.
    assert_eq!(ctx.matrix, vec![2 * UNIT, 2 * UNIT, UNIT, 2_179_770, 1_910_115, UNIT]);
    assert!(!get_converged(&ctx));
}

#[test]
fn the_nudge_uses_the_extents_of_the_box_before_expansion() {
    let mut ctx = store(&[2.0, 2.0, 1.0, 2.0, 2.0, 1.0]);
    let res =
        iterate_with_jitter(0, UNIT, 3 * UNIT, 2, UNIT, &vec![(4_000, -2_000)], &mut ctx);
    assert_eq!(res, Ok(()));
    assert_eq!(ctx.matrix, vec![2 * UNIT, 2 * UNIT, UNIT, 2_000_800, 1_999_600, UNIT]);
}

#[test]
fn coincident_circles_are_nudged_at_random() {
    for _ in 0..50 {
        let mut ctx = store(&[2.0, 2.0, 1.0, 2.0, 2.0, 1.0]);
        assert_eq!(iterate(0, UNIT, 1_100_000, 1, UNIT, &mut ctx), Ok(()));
        assert!(!get_converged(&ctx));
        assert_eq!(&ctx.matrix[0..3], &[2 * UNIT, 2 * UNIT, UNIT][..]);
        // Less than 2 * 0.005 * 0.1 along each axis.
        assert!((ctx.matrix[3] - 2 * UNIT).abs() < 1_000);
        assert!((ctx.matrix[4] - 2 * UNIT).abs() < 1_000);
        assert_eq!(ctx.matrix[5], UNIT);
    }
}

#[test]
fn random_nudges_differ_between_runs() {
    let mut seen = Vec::new();
    for _ in 0..20 {
        let mut ctx = store(&[2.0, 2.0, 1.0, 2.0, 2.0, 1.0]);
        assert_eq!(iterate(0, UNIT, 1_100_000, 1, UNIT, &mut ctx), Ok(()));
        seen.push((ctx.matrix[3], ctx.matrix[4]));
    }
    seen.sort();
    seen.dedup();
    assert!(seen.len() > 1);
}

#[test]
fn coincident_circles_separate_within_fifty_steps() {
    let mut ctx = store(&[2.0, 2.0, 1.0, 2.0, 2.0, 1.0, 2.0, 2.0, 1.0]);
    let mut steps = 0;
    while steps < 50 {
        assert_eq!(iterate(0, UNIT, 1_100_000, 2, UNIT, &mut ctx), Ok(()));
        steps += 1;
        if get_converged(&ctx) {
            break;
        }
    }
    assert!(get_converged(&ctx));
    assert!(!overlaps(&ctx.matrix));
}

#[test]
fn a_pair_that_shares_four_cells_is_pushed_once() {
    let mut ctx = store(&[0.0, 0.0, 1.0, 0.5, 0.5, 1.0]);
    assert_eq!(iterate(0, UNIT, 1_100_000, 2, UNIT, &mut ctx), Ok(()));
    // 0.5 * 2 / 0.707106 = 1.414214; 0.5 + 0.1414214 = 0.641421
    assert_eq!(ctx.matrix, vec![0, 0, UNIT, 641_421, 641_421, UNIT]);
}

#[test]
fn the_grid_size_does_not_change_the_step() {
    for g in [1, 2, 3, 5, 8, 13] {
        let mut ctx = store(&[0.0, 0.0, 1.0, 0.5, 0.5, 1.0, -0.5, 0.5, 1.0]);
        assert_eq!(iterate(0, UNIT, 1_100_000, g, UNIT, &mut ctx), Ok(()));
        assert_eq!(
            ctx.matrix,
            vec![0, 0, UNIT, 641_421, 641_421, UNIT, -841_421, 641_421, UNIT]
        );
        assert!(!get_converged(&ctx));
    }
}

#[test]
fn a_converged_store_stays_as_it_is() {
    let mut ctx = store(&[0.0, 0.0, 1.0, 1.0, 0.0, 1.0, 0.5, 3.0, 1.5]);
    let mut steps = 0;
    while steps < 50 {
        assert_eq!(iterate(0, UNIT, 1_100_000, 2, UNIT, &mut ctx), Ok(()));
        steps += 1;
        if get_converged(&ctx) {
            break;
        }
    }
    assert!(get_converged(&ctx));
    let rest = ctx.matrix.clone();
    for _ in 0..5 {
        assert_eq!(iterate(0, UNIT, 1_100_000, 2, UNIT, &mut ctx), Ok(()));
        assert_eq!(ctx.matrix, rest);
        assert!(get_converged(&ctx));
    }
}

#[test]
fn the_flag_is_set_anew_by_every_step() {
    let mut ctx = store(&[0.0, 0.0, 1.0, 3.0, 0.0, 1.0]);
    ctx.converged = false;
    assert_eq!(iterate(0, UNIT, UNIT, 1, UNIT, &mut ctx), Ok(()));
    assert!(get_converged(&ctx));
    get_node_matrix(&mut ctx)[3] = UNIT;
    assert_eq!(iterate(0, UNIT, UNIT, 1, UNIT, &mut ctx), Ok(()));
    assert!(!get_converged(&ctx));
}

#[test]
fn an_empty_store_converges() {
    let mut ctx = store(&[]);
    ctx.converged = false;
    assert_eq!(iterate(0, UNIT, UNIT, 4, UNIT, &mut ctx), Ok(()));
    assert!(ctx.matrix.is_empty());
    assert!(get_converged(&ctx));
}

#[test]
fn a_single_point_is_a_box_without_area() {
    let mut ctx = store(&[1.0, 1.0, 0.0]);
    assert_eq!(iterate(0, UNIT, 1_100_000, 4, UNIT, &mut ctx), Ok(()));
    assert_eq!(ctx.matrix, raw(&[1.0, 1.0, 0.0]));
    assert!(get_converged(&ctx));
}

#[test]
fn coincident_points_without_size_do_not_collide() {
    let mut ctx = store(&[1.0, 1.0, 0.0, 1.0, 1.0, 0.0]);
    assert_eq!(iterate(0, UNIT, 1_100_000, 4, UNIT, &mut ctx), Ok(()));
    assert_eq!(ctx.matrix, raw(&[1.0, 1.0, 0.0, 1.0, 1.0, 0.0]));
    assert!(get_converged(&ctx));
}

#[test]
fn circles_on_one_line_make_a_box_without_height() {
    // Radius zero with a margin of zero: only the x axis has extent.
    let mut ctx = store(&[0.0, 0.0, 0.0, 1.0, 0.0, 0.0, 2.0, 0.0, 0.0]);
    assert_eq!(iterate(0, UNIT, 1_100_000, 3, UNIT, &mut ctx), Ok(()));
    assert!(get_converged(&ctx));
    let mut ctx = store(&[0.0, 0.0, 0.0, 1.0, 0.0, 0.0, 2.0, 0.0, 0.0]);
    assert_eq!(iterate(600_000, UNIT, UNIT, 3, UNIT, &mut ctx), Ok(()));
    assert_eq!(ctx.matrix, raw(&[0.0, 0.0, 0.0, 1.1, 0.0, 0.0, 2.1, 0.0, 0.0]));
    assert!(!get_converged(&ctx));
}

#[test]
fn circles_on_the_outer_boundary_stay_on_the_grid() {
    // With an expansion of one the outermost circles touch the edge of the box.
    for g in 1..10 {
        let mut ctx = store(&[0.0, 0.0, 1.0, 1.0, 1.0, 1.0, 9.0, 9.0, 1.0, 10.0, 10.0, 1.0]);
        assert_eq!(iterate(0, UNIT, UNIT, g, UNIT, &mut ctx), Ok(()));
        assert_eq!(&ctx.matrix[0..3], &raw(&[0.0, 0.0, 1.0])[..]);
        assert_eq!(&ctx.matrix[3..6], &[1_141_421, 1_141_421, UNIT][..]);
        assert_eq!(&ctx.matrix[6..9], &raw(&[9.0, 9.0, 1.0])[..]);
        assert_eq!(&ctx.matrix[9..12], &[10_141_421, 10_141_421, UNIT][..]);
    }
}

#[test]
fn a_grid_size_of_zero_is_rejected() {
    let mut ctx = store(&[0.0, 0.0, 1.0, 1.0, 0.0, 1.0]);
    assert_eq!(iterate(0, UNIT, UNIT, 0, UNIT, &mut ctx), Err(LayoutError::InvalidParameter));
    assert_eq!(ctx.matrix, raw(&[0.0, 0.0, 1.0, 1.0, 0.0, 1.0]));
    assert!(get_converged(&ctx));
}

#[test]
fn a_grid_size_beyond_the_maximum_is_rejected() {
    let mut ctx = store(&[0.0, 0.0, 1.0]);
    assert_eq!(
        iterate(0, UNIT, UNIT, MAX_GRID + 1, UNIT, &mut ctx),
        Err(LayoutError::InvalidParameter)
    );
}

#[test]
fn an_expansion_below_one_is_rejected() {
    let mut ctx = store(&[0.0, 0.0, 1.0, 1.0, 0.0, 1.0]);
    assert_eq!(
        iterate(0, UNIT, 999_999, 1, UNIT, &mut ctx),
        Err(LayoutError::InvalidParameter)
    );
    assert_eq!(ctx.matrix, raw(&[0.0, 0.0, 1.0, 1.0, 0.0, 1.0]));
}

#[test]
fn a_negative_speed_is_rejected() {
    let mut ctx = store(&[0.0, 0.0, 1.0, 1.0, 0.0, 1.0]);
    assert_eq!(iterate(0, UNIT, UNIT, 1, -1, &mut ctx), Err(LayoutError::InvalidParameter));
    assert_eq!(ctx.matrix, raw(&[0.0, 0.0, 1.0, 1.0, 0.0, 1.0]));
}

#[test]
fn parameters_beyond_the_limit_are_rejected() {
    let mut ctx = store(&[0.0, 0.0, 1.0]);
    let refused = Err(LayoutError::InvalidParameter);
    assert_eq!(iterate(LIMIT + 1, UNIT, UNIT, 1, UNIT, &mut ctx), refused);
    assert_eq!(iterate(0, -LIMIT - 1, UNIT, 1, UNIT, &mut ctx), refused);
    assert_eq!(iterate(0, UNIT, LIMIT + 1, 1, UNIT, &mut ctx), refused);
    assert_eq!(iterate(0, UNIT, UNIT, 1, LIMIT + 1, &mut ctx), refused);
    assert_eq!(iterate(LIMIT, LIMIT, LIMIT, 1, LIMIT, &mut ctx), Ok(()));
}

#[test]
fn jitter_on_or_beyond_the_span_is_rejected() {
    let mut ctx = store(&[2.0, 2.0, 1.0, 2.0, 2.0, 1.0]);
    let res = iterate_with_jitter(0, UNIT, UNIT, 1, UNIT, &vec![(5_000, 0)], &mut ctx);
    assert_eq!(res, Err(LayoutError::InvalidParameter));
    let res = iterate_with_jitter(0, UNIT, UNIT, 1, UNIT, &vec![(0, 0), (0, -5_000)], &mut ctx);
    assert_eq!(res, Err(LayoutError::InvalidParameter));
    assert_eq!(ctx.matrix, raw(&[2.0, 2.0, 1.0, 2.0, 2.0, 1.0]));
}

#[test]
fn a_buffer_of_partial_records_is_rejected() {
    let mut ctx = Context::new(vec![0, 0, UNIT, UNIT]);
    assert_eq!(iterate(0, UNIT, UNIT, 1, UNIT, &mut ctx), Err(LayoutError::InvalidBufferLength));
    assert_eq!(ctx.matrix, vec![0, 0, UNIT, UNIT]);
    assert!(get_converged(&ctx));
}

#[test]
fn parameters_are_judged_before_the_buffer() {
    let mut ctx = Context::new(vec![0, 0, UNIT, UNIT]);
    assert_eq!(iterate(0, UNIT, UNIT, 0, UNIT, &mut ctx), Err(LayoutError::InvalidParameter));
}

#[test]
fn a_stored_value_beyond_the_limit_is_rejected() {
    let mut ctx = Context::new(vec![0, 0, UNIT, LIMIT + 1, 0, UNIT]);
    ctx.converged = false;
    assert_eq!(
        iterate(0, UNIT, UNIT, 1, UNIT, &mut ctx),
        Err(LayoutError::CoordinateOutOfRange)
    );
    assert_eq!(ctx.matrix, vec![0, 0, UNIT, LIMIT + 1, 0, UNIT]);
    assert!(!get_converged(&ctx));
}

#[test]
fn a_move_beyond_the_limit_is_rejected_and_nothing_is_stored() {
    let start = vec![0, 0, UNIT, UNIT, 0, UNIT, LIMIT - UNIT, 0, UNIT, LIMIT, 0, UNIT];
    let mut ctx = Context::new(start.clone());
    // The last node would move by 2 * 0.1 * 10 = 2 to the right.
    assert_eq!(
        iterate(0, UNIT, UNIT, 1, 10 * UNIT, &mut ctx),
        Err(LayoutError::CoordinateOutOfRange)
    );
    assert_eq!(ctx.matrix, start);
    assert!(get_converged(&ctx));
}

#[test]
fn too_little_jitter_is_rejected() {
    let mut ctx = store(&[2.0, 2.0, 1.0, 2.0, 2.0, 1.0, 2.0, 2.0, 1.0]);
    let res = iterate_with_jitter(0, UNIT, UNIT, 1, UNIT, &vec![(1, 1), (2, 2)], &mut ctx);
    assert_eq!(res, Err(LayoutError::MissingJitter));
    assert_eq!(ctx.matrix, raw(&[2.0, 2.0, 1.0, 2.0, 2.0, 1.0, 2.0, 2.0, 1.0]));
    assert!(get_converged(&ctx));
    let jitters = vec![(1_000, 1_000), (2_000, 2_000), (3_000, 3_000)];
    assert_eq!(iterate_with_jitter(0, UNIT, UNIT, 1, UNIT, &jitters, &mut ctx), Ok(()));
    // Box 2 by 2. Node 1 takes the first pair; node 2 the second and the third.
    assert_eq!(
        ctx.matrix,
        vec![2 * UNIT, 2 * UNIT, UNIT, 2_000_200, 2_000_200, UNIT, 2_001_000, 2_001_000, UNIT]
    );
}

#[test]
fn spare_jitter_is_left_unused() {
    let mut ctx = store(&[0.0, 0.0, 1.0, 1.0, 0.0, 1.0]);
    let jitters = vec![(4_999, -4_999), (1, 2)];
    assert_eq!(iterate_with_jitter(0, UNIT, 1_100_000, 1, UNIT, &jitters, &mut ctx), Ok(()));
    assert_eq!(ctx.matrix, raw(&[0.0, 0.0, 1.0, 1.2, 0.0, 1.0]));
}

#[test]
fn prepare_finds_the_collisions_and_the_extents() {
    let cfg = Settings { margin: 0, ratio: UNIT, expansion: 1_100_000, grid_size: 2, speed: UNIT };
    let plan = prepare(&raw(&[0.0, 0.0, 1.0, 1.0, 0.0, 1.0, 9.0, 3.0, 1.0]), &cfg).unwrap();
    assert_eq!(plan.nodes.len(), 3);
    assert_eq!(plan.hits, vec![(0, 1)]);
    assert_eq!(plan.width, 11_000_000);
    assert_eq!(plan.height, 5_000_000);
}

#[test]
fn prepare_reports_a_faulty_buffer() {
    let cfg = Settings { margin: 0, ratio: UNIT, expansion: UNIT, grid_size: 1, speed: UNIT };
    assert!(matches!(prepare(&vec![1, 2], &cfg), Err(LayoutError::InvalidBufferLength)));
    assert!(matches!(
        prepare(&vec![1, 2, -LIMIT - 1], &cfg),
        Err(LayoutError::CoordinateOutOfRange)
    ));
}
