//! One step of the layout: detection, resolution and integration in turn.

use vstd::prelude::*;
use crate::bounds::{
    expand, grid_box, lemma_tight_box_bounds, tight_bounds, tight_box, BoundingBox,
};
use crate::collide::{collisions, find_collisions, pairs_view};
use crate::fixed::{quot, quotient, scale, DAMPING_DIVISOR, LIMIT, UNIT};
use crate::grid::{build_grid, cells, lemma_members_upto};
use crate::random::{check_jitters, draw_jitters};
use crate::resolve::{
    accumulate, coincident_count, count_coincident, deltas, deltas_view, jitters_ok,
    pairs_in_range, PUSH_BOUND,
};
use crate::store::{
    buffer_error, check_settings, flat_of, flatten, in_limit, lemma_buffer_nodes_ok, nodes_of,
    nodes_ok, settings_ok, unflatten, Context, LayoutError, Node, Settings,
};

verus! {

/// A damped correction at or beyond this magnitude moves any node out of range
/// at any speed above zero.
pub const STEP_CAP: i128 = 10_000_000_000_000_000_000_000_000;

/// The move that an accumulated correction causes along one axis: a tenth of
/// the correction, times the speed.
pub open spec fn step_of(delta: int, speed: int) -> int {
    scale(quot(delta, DAMPING_DIVISOR as int), speed)
}

/// Where a node would stand after its accumulated correction is applied.
pub open spec fn target(node: Node, delta: (int, int), speed: int) -> (int, int) {
    (node.x + step_of(delta.0, speed), node.y + step_of(delta.1, speed))
}

/// Every node's target lies within the limit on coordinates.
pub open spec fn reachable(nodes: Seq<Node>, sums: Seq<(int, int)>, speed: int) -> bool {
    forall|i: int|
        0 <= i < nodes.len() ==> in_limit(#[trigger] target(nodes[i], sums[i], speed).0)
            && in_limit(target(nodes[i], sums[i], speed).1)
}

/// The nodes after their accumulated corrections are applied; radii stay.
pub open spec fn moved(nodes: Seq<Node>, sums: Seq<(int, int)>, speed: int) -> Seq<Node> {
    Seq::new(
        nodes.len(),
        |i: int|
            (Node {
                x: target(nodes[i], sums[i], speed).0 as i64,
                y: target(nodes[i], sums[i], speed).1 as i64,
                radius: nodes[i].radius,
            }),
    )
}

/// The member lists of the grid that a step builds.
pub open spec fn layout_cells(nodes: Seq<Node>, cfg: Settings) -> Seq<Seq<int>> {
    cells(nodes, cfg, grid_box(nodes, cfg))
}

/// The collisions that a step finds, in the order in which it finds them.
pub open spec fn layout_collisions(nodes: Seq<Node>, cfg: Settings) -> Seq<(int, int)> {
    collisions(nodes, cfg, layout_cells(nodes, cfg))
}

/// The accumulated corrections of a step.
pub open spec fn layout_deltas(nodes: Seq<Node>, cfg: Settings, jitters: Seq<(i64, i64)>) -> Seq<
    (int, int),
> {
    deltas(
        nodes,
        layout_collisions(nodes, cfg),
        jitters,
        tight_box(nodes, cfg).width(),
        tight_box(nodes, cfg).height(),
    )
}

/// Why a step is refused before anything is computed, if it is: the parameters
/// are judged first, then the buffer.
pub open spec fn refusal(m: Seq<i64>, cfg: Settings) -> Option<LayoutError> {
    if !settings_ok(cfg) {
        Some(LayoutError::InvalidParameter)
    } else {
        buffer_error(m)
    }
}

/// The number of jitter pairs that a step on this buffer consumes: one for
/// each collision of coincident nodes.
pub open spec fn jitter_demand(m: Seq<i64>, cfg: Settings) -> nat {
    if refusal(m, cfg) is Some {
        0
    } else {
        coincident_count(nodes_of(m), layout_collisions(nodes_of(m), cfg))
    }
}

/// What a step does to a buffer: the new buffer and convergence flag, or the
/// reason for which the step is refused.
pub open spec fn step_outcome(m: Seq<i64>, cfg: Settings, jitters: Seq<(i64, i64)>) -> Result<
    (Seq<i64>, bool),
    LayoutError,
> {
    let nodes = nodes_of(m);
    if !settings_ok(cfg) || !jitters_ok(jitters) {
        Err(LayoutError::InvalidParameter)
    } else if buffer_error(m) is Some {
        Err(buffer_error(m)->Some_0)
    } else if jitters.len() < jitter_demand(m, cfg) {
        Err(LayoutError::MissingJitter)
    } else if !reachable(nodes, layout_deltas(nodes, cfg, jitters), cfg.speed as int) {
        Err(LayoutError::CoordinateOutOfRange)
    } else {
        Ok(
            (
                flat_of(moved(nodes, layout_deltas(nodes, cfg, jitters), cfg.speed as int)),
                layout_collisions(nodes, cfg).len() == 0,
            ),
        )
    }
}

/// A call's result and the store after it are what `outcome` says: on success
/// the store holds the new buffer and flag, on refusal it is as before.
pub open spec fn relates(
    outcome: Result<(Seq<i64>, bool), LayoutError>,
    res: Result<(), LayoutError>,
    before: Context,
    after: Context,
) -> bool {
    match outcome {
        Ok(state) => res is Ok && after.matrix@ == state.0 && after.converged == state.1,
        Err(e) => res == Err::<(), LayoutError>(e) && after == before,
    }
}

/// The collisions among the nodes: builds the grid over the expanded bounding
/// box and examines the pairs that share a cell.
pub fn detect(nodes: &Vec<Node>, cfg: &Settings) -> (hits: Vec<(u32, u32)>)
    requires
        nodes_ok(nodes@),
        settings_ok(*cfg),
    ensures
        pairs_view(hits@) == layout_collisions(nodes@, *cfg),
        pairs_in_range(pairs_view(hits@), nodes@.len() as int),
{
    let tight = tight_bounds(nodes, cfg);
    detect_within(nodes, cfg, &tight)
}

/// The collisions among the nodes, given their tight bounding box.
fn detect_within(nodes: &Vec<Node>, cfg: &Settings, tight: &BoundingBox) -> (hits: Vec<
    (u32, u32),
>)
    requires
        nodes_ok(nodes@),
        settings_ok(*cfg),
        tight@ == tight_box(nodes@, *cfg),
    ensures
        pairs_view(hits@) == layout_collisions(nodes@, *cfg),
        pairs_in_range(pairs_view(hits@), nodes@.len() as int),
{
    proof {
        lemma_tight_box_bounds(nodes@, *cfg);
    }
    if nodes.len() == 0 {
        let hits: Vec<(u32, u32)> = Vec::new();
        proof {
            let none = layout_collisions(nodes@, *cfg);
            if none.len() > 0 {
                assert(none.contains(none[0]));
                crate::laws::lemma_collisions_sound(nodes@, *cfg, none[0]);
            }
            assert(pairs_view(hits@) =~= none);
        }
        return hits;
    }
    let grown = expand(tight, cfg.expansion);
    let grid = build_grid(nodes, cfg, &grown);
    proof {
        let all = cells(nodes@, *cfg, grown@);
        assert forall|c: int, k: int| 0 <= c < all.len() && 0 <= k < all[c].len() implies 0
            <= #[trigger] all[c][k] < nodes@.len() by {
            lemma_members_upto(nodes@, *cfg, grown@, c, nodes@.len() as int);
        }
    }
    find_collisions(nodes, cfg, &grid)
}

/// A coordinate after its accumulated correction is applied, if it stays in range.
pub fn advance(v: i64, delta: i128, speed: i64) -> (res: Option<i64>)
    requires
        in_limit(v as int),
        delta > i128::MIN,
        0 <= speed <= LIMIT,
    ensures
        match res {
            Some(t) => t == v + step_of(delta as int, speed as int) && in_limit(t as int),
            None => !in_limit(v + step_of(delta as int, speed as int)),
        },
{
    let damped: i128 = quotient(delta, DAMPING_DIVISOR as i128);
    if speed == 0 {
        assert((damped as int) * 0 == 0);
        return Some(v);
    }
    if damped >= STEP_CAP {
        proof {
            let z = (damped as int) * (speed as int);
            assert(z >= 10_000_000_000_000_000_000_000_000) by (nonlinear_arith)
                requires
                    damped >= 10_000_000_000_000_000_000_000_000,
                    speed >= 1,
                    z == (damped as int) * (speed as int),
            ;
            assert(z / 1_000_000 >= 10_000_000_000_000_000_000);
        }
        return None;
    }
    if damped <= -STEP_CAP {
        proof {
            let z = (damped as int) * (speed as int);
            assert(-z >= 10_000_000_000_000_000_000_000_000) by (nonlinear_arith)
                requires
                    damped <= -10_000_000_000_000_000_000_000_000,
                    speed >= 1,
                    z == (damped as int) * (speed as int),
            ;
            assert((-z) / 1_000_000 >= 10_000_000_000_000_000_000);
        }
        return None;
    }
    assert(-10_000_000_000_000_000_000_000_000_000_000_000_000 <= damped * speed
        <= 10_000_000_000_000_000_000_000_000_000_000_000_000) by (nonlinear_arith)
        requires
            -10_000_000_000_000_000_000_000_000 <= damped <= 10_000_000_000_000_000_000_000_000,
            0 <= speed <= 1_000_000_000_000,
    ;
    let step: i128 = quotient(damped * (speed as i128), UNIT as i128);
    proof {
        crate::fixed::lemma_quot_bound(
            damped * speed,
            UNIT as int,
            10_000_000_000_000_000_000_000_000_000_000_000_000,
        );
    }
    let t: i128 = v as i128 + step;
    if t < -(LIMIT as i128) || t > LIMIT as i128 {
        None
    } else {
        Some(t as i64)
    }
}

/// Applies the accumulated corrections to the nodes. Returns nothing if a node
/// would leave the limit on coordinates.
pub fn integrate(nodes: &Vec<Node>, sums: &Vec<(i128, i128)>, speed: i64) -> (res: Option<
    Vec<Node>,
>)
    requires
        nodes_ok(nodes@),
        sums@.len() == nodes@.len(),
        forall|i: int|
            0 <= i < sums@.len() ==> (#[trigger] sums@[i]).0 > i128::MIN && sums@[i].1
                > i128::MIN,
        0 <= speed <= LIMIT,
    ensures
        match res {
            Some(after) => reachable(nodes@, deltas_view(sums@), speed as int) && after@
                == moved(nodes@, deltas_view(sums@), speed as int),
            None => !reachable(nodes@, deltas_view(sums@), speed as int),
        },
{
    let ghost d = deltas_view(sums@);
    let mut after: Vec<Node> = Vec::new();
    let mut i: usize = 0;
    while i < nodes.len()
        invariant
            i <= nodes.len(),
            nodes_ok(nodes@),
            sums@.len() == nodes@.len(),
            d == deltas_view(sums@),
            forall|k: int|
                0 <= k < sums@.len() ==> (#[trigger] sums@[k]).0 > i128::MIN && sums@[k].1
                    > i128::MIN,
            0 <= speed <= LIMIT,
            after@.len() == i,
            forall|k: int|
                0 <= k < i ==> in_limit(#[trigger] target(nodes@[k], d[k], speed as int).0)
                    && in_limit(target(nodes@[k], d[k], speed as int).1) && after@[k] == moved(
                    nodes@,
                    d,
                    speed as int,
                )[k],
        decreases nodes.len() - i,
    {
        let node = nodes[i];
        let sum = sums[i];
        proof {
            assert(d[i as int] == (sum.0 as int, sum.1 as int));
        }
        let x = match advance(node.x, sum.0, speed) {
            Some(x) => x,
            None => {
                assert(!in_limit(target(nodes@[i as int], d[i as int], speed as int).0));
                return None;
            },
        };
        let y = match advance(node.y, sum.1, speed) {
            Some(y) => y,
            None => {
                assert(in_limit(target(nodes@[i as int], d[i as int], speed as int).0));
                assert(!in_limit(target(nodes@[i as int], d[i as int], speed as int).1));
                return None;
            },
        };
        after.push(Node { x, y, radius: node.radius });
        i += 1;
    }
    proof {
        assert(after@ =~= moved(nodes@, d, speed as int));
    }
    Some(after)
}

/// What a step needs besides the jitter: the decoded nodes, the collisions
/// among them and the extents of their tight bounding box.
pub struct Plan {
    pub nodes: Vec<Node>,
    pub hits: Vec<(u32, u32)>,
    pub width: i128,
    pub height: i128,
}

impl Plan {
    /// The plan is the one for a step on the buffer `m` with the parameters `cfg`.
    pub open spec fn fits(&self, m: Seq<i64>, cfg: Settings) -> bool {
        &&& self.nodes@ == nodes_of(m)
        &&& nodes_ok(self.nodes@)
        &&& pairs_in_range(pairs_view(self.hits@), self.nodes@.len() as int)
        &&& pairs_view(self.hits@) == layout_collisions(self.nodes@, cfg)
        &&& self.width == tight_box(self.nodes@, cfg).width()
        &&& self.height == tight_box(self.nodes@, cfg).height()
    }
}

/// Checks the buffer and finds the collisions of a step.
pub fn prepare(matrix: &Vec<i64>, cfg: &Settings) -> (res: Result<Plan, LayoutError>)
    requires
        settings_ok(*cfg),
    ensures
        match buffer_error(matrix@) {
            Some(e) => res == Err::<Plan, LayoutError>(e),
            None => res is Ok && res->Ok_0.fits(matrix@, *cfg),
        },
{
    let nodes = match unflatten(matrix) {
        Ok(nodes) => nodes,
        Err(e) => {
            return Err(e);
        },
    };
    proof {
        lemma_buffer_nodes_ok(matrix@);
    }
    let tight = tight_bounds(&nodes, cfg);
    let hits = detect_within(&nodes, cfg, &tight);
    Ok(Plan { nodes, hits, width: tight.x_max - tight.x_min, height: tight.y_max - tight.y_min })
}

/// Resolves the collisions of a plan with the given jitter and stores the new
/// positions and the convergence flag.
pub fn finish(ctx: &mut Context, plan: &Plan, jitters: &Vec<(i64, i64)>, cfg: &Settings) -> (res:
    Result<(), LayoutError>)
    requires
        settings_ok(*cfg),
        jitters_ok(jitters@),
        buffer_error(old(ctx).matrix@) is None,
        plan.fits(old(ctx).matrix@, *cfg),
    ensures
        relates(step_outcome(old(ctx).matrix@, *cfg, jitters@), res, *old(ctx), *final(ctx)),
{
    proof {
        lemma_tight_box_bounds(plan.nodes@, *cfg);
    }
    let demand = count_coincident(&plan.nodes, &plan.hits);
    if jitters.len() < demand {
        return Err(LayoutError::MissingJitter);
    }
    let sums = accumulate(&plan.nodes, &plan.hits, jitters, plan.width, plan.height);
    let total: usize = plan.hits.len();
    proof {
        assert forall|i: int| 0 <= i < sums@.len() implies (#[trigger] sums@[i]).0 > i128::MIN
            && sums@[i].1 > i128::MIN by {
            let count = plan.hits@.len() as int;
            assert(count == total);
            assert(count * PUSH_BOUND <= 400_000_000_000_000_000_000_000_000_000_000_000)
                by (nonlinear_arith)
                requires
                    0 <= count <= 0xffff_ffff_ffff_ffff,
                    PUSH_BOUND == 20_000_000_000_000_000,
            ;
        }
    }
    match integrate(&plan.nodes, &sums, cfg.speed) {
        None => Err(LayoutError::CoordinateOutOfRange),
        Some(after) => {
            ctx.matrix = flatten(&after);
            ctx.converged = plan.hits.len() == 0;
            Ok(())
        },
    }
}

/// One step on the store with the jitter supplied by the caller: each
/// collision of coincident nodes consumes one pair of `jitters`, in the order
/// in which the collisions are found.
pub fn iterate_with_jitter(
    margin: i64,
    ratio: i64,
    expansion: i64,
    grid_size: u32,
    speed: i64,
    jitters: &Vec<(i64, i64)>,
    ctx: &mut Context,
) -> (res: Result<(), LayoutError>)
    ensures
        relates(
            step_outcome(
                old(ctx).matrix@,
                (Settings { margin, ratio, expansion, grid_size, speed }),
                jitters@,
            ),
            res,
            *old(ctx),
            *final(ctx),
        ),
{
    let cfg = Settings { margin, ratio, expansion, grid_size, speed };
    if !check_settings(&cfg) || !check_jitters(jitters) {
        return Err(LayoutError::InvalidParameter);
    }
    let plan = match prepare(&ctx.matrix, &cfg) {
        Ok(plan) => plan,
        Err(e) => {
            return Err(e);
        },
    };
    finish(ctx, &plan, jitters, &cfg)
}

/// One step on the store: finds the overlapping circles, pushes the later one
/// of each overlapping pair away from the earlier one, and sets the
/// convergence flag if there was no overlap. Coincident nodes are separated by
/// random jitter, of which the step draws as much as it consumes.
///
/// The step is refused, and the store left as it is, with `InvalidParameter`
/// where `margin` or `ratio` has a magnitude above `LIMIT` raw steps (a
/// million units), `expansion` lies below `UNIT` or above `LIMIT`, `speed` is
/// negative or above `LIMIT`, or `grid_size` is zero or above `MAX_GRID`; with
/// `InvalidBufferLength` where the buffer does not hold whole records or holds
/// more than `u32::MAX` nodes; with `CoordinateOutOfRange` where a stored
/// value has a magnitude above `LIMIT`, or where a node would be moved beyond
/// that limit. The limits keep every intermediate value within 128 bits.
pub fn iterate(
    margin: i64,
    ratio: i64,
    expansion: i64,
    grid_size: u32,
    speed: i64,
    ctx: &mut Context,
) -> (res: Result<(), LayoutError>)
    ensures
        exists|jitters: Seq<(i64, i64)>|
            {
                &&& #[trigger] jitters_ok(jitters)
                &&& jitters.len() == jitter_demand(
                    old(ctx).matrix@,
                    (Settings { margin, ratio, expansion, grid_size, speed }),
                )
                &&& relates(
                    step_outcome(
                        old(ctx).matrix@,
                        (Settings { margin, ratio, expansion, grid_size, speed }),
                        jitters,
                    ),
                    res,
                    *old(ctx),
                    *final(ctx),
                )
            },
        jitter_demand(
            old(ctx).matrix@,
            (Settings { margin, ratio, expansion, grid_size, speed }),
        ) == 0 ==> relates(
            step_outcome(
                old(ctx).matrix@,
                (Settings { margin, ratio, expansion, grid_size, speed }),
                Seq::empty(),
            ),
            res,
            *old(ctx),
            *final(ctx),
        ),
{
    let cfg = Settings { margin, ratio, expansion, grid_size, speed };
    let ghost none = Seq::<(i64, i64)>::empty();
    if !check_settings(&cfg) {
        proof {
            assert(jitters_ok(none));
            assert(relates(
                step_outcome(ctx.matrix@, cfg, none),
                Err(LayoutError::InvalidParameter),
                *ctx,
                *ctx,
            ));
        }
        return Err(LayoutError::InvalidParameter);
    }
    let plan = match prepare(&ctx.matrix, &cfg) {
        Ok(plan) => plan,
        Err(e) => {
            proof {
                assert(jitters_ok(none));
                assert(relates(step_outcome(ctx.matrix@, cfg, none), Err(e), *ctx, *ctx));
            }
            return Err(e);
        },
    };
    let demand = count_coincident(&plan.nodes, &plan.hits);
    let jitters = draw_jitters(demand);
    proof {
        if demand == 0 {
            assert(jitters@ =~= none);
        }
    }
    finish(ctx, &plan, &jitters, &cfg)
}

} // verus!
