//! What holds of every step: which pairs collide, which nodes move, and when
//! a store is at rest.

use vstd::prelude::*;
use crate::bounds::{
    circle_box, grid_box, inflated, lemma_expanded_encloses, lemma_tight_box_encloses, tight_box,
};
use crate::collide::{collides, hit_test};
use crate::codec::{
    float_is_finite, float_raw, lemma_float_bits_finite, lemma_float_raw_in_limit,
};
use crate::fixed::{scale, UNIT};
use crate::grid::{lemma_cells_ascending, lemma_members_upto, lemma_shared_cell, reaches};
use crate::host::{all_decodable, decoded, float_outcome, stored};
use crate::pairs::{examined, lemma_examined_once, lemma_examined_pairs};
use crate::resolve::{
    coincident, coincident_count, deltas, jitters_ok, lemma_deltas_len, pairs_in_range, shove,
};
use crate::step::{
    jitter_demand, layout_cells, layout_collisions, layout_deltas, moved, reachable, step_of,
    step_outcome, target,
};
use crate::store::{
    buffer_error, in_limit, lemma_buffer_nodes_ok, lemma_flat_of_nodes, lemma_nodes_of_flat,
    nodes_of, settings_ok, LayoutError, Node, Settings, MAX_GRID,
};

verus! {

/// No inflated radius of the nodes is negative.
pub open spec fn radii_not_negative(nodes: Seq<Node>, cfg: Settings) -> bool {
    forall|i: int| 0 <= i < nodes.len() ==> inflated(#[trigger] nodes[i], cfg) >= 0
}

/// No two of the nodes collide.
pub open spec fn separate(nodes: Seq<Node>, cfg: Settings) -> bool {
    forall|a: int, b: int|
        0 <= a < b < nodes.len() ==> !collides(#[trigger] nodes[a], #[trigger] nodes[b], cfg)
}

/// With an expansion of at least one, the box that the grid partitions holds
/// every inflated circle whose radius is not negative.
pub proof fn lemma_grid_box_holds_circles(nodes: Seq<Node>, cfg: Settings, i: int)
    requires
        0 <= i < nodes.len(),
        radii_not_negative(nodes, cfg),
        cfg.expansion >= UNIT,
    ensures
        grid_box(nodes, cfg).encloses(circle_box(nodes[i], cfg)),
{
    let tight = tight_box(nodes, cfg);
    lemma_tight_box_encloses(nodes, cfg, i);
    assert(inflated(nodes[i], cfg) >= 0);
    lemma_expanded_encloses(tight, cfg.expansion as int);
}

/// The boxes of two colliding circles intersect.
pub proof fn lemma_collision_needs_contact(a: Node, b: Node, cfg: Settings)
    requires
        collides(a, b, cfg),
    ensures
        circle_box(a, cfg).x_min <= circle_box(b, cfg).x_max,
        circle_box(b, cfg).x_min <= circle_box(a, cfg).x_max,
        circle_box(a, cfg).y_min <= circle_box(b, cfg).y_max,
        circle_box(b, cfg).y_min <= circle_box(a, cfg).y_max,
{
    let reach = inflated(a, cfg) + inflated(b, cfg);
    let dx = b.x - a.x;
    let dy = b.y - a.y;
    assert(-reach < dx < reach) by (nonlinear_arith)
        requires
            reach > 0,
            dx * dx + dy * dy < reach * reach,
    ;
    assert(-reach < dy < reach) by (nonlinear_arith)
        requires
            reach > 0,
            dx * dx + dy * dy < reach * reach,
    ;
}

/// A step examines a pair of nodes exactly if the first is the earlier of the
/// two and some grid cell holds both: a node that reaches into several cells
/// is examined against every node of each of them.
pub proof fn lemma_examined_iff_shared_cell(nodes: Seq<Node>, cfg: Settings, a: int, b: int)
    ensures
        examined(layout_cells(nodes, cfg)).contains((a, b)) <==> (0 <= a < b < nodes.len()
            && exists|cell: int|
            0 <= cell < cfg.grid_size * cfg.grid_size && #[trigger] reaches(
                nodes[a],
                cfg,
                grid_box(nodes, cfg),
                cell,
            ) && reaches(nodes[b], cfg, grid_box(nodes, cfg), cell)),
{
    let bx = grid_box(nodes, cfg);
    let all = layout_cells(nodes, cfg);
    lemma_cells_ascending(nodes, cfg, bx);
    lemma_examined_pairs(all, (a, b));
    if examined(all).contains((a, b)) {
        let c = choose|c: int|
            0 <= c < all.len() && (#[trigger] all[c]).contains(a) && all[c].contains(b);
        lemma_members_upto(nodes, cfg, bx, c, nodes.len() as int);
        assert(reaches(nodes[a], cfg, bx, c));
    }
    if 0 <= a < b < nodes.len() && exists|cell: int|
        0 <= cell < cfg.grid_size * cfg.grid_size && #[trigger] reaches(nodes[a], cfg, bx, cell)
            && reaches(nodes[b], cfg, bx, cell) {
        let cell = choose|cell: int|
            0 <= cell < cfg.grid_size * cfg.grid_size && #[trigger] reaches(
                nodes[a],
                cfg,
                bx,
                cell,
            ) && reaches(nodes[b], cfg, bx, cell);
        lemma_members_upto(nodes, cfg, bx, cell, nodes.len() as int);
        assert(all[cell].contains(a) && all[cell].contains(b));
    }
}

/// A step examines no pair of nodes twice, however many cells the two share.
pub proof fn lemma_examined_once_per_step(nodes: Seq<Node>, cfg: Settings)
    ensures
        examined(layout_cells(nodes, cfg)).no_duplicates(),
{
    lemma_cells_ascending(nodes, cfg, grid_box(nodes, cfg));
    lemma_examined_once(layout_cells(nodes, cfg));
}

/// A collision of a step is a pair of an earlier and a later node that share
/// a grid cell and whose circles collide.
pub proof fn lemma_collisions_sound(nodes: Seq<Node>, cfg: Settings, p: (int, int))
    requires
        layout_collisions(nodes, cfg).contains(p),
    ensures
        0 <= p.0 < p.1 < nodes.len(),
        collides(nodes[p.0], nodes[p.1], cfg),
        exists|cell: int|
            0 <= cell < cfg.grid_size * cfg.grid_size && #[trigger] reaches(
                nodes[p.0],
                cfg,
                grid_box(nodes, cfg),
                cell,
            ) && reaches(nodes[p.1], cfg, grid_box(nodes, cfg), cell),
{
    let bx = grid_box(nodes, cfg);
    let all = layout_cells(nodes, cfg);
    let test = hit_test(nodes, cfg);
    let seen = examined(all);
    let k = choose|k: int| 0 <= k < seen.filter(test).len() && seen.filter(test)[k] == p;
    seen.lemma_filter_pred(test, k);
    seen.lemma_filter_contains_rev(test, p);
    lemma_cells_ascending(nodes, cfg, bx);
    lemma_examined_pairs(all, p);
    let c = choose|c: int|
        0 <= c < all.len() && (#[trigger] all[c]).contains(p.0) && all[c].contains(p.1);
    lemma_members_upto(nodes, cfg, bx, c, nodes.len() as int);
    assert(reaches(nodes[p.0], cfg, bx, c));
}

/// The grid misses no collision: two circles of radii that are not negative
/// which collide are a collision of the step.
pub proof fn lemma_collisions_complete(nodes: Seq<Node>, cfg: Settings, a: int, b: int)
    requires
        0 <= a < b < nodes.len(),
        cfg.grid_size >= 1,
        inflated(nodes[a], cfg) >= 0,
        inflated(nodes[b], cfg) >= 0,
        collides(nodes[a], nodes[b], cfg),
    ensures
        layout_collisions(nodes, cfg).contains((a, b)),
{
    let bx = grid_box(nodes, cfg);
    let all = layout_cells(nodes, cfg);
    let test = hit_test(nodes, cfg);
    let seen = examined(all);
    lemma_collision_needs_contact(nodes[a], nodes[b], cfg);
    let cell = lemma_shared_cell(nodes[a], nodes[b], cfg, bx);
    lemma_members_upto(nodes, cfg, bx, cell, nodes.len() as int);
    assert(all[cell].contains(a) && all[cell].contains(b));
    lemma_cells_ascending(nodes, cfg, bx);
    lemma_examined_pairs(all, (a, b));
    let k = choose|k: int| 0 <= k < seen.len() && seen[k] == (a, b);
    seen.lemma_filter_contains(test, k);
}

/// Among circles of radii that are not negative, the collisions of a step are
/// exactly the pairs of an earlier and a later node that collide, whatever the
/// grid: the grid saves work and changes no result.
pub proof fn lemma_collisions_are_the_overlaps(nodes: Seq<Node>, cfg: Settings, a: int, b: int)
    requires
        cfg.grid_size >= 1,
        radii_not_negative(nodes, cfg),
    ensures
        layout_collisions(nodes, cfg).contains((a, b)) <==> (0 <= a < b < nodes.len() && collides(
            nodes[a],
            nodes[b],
            cfg,
        )),
{
    if layout_collisions(nodes, cfg).contains((a, b)) {
        lemma_collisions_sound(nodes, cfg, (a, b));
    }
    if 0 <= a < b < nodes.len() && collides(nodes[a], nodes[b], cfg) {
        lemma_collisions_complete(nodes, cfg, a, b);
    }
}

/// No pair of nodes is a collision of a step more than once.
pub proof fn lemma_collisions_once(nodes: Seq<Node>, cfg: Settings)
    ensures
        layout_collisions(nodes, cfg).no_duplicates(),
{
    lemma_examined_once_per_step(nodes, cfg);
    lemma_filter_once(examined(layout_cells(nodes, cfg)), hit_test(nodes, cfg));
}

/// What is left of a sequence without repetitions has no repetitions.
pub proof fn lemma_filter_once(s: Seq<(int, int)>, test: spec_fn((int, int)) -> bool)
    requires
        s.no_duplicates(),
    ensures
        s.filter(test).no_duplicates(),
    decreases s.len(),
{
    if s.len() > 0 {
        let front = s.drop_last();
        let last = s.last();
        lemma_filter_once(front, test);
        assert(s =~= front.push(last));
        front.lemma_filter_push(last, test);
        if test(last) {
            let kept = front.filter(test);
            assert forall|i: int| 0 <= i < kept.len() implies kept[i] != last by {
                assert(kept.contains(kept[i]));
                front.lemma_filter_contains_rev(test, kept[i]);
                let q = choose|q: int| 0 <= q < front.len() && front[q] == kept[i];
                assert(s[q] == kept[i]);
                assert(s[s.len() - 1] == last);
            }
        }
    } else {
        assert(s.filter(test) =~= Seq::empty()) by {
            s.lemma_filter_len(test);
        }
    }
}

/// The collisions of a step are pairs of nodes of the store.
pub proof fn lemma_collisions_in_range(nodes: Seq<Node>, cfg: Settings)
    ensures
        pairs_in_range(layout_collisions(nodes, cfg), nodes.len() as int),
{
    let hits = layout_collisions(nodes, cfg);
    assert forall|k: int| 0 <= k < hits.len() implies 0 <= (#[trigger] hits[k]).0 < nodes.len()
        && 0 <= hits[k].1 < nodes.len() by {
        assert(hits.contains(hits[k]));
        lemma_collisions_sound(nodes, cfg, hits[k]);
    }
}

/// A step among circles of radii that are not negative finds no collision
/// exactly if no two circles collide.
pub proof fn lemma_no_collision_iff_separate(nodes: Seq<Node>, cfg: Settings)
    requires
        cfg.grid_size >= 1,
        radii_not_negative(nodes, cfg),
    ensures
        layout_collisions(nodes, cfg).len() == 0 <==> separate(nodes, cfg),
{
    let hits = layout_collisions(nodes, cfg);
    if hits.len() > 0 {
        assert(hits.contains(hits[0]));
        lemma_collisions_sound(nodes, cfg, hits[0]);
        assert(!separate(nodes, cfg));
    }
    if !separate(nodes, cfg) {
        let (a, b) = choose|a: int, b: int|
            0 <= a < b < nodes.len() && collides(#[trigger] nodes[a], #[trigger] nodes[b], cfg);
        lemma_collisions_complete(nodes, cfg, a, b);
    }
}

/// A step among circles of radii that are not negative reports convergence
/// exactly if no two circles collide.
pub proof fn lemma_converged_iff_separate(m: Seq<i64>, cfg: Settings, jitters: Seq<(i64, i64)>)
    requires
        step_outcome(m, cfg, jitters) is Ok,
        radii_not_negative(nodes_of(m), cfg),
    ensures
        step_outcome(m, cfg, jitters)->Ok_0.1 <==> separate(nodes_of(m), cfg),
{
    lemma_no_collision_iff_separate(nodes_of(m), cfg);
}

/// Without a collision no correction accumulates, so that a step leaves the
/// buffer as it is and reports convergence.
pub proof fn lemma_no_collision_outcome(m: Seq<i64>, cfg: Settings, jitters: Seq<(i64, i64)>)
    requires
        settings_ok(cfg),
        jitters_ok(jitters),
        buffer_error(m) is None,
        layout_collisions(nodes_of(m), cfg).len() == 0,
    ensures
        step_outcome(m, cfg, jitters) == Ok::<(Seq<i64>, bool), LayoutError>(
            (m, true),
        ),
{
    let nodes = nodes_of(m);
    let sums = layout_deltas(nodes, cfg, jitters);
    let speed = cfg.speed as int;
    lemma_buffer_nodes_ok(m);
    assert(step_of(0, speed) == 0) by {
        assert(0int * speed == 0);
    }
    assert forall|i: int| 0 <= i < nodes.len() implies target(nodes[i], sums[i], speed) == (
        nodes[i].x as int,
        nodes[i].y as int,
    ) by {
        assert(sums[i] == (0int, 0int));
    }
    assert(reachable(nodes, sums, speed));
    assert(moved(nodes, sums, speed) =~= nodes);
    lemma_flat_of_nodes(m);
}

/// A step among nodes of which no two collide leaves the buffer unchanged and
/// reports convergence.
pub proof fn lemma_separate_nodes_stay(m: Seq<i64>, cfg: Settings, jitters: Seq<(i64, i64)>)
    requires
        settings_ok(cfg),
        jitters_ok(jitters),
        buffer_error(m) is None,
        separate(nodes_of(m), cfg),
    ensures
        step_outcome(m, cfg, jitters) == Ok::<(Seq<i64>, bool), LayoutError>(
            (m, true),
        ),
{
    let nodes = nodes_of(m);
    let hits = layout_collisions(nodes, cfg);
    if hits.len() > 0 {
        assert(hits.contains(hits[0]));
        lemma_collisions_sound(nodes, cfg, hits[0]);
    }
    lemma_no_collision_outcome(m, cfg, jitters);
}

/// A step that reports convergence has left the buffer unchanged, and every
/// further step on that buffer, whatever its jitter, leaves it unchanged and
/// reports convergence again.
pub proof fn lemma_converged_is_fixed_point(
    m: Seq<i64>,
    cfg: Settings,
    jitters: Seq<(i64, i64)>,
    again: Seq<(i64, i64)>,
)
    requires
        step_outcome(m, cfg, jitters) is Ok,
        step_outcome(m, cfg, jitters)->Ok_0.1,
        jitters_ok(again),
    ensures
        step_outcome(m, cfg, jitters)->Ok_0.0 == m,
        step_outcome(m, cfg, again) == Ok::<(Seq<i64>, bool), LayoutError>(
            (m, true),
        ),
{
    lemma_no_collision_outcome(m, cfg, jitters);
    lemma_no_collision_outcome(m, cfg, again);
}

/// A node that is the later node of no collision has no correction.
pub proof fn lemma_untouched_delta(
    nodes: Seq<Node>,
    hits: Seq<(int, int)>,
    jitters: Seq<(i64, i64)>,
    width: int,
    height: int,
    i: int,
)
    requires
        pairs_in_range(hits, nodes.len() as int),
        0 <= i < nodes.len(),
        forall|k: int| 0 <= k < hits.len() ==> (#[trigger] hits[k]).1 != i,
    ensures
        deltas(nodes, hits, jitters, width, height)[i] == (0int, 0int),
    decreases hits.len(),
{
    if hits.len() > 0 {
        let front = hits.drop_last();
        assert forall|k: int| 0 <= k < front.len() implies 0 <= (#[trigger] front[k]).0
            < nodes.len() && 0 <= front[k].1 < nodes.len() && front[k].1 != i by {
            assert(front[k] == hits[k]);
        }
        lemma_untouched_delta(nodes, front, jitters, width, height, i);
        lemma_deltas_len(nodes, front, jitters, width, height);
        assert(hits[hits.len() - 1].1 != i);
    }
}

/// In a collision only the later node is corrected: a step moves no node
/// that is the later node of none of its collisions, and changes no radius.
pub proof fn lemma_only_later_nodes_move(
    m: Seq<i64>,
    cfg: Settings,
    jitters: Seq<(i64, i64)>,
    i: int,
)
    requires
        step_outcome(m, cfg, jitters) is Ok,
        0 <= i < nodes_of(m).len(),
    ensures
        nodes_of(step_outcome(m, cfg, jitters)->Ok_0.0).len() == nodes_of(m).len(),
        nodes_of(step_outcome(m, cfg, jitters)->Ok_0.0)[i].radius == nodes_of(m)[i].radius,
        (forall|k: int|
            0 <= k < layout_collisions(nodes_of(m), cfg).len() ==> (#[trigger] layout_collisions(
                nodes_of(m),
                cfg,
            )[k]).1 != i) ==> nodes_of(step_outcome(m, cfg, jitters)->Ok_0.0)[i] == nodes_of(m)[i],
{
    let nodes = nodes_of(m);
    let hits = layout_collisions(nodes, cfg);
    let sums = layout_deltas(nodes, cfg, jitters);
    let speed = cfg.speed as int;
    let after = moved(nodes, sums, speed);
    lemma_nodes_of_flat(after);
    lemma_buffer_nodes_ok(m);
    if forall|k: int| 0 <= k < hits.len() ==> (#[trigger] hits[k]).1 != i {
        lemma_collisions_in_range(nodes, cfg);
        lemma_untouched_delta(
            nodes,
            hits,
            jitters,
            tight_box(nodes, cfg).width(),
            tight_box(nodes, cfg).height(),
            i,
        );
        assert(step_of(0, speed) == 0) by {
            assert(0int * speed == 0);
        }
        assert(target(nodes[i], sums[i], speed) == (nodes[i].x as int, nodes[i].y as int));
        assert(after[i] == nodes[i]);
    }
}

/// The first node of a store is the later node of no collision: no step moves it.
pub proof fn lemma_first_node_stays(m: Seq<i64>, cfg: Settings, jitters: Seq<(i64, i64)>)
    requires
        step_outcome(m, cfg, jitters) is Ok,
        nodes_of(m).len() > 0,
    ensures
        nodes_of(step_outcome(m, cfg, jitters)->Ok_0.0)[0] == nodes_of(m)[0],
{
    let nodes = nodes_of(m);
    let hits = layout_collisions(nodes, cfg);
    assert forall|k: int| 0 <= k < hits.len() implies (#[trigger] hits[k]).1 != 0 by {
        assert(hits.contains(hits[k]));
        lemma_collisions_sound(nodes, cfg, hits[k]);
    }
    lemma_only_later_nodes_move(m, cfg, jitters, 0);
}

/// The corrections of a step depend on the jitter only through the pairs that
/// its coincident collisions consume.
pub proof fn lemma_deltas_use_leading_jitter(
    nodes: Seq<Node>,
    hits: Seq<(int, int)>,
    first: Seq<(i64, i64)>,
    second: Seq<(i64, i64)>,
    width: int,
    height: int,
)
    requires
        forall|k: int| 0 <= k < coincident_count(nodes, hits) ==> first[k] == second[k],
    ensures
        deltas(nodes, hits, first, width, height) == deltas(nodes, hits, second, width, height),
    decreases hits.len(),
{
    if hits.len() > 0 {
        lemma_deltas_use_leading_jitter(nodes, hits.drop_last(), first, second, width, height);
    }
}

/// Jitter beyond what a step consumes is left unused: two steps whose jitter
/// agrees on the pairs consumed have the same outcome.
pub proof fn lemma_spare_jitter_is_unused(
    m: Seq<i64>,
    cfg: Settings,
    first: Seq<(i64, i64)>,
    second: Seq<(i64, i64)>,
)
    requires
        jitters_ok(first),
        jitters_ok(second),
        first.len() >= jitter_demand(m, cfg),
        second.len() >= jitter_demand(m, cfg),
        forall|k: int| 0 <= k < jitter_demand(m, cfg) ==> first[k] == second[k],
    ensures
        step_outcome(m, cfg, first) == step_outcome(m, cfg, second),
{
    if settings_ok(cfg) && buffer_error(m) is None {
        let nodes = nodes_of(m);
        lemma_deltas_use_leading_jitter(
            nodes,
            layout_collisions(nodes, cfg),
            first,
            second,
            tight_box(nodes, cfg).width(),
            tight_box(nodes, cfg).height(),
        );
    }
}

/// Coincident circles whose inflated radii sum to more than zero collide.
pub proof fn lemma_coincident_circles_collide(a: Node, b: Node, cfg: Settings)
    requires
        coincident(a, b),
        inflated(a, cfg) + inflated(b, cfg) > 0,
    ensures
        collides(a, b, cfg),
{
    let reach = inflated(a, cfg) + inflated(b, cfg);
    assert(reach * reach > 0) by (nonlinear_arith)
        requires
            reach > 0,
    ;
    let dx = b.x - a.x;
    let dy = b.y - a.y;
    assert(dx * dx + dy * dy == 0) by (nonlinear_arith)
        requires
            dx == 0,
            dy == 0,
    ;
}

/// Collisions that hold a collision of coincident nodes count at least one such.
pub proof fn lemma_coincident_counted(nodes: Seq<Node>, hits: Seq<(int, int)>, p: (int, int))
    requires
        hits.contains(p),
        coincident(nodes[p.0], nodes[p.1]),
    ensures
        coincident_count(nodes, hits) >= 1,
    decreases hits.len(),
{
    if hits.last() != p {
        let k = choose|k: int| 0 <= k < hits.len() && hits[k] == p;
        assert(hits.drop_last()[k] == p);
        lemma_coincident_counted(nodes, hits.drop_last(), p);
    }
}

/// As long as two circles of radii that are not negative, and not both zero,
/// lie on one point, a step consumes jitter and does not report convergence.
pub proof fn lemma_coincident_nodes_are_nudged(
    m: Seq<i64>,
    cfg: Settings,
    jitters: Seq<(i64, i64)>,
    a: int,
    b: int,
)
    requires
        step_outcome(m, cfg, jitters) is Ok,
        0 <= a < b < nodes_of(m).len(),
        coincident(nodes_of(m)[a], nodes_of(m)[b]),
        inflated(nodes_of(m)[a], cfg) >= 0,
        inflated(nodes_of(m)[b], cfg) >= 0,
        inflated(nodes_of(m)[a], cfg) + inflated(nodes_of(m)[b], cfg) > 0,
    ensures
        !step_outcome(m, cfg, jitters)->Ok_0.1,
        jitter_demand(m, cfg) >= 1,
        layout_collisions(nodes_of(m), cfg).contains((a, b)),
{
    let nodes = nodes_of(m);
    lemma_coincident_circles_collide(nodes[a], nodes[b], cfg);
    lemma_collisions_complete(nodes, cfg, a, b);
    lemma_coincident_counted(nodes, layout_collisions(nodes, cfg), (a, b));
}

/// The raw values of a buffer of floats lie within the limit.
pub proof fn lemma_decoded_in_limit(bits: Seq<u32>)
    requires
        all_decodable(bits),
        bits.len() % 3 == 0,
        bits.len() / 3 <= u32::MAX,
    ensures
        buffer_error(decoded(bits)) is None,
{
    let m = decoded(bits);
    assert forall|k: int| 0 <= k < m.len() implies crate::store::in_limit(
        #[trigger] m[k] as int,
    ) by {
        assert(float_raw(bits[k]) is Some);
        lemma_float_raw_in_limit(bits[k]);
    }
}

/// A step on a host's buffer among circles of which no two collide leaves
/// every float as it is, bit for bit, and reports convergence.
pub proof fn lemma_separate_floats_stay(cfg: Settings, bits: Seq<u32>, jitters: Seq<(i64, i64)>)
    requires
        settings_ok(cfg),
        jitters_ok(jitters),
        bits.len() % 3 == 0,
        bits.len() / 3 <= u32::MAX,
        all_decodable(bits),
        separate(nodes_of(decoded(bits)), cfg),
    ensures
        float_outcome(Some(cfg), bits, jitters) == Ok::<(Seq<u32>, bool), LayoutError>(
            (bits, true),
        ),
{
    let m = decoded(bits);
    lemma_decoded_in_limit(bits);
    lemma_separate_nodes_stay(m, cfg, jitters);
    assert(stored(bits, m, m) =~= bits);
}

/// A step on a host's buffer that reports convergence has left every float as
/// it is, and every further step on that buffer does so again.
pub proof fn lemma_converged_floats_are_fixed_point(
    cfg: Option<Settings>,
    bits: Seq<u32>,
    jitters: Seq<(i64, i64)>,
    again: Seq<(i64, i64)>,
)
    requires
        float_outcome(cfg, bits, jitters) is Ok,
        float_outcome(cfg, bits, jitters)->Ok_0.1,
        jitters_ok(again),
    ensures
        float_outcome(cfg, bits, jitters)->Ok_0.0 == bits,
        float_outcome(cfg, bits, again) == Ok::<(Seq<u32>, bool), LayoutError>((bits, true)),
{
    let m = decoded(bits);
    lemma_converged_is_fixed_point(m, cfg->Some_0, jitters, again);
    assert(stored(bits, m, m) =~= bits);
}

/// A step leaves no float in a host's buffer that is not a number: the
/// floats it stores are nearest floats of raw values, the others were numbers
/// before.
pub proof fn lemma_stored_floats_are_numbers(
    cfg: Option<Settings>,
    bits: Seq<u32>,
    jitters: Seq<(i64, i64)>,
    k: int,
)
    requires
        float_outcome(cfg, bits, jitters) is Ok,
        0 <= k < bits.len(),
    ensures
        float_outcome(cfg, bits, jitters)->Ok_0.0.len() == bits.len(),
        float_is_finite(float_outcome(cfg, bits, jitters)->Ok_0.0[k]),
{
    let m = decoded(bits);
    let after = step_outcome(m, cfg->Some_0, jitters)->Ok_0.0;
    assert(float_raw(bits[k]) is Some);
    lemma_float_bits_finite(after[k]);
}

/// The sum of the corrections that the nodes below `k` which collide with node
/// `i` push onto it: each pushes along the line from its centre to that of
/// node `i`, with the length one plus its stored radius.
pub open spec fn push_sum(nodes: Seq<Node>, cfg: Settings, i: int, k: int) -> (int, int)
    decreases k,
{
    if k <= 0 {
        (0, 0)
    } else {
        let rest = push_sum(nodes, cfg, i, k - 1);
        if collides(nodes[k - 1], nodes[i], cfg) {
            (rest.0 + shove(nodes[k - 1], nodes[i]).0, rest.1 + shove(nodes[k - 1], nodes[i]).1)
        } else {
            rest
        }
    }
}

/// The sum of the corrections onto node `i` of the nodes below `k` that the
/// pairs `hits` hold together with it.
pub open spec fn picked_sum(nodes: Seq<Node>, hits: Seq<(int, int)>, i: int, k: int) -> (int, int)
    decreases k,
{
    if k <= 0 {
        (0, 0)
    } else {
        let rest = picked_sum(nodes, hits, i, k - 1);
        if hits.contains((k - 1, i)) {
            (rest.0 + shove(nodes[k - 1], nodes[i]).0, rest.1 + shove(nodes[k - 1], nodes[i]).1)
        } else {
            rest
        }
    }
}

/// No two nodes that collide lie on one point.
pub open spec fn no_coincident_collision(nodes: Seq<Node>, cfg: Settings) -> bool {
    forall|a: int, b: int|
        0 <= a < b < nodes.len() && collides(#[trigger] nodes[a], #[trigger] nodes[b], cfg)
            ==> !coincident(nodes[a], nodes[b])
}

/// One more pair adds its correction to the picked sum of its later node, and
/// to no other.
pub proof fn lemma_picked_push(
    nodes: Seq<Node>,
    front: Seq<(int, int)>,
    last: (int, int),
    i: int,
    k: int,
)
    requires
        !front.contains(last),
    ensures
        picked_sum(nodes, front.push(last), i, k) == if last.1 == i && 0 <= last.0 < k {
            (
                picked_sum(nodes, front, i, k).0 + shove(nodes[last.0], nodes[i]).0,
                picked_sum(nodes, front, i, k).1 + shove(nodes[last.0], nodes[i]).1,
            )
        } else {
            picked_sum(nodes, front, i, k)
        },
    decreases k,
{
    if k > 0 {
        lemma_picked_push(nodes, front, last, i, k - 1);
        vstd::seq_lib::lemma_seq_contains_after_push(front, last, (k - 1, i));
    }
}

/// The corrections that a sequence of different collisions at distinct points
/// accumulates on a node are the picked sum of that node: the order of the
/// collisions does not matter.
pub proof fn lemma_deltas_are_picked(
    nodes: Seq<Node>,
    hits: Seq<(int, int)>,
    jitters: Seq<(i64, i64)>,
    width: int,
    height: int,
    i: int,
)
    requires
        hits.no_duplicates(),
        0 <= i < nodes.len(),
        forall|k: int|
            0 <= k < hits.len() ==> 0 <= (#[trigger] hits[k]).0 < hits[k].1 < nodes.len()
                && !coincident(nodes[hits[k].0], nodes[hits[k].1]),
    ensures
        deltas(nodes, hits, jitters, width, height)[i] == picked_sum(nodes, hits, i, i),
    decreases hits.len(),
{
    if hits.len() > 0 {
        let front = hits.drop_last();
        let last = hits.last();
        assert(hits =~= front.push(last));
        assert forall|k: int| 0 <= k < front.len() implies 0 <= (#[trigger] front[k]).0
            < front[k].1 < nodes.len() && !coincident(nodes[front[k].0], nodes[front[k].1]) by {
            assert(front[k] == hits[k]);
        }
        assert(front.no_duplicates()) by {
            assert forall|x: int, y: int|
                0 <= x < front.len() && 0 <= y < front.len() && x != y implies front[x]
                != front[y] by {
                assert(front[x] == hits[x] && front[y] == hits[y]);
            }
        }
        assert(!front.contains(last)) by {
            if front.contains(last) {
                let q = choose|q: int| 0 <= q < front.len() && front[q] == last;
                assert(hits[q] == hits[hits.len() - 1]);
            }
        }
        assert(pairs_in_range(front, nodes.len() as int));
        lemma_deltas_are_picked(nodes, front, jitters, width, height, i);
        lemma_deltas_len(nodes, front, jitters, width, height);
        lemma_picked_push(nodes, front, last, i, i);
        assert(0 <= hits[hits.len() - 1].0 < hits[hits.len() - 1].1 < nodes.len());
    } else {
        lemma_picked_none(nodes, hits, i, i);
    }
}

/// Without pairs nothing is picked.
proof fn lemma_picked_none(nodes: Seq<Node>, hits: Seq<(int, int)>, i: int, k: int)
    requires
        hits.len() == 0,
    ensures
        picked_sum(nodes, hits, i, k) == (0int, 0int),
    decreases k,
{
    if k > 0 {
        lemma_picked_none(nodes, hits, i, k - 1);
        if hits.contains((k - 1, i)) {
            let q = choose|q: int| 0 <= q < hits.len() && hits[q] == (k - 1, i);
        }
    }
}

/// Where the pairs with node `i` are the collisions with it, the picked sum is
/// the sum over the nodes that collide with it.
pub proof fn lemma_picked_is_push_sum(
    nodes: Seq<Node>,
    cfg: Settings,
    hits: Seq<(int, int)>,
    i: int,
    k: int,
)
    requires
        forall|j: int| 0 <= j < k ==> (#[trigger] hits.contains((j, i)) <==> collides(
            nodes[j],
            nodes[i],
            cfg,
        )),
    ensures
        picked_sum(nodes, hits, i, k) == push_sum(nodes, cfg, i, k),
    decreases k,
{
    if k > 0 {
        lemma_picked_is_push_sum(nodes, cfg, hits, i, k - 1);
        assert(hits.contains((k - 1, i)) <==> collides(nodes[k - 1], nodes[i], cfg));
    }
}

/// Among circles of radii that are not negative of which no two that collide
/// lie on one point, the correction of a node is the sum, over the earlier
/// nodes that collide with it, of their pushes: whatever the grid and the
/// order in which the collisions are found.
pub proof fn lemma_corrections_are_sums(
    nodes: Seq<Node>,
    cfg: Settings,
    jitters: Seq<(i64, i64)>,
    i: int,
)
    requires
        cfg.grid_size >= 1,
        radii_not_negative(nodes, cfg),
        no_coincident_collision(nodes, cfg),
        0 <= i < nodes.len(),
    ensures
        layout_deltas(nodes, cfg, jitters)[i] == push_sum(nodes, cfg, i, i),
        coincident_count(nodes, layout_collisions(nodes, cfg)) == 0,
{
    let hits = layout_collisions(nodes, cfg);
    lemma_collisions_once(nodes, cfg);
    assert forall|k: int| 0 <= k < hits.len() implies 0 <= (#[trigger] hits[k]).0 < hits[k].1
        < nodes.len() && !coincident(nodes[hits[k].0], nodes[hits[k].1]) by {
        assert(hits.contains(hits[k]));
        lemma_collisions_sound(nodes, cfg, hits[k]);
    }
    lemma_deltas_are_picked(
        nodes,
        hits,
        jitters,
        tight_box(nodes, cfg).width(),
        tight_box(nodes, cfg).height(),
        i,
    );
    assert forall|j: int| 0 <= j < i implies (#[trigger] hits.contains((j, i)) <==> collides(
        nodes[j],
        nodes[i],
        cfg,
    )) by {
        lemma_collisions_are_the_overlaps(nodes, cfg, j, i);
    }
    lemma_picked_is_push_sum(nodes, cfg, hits, i, i);
    lemma_none_coincident(nodes, hits);
}

/// Collisions at distinct points count no coincident one.
proof fn lemma_none_coincident(nodes: Seq<Node>, hits: Seq<(int, int)>)
    requires
        forall|k: int|
            0 <= k < hits.len() ==> !coincident(
                nodes[(#[trigger] hits[k]).0],
                nodes[hits[k].1],
            ),
    ensures
        coincident_count(nodes, hits) == 0,
    decreases hits.len(),
{
    if hits.len() > 0 {
        let front = hits.drop_last();
        assert forall|k: int| 0 <= k < front.len() implies !coincident(
            nodes[(#[trigger] front[k]).0],
            nodes[front[k].1],
        ) by {
            assert(front[k] == hits[k]);
        }
        lemma_none_coincident(nodes, front);
        assert(!coincident(nodes[hits[hits.len() - 1].0], nodes[hits[hits.len() - 1].1]));
    }
}

/// The closed form of a step among circles of radii that are not negative of
/// which no two that collide lie on one point: every node moves by a tenth of
/// the speed times the sum of the pushes of the earlier nodes that collide
/// with it, and keeps its radius. The first node has no earlier node and
/// stays; in a lone collision only the later node moves, away from the earlier.
pub proof fn lemma_step_formula(m: Seq<i64>, cfg: Settings, jitters: Seq<(i64, i64)>, i: int)
    requires
        step_outcome(m, cfg, jitters) is Ok,
        radii_not_negative(nodes_of(m), cfg),
        no_coincident_collision(nodes_of(m), cfg),
        0 <= i < nodes_of(m).len(),
    ensures
        nodes_of(step_outcome(m, cfg, jitters)->Ok_0.0).len() == nodes_of(m).len(),
        nodes_of(step_outcome(m, cfg, jitters)->Ok_0.0)[i].x == nodes_of(m)[i].x + step_of(
            push_sum(nodes_of(m), cfg, i, i).0,
            cfg.speed as int,
        ),
        nodes_of(step_outcome(m, cfg, jitters)->Ok_0.0)[i].y == nodes_of(m)[i].y + step_of(
            push_sum(nodes_of(m), cfg, i, i).1,
            cfg.speed as int,
        ),
        nodes_of(step_outcome(m, cfg, jitters)->Ok_0.0)[i].radius == nodes_of(m)[i].radius,
{
    let nodes = nodes_of(m);
    let sums = layout_deltas(nodes, cfg, jitters);
    let speed = cfg.speed as int;
    let after = moved(nodes, sums, speed);
    lemma_nodes_of_flat(after);
    lemma_corrections_are_sums(nodes, cfg, jitters, i);
    assert(in_limit(target(nodes[i], sums[i], speed).0));
    assert(in_limit(target(nodes[i], sums[i], speed).1));
}

/// The sum of the pushes onto a node depends on the parameters only through
/// the ratio and the margin.
pub proof fn lemma_push_sum_ignores_grid(
    nodes: Seq<Node>,
    first: Settings,
    second: Settings,
    i: int,
    k: int,
)
    requires
        first.ratio == second.ratio,
        first.margin == second.margin,
    ensures
        push_sum(nodes, first, i, k) == push_sum(nodes, second, i, k),
    decreases k,
{
    if k > 0 {
        lemma_push_sum_ignores_grid(nodes, first, second, i, k - 1);
    }
}

/// The grid size changes no step among circles of radii that are not negative
/// of which no two that collide lie on one point: a node that lies in several
/// cells is pushed by every node that collides with it, by each once, and two
/// steps that differ in the grid size alone give the same buffer and flag.
pub proof fn lemma_grid_size_changes_no_step(
    m: Seq<i64>,
    cfg: Settings,
    grid_size: u32,
    jitters: Seq<(i64, i64)>,
)
    requires
        settings_ok(cfg),
        1 <= grid_size <= MAX_GRID,
        jitters_ok(jitters),
        radii_not_negative(nodes_of(m), cfg),
        no_coincident_collision(nodes_of(m), cfg),
    ensures
        step_outcome(m, cfg, jitters) == step_outcome(
            m,
            (Settings { grid_size, ..cfg }),
            jitters,
        ),
{
    let other = Settings { grid_size, ..cfg };
    let nodes = nodes_of(m);
    if buffer_error(m) is None {
        assert(radii_not_negative(nodes, other)) by {
            assert forall|i: int| 0 <= i < nodes.len() implies inflated(
                #[trigger] nodes[i],
                other,
            ) >= 0 by {
                assert(inflated(nodes[i], cfg) >= 0);
            }
        }
        assert(no_coincident_collision(nodes, other)) by {
            assert forall|a: int, b: int|
                0 <= a < b < nodes.len() && collides(
                    #[trigger] nodes[a],
                    #[trigger] nodes[b],
                    other,
                ) implies !coincident(nodes[a], nodes[b]) by {
                assert(collides(nodes[a], nodes[b], cfg));
            }
        }
        assert(separate(nodes, cfg) <==> separate(nodes, other)) by {
            if separate(nodes, cfg) {
                assert forall|a: int, b: int| 0 <= a < b < nodes.len() implies !collides(
                    #[trigger] nodes[a],
                    #[trigger] nodes[b],
                    other,
                ) by {
                    assert(!collides(nodes[a], nodes[b], cfg));
                }
            }
            if separate(nodes, other) {
                assert forall|a: int, b: int| 0 <= a < b < nodes.len() implies !collides(
                    #[trigger] nodes[a],
                    #[trigger] nodes[b],
                    cfg,
                ) by {
                    assert(!collides(nodes[a], nodes[b], other));
                }
            }
        }
        lemma_no_collision_iff_separate(nodes, cfg);
        lemma_no_collision_iff_separate(nodes, other);
        let one = layout_deltas(nodes, cfg, jitters);
        let two = layout_deltas(nodes, other, jitters);
        lemma_collisions_in_range(nodes, cfg);
        lemma_collisions_in_range(nodes, other);
        lemma_deltas_len(
            nodes,
            layout_collisions(nodes, cfg),
            jitters,
            tight_box(nodes, cfg).width(),
            tight_box(nodes, cfg).height(),
        );
        lemma_deltas_len(
            nodes,
            layout_collisions(nodes, other),
            jitters,
            tight_box(nodes, other).width(),
            tight_box(nodes, other).height(),
        );
        assert forall|i: int| 0 <= i < nodes.len() implies one[i] == two[i] by {
            lemma_corrections_are_sums(nodes, cfg, jitters, i);
            lemma_corrections_are_sums(nodes, other, jitters, i);
            lemma_push_sum_ignores_grid(nodes, cfg, other, i, i);
        }
        assert(one =~= two);
        if nodes.len() > 0 {
            lemma_corrections_are_sums(nodes, cfg, jitters, 0);
            lemma_corrections_are_sums(nodes, other, jitters, 0);
        } else {
            lemma_none_coincident(nodes, layout_collisions(nodes, cfg));
            lemma_none_coincident(nodes, layout_collisions(nodes, other));
        }
    }
}

/// A step on two coincident circles of radii that are not negative, and not
/// both zero, with the jitter pair as input: the flag is cleared, the first
/// node stays, and the second moves along each axis by a tenth of the speed
/// times the extent of the tight box times the jitter value, keeping its radius.
pub proof fn lemma_coincident_pair_step(m: Seq<i64>, cfg: Settings, jitters: Seq<(i64, i64)>)
    requires
        step_outcome(m, cfg, jitters) is Ok,
        nodes_of(m).len() == 2,
        coincident(nodes_of(m)[0], nodes_of(m)[1]),
        inflated(nodes_of(m)[0], cfg) >= 0,
        inflated(nodes_of(m)[1], cfg) >= 0,
        inflated(nodes_of(m)[0], cfg) + inflated(nodes_of(m)[1], cfg) > 0,
    ensures
        !step_outcome(m, cfg, jitters)->Ok_0.1,
        jitter_demand(m, cfg) == 1,
        nodes_of(step_outcome(m, cfg, jitters)->Ok_0.0).len() == 2,
        nodes_of(step_outcome(m, cfg, jitters)->Ok_0.0)[0] == nodes_of(m)[0],
        nodes_of(step_outcome(m, cfg, jitters)->Ok_0.0)[1].radius == nodes_of(m)[1].radius,
        nodes_of(step_outcome(m, cfg, jitters)->Ok_0.0)[1].x == nodes_of(m)[1].x + step_of(
            scale(tight_box(nodes_of(m), cfg).width(), jitters[0].0 as int),
            cfg.speed as int,
        ),
        nodes_of(step_outcome(m, cfg, jitters)->Ok_0.0)[1].y == nodes_of(m)[1].y + step_of(
            scale(tight_box(nodes_of(m), cfg).height(), jitters[0].1 as int),
            cfg.speed as int,
        ),
{
    let nodes = nodes_of(m);
    let hits = layout_collisions(nodes, cfg);
    let speed = cfg.speed as int;
    let width = tight_box(nodes, cfg).width();
    let height = tight_box(nodes, cfg).height();
    lemma_coincident_nodes_are_nudged(m, cfg, jitters, 0, 1);
    lemma_collisions_once(nodes, cfg);
    assert forall|k: int| 0 <= k < hits.len() implies #[trigger] hits[k] == (0int, 1int) by {
        assert(hits.contains(hits[k]));
        lemma_collisions_sound(nodes, cfg, hits[k]);
    }
    if hits.len() >= 2 {
        assert(hits[0] == hits[1]);
    }
    assert(hits =~= seq![(0int, 1int)]);
    let none = hits.drop_last();
    assert(none =~= Seq::<(int, int)>::empty());
    assert(coincident_count(nodes, none) == 0);
    assert(coincident_count(nodes, hits) == 1);
    let zero = deltas(nodes, none, jitters, width, height);
    assert(zero =~= Seq::new(nodes.len(), |i: int| (0int, 0int)));
    let sums = layout_deltas(nodes, cfg, jitters);
    assert(sums == zero.update(1, (scale(width, jitters[0].0 as int), scale(
        height,
        jitters[0].1 as int,
    ))));
    let after = moved(nodes, sums, speed);
    lemma_nodes_of_flat(after);
    assert(step_of(0, speed) == 0) by {
        assert(0int * speed == 0);
    }
    assert(in_limit(target(nodes[1], sums[1], speed).0));
    assert(in_limit(target(nodes[1], sums[1], speed).1));
    assert(in_limit(target(nodes[0], sums[0], speed).0));
    lemma_buffer_nodes_ok(m);
    assert(after[0] == nodes[0]);
}

/// The tight box of two coincident circles of one radius is twice that radius
/// wide and high.
pub proof fn lemma_coincident_pair_box(nodes: Seq<Node>, cfg: Settings)
    requires
        nodes.len() == 2,
        coincident(nodes[0], nodes[1]),
        inflated(nodes[0], cfg) == inflated(nodes[1], cfg),
    ensures
        tight_box(nodes, cfg).width() == 2 * inflated(nodes[0], cfg),
        tight_box(nodes, cfg).height() == 2 * inflated(nodes[0], cfg),
{
    reveal_with_fuel(crate::bounds::least_upto, 3);
    reveal_with_fuel(crate::bounds::greatest_upto, 3);
    assert(crate::bounds::lefts(nodes, cfg)[0] == crate::bounds::lefts(nodes, cfg)[1]);
    assert(crate::bounds::rights(nodes, cfg)[0] == crate::bounds::rights(nodes, cfg)[1]);
    assert(crate::bounds::bottoms(nodes, cfg)[0] == crate::bounds::bottoms(nodes, cfg)[1]);
    assert(crate::bounds::tops(nodes, cfg)[0] == crate::bounds::tops(nodes, cfg)[1]);
}

/// The grid size changes no step on a host's buffer among circles of radii
/// that are not negative of which no two that collide lie on one point.
pub proof fn lemma_grid_size_changes_no_float_step(
    cfg: Settings,
    grid_size: u32,
    bits: Seq<u32>,
    jitters: Seq<(i64, i64)>,
)
    requires
        settings_ok(cfg),
        1 <= grid_size <= MAX_GRID,
        jitters_ok(jitters),
        all_decodable(bits),
        radii_not_negative(nodes_of(decoded(bits)), cfg),
        no_coincident_collision(nodes_of(decoded(bits)), cfg),
    ensures
        float_outcome(Some(cfg), bits, jitters) == float_outcome(
            Some((Settings { grid_size, ..cfg })),
            bits,
            jitters,
        ),
{
    lemma_grid_size_changes_no_step(decoded(bits), cfg, grid_size, jitters);
}

} // verus!
