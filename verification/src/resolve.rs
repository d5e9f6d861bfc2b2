//! Collision resolution: the correction that each collision adds to its later
//! node, and the sum of the corrections of a step.

use vstd::prelude::*;
use crate::collide::{dist2, pairs_view};
use crate::fixed::{
    floor_sqrt, is_floor_sqrt, isqrt, lemma_product_bound, lemma_quot_shrinks, quot, quotient,
    scale, JITTER_SPAN, UNIT,
};
use crate::store::{in_limit, nodes_ok, Node};

verus! {

/// No single correction has a component of larger magnitude.
pub const PUSH_BOUND: i128 = 20_000_000_000_000_000;

/// No extent of a tight bounding box has a larger magnitude.
pub const SPAN_BOUND: i128 = 4_000_000_000_000_000_000;

/// Two nodes whose centres are the same point.
pub open spec fn coincident(a: Node, b: Node) -> bool {
    a.x == b.x && a.y == b.y
}

/// The correction of the later node `b` in a collision with `a` at another
/// point: along the line from `a` to `b`, with the length one plus the stored
/// radius of `a`.
pub open spec fn shove(a: Node, b: Node) -> (int, int) {
    let dist = floor_sqrt(dist2(a, b));
    (
        quot((b.x - a.x) * (UNIT + a.radius), dist),
        quot((b.y - a.y) * (UNIT + a.radius), dist),
    )
}

/// The correction of the later node in a collision of coincident nodes: the
/// extents of the tight bounding box, each scaled by a jitter value.
pub open spec fn nudge(width: int, height: int, jitter: (i64, i64)) -> (int, int) {
    (scale(width, jitter.0 as int), scale(height, jitter.1 as int))
}

/// A jitter value lies strictly between minus and plus `JITTER_SPAN`.
pub open spec fn jitter_ok(j: (i64, i64)) -> bool {
    -JITTER_SPAN < j.0 < JITTER_SPAN && -JITTER_SPAN < j.1 < JITTER_SPAN
}

/// All jitter values of a sequence are valid.
pub open spec fn jitters_ok(jitters: Seq<(i64, i64)>) -> bool {
    forall|k: int| 0 <= k < jitters.len() ==> jitter_ok(#[trigger] jitters[k])
}

/// The number of collisions in `hits` whose two nodes are coincident.
pub open spec fn coincident_count(nodes: Seq<Node>, hits: Seq<(int, int)>) -> nat
    decreases hits.len(),
{
    if hits.len() == 0 {
        0
    } else {
        let earlier = coincident_count(nodes, hits.drop_last());
        if coincident(nodes[hits.last().0], nodes[hits.last().1]) {
            earlier + 1
        } else {
            earlier
        }
    }
}

/// The correction that the last collision of `hits` adds to its later node.
/// Coincident collisions take the jitter values in turn.
pub open spec fn last_push(
    nodes: Seq<Node>,
    hits: Seq<(int, int)>,
    jitters: Seq<(i64, i64)>,
    width: int,
    height: int,
) -> (int, int) {
    let a = nodes[hits.last().0];
    let b = nodes[hits.last().1];
    if coincident(a, b) {
        nudge(width, height, jitters[coincident_count(nodes, hits.drop_last()) as int])
    } else {
        shove(a, b)
    }
}

/// The accumulated correction of every node after the collisions `hits`: each
/// collision adds its correction to its later node, and to no other.
pub open spec fn deltas(
    nodes: Seq<Node>,
    hits: Seq<(int, int)>,
    jitters: Seq<(i64, i64)>,
    width: int,
    height: int,
) -> Seq<(int, int)>
    decreases hits.len(),
{
    if hits.len() == 0 {
        Seq::new(nodes.len(), |i: int| (0int, 0int))
    } else {
        let earlier = deltas(nodes, hits.drop_last(), jitters, width, height);
        let later = hits.last().1;
        let push = last_push(nodes, hits, jitters, width, height);
        earlier.update(later, (earlier[later].0 + push.0, earlier[later].1 + push.1))
    }
}

/// Accumulated corrections as mathematical integers.
pub open spec fn deltas_view(d: Seq<(i128, i128)>) -> Seq<(int, int)> {
    d.map_values(|p: (i128, i128)| (p.0 as int, p.1 as int))
}

/// Both nodes of every pair are nodes of the store.
pub open spec fn pairs_in_range(hits: Seq<(int, int)>, n: int) -> bool {
    forall|k: int| 0 <= k < hits.len() ==> 0 <= (#[trigger] hits[k]).0 < n && 0 <= hits[k].1 < n
}

/// The accumulated corrections are one per node.
pub proof fn lemma_deltas_len(
    nodes: Seq<Node>,
    hits: Seq<(int, int)>,
    jitters: Seq<(i64, i64)>,
    width: int,
    height: int,
)
    requires
        pairs_in_range(hits, nodes.len() as int),
    ensures
        deltas(nodes, hits, jitters, width, height).len() == nodes.len(),
    decreases hits.len(),
{
    if hits.len() > 0 {
        assert(pairs_in_range(hits.drop_last(), nodes.len() as int)) by {
            assert forall|k: int| 0 <= k < hits.drop_last().len() implies 0 <= (
            #[trigger] hits.drop_last()[k]).0 < nodes.len() && 0 <= hits.drop_last()[k].1
                < nodes.len() by {
                assert(hits.drop_last()[k] == hits[k]);
            }
        }
        lemma_deltas_len(nodes, hits.drop_last(), jitters, width, height);
        assert(0 <= hits[hits.len() - 1].1 < nodes.len());
    }
}

/// Along each axis, two points are no further apart than their rounded-down distance.
pub proof fn lemma_offset_within_distance(dx: int, dy: int, dist: int)
    requires
        is_floor_sqrt(dx * dx + dy * dy, dist),
    ensures
        -dist <= dx <= dist,
        -dist <= dy <= dist,
        (dx != 0 || dy != 0) ==> dist >= 1,
{
    assert(-dist <= dx <= dist) by (nonlinear_arith)
        requires
            0 <= dist,
            dx * dx + dy * dy < (dist + 1) * (dist + 1),
    ;
    assert(-dist <= dy <= dist) by (nonlinear_arith)
        requires
            0 <= dist,
            dx * dx + dy * dy < (dist + 1) * (dist + 1),
    ;
}

/// The correction of a collision at distinct points stays within the bound on corrections.
pub proof fn lemma_shove_bound(a: Node, b: Node, dist: int)
    requires
        in_limit(a.x as int),
        in_limit(a.y as int),
        in_limit(a.radius as int),
        in_limit(b.x as int),
        in_limit(b.y as int),
        !coincident(a, b),
        is_floor_sqrt(dist2(a, b), dist),
    ensures
        dist >= 1,
        dist == floor_sqrt(dist2(a, b)),
        -PUSH_BOUND <= shove(a, b).0 <= PUSH_BOUND,
        -PUSH_BOUND <= shove(a, b).1 <= PUSH_BOUND,
        -(dist * 1_000_001_000_000) <= (b.x - a.x) * (UNIT + a.radius) <= dist
            * 1_000_001_000_000,
        -(dist * 1_000_001_000_000) <= (b.y - a.y) * (UNIT + a.radius) <= dist
            * 1_000_001_000_000,
{
    let dx = b.x - a.x;
    let dy = b.y - a.y;
    let weight = UNIT + a.radius;
    crate::fixed::lemma_floor_sqrt_is(dist2(a, b), dist);
    lemma_offset_within_distance(dx, dy, dist);
    lemma_product_bound(dx, weight, dist, 1_000_001_000_000);
    lemma_product_bound(dy, weight, dist, 1_000_001_000_000);
    lemma_quot_shrinks(dx * weight, dist, 1_000_001_000_000);
    lemma_quot_shrinks(dy * weight, dist, 1_000_001_000_000);
}

/// The correction of a collision of coincident nodes stays within the bound on corrections.
pub proof fn lemma_nudge_bound(width: int, height: int, jitter: (i64, i64))
    requires
        -SPAN_BOUND <= width <= SPAN_BOUND,
        -SPAN_BOUND <= height <= SPAN_BOUND,
        jitter_ok(jitter),
    ensures
        -PUSH_BOUND <= nudge(width, height, jitter).0 <= PUSH_BOUND,
        -PUSH_BOUND <= nudge(width, height, jitter).1 <= PUSH_BOUND,
        -20_000_000_000_000_000_000_000 <= width * jitter.0 <= 20_000_000_000_000_000_000_000,
        -20_000_000_000_000_000_000_000 <= height * jitter.1 <= 20_000_000_000_000_000_000_000,
{
    lemma_product_bound(width, jitter.0 as int, SPAN_BOUND as int, JITTER_SPAN as int);
    lemma_product_bound(height, jitter.1 as int, SPAN_BOUND as int, JITTER_SPAN as int);
    assert((SPAN_BOUND as int) * (JITTER_SPAN as int) == 20_000_000_000_000_000_000_000)
        by (nonlinear_arith);
    lemma_quot_shrinks(width * jitter.0, UNIT as int, PUSH_BOUND as int);
    lemma_quot_shrinks(height * jitter.1, UNIT as int, PUSH_BOUND as int);
}

/// The number of collisions whose two nodes are coincident.
pub fn count_coincident(nodes: &Vec<Node>, hits: &Vec<(u32, u32)>) -> (count: usize)
    requires
        pairs_in_range(pairs_view(hits@), nodes@.len() as int),
    ensures
        count == coincident_count(nodes@, pairs_view(hits@)),
{
    let ghost all = pairs_view(hits@);
    let mut count: usize = 0;
    let mut k: usize = 0;
    while k < hits.len()
        invariant
            k <= hits.len(),
            all == pairs_view(hits@),
            pairs_in_range(all, nodes@.len() as int),
            count == coincident_count(nodes@, all.take(k as int)),
            count <= k,
        decreases hits.len() - k,
    {
        let (i, j) = hits[k];
        proof {
            assert(all[k as int] == (i as int, j as int));
            assert(all.take(k + 1).drop_last() =~= all.take(k as int));
        }
        let a = nodes[i as usize];
        let b = nodes[j as usize];
        if a.x == b.x && a.y == b.y {
            count += 1;
        }
        k += 1;
    }
    proof {
        assert(all.take(hits.len() as int) =~= all);
    }
    count
}

/// Sums the corrections of the collisions `hits`, in order: each collision
/// adds to its later node, a coincident one by the next jitter value.
pub fn accumulate(
    nodes: &Vec<Node>,
    hits: &Vec<(u32, u32)>,
    jitters: &Vec<(i64, i64)>,
    width: i128,
    height: i128,
) -> (sums: Vec<(i128, i128)>)
    requires
        nodes_ok(nodes@),
        pairs_in_range(pairs_view(hits@), nodes@.len() as int),
        coincident_count(nodes@, pairs_view(hits@)) <= jitters@.len(),
        jitters_ok(jitters@),
        -SPAN_BOUND <= width <= SPAN_BOUND,
        -SPAN_BOUND <= height <= SPAN_BOUND,
    ensures
        deltas_view(sums@) == deltas(
            nodes@,
            pairs_view(hits@),
            jitters@,
            width as int,
            height as int,
        ),
        sums@.len() == nodes@.len(),
        forall|i: int|
            0 <= i < sums@.len() ==> -(hits@.len() * PUSH_BOUND) <= (#[trigger] sums@[i]).0
                <= hits@.len() * PUSH_BOUND && -(hits@.len() * PUSH_BOUND) <= sums@[i].1
                <= hits@.len() * PUSH_BOUND,
{
    let ghost all = pairs_view(hits@);
    let mut sums: Vec<(i128, i128)> = Vec::new();
    let mut i: usize = 0;
    while i < nodes.len()
        invariant
            i <= nodes.len(),
            sums@.len() == i,
            forall|k: int| 0 <= k < i ==> #[trigger] sums@[k] == (0i128, 0i128),
        decreases nodes.len() - i,
    {
        sums.push((0, 0));
        i += 1;
    }
    proof {
        assert(all.take(0) =~= Seq::empty());
        assert(deltas_view(sums@) =~= deltas(
            nodes@,
            all.take(0),
            jitters@,
            width as int,
            height as int,
        ));
    }
    let mut used: usize = 0;
    let mut k: usize = 0;
    while k < hits.len()
        invariant
            k <= hits.len(),
            all == pairs_view(hits@),
            nodes_ok(nodes@),
            pairs_in_range(all, nodes@.len() as int),
            coincident_count(nodes@, all) <= jitters@.len(),
            jitters_ok(jitters@),
            -SPAN_BOUND <= width <= SPAN_BOUND,
            -SPAN_BOUND <= height <= SPAN_BOUND,
            sums@.len() == nodes@.len(),
            used == coincident_count(nodes@, all.take(k as int)),
            deltas_view(sums@) == deltas(
                nodes@,
                all.take(k as int),
                jitters@,
                width as int,
                height as int,
            ),
            forall|i: int|
                0 <= i < sums@.len() ==> -(k * PUSH_BOUND) <= (#[trigger] sums@[i]).0 <= k
                    * PUSH_BOUND && -(k * PUSH_BOUND) <= sums@[i].1 <= k * PUSH_BOUND,
        decreases hits.len() - k,
    {
        let (first, second) = hits[k];
        let ghost prefix = all.take(k as int);
        let ghost next = all.take(k + 1);
        proof {
            assert(all[k as int] == (first as int, second as int));
            assert(next.drop_last() =~= prefix);
            assert(next.last() == all[k as int]);
            lemma_coincident_prefix(nodes@, all, k + 1);
        }
        let a = nodes[first as usize];
        let b = nodes[second as usize];
        let push: (i128, i128) = if a.x == b.x && a.y == b.y {
            assert(coincident(nodes@[next.last().0], nodes@[next.last().1]));
            assert(coincident_count(nodes@, next) == used + 1);
            assert(used < jitters.len());
            let jitter = jitters[used];
            proof {
                lemma_nudge_bound(width as int, height as int, jitter);
            }
            used += 1;
            (
                quotient(width * (jitter.0 as i128), UNIT as i128),
                quotient(height * (jitter.1 as i128), UNIT as i128),
            )
        } else {
            let dx: i128 = b.x as i128 - a.x as i128;
            let dy: i128 = b.y as i128 - a.y as i128;
            assert(0 <= dx * dx <= 4_000_000_000_000_000_000_000_000) by (nonlinear_arith)
                requires
                    -2_000_000_000_000 <= dx <= 2_000_000_000_000,
            ;
            assert(0 <= dy * dy <= 4_000_000_000_000_000_000_000_000) by (nonlinear_arith)
                requires
                    -2_000_000_000_000 <= dy <= 2_000_000_000_000,
            ;
            let dist: i128 = isqrt((dx * dx + dy * dy) as u128) as i128;
            let weight: i128 = UNIT as i128 + a.radius as i128;
            proof {
                lemma_shove_bound(a, b, dist as int);
                assert(dist * 1_000_001_000_000 <= 0xffff_ffff_ffff_ffff * 1_000_001_000_000);
            }
            (quotient(dx * weight, dist), quotient(dy * weight, dist))
        };
        proof {
            assert(push.0 as int == last_push(
                nodes@,
                next,
                jitters@,
                width as int,
                height as int,
            ).0);
            assert(push.1 as int == last_push(
                nodes@,
                next,
                jitters@,
                width as int,
                height as int,
            ).1);
        }
        let at: usize = second as usize;
        let current = sums[at];
        let ghost before = sums@;
        sums.set(at, (current.0 + push.0, current.1 + push.1));
        proof {
            assert(deltas_view(sums@) =~= deltas_view(before).update(
                at as int,
                (current.0 + push.0, current.1 + push.1),
            ));
            assert(deltas_view(before)[at as int] == (current.0 as int, current.1 as int));
        }
        k += 1;
    }
    proof {
        assert(all.take(hits.len() as int) =~= all);
    }
    sums
}

/// A prefix of the collisions holds no more coincident ones than the whole.
pub proof fn lemma_coincident_prefix(nodes: Seq<Node>, hits: Seq<(int, int)>, k: int)
    requires
        0 <= k <= hits.len(),
    ensures
        coincident_count(nodes, hits.take(k)) <= coincident_count(nodes, hits),
    decreases hits.len() - k,
{
    if k < hits.len() {
        lemma_coincident_prefix(nodes, hits, k + 1);
        assert(hits.take(k + 1).drop_last() =~= hits.take(k));
    } else {
        assert(hits.take(k) =~= hits);
    }
}

} // verus!
