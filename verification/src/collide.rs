//! Collision detection: which of the examined pairs overlap.

use vstd::prelude::*;
use vstd::seq_lib::lemma_seq_contains_after_push;
use crate::bounds::{inflate, inflated};
use crate::grid::{as_ints, grid_view};
use crate::pairs::{
    cell_pairs, distinct, examined, examined_of, lemma_distinct_push, lemma_rows_step,
    lemma_visits_step, row_pairs, rows, set_contents, sets_view, visits, visits_upto,
};
use crate::store::{in_limit, nodes_ok, Node, Settings};

verus! {

/// The square of the distance between the centres of two nodes.
pub open spec fn dist2(a: Node, b: Node) -> int {
    (b.x - a.x) * (b.x - a.x) + (b.y - a.y) * (b.y - a.y)
}

/// Two circles collide when the distance between their centres is less than
/// the sum of their inflated radii.
pub open spec fn collides(a: Node, b: Node, cfg: Settings) -> bool {
    let reach = inflated(a, cfg) + inflated(b, cfg);
    reach > 0 && dist2(a, b) < reach * reach
}

/// The test that tells whether the two nodes of a pair collide.
pub open spec fn hit_test(nodes: Seq<Node>, cfg: Settings) -> spec_fn((int, int)) -> bool {
    |p: (int, int)| collides(nodes[p.0], nodes[p.1], cfg)
}

/// The collisions of a step: the examined pairs that collide, in the order in
/// which they are examined.
pub open spec fn collisions(nodes: Seq<Node>, cfg: Settings, cells: Seq<Seq<int>>) -> Seq<
    (int, int),
> {
    examined(cells).filter(hit_test(nodes, cfg))
}

/// Pairs of node indices as mathematical integers.
pub open spec fn pairs_view(s: Seq<(u32, u32)>) -> Seq<(int, int)> {
    s.map_values(|p: (u32, u32)| (p.0 as int, p.1 as int))
}

/// Every member of every cell is the index of a node.
pub open spec fn members_in_range(cells: Seq<Seq<int>>, n: int) -> bool {
    forall|c: int, k: int|
        0 <= c < cells.len() && 0 <= k < cells[c].len() ==> 0 <= #[trigger] cells[c][k] < n
}

/// What holds, after the visits `vis`, of the collisions found and the keys
/// recorded: the set of an earlier node holds the later nodes met with it.
pub open spec fn scan_state(
    vis: Seq<(int, int)>,
    found: Seq<(int, int)>,
    seen: Seq<Set<u64>>,
    many_cells: bool,
    n: int,
    test: spec_fn((int, int)) -> bool,
) -> bool {
    &&& found == examined_of(vis, many_cells).filter(test)
    &&& forall|k: int| 0 <= k < vis.len() ==> 0 <= (#[trigger] vis[k]).0 < n && 0 <= vis[k].1 < n
    &&& many_cells ==> seen.len() == n && forall|a: int, b: int|
        0 <= a < n && 0 <= b < n ==> (seen[a].contains(b as u64) <==> #[trigger] vis.contains(
            (a, b),
        ))
}

/// One more visit keeps the scan's state: a pair that is already recorded is
/// passed over, another is recorded and, if it collides, added to the collisions.
pub proof fn lemma_visit(
    vis: Seq<(int, int)>,
    found: Seq<(int, int)>,
    seen: Seq<Set<u64>>,
    many_cells: bool,
    n: int,
    test: spec_fn((int, int)) -> bool,
    p: (int, int),
    known: bool,
)
    requires
        scan_state(vis, found, seen, many_cells, n, test),
        n <= u32::MAX,
        0 <= p.0 < n,
        0 <= p.1 < n,
        many_cells ==> known == seen[p.0].contains(p.1 as u64),
        !many_cells ==> !known,
    ensures
        scan_state(
            vis.push(p),
            if !known && test(p) {
                found.push(p)
            } else {
                found
            },
            if many_cells && !known {
                seen.update(p.0, seen[p.0].insert(p.1 as u64))
            } else {
                seen
            },
            many_cells,
            n,
            test,
        ),
{
    let vis2 = vis.push(p);
    if many_cells {
        assert(known == vis.contains(p));
        lemma_distinct_push(vis, p);
        if !known {
            distinct(vis).lemma_filter_push(p, test);
            let seen2 = seen.update(p.0, seen[p.0].insert(p.1 as u64));
            assert forall|a: int, b: int| 0 <= a < n && 0 <= b < n implies (seen2[a].contains(
                b as u64,
            ) <==> #[trigger] vis2.contains((a, b))) by {
                lemma_seq_contains_after_push(vis, p, (a, b));
                assert(seen[a].contains(b as u64) <==> vis.contains((a, b)));
            }
        } else {
            assert forall|a: int, b: int| 0 <= a < n && 0 <= b < n implies (seen[a].contains(
                b as u64,
            ) <==> #[trigger] vis2.contains((a, b))) by {
                lemma_seq_contains_after_push(vis, p, (a, b));
                assert(seen[a].contains(b as u64) <==> vis.contains((a, b)));
            }
        }
    } else {
        vis.lemma_filter_push(p, test);
    }
}

/// As many empty sets as there are nodes.
fn empty_sets(count: usize) -> (sets: Vec<tinyset::SetU64>)
    ensures
        sets@.len() == count,
        forall|a: int| 0 <= a < count ==> set_contents(&#[trigger] sets@[a]) == Set::<u64>::empty(),
{
    let mut sets: Vec<tinyset::SetU64> = Vec::new();
    let mut a: usize = 0;
    while a < count
        invariant
            a <= count,
            sets@.len() == a,
            forall|k: int| 0 <= k < a ==> set_contents(&#[trigger] sets@[k]) == Set::<u64>::empty(),
        decreases count - a,
    {
        sets.push(tinyset::SetU64::new());
        a += 1;
    }
    sets
}

/// Whether two circles collide.
pub fn overlap(a: &Node, b: &Node, cfg: &Settings) -> (hit: bool)
    requires
        in_limit(a.x as int),
        in_limit(a.y as int),
        in_limit(a.radius as int),
        in_limit(b.x as int),
        in_limit(b.y as int),
        in_limit(b.radius as int),
        in_limit(cfg.ratio as int),
        in_limit(cfg.margin as int),
    ensures
        hit == collides(*a, *b, *cfg),
{
    let reach: i128 = inflate(a, cfg) + inflate(b, cfg);
    if reach <= 0 {
        return false;
    }
    let dx: i128 = b.x as i128 - a.x as i128;
    let dy: i128 = b.y as i128 - a.y as i128;
    assert(0 <= dx * dx <= 4_000_000_000_000_000_000_000_000) by (nonlinear_arith)
        requires
            -2_000_000_000_000 <= dx <= 2_000_000_000_000,
    ;
    assert(0 <= dy * dy <= 4_000_000_000_000_000_000_000_000) by (nonlinear_arith)
        requires
            -2_000_000_000_000 <= dy <= 2_000_000_000_000,
    ;
    assert(0 <= reach * reach <= 9_000_000_000_000_000_000_000_000_000_000_000_000)
        by (nonlinear_arith)
        requires
            0 <= reach <= 3_000_000_000_000_000_000,
    ;
    dx * dx + dy * dy < reach * reach
}

/// Walks the grid cell by cell and examines every pair of two members of a
/// cell, the earlier member first. With more than one cell, a pair that was
/// examined in an earlier cell is passed over. Returns the examined pairs that
/// collide, in the order in which they were examined.
pub fn find_collisions(nodes: &Vec<Node>, cfg: &Settings, grid: &Vec<Vec<u32>>) -> (hits: Vec<
    (u32, u32),
>)
    requires
        nodes_ok(nodes@),
        in_limit(cfg.ratio as int),
        in_limit(cfg.margin as int),
        members_in_range(grid_view(grid@), nodes@.len() as int),
    ensures
        pairs_view(hits@) == collisions(nodes@, *cfg, grid_view(grid@)),
        forall|k: int|
            0 <= k < hits@.len() ==> (#[trigger] hits@[k]).0 < nodes@.len() && hits@[k].1
                < nodes@.len(),
{
    let n: usize = nodes.len();
    let many_cells: bool = grid.len() > 1;
    let mut seen: Vec<tinyset::SetU64> = if many_cells {
        empty_sets(n)
    } else {
        Vec::new()
    };
    let mut hits: Vec<(u32, u32)> = Vec::new();
    let ghost cells = grid_view(grid@);
    let ghost test = hit_test(nodes@, *cfg);
    let ghost mut vis: Seq<(int, int)> = Seq::empty();
    proof {
        assert(cells.take(0).map_values(|m: Seq<int>| cell_pairs(m)) =~= Seq::empty());
        assert(pairs_view(hits@) =~= Seq::empty());
        assert(distinct(vis) =~= Seq::empty());
        assert(vis.filter(test) =~= Seq::empty());
    }
    let mut c: usize = 0;
    while c < grid.len()
        invariant
            c <= grid.len(),
            cells == grid_view(grid@),
            test == hit_test(nodes@, *cfg),
            many_cells == (grid.len() > 1),
            n == nodes.len(),
            nodes_ok(nodes@),
            in_limit(cfg.ratio as int),
            in_limit(cfg.margin as int),
            members_in_range(cells, n as int),
            vis == visits_upto(cells, c as int),
            scan_state(vis, pairs_view(hits@), sets_view(seen@), many_cells, n as int, test),
            forall|k: int|
                0 <= k < hits@.len() ==> (#[trigger] hits@[k]).0 < n && hits@[k].1 < n,
        decreases grid.len() - c,
    {
        let cell = &grid[c];
        let len: usize = cell.len();
        let ghost m = as_ints(cell@);
        let ghost base = vis;
        proof {
            assert(cells[c as int] == m);
            assert(rows(m).take(0) =~= Seq::empty());
            assert(vis =~= base + rows(m).take(0).flatten());
        }
        let mut i: usize = 0;
        while i < len
            invariant
                c < grid.len(),
                cell == &grid@[c as int],
                len == cell.len(),
                m == as_ints(cell@),
                cells == grid_view(grid@),
                cells[c as int] == m,
                test == hit_test(nodes@, *cfg),
                n == nodes.len(),
                nodes_ok(nodes@),
                in_limit(cfg.ratio as int),
                in_limit(cfg.margin as int),
                members_in_range(cells, n as int),
                i <= len,
                vis == base + rows(m).take(i as int).flatten(),
                scan_state(
                    vis,
                    pairs_view(hits@),
                    sets_view(seen@),
                    many_cells,
                    n as int,
                    test,
                ),
                forall|k: int|
                    0 <= k < hits@.len() ==> (#[trigger] hits@[k]).0 < n && hits@[k].1 < n,
            decreases len - i,
        {
            let n1: u32 = cell[i];
            let ghost row_base = vis;
            proof {
                assert(row_pairs(m, i as int).take(0) =~= Seq::empty());
                assert(vis =~= row_base + row_pairs(m, i as int).take(0));
            }
            let mut j: usize = i + 1;
            while j < len
                invariant
                    c < grid.len(),
                    cell == &grid@[c as int],
                    len == cell.len(),
                    m == as_ints(cell@),
                    cells == grid_view(grid@),
                    cells[c as int] == m,
                    test == hit_test(nodes@, *cfg),
                    n == nodes.len(),
                    nodes_ok(nodes@),
                    in_limit(cfg.ratio as int),
                    in_limit(cfg.margin as int),
                    members_in_range(cells, n as int),
                    i < len,
                    n1 == cell@[i as int],
                    i + 1 <= j <= len,
                    vis == row_base + row_pairs(m, i as int).take(j - i - 1),
                    scan_state(
                        vis,
                        pairs_view(hits@),
                        sets_view(seen@),
                        many_cells,
                        n as int,
                        test,
                    ),
                    forall|k: int|
                        0 <= k < hits@.len() ==> (#[trigger] hits@[k]).0 < n && hits@[k].1 < n,
                decreases len - j,
            {
                let n2: u32 = cell[j];
                let ghost p = (n1 as int, n2 as int);
                proof {
                    assert(m[i as int] == n1 as int);
                    assert(m[j as int] == n2 as int);
                    assert(0 <= cells[c as int][i as int] < n);
                    assert(0 <= cells[c as int][j as int] < n);
                }
                let ghost seen_before = sets_view(seen@);
                let mut known: bool = false;
                if many_cells {
                    if seen[n1 as usize].contains(n2 as u64) {
                        known = true;
                    } else {
                        seen[n1 as usize].insert(n2 as u64);
                        proof {
                            assert(sets_view(seen@) =~= seen_before.update(
                                n1 as int,
                                seen_before[n1 as int].insert(n2 as u64),
                            ));
                        }
                    }
                }
                let ghost found_before = pairs_view(hits@);
                if !known {
                    let first = nodes[n1 as usize];
                    let second = nodes[n2 as usize];
                    if overlap(&first, &second, cfg) {
                        hits.push((n1, n2));
                    }
                }
                proof {
                    lemma_visit(
                        vis,
                        found_before,
                        seen_before,
                        many_cells,
                        n as int,
                        test,
                        p,
                        known,
                    );
                    let row = row_pairs(m, i as int);
                    assert(row[j - i - 1] == p);
                    assert(row.take(j - i) =~= row.take(j - i - 1).push(p));
                    vis = vis.push(p);
                    assert(vis =~= row_base + row.take(j - i));
                    if !known && test(p) {
                        assert(pairs_view(hits@) =~= found_before.push(p));
                    }
                }
                j += 1;
            }
            proof {
                let row = row_pairs(m, i as int);
                assert(row.take(len - i - 1) =~= row);
                lemma_rows_step(m, i as int);
                assert(vis =~= base + rows(m).take(i as int + 1).flatten());
            }
            i += 1;
        }
        proof {
            assert(rows(m).take(len as int) =~= rows(m));
            lemma_visits_step(cells, c as int);
        }
        c += 1;
    }
    proof {
        assert(vis == visits(cells));
        assert(many_cells == (cells.len() > 1));
    }
    hits
}

} // verus!
