//! The uniform grid over the bounding box: which cells a circle's box spans,
//! and the list of nodes that each cell holds.

use vstd::prelude::*;
use crate::bounds::{
    circle_box, inflate, lemma_circle_box_bounds, BoundingBox, Extent, BOX_BOUND, EDGE_BOUND,
};
use crate::store::{nodes_ok, settings_ok, Node, Settings, MAX_GRID};

verus! {

/// The grid coordinate of the world coordinate `w` along an axis that runs from
/// `lo` to `hi` and is cut into `g` cells, clamped to the grid. An axis without
/// extent has all of its points in cell zero.
pub open spec fn cell_coord(w: int, lo: int, hi: int, g: int) -> int {
    if hi <= lo {
        0
    } else {
        let raw = (g * (w - lo)) / (hi - lo);
        if raw < 0 {
            0
        } else if raw > g - 1 {
            g - 1
        } else {
            raw
        }
    }
}

/// The circle's box reaches into the cell at column `col` and row `row`.
pub open spec fn covers(node: Node, cfg: Settings, b: Extent, col: int, row: int) -> bool {
    let around = circle_box(node, cfg);
    let g = cfg.grid_size as int;
    &&& cell_coord(around.x_min, b.x_min, b.x_max, g) <= col <= cell_coord(
        around.x_max,
        b.x_min,
        b.x_max,
        g,
    )
    &&& cell_coord(around.y_min, b.y_min, b.y_max, g) <= row <= cell_coord(
        around.y_max,
        b.y_min,
        b.y_max,
        g,
    )
}

/// The circle's box reaches into the cell with linear index `cell`, which is
/// its column times the grid size plus its row.
pub open spec fn reaches(node: Node, cfg: Settings, b: Extent, cell: int) -> bool {
    covers(node, cfg, b, cell / (cfg.grid_size as int), cell % (cfg.grid_size as int))
}

/// The indices below `k` of the nodes that reach into `cell`, ascending.
pub open spec fn members_upto(nodes: Seq<Node>, cfg: Settings, b: Extent, cell: int, k: int) -> Seq<
    int,
>
    decreases k,
{
    if k <= 0 {
        Seq::empty()
    } else {
        let earlier = members_upto(nodes, cfg, b, cell, k - 1);
        if reaches(nodes[k - 1], cfg, b, cell) {
            earlier.push(k - 1)
        } else {
            earlier
        }
    }
}

/// The nodes that one cell holds, ascending.
pub open spec fn cell_members(nodes: Seq<Node>, cfg: Settings, b: Extent, cell: int) -> Seq<int> {
    members_upto(nodes, cfg, b, cell, nodes.len() as int)
}

/// The member lists of all cells, by linear cell index.
pub open spec fn cells(nodes: Seq<Node>, cfg: Settings, b: Extent) -> Seq<Seq<int>> {
    Seq::new(
        (cfg.grid_size as nat) * (cfg.grid_size as nat),
        |c: int| cell_members(nodes, cfg, b, c),
    )
}

/// Node indices as mathematical integers.
pub open spec fn as_ints(s: Seq<u32>) -> Seq<int> {
    s.map_values(|v: u32| v as int)
}

/// The member lists that a grid holds, as mathematical integers.
pub open spec fn grid_view(grid: Seq<Vec<u32>>) -> Seq<Seq<int>> {
    Seq::new(grid.len(), |c: int| as_ints(grid[c]@))
}

/// The cell at (`col`, `row`) comes before the position (`at_col`, `at_row`) of a
/// walk that goes column by column and, within a column, row by row.
pub open spec fn walked(cell: int, g: int, at_col: int, at_row: int) -> bool {
    cell / g < at_col || (cell / g == at_col && cell % g < at_row)
}

/// What `cell` holds while node `i` is being placed and the walk stands at
/// (`at_col`, `at_row`).
pub open spec fn members_during(
    nodes: Seq<Node>,
    cfg: Settings,
    b: Extent,
    cell: int,
    i: int,
    at_col: int,
    at_row: int,
) -> Seq<int> {
    let earlier = members_upto(nodes, cfg, b, cell, i);
    if reaches(nodes[i], cfg, b, cell) && walked(cell, cfg.grid_size as int, at_col, at_row) {
        earlier.push(i)
    } else {
        earlier
    }
}

/// A member list is strictly ascending and holds exactly the nodes below `k`
/// that reach into the cell.
pub proof fn lemma_members_upto(nodes: Seq<Node>, cfg: Settings, b: Extent, cell: int, k: int)
    requires
        0 <= k <= nodes.len(),
    ensures
        members_upto(nodes, cfg, b, cell, k).len() <= k,
        forall|p: int|
            0 <= p < members_upto(nodes, cfg, b, cell, k).len() ==> 0 <= #[trigger] members_upto(
                nodes,
                cfg,
                b,
                cell,
                k,
            )[p] < k,
        forall|p: int, q: int|
            0 <= p < q < members_upto(nodes, cfg, b, cell, k).len() ==> members_upto(
                nodes,
                cfg,
                b,
                cell,
                k,
            )[p] < members_upto(nodes, cfg, b, cell, k)[q],
        forall|i: int|
            members_upto(nodes, cfg, b, cell, k).contains(i) <==> (0 <= i < k && reaches(
                nodes[i],
                cfg,
                b,
                cell,
            )),
    decreases k,
{
    let m = members_upto(nodes, cfg, b, cell, k);
    if k > 0 {
        lemma_members_upto(nodes, cfg, b, cell, k - 1);
        let e = members_upto(nodes, cfg, b, cell, k - 1);
        assert forall|i: int| m.contains(i) <==> (0 <= i < k && reaches(nodes[i], cfg, b, cell)) by {
            if reaches(nodes[k - 1], cfg, b, cell) {
                assert(m == e.push(k - 1));
                if m.contains(i) {
                    let p = choose|p: int| 0 <= p < m.len() && m[p] == i;
                    if p < e.len() {
                        assert(e[p] == i);
                        assert(e.contains(i));
                    }
                }
                if 0 <= i < k && reaches(nodes[i], cfg, b, cell) {
                    if i == k - 1 {
                        assert(m[m.len() - 1] == i);
                    } else {
                        assert(e.contains(i));
                        let p = choose|p: int| 0 <= p < e.len() && e[p] == i;
                        assert(m[p] == i);
                    }
                }
            } else {
                assert(m == e);
            }
        }
    } else {
        assert forall|i: int| m.contains(i) <==> (0 <= i < k && reaches(nodes[i], cfg, b, cell)) by {
            if m.contains(i) {
                let p = choose|p: int| 0 <= p < m.len() && m[p] == i;
            }
        }
    }
}

/// The column and the row of a linear cell index.
pub proof fn lemma_cell_index(col: int, row: int, g: int)
    requires
        0 <= col,
        0 <= row < g,
    ensures
        (col * g + row) / g == col,
        (col * g + row) % g == row,
{
    vstd::arithmetic::div_mod::lemma_fundamental_div_mod_converse(col * g + row, g, col, row);
}

/// The grid coordinate of a world coordinate, clamped to the grid.
pub fn cell_index(w: i128, lo: i128, hi: i128, g: u32) -> (c: u32)
    requires
        1 <= g <= MAX_GRID,
        -EDGE_BOUND <= w <= EDGE_BOUND,
        -BOX_BOUND <= lo <= BOX_BOUND,
        -BOX_BOUND <= hi <= BOX_BOUND,
    ensures
        c == cell_coord(w as int, lo as int, hi as int, g as int),
        c < g,
{
    if hi <= lo {
        return 0;
    }
    let offset: i128 = w - lo;
    let extent: i128 = hi - lo;
    assert(-400_000_000_000_000_000_000_000_000_000 <= (g as int) * (offset as int)
        <= 400_000_000_000_000_000_000_000_000_000) by (nonlinear_arith)
        requires
            1 <= g <= 65_535,
            -5_000_000_000_000_000_000_000_000 <= offset <= 5_000_000_000_000_000_000_000_000,
    ;
    let scaled: i128 = (g as i128) * offset;
    if scaled < 0 {
        assert((scaled as int) / (extent as int) < 0) by (nonlinear_arith)
            requires
                scaled < 0,
                extent > 0,
        ;
        0
    } else {
        let q: i128 = scaled / extent;
        assert(0 <= (scaled as int) / (extent as int)) by (nonlinear_arith)
            requires
                scaled >= 0,
                extent > 0,
        ;
        if q > (g - 1) as i128 {
            g - 1
        } else {
            q as u32
        }
    }
}

/// A grid of `count` empty cells.
fn empty_grid(count: usize) -> (grid: Vec<Vec<u32>>)
    ensures
        grid.len() == count,
        forall|c: int| 0 <= c < count ==> (#[trigger] grid@[c])@.len() == 0,
{
    let mut grid: Vec<Vec<u32>> = Vec::new();
    let mut c: usize = 0;
    while c < count
        invariant
            c <= count,
            grid.len() == c,
            forall|k: int| 0 <= k < c ==> (#[trigger] grid@[k])@.len() == 0,
        decreases count - c,
    {
        grid.push(Vec::new());
        c += 1;
    }
    grid
}

/// Builds the grid: every node is entered, in node order, into every cell that
/// its inflated circle's box reaches into.
pub fn build_grid(nodes: &Vec<Node>, cfg: &Settings, b: &BoundingBox) -> (grid: Vec<Vec<u32>>)
    requires
        nodes_ok(nodes@),
        settings_ok(*cfg),
        b@.within(BOX_BOUND as int),
    ensures
        grid_view(grid@) == cells(nodes@, *cfg, b@),
{
    let g: u32 = cfg.grid_size;
    assert((g as int) * (g as int) <= 65_535 * 65_535) by (nonlinear_arith)
        requires
            1 <= g <= 65_535,
    ;
    let count: usize = (g as usize) * (g as usize);
    let mut grid = empty_grid(count);
    let mut i: usize = 0;
    while i < nodes.len()
        invariant
            i <= nodes.len(),
            nodes_ok(nodes@),
            settings_ok(*cfg),
            b@.within(BOX_BOUND as int),
            g == cfg.grid_size,
            count == g * g,
            grid.len() == count,
            forall|c: int|
                0 <= c < count ==> as_ints((#[trigger] grid@[c])@) == members_upto(
                    nodes@,
                    *cfg,
                    b@,
                    c,
                    i as int,
                ),
        decreases nodes.len() - i,
    {
        let node = nodes[i];
        proof {
            lemma_circle_box_bounds(node, *cfg);
        }
        let s = inflate(&node, cfg);
        let col_lo = cell_index(node.x as i128 - s, b.x_min, b.x_max, g);
        let col_hi = cell_index(node.x as i128 + s, b.x_min, b.x_max, g);
        let row_lo = cell_index(node.y as i128 - s, b.y_min, b.y_max, g);
        let row_hi = cell_index(node.y as i128 + s, b.y_min, b.y_max, g);
        let mut col: u32 = col_lo;
        assert forall|c: int| 0 <= c < count implies as_ints((#[trigger] grid@[c])@)
            == members_during(nodes@, *cfg, b@, c, i as int, col as int, row_lo as int) by {
            if reaches(node, *cfg, b@, c) {
                assert(col_lo <= c / (g as int));
                assert(row_lo <= c % (g as int));
            }
        }
        while col <= col_hi
            invariant
                i < nodes.len(),
                node == nodes@[i as int],
                1 <= g <= MAX_GRID,
                g == cfg.grid_size,
                count == g * g,
                grid.len() == count,
                nodes@.len() <= u32::MAX,
                col_lo <= col,
                col_lo <= col_hi ==> col <= col_hi + 1,
                col_hi < col_lo ==> col == col_lo,
                col_hi < g,
                row_hi < g,
                col_lo == cell_coord(circle_box(node, *cfg).x_min, b@.x_min, b@.x_max, g as int),
                col_hi == cell_coord(circle_box(node, *cfg).x_max, b@.x_min, b@.x_max, g as int),
                row_lo == cell_coord(circle_box(node, *cfg).y_min, b@.y_min, b@.y_max, g as int),
                row_hi == cell_coord(circle_box(node, *cfg).y_max, b@.y_min, b@.y_max, g as int),
                forall|c: int|
                    0 <= c < count ==> as_ints((#[trigger] grid@[c])@) == members_during(
                        nodes@,
                        *cfg,
                        b@,
                        c,
                        i as int,
                        col as int,
                        row_lo as int,
                    ),
            decreases col_hi + 1 - col,
        {
            let mut row: u32 = row_lo;
            while row <= row_hi
                invariant
                    i < nodes.len(),
                    node == nodes@[i as int],
                    1 <= g <= MAX_GRID,
                    g == cfg.grid_size,
                    count == g * g,
                    grid.len() == count,
                    nodes@.len() <= u32::MAX,
                    col_lo <= col <= col_hi,
                    row_lo <= row,
                    row_lo <= row_hi ==> row <= row_hi + 1,
                    row_hi < row_lo ==> row == row_lo,
                    col_hi < g,
                    row_hi < g,
                    col_lo == cell_coord(
                        circle_box(node, *cfg).x_min,
                        b@.x_min,
                        b@.x_max,
                        g as int,
                    ),
                    col_hi == cell_coord(
                        circle_box(node, *cfg).x_max,
                        b@.x_min,
                        b@.x_max,
                        g as int,
                    ),
                    row_lo == cell_coord(
                        circle_box(node, *cfg).y_min,
                        b@.y_min,
                        b@.y_max,
                        g as int,
                    ),
                    row_hi == cell_coord(
                        circle_box(node, *cfg).y_max,
                        b@.y_min,
                        b@.y_max,
                        g as int,
                    ),
                    forall|c: int|
                        0 <= c < count ==> as_ints((#[trigger] grid@[c])@) == members_during(
                            nodes@,
                            *cfg,
                            b@,
                            c,
                            i as int,
                            col as int,
                            row as int,
                        ),
                decreases row_hi + 1 - row,
            {
                proof {
                    lemma_cell_index(col as int, row as int, g as int);
                    assert((col as int) * (g as int) + (row as int) < (g as int) * (g as int))
                        by (nonlinear_arith)
                        requires
                            0 <= col < g,
                            0 <= row < g,
                    ;
                    assert(0 <= (col as int) * (g as int)) by (nonlinear_arith)
                        requires
                            0 <= col,
                            0 <= g,
                    ;
                }
                let at: usize = (col as usize) * (g as usize) + (row as usize);
                let ghost before = grid@;
                grid[at].push(i as u32);
                proof {
                    assert forall|c: int| 0 <= c < count implies as_ints((#[trigger] grid@[c])@)
                        == members_during(
                        nodes@,
                        *cfg,
                        b@,
                        c,
                        i as int,
                        col as int,
                        row as int + 1,
                    ) by {
                        if c == at {
                            assert(reaches(node, *cfg, b@, c));
                            assert(!walked(c, g as int, col as int, row as int));
                            assert(walked(c, g as int, col as int, row as int + 1));
                            assert(as_ints(grid@[c]@) =~= as_ints(before[c]@).push(i as int));
                        } else {
                            assert(grid@[c] == before[c]);
                            if c / (g as int) == col as int && c % (g as int) == row as int {
                                vstd::arithmetic::div_mod::lemma_fundamental_div_mod(c, g as int);
                                assert(c == (g as int) * (col as int) + (row as int));
                                assert((g as int) * (col as int) == (col as int) * (g as int))
                                    by (nonlinear_arith);
                            }
                        }
                    }
                }
                row += 1;
            }
            proof {
                assert forall|c: int| 0 <= c < count implies as_ints((#[trigger] grid@[c])@)
                    == members_during(
                    nodes@,
                    *cfg,
                    b@,
                    c,
                    i as int,
                    col as int + 1,
                    row_lo as int,
                ) by {
                    assert(as_ints(grid@[c]@) == members_during(
                        nodes@,
                        *cfg,
                        b@,
                        c,
                        i as int,
                        col as int,
                        row as int,
                    ));
                }
            }
            col += 1;
        }
        proof {
            assert forall|c: int| 0 <= c < count implies as_ints((#[trigger] grid@[c])@)
                == members_upto(nodes@, *cfg, b@, c, i as int + 1) by {
                assert(as_ints(grid@[c]@) == members_during(
                    nodes@,
                    *cfg,
                    b@,
                    c,
                    i as int,
                    col as int,
                    row_lo as int,
                ));
            }
        }
        i += 1;
    }
    proof {
        assert(grid_view(grid@) =~= cells(nodes@, *cfg, b@));
    }
    grid
}

/// Every cell's member list is ascending and holds indices of nodes.
pub proof fn lemma_cells_ascending(nodes: Seq<Node>, cfg: Settings, b: Extent)
    ensures
        crate::pairs::all_ascending(cells(nodes, cfg, b)),
        forall|c: int, k: int|
            0 <= c < cells(nodes, cfg, b).len() && 0 <= k < cells(nodes, cfg, b)[c].len() ==> 0
                <= #[trigger] cells(nodes, cfg, b)[c][k] < nodes.len(),
{
    let all = cells(nodes, cfg, b);
    assert forall|c: int| 0 <= c < all.len() implies crate::pairs::ascending(#[trigger] all[c]) by {
        lemma_members_upto(nodes, cfg, b, c, nodes.len() as int);
    }
    assert forall|c: int, k: int| 0 <= c < all.len() && 0 <= k < all[c].len() implies 0
        <= #[trigger] all[c][k] < nodes.len() by {
        lemma_members_upto(nodes, cfg, b, c, nodes.len() as int);
    }
}

/// Grid coordinates lie on the grid and grow with the world coordinate.
pub proof fn lemma_cell_coord(w1: int, w2: int, lo: int, hi: int, g: int)
    requires
        g >= 1,
        w1 <= w2,
    ensures
        0 <= cell_coord(w1, lo, hi, g) <= cell_coord(w2, lo, hi, g) < g,
{
    if hi > lo {
        assert(g * (w1 - lo) <= g * (w2 - lo)) by (nonlinear_arith)
            requires
                g >= 1,
                w1 <= w2,
        ;
        vstd::arithmetic::div_mod::lemma_div_is_ordered(g * (w1 - lo), g * (w2 - lo), hi - lo);
    }
}

/// Two circles whose boxes touch or intersect have a cell in common.
pub proof fn lemma_shared_cell(a: Node, b: Node, cfg: Settings, bx: Extent) -> (cell: int)
    requires
        cfg.grid_size >= 1,
        circle_box(a, cfg).x_min <= circle_box(a, cfg).x_max,
        circle_box(b, cfg).x_min <= circle_box(b, cfg).x_max,
        circle_box(a, cfg).x_min <= circle_box(b, cfg).x_max,
        circle_box(b, cfg).x_min <= circle_box(a, cfg).x_max,
        circle_box(a, cfg).y_min <= circle_box(b, cfg).y_max,
        circle_box(b, cfg).y_min <= circle_box(a, cfg).y_max,
    ensures
        0 <= cell < cfg.grid_size * cfg.grid_size,
        reaches(a, cfg, bx, cell),
        reaches(b, cfg, bx, cell),
{
    let g = cfg.grid_size as int;
    let ab = circle_box(a, cfg);
    let bb = circle_box(b, cfg);
    lemma_cell_coord(ab.x_min, ab.x_max, bx.x_min, bx.x_max, g);
    lemma_cell_coord(bb.x_min, bb.x_max, bx.x_min, bx.x_max, g);
    lemma_cell_coord(ab.x_min, bb.x_max, bx.x_min, bx.x_max, g);
    lemma_cell_coord(bb.x_min, ab.x_max, bx.x_min, bx.x_max, g);
    lemma_cell_coord(ab.y_min, ab.y_max, bx.y_min, bx.y_max, g);
    lemma_cell_coord(bb.y_min, bb.y_max, bx.y_min, bx.y_max, g);
    lemma_cell_coord(ab.y_min, bb.y_max, bx.y_min, bx.y_max, g);
    lemma_cell_coord(bb.y_min, ab.y_max, bx.y_min, bx.y_max, g);
    let col_a = cell_coord(ab.x_min, bx.x_min, bx.x_max, g);
    let col_b = cell_coord(bb.x_min, bx.x_min, bx.x_max, g);
    let row_a = cell_coord(ab.y_min, bx.y_min, bx.y_max, g);
    let row_b = cell_coord(bb.y_min, bx.y_min, bx.y_max, g);
    let col = if col_a >= col_b {
        col_a
    } else {
        col_b
    };
    let row = if row_a >= row_b {
        row_a
    } else {
        row_b
    };
    lemma_cell_index(col, row, g);
    assert(0 <= col * g + row < g * g) by (nonlinear_arith)
        requires
            0 <= col < g,
            0 <= row < g,
    ;
    col * g + row
}

} // verus!
