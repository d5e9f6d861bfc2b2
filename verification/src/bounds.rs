//! The bounding box of the inflated circles, and its expansion around its centre.

use vstd::prelude::*;
use crate::fixed::{
    lemma_product_bound, lemma_quot_bound, quot, quotient, scale, LIMIT, UNIT,
};
use crate::store::{in_limit, nodes_ok, Node, Settings};

verus! {

/// No inflated radius has a larger magnitude.
pub const RADIUS_BOUND: i128 = 1_000_001_000_000_000_000;

/// No edge of an inflated circle's box lies further from the origin.
pub const EDGE_BOUND: i128 = 2_000_000_000_000_000_000;

/// No edge of an expanded bounding box lies further from the origin.
pub const BOX_BOUND: i128 = 4_000_000_000_000_000_000_000_000;

/// An axis-aligned box, as mathematical integers.
pub struct Extent {
    pub x_min: int,
    pub x_max: int,
    pub y_min: int,
    pub y_max: int,
}

/// An axis-aligned box, as the machine holds it.
#[derive(Clone, Copy, Debug, PartialEq, Eq, Structural)]
pub struct BoundingBox {
    pub x_min: i128,
    pub x_max: i128,
    pub y_min: i128,
    pub y_max: i128,
}

impl View for BoundingBox {
    type V = Extent;

    open spec fn view(&self) -> Extent {
        Extent {
            x_min: self.x_min as int,
            x_max: self.x_max as int,
            y_min: self.y_min as int,
            y_max: self.y_max as int,
        }
    }
}

impl Extent {
    /// The extent along the x axis.
    pub open spec fn width(self) -> int {
        self.x_max - self.x_min
    }

    /// The extent along the y axis.
    pub open spec fn height(self) -> int {
        self.y_max - self.y_min
    }

    /// Every edge lies within `bound` of the origin.
    pub open spec fn within(self, bound: int) -> bool {
        &&& -bound <= self.x_min <= bound
        &&& -bound <= self.x_max <= bound
        &&& -bound <= self.y_min <= bound
        &&& -bound <= self.y_max <= bound
    }

    /// The box `inner` lies inside this box.
    pub open spec fn encloses(self, inner: Extent) -> bool {
        &&& self.x_min <= inner.x_min
        &&& inner.x_max <= self.x_max
        &&& self.y_min <= inner.y_min
        &&& inner.y_max <= self.y_max
    }
}

/// The radius used for bounds and collisions: the stored radius times `ratio`, plus `margin`.
pub open spec fn inflated(node: Node, cfg: Settings) -> int {
    scale(node.radius as int, cfg.ratio as int) + cfg.margin
}

/// The box around one inflated circle.
pub open spec fn circle_box(node: Node, cfg: Settings) -> Extent {
    Extent {
        x_min: node.x - inflated(node, cfg),
        x_max: node.x + inflated(node, cfg),
        y_min: node.y - inflated(node, cfg),
        y_max: node.y + inflated(node, cfg),
    }
}

/// The least of the first `k` values of `s`.
pub open spec fn least_upto(s: Seq<int>, k: int) -> int
    decreases k,
{
    if k <= 0 {
        0
    } else if k == 1 {
        s[0]
    } else {
        let rest = least_upto(s, k - 1);
        if s[k - 1] < rest {
            s[k - 1]
        } else {
            rest
        }
    }
}

/// The greatest of the first `k` values of `s`.
pub open spec fn greatest_upto(s: Seq<int>, k: int) -> int
    decreases k,
{
    if k <= 0 {
        0
    } else if k == 1 {
        s[0]
    } else {
        let rest = greatest_upto(s, k - 1);
        if s[k - 1] > rest {
            s[k - 1]
        } else {
            rest
        }
    }
}

/// The left edges of the circles' boxes, in node order.
pub open spec fn lefts(nodes: Seq<Node>, cfg: Settings) -> Seq<int> {
    Seq::new(nodes.len(), |i: int| circle_box(nodes[i], cfg).x_min)
}

/// The right edges of the circles' boxes, in node order.
pub open spec fn rights(nodes: Seq<Node>, cfg: Settings) -> Seq<int> {
    Seq::new(nodes.len(), |i: int| circle_box(nodes[i], cfg).x_max)
}

/// The lower edges of the circles' boxes, in node order.
pub open spec fn bottoms(nodes: Seq<Node>, cfg: Settings) -> Seq<int> {
    Seq::new(nodes.len(), |i: int| circle_box(nodes[i], cfg).y_min)
}

/// The upper edges of the circles' boxes, in node order.
pub open spec fn tops(nodes: Seq<Node>, cfg: Settings) -> Seq<int> {
    Seq::new(nodes.len(), |i: int| circle_box(nodes[i], cfg).y_max)
}

/// The smallest box around all inflated circles; of no circles, the box at the origin.
pub open spec fn tight_box(nodes: Seq<Node>, cfg: Settings) -> Extent {
    let n = nodes.len() as int;
    Extent {
        x_min: least_upto(lefts(nodes, cfg), n),
        x_max: greatest_upto(rights(nodes, cfg), n),
        y_min: least_upto(bottoms(nodes, cfg), n),
        y_max: greatest_upto(tops(nodes, cfg), n),
    }
}

/// A box grown around its centre: each extent is multiplied by `expansion`.
pub open spec fn expanded(b: Extent, expansion: int) -> Extent {
    let grown_w = scale(b.width(), expansion);
    let grown_h = scale(b.height(), expansion);
    Extent {
        x_min: quot(b.x_max + b.x_min - grown_w, 2),
        x_max: quot(b.x_max + b.x_min + grown_w, 2),
        y_min: quot(b.y_max + b.y_min - grown_h, 2),
        y_max: quot(b.y_max + b.y_min + grown_h, 2),
    }
}

/// The box that the grid partitions: the tight box, expanded.
pub open spec fn grid_box(nodes: Seq<Node>, cfg: Settings) -> Extent {
    expanded(tight_box(nodes, cfg), cfg.expansion as int)
}

/// `least_upto` is a lower bound of the values it ranges over, and one of them.
pub proof fn lemma_least_upto(s: Seq<int>, k: int)
    requires
        1 <= k <= s.len(),
    ensures
        forall|i: int| 0 <= i < k ==> least_upto(s, k) <= #[trigger] s[i],
        exists|i: int| 0 <= i < k && #[trigger] s[i] == least_upto(s, k),
    decreases k,
{
    if k > 1 {
        lemma_least_upto(s, k - 1);
        let w = choose|i: int| 0 <= i < k - 1 && #[trigger] s[i] == least_upto(s, k - 1);
        if s[k - 1] < least_upto(s, k - 1) {
            assert(s[k - 1] == least_upto(s, k));
        } else {
            assert(s[w] == least_upto(s, k));
        }
    } else {
        assert(s[0] == least_upto(s, k));
    }
}

/// `greatest_upto` is an upper bound of the values it ranges over, and one of them.
pub proof fn lemma_greatest_upto(s: Seq<int>, k: int)
    requires
        1 <= k <= s.len(),
    ensures
        forall|i: int| 0 <= i < k ==> #[trigger] s[i] <= greatest_upto(s, k),
        exists|i: int| 0 <= i < k && #[trigger] s[i] == greatest_upto(s, k),
    decreases k,
{
    if k > 1 {
        lemma_greatest_upto(s, k - 1);
        let w = choose|i: int| 0 <= i < k - 1 && #[trigger] s[i] == greatest_upto(s, k - 1);
        if s[k - 1] > greatest_upto(s, k - 1) {
            assert(s[k - 1] == greatest_upto(s, k));
        } else {
            assert(s[w] == greatest_upto(s, k));
        }
    } else {
        assert(s[0] == greatest_upto(s, k));
    }
}

/// An inflated radius, and the edges of its circle's box, stay within their bounds.
pub proof fn lemma_circle_box_bounds(node: Node, cfg: Settings)
    requires
        in_limit(node.x as int),
        in_limit(node.y as int),
        in_limit(node.radius as int),
        in_limit(cfg.ratio as int),
        in_limit(cfg.margin as int),
    ensures
        -RADIUS_BOUND <= inflated(node, cfg) <= RADIUS_BOUND,
        -1_000_000_000_000_000_000_000_000 <= node.radius * cfg.ratio
            <= 1_000_000_000_000_000_000_000_000,
        circle_box(node, cfg).within(EDGE_BOUND as int),
{
    lemma_product_bound(node.radius as int, cfg.ratio as int, LIMIT as int, LIMIT as int);
    assert((LIMIT as int) * (LIMIT as int) == 1_000_000_000_000_000_000_000_000) by (nonlinear_arith);
    crate::fixed::lemma_quot_shrinks(
        node.radius * cfg.ratio,
        UNIT as int,
        1_000_000_000_000_000_000,
    );
}

/// The tight box encloses the box of every circle.
pub proof fn lemma_tight_box_encloses(nodes: Seq<Node>, cfg: Settings, i: int)
    requires
        0 <= i < nodes.len(),
    ensures
        tight_box(nodes, cfg).encloses(circle_box(nodes[i], cfg)),
{
    let n = nodes.len() as int;
    lemma_least_upto(lefts(nodes, cfg), n);
    lemma_greatest_upto(rights(nodes, cfg), n);
    lemma_least_upto(bottoms(nodes, cfg), n);
    lemma_greatest_upto(tops(nodes, cfg), n);
    assert(lefts(nodes, cfg)[i] == circle_box(nodes[i], cfg).x_min);
    assert(rights(nodes, cfg)[i] == circle_box(nodes[i], cfg).x_max);
    assert(bottoms(nodes, cfg)[i] == circle_box(nodes[i], cfg).y_min);
    assert(tops(nodes, cfg)[i] == circle_box(nodes[i], cfg).y_max);
}

/// The tight box of valid nodes stays within the bound on edges.
pub proof fn lemma_tight_box_bounds(nodes: Seq<Node>, cfg: Settings)
    requires
        nodes_ok(nodes),
        in_limit(cfg.ratio as int),
        in_limit(cfg.margin as int),
    ensures
        tight_box(nodes, cfg).within(EDGE_BOUND as int),
{
    let n = nodes.len() as int;
    if n == 0 {
        return ;
    }
    lemma_least_upto(lefts(nodes, cfg), n);
    lemma_greatest_upto(rights(nodes, cfg), n);
    lemma_least_upto(bottoms(nodes, cfg), n);
    lemma_greatest_upto(tops(nodes, cfg), n);
    let a = choose|i: int| 0 <= i < n && #[trigger] lefts(nodes, cfg)[i] == least_upto(lefts(nodes, cfg), n);
    let b = choose|i: int| 0 <= i < n && #[trigger] rights(nodes, cfg)[i] == greatest_upto(rights(nodes, cfg), n);
    let c = choose|i: int| 0 <= i < n && #[trigger] bottoms(nodes, cfg)[i] == least_upto(bottoms(nodes, cfg), n);
    let d = choose|i: int| 0 <= i < n && #[trigger] tops(nodes, cfg)[i] == greatest_upto(tops(nodes, cfg), n);
    lemma_circle_box_bounds(nodes[a], cfg);
    lemma_circle_box_bounds(nodes[b], cfg);
    lemma_circle_box_bounds(nodes[c], cfg);
    lemma_circle_box_bounds(nodes[d], cfg);
}

/// Growing a box of non-negative extents by a factor of at least one gives a box
/// that encloses it.
pub proof fn lemma_expanded_encloses(b: Extent, expansion: int)
    requires
        b.x_min <= b.x_max,
        b.y_min <= b.y_max,
        expansion >= UNIT,
    ensures
        expanded(b, expansion).encloses(b),
{
    lemma_grown_axis(b.x_min, b.x_max, expansion);
    lemma_grown_axis(b.y_min, b.y_max, expansion);
}

/// One axis of `lemma_expanded_encloses`.
proof fn lemma_grown_axis(lo: int, hi: int, expansion: int)
    requires
        lo <= hi,
        expansion >= UNIT,
    ensures
        quot(hi + lo - scale(hi - lo, expansion), 2) <= lo,
        hi <= quot(hi + lo + scale(hi - lo, expansion), 2),
{
    let w = hi - lo;
    assert(w * expansion >= w * UNIT) by (nonlinear_arith)
        requires
            w >= 0,
            expansion >= UNIT,
    ;
    assert(w * expansion >= 0) by (nonlinear_arith)
        requires
            w >= 0,
            expansion >= UNIT,
    ;
    let g = scale(w, expansion);
    assert(g >= w) by {
        assert((w * expansion) / (UNIT as int) >= w) by (nonlinear_arith)
            requires
                w * expansion >= w * UNIT,
        ;
    }
    let low = hi + lo - g;
    let high = hi + lo + g;
    assert(low <= 2 * lo);
    assert(high >= 2 * hi);
}

/// An expanded box stays within the bound on boxes.
pub proof fn lemma_expanded_bounds(b: Extent, expansion: int)
    requires
        b.within(EDGE_BOUND as int),
        UNIT <= expansion <= LIMIT,
    ensures
        expanded(b, expansion).within(BOX_BOUND as int),
        -6_000_000_000_000_000_000_000_000_000_000 <= b.width() * expansion
            <= 6_000_000_000_000_000_000_000_000_000_000,
        -6_000_000_000_000_000_000_000_000_000_000 <= b.height() * expansion
            <= 6_000_000_000_000_000_000_000_000_000_000,
        -6_000_000_000_000_000_000_000_000 <= scale(b.width(), expansion)
            <= 6_000_000_000_000_000_000_000_000,
        -6_000_000_000_000_000_000_000_000 <= scale(b.height(), expansion)
            <= 6_000_000_000_000_000_000_000_000,
{
    let span: int = 4_000_000_000_000_000_000;
    lemma_product_bound(b.width(), expansion, span, LIMIT as int);
    lemma_product_bound(b.height(), expansion, span, LIMIT as int);
    assert(span * (LIMIT as int) == 4_000_000_000_000_000_000_000_000_000_000) by (nonlinear_arith)
        requires
            span == 4_000_000_000_000_000_000,
    ;
    crate::fixed::lemma_quot_shrinks(
        b.width() * expansion,
        UNIT as int,
        4_000_000_000_000_000_000_000_000,
    );
    crate::fixed::lemma_quot_shrinks(
        b.height() * expansion,
        UNIT as int,
        4_000_000_000_000_000_000_000_000,
    );
    let gw = scale(b.width(), expansion);
    let gh = scale(b.height(), expansion);
    lemma_quot_bound(b.x_max + b.x_min - gw, 2, 2 * BOX_BOUND);
    lemma_quot_bound(b.x_max + b.x_min + gw, 2, 2 * BOX_BOUND);
    lemma_quot_bound(b.y_max + b.y_min - gh, 2, 2 * BOX_BOUND);
    lemma_quot_bound(b.y_max + b.y_min + gh, 2, 2 * BOX_BOUND);
    crate::fixed::lemma_quot_shrinks(b.x_max + b.x_min - gw, 2, BOX_BOUND as int);
    crate::fixed::lemma_quot_shrinks(b.x_max + b.x_min + gw, 2, BOX_BOUND as int);
    crate::fixed::lemma_quot_shrinks(b.y_max + b.y_min - gh, 2, BOX_BOUND as int);
    crate::fixed::lemma_quot_shrinks(b.y_max + b.y_min + gh, 2, BOX_BOUND as int);
}

/// The inflated radius of a node.
pub fn inflate(node: &Node, cfg: &Settings) -> (s: i128)
    requires
        in_limit(node.x as int),
        in_limit(node.y as int),
        in_limit(node.radius as int),
        in_limit(cfg.ratio as int),
        in_limit(cfg.margin as int),
    ensures
        s == inflated(*node, *cfg),
        -RADIUS_BOUND <= s <= RADIUS_BOUND,
{
    proof {
        lemma_circle_box_bounds(*node, *cfg);
    }
    let product: i128 = (node.radius as i128) * (cfg.ratio as i128);
    quotient(product, UNIT as i128) + (cfg.margin as i128)
}

/// The smallest box around all inflated circles; of no circles, the box at the origin.
pub fn tight_bounds(nodes: &Vec<Node>, cfg: &Settings) -> (b: BoundingBox)
    requires
        nodes_ok(nodes@),
        in_limit(cfg.ratio as int),
        in_limit(cfg.margin as int),
    ensures
        b@ == tight_box(nodes@, *cfg),
        b@.within(EDGE_BOUND as int),
{
    if nodes.len() == 0 {
        return BoundingBox { x_min: 0, x_max: 0, y_min: 0, y_max: 0 };
    }
    proof {
        lemma_circle_box_bounds(nodes@[0], *cfg);
    }
    let first = nodes[0];
    let s0 = inflate(&first, cfg);
    let mut x_min: i128 = first.x as i128 - s0;
    let mut x_max: i128 = first.x as i128 + s0;
    let mut y_min: i128 = first.y as i128 - s0;
    let mut y_max: i128 = first.y as i128 + s0;
    let mut i: usize = 1;
    while i < nodes.len()
        invariant
            1 <= i <= nodes.len(),
            nodes_ok(nodes@),
            in_limit(cfg.ratio as int),
            in_limit(cfg.margin as int),
            x_min == least_upto(lefts(nodes@, *cfg), i as int),
            x_max == greatest_upto(rights(nodes@, *cfg), i as int),
            y_min == least_upto(bottoms(nodes@, *cfg), i as int),
            y_max == greatest_upto(tops(nodes@, *cfg), i as int),
        decreases nodes.len() - i,
    {
        let node = nodes[i];
        proof {
            lemma_circle_box_bounds(nodes@[i as int], *cfg);
        }
        let s = inflate(&node, cfg);
        let left = node.x as i128 - s;
        let right = node.x as i128 + s;
        let bottom = node.y as i128 - s;
        let top = node.y as i128 + s;
        if left < x_min {
            x_min = left;
        }
        if right > x_max {
            x_max = right;
        }
        if bottom < y_min {
            y_min = bottom;
        }
        if top > y_max {
            y_max = top;
        }
        i += 1;
    }
    proof {
        lemma_tight_box_bounds(nodes@, *cfg);
    }
    BoundingBox { x_min, x_max, y_min, y_max }
}

/// Grows a box around its centre by the factor `expansion`.
pub fn expand(b: &BoundingBox, expansion: i64) -> (grown: BoundingBox)
    requires
        b@.within(EDGE_BOUND as int),
        UNIT <= expansion <= LIMIT,
    ensures
        grown@ == expanded(b@, expansion as int),
        grown@.within(BOX_BOUND as int),
{
    proof {
        lemma_expanded_bounds(b@, expansion as int);
    }
    let width: i128 = b.x_max - b.x_min;
    let height: i128 = b.y_max - b.y_min;
    let grown_w: i128 = quotient(width * (expansion as i128), UNIT as i128);
    let grown_h: i128 = quotient(height * (expansion as i128), UNIT as i128);
    BoundingBox {
        x_min: quotient(b.x_max + b.x_min - grown_w, 2),
        x_max: quotient(b.x_max + b.x_min + grown_w, 2),
        y_min: quotient(b.y_max + b.y_min - grown_h, 2),
        y_max: quotient(b.y_max + b.y_min + grown_h, 2),
    }
}

} // verus!
