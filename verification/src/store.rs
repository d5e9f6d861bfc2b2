//! The node store: the flat buffer of node records, the records themselves,
//! the parameters of a step and the errors a step can report.

use vstd::prelude::*;
use crate::fixed::{LIMIT, UNIT};

verus! {

/// The number of buffer entries that make up one node: x, y and radius.
pub const FIELDS: usize = 3;

/// The largest grid resolution a step accepts.
pub const MAX_GRID: u32 = 65_535;

/// A circle: its centre and its radius, in raw fixed-point steps.
#[derive(Clone, Copy, Debug, PartialEq, Eq, Structural)]
pub struct Node {
    pub x: i64,
    pub y: i64,
    pub radius: i64,
}

/// Why a step or the creation of a store was refused.
#[derive(Clone, Copy, Debug, PartialEq, Eq, Structural)]
pub enum LayoutError {
    /// The buffer's length is no multiple of three, or it holds more nodes than
    /// a 32-bit index can name.
    InvalidBufferLength,
    /// A parameter lies outside what a step accepts.
    InvalidParameter,
    /// A stored value, or a position that the step would store, lies beyond the limit.
    CoordinateOutOfRange,
    /// Fewer jitter values were supplied than the coincident collisions consume.
    MissingJitter,
}

/// The parameters of one step.
#[derive(Clone, Copy, Debug, PartialEq, Eq, Structural)]
pub struct Settings {
    /// Padding added to every radius.
    pub margin: i64,
    /// Factor applied to every radius before the padding.
    pub ratio: i64,
    /// Factor by which the bounding box grows around its centre; at least one.
    pub expansion: i64,
    /// Number of grid cells along each axis; at least one.
    pub grid_size: u32,
    /// Factor applied to the damped corrections; not negative.
    pub speed: i64,
}

/// The node buffer and the flag that tells whether the last step found no overlap.
#[derive(Clone, Debug)]
pub struct Context {
    pub matrix: Vec<i64>,
    pub converged: bool,
}

/// A raw value that a store or a parameter may hold.
pub open spec fn in_limit(v: int) -> bool {
    -(LIMIT as int) <= v <= LIMIT as int
}

/// The node records that a flat buffer encodes, in buffer order.
pub open spec fn nodes_of(m: Seq<i64>) -> Seq<Node> {
    Seq::new(
        (m.len() / 3) as nat,
        |i: int| (Node { x: m[3 * i], y: m[3 * i + 1], radius: m[3 * i + 2] }),
    )
}

/// The flat buffer that encodes a sequence of node records.
pub open spec fn flat_of(nodes: Seq<Node>) -> Seq<i64> {
    Seq::new(
        3 * nodes.len(),
        |k: int|
            if k % 3 == 0 {
                nodes[k / 3].x
            } else if k % 3 == 1 {
                nodes[k / 3].y
            } else {
                nodes[k / 3].radius
            },
    )
}

/// What is wrong with a buffer, if anything: its length is judged first, then its values.
pub open spec fn buffer_error(m: Seq<i64>) -> Option<LayoutError> {
    if m.len() % 3 != 0 || m.len() / 3 > u32::MAX {
        Some(LayoutError::InvalidBufferLength)
    } else if exists|k: int| 0 <= k < m.len() && !in_limit(#[trigger] m[k] as int) {
        Some(LayoutError::CoordinateOutOfRange)
    } else {
        None
    }
}

/// Every field of every node lies within the limit, and 32 bits index the nodes.
pub open spec fn nodes_ok(nodes: Seq<Node>) -> bool {
    &&& nodes.len() <= u32::MAX
    &&& forall|i: int|
        0 <= i < nodes.len() ==> in_limit((#[trigger] nodes[i]).x as int) && in_limit(
            nodes[i].y as int,
        ) && in_limit(nodes[i].radius as int)
}

/// The parameters that a step accepts.
pub open spec fn settings_ok(cfg: Settings) -> bool {
    &&& in_limit(cfg.margin as int)
    &&& in_limit(cfg.ratio as int)
    &&& UNIT <= cfg.expansion <= LIMIT
    &&& 1 <= cfg.grid_size <= MAX_GRID
    &&& 0 <= cfg.speed <= LIMIT
}

/// Encoding node records and decoding them again gives the records back.
pub proof fn lemma_nodes_of_flat(nodes: Seq<Node>)
    ensures
        nodes_of(flat_of(nodes)) == nodes,
{
    let m = flat_of(nodes);
    assert(m.len() / 3 == nodes.len());
    assert forall|i: int| 0 <= i < nodes.len() implies #[trigger] nodes_of(m)[i] == nodes[i] by {
        assert((3 * i) % 3 == 0 && (3 * i) / 3 == i);
        assert((3 * i + 1) % 3 == 1 && (3 * i + 1) / 3 == i);
        assert((3 * i + 2) % 3 == 2 && (3 * i + 2) / 3 == i);
    }
    assert(nodes_of(m) =~= nodes);
}

/// Decoding a buffer of whole records and encoding them again gives the buffer back.
pub proof fn lemma_flat_of_nodes(m: Seq<i64>)
    requires
        m.len() % 3 == 0,
    ensures
        flat_of(nodes_of(m)) == m,
{
    let nodes = nodes_of(m);
    assert(3 * nodes.len() == m.len());
    assert forall|k: int| 0 <= k < m.len() implies #[trigger] flat_of(nodes)[k] == m[k] by {
        assert(3 * (k / 3) + k % 3 == k);
        assert(0 <= k / 3 < nodes.len());
    }
    assert(flat_of(nodes) =~= m);
}

/// A buffer without fault decodes to nodes within the limit.
pub proof fn lemma_buffer_nodes_ok(m: Seq<i64>)
    requires
        buffer_error(m) is None,
    ensures
        nodes_ok(nodes_of(m)),
{
    let nodes = nodes_of(m);
    assert forall|i: int| 0 <= i < nodes.len() implies in_limit((#[trigger] nodes[i]).x as int)
        && in_limit(nodes[i].y as int) && in_limit(nodes[i].radius as int) by {
        assert(in_limit(m[3 * i] as int));
        assert(in_limit(m[3 * i + 1] as int));
        assert(in_limit(m[3 * i + 2] as int));
    }
}

impl Context {
    /// A store that owns `matrix`, with the convergence flag set.
    pub fn new(matrix: Vec<i64>) -> (ctx: Context)
        ensures
            ctx.matrix == matrix,
            ctx.converged,
    {
        Context { matrix, converged: true }
    }
}

/// Whether a buffer of this length holds whole node records.
pub fn whole_records(len: usize) -> (whole: bool)
    ensures
        whole == (len % 3 == 0),
{
    len % FIELDS == 0
}

/// Creates a store from a buffer, which must hold whole node records.
pub fn create_computer_ctx(x: Vec<i64>) -> (res: Result<Context, LayoutError>)
    ensures
        x.len() % 3 == 0 ==> res == Ok::<Context, LayoutError>(
            Context { matrix: x, converged: true },
        ),
        x.len() % 3 != 0 ==> res == Err::<Context, LayoutError>(LayoutError::InvalidBufferLength),
{
    if !whole_records(x.len()) {
        Err(LayoutError::InvalidBufferLength)
    } else {
        Ok(Context::new(x))
    }
}

/// The buffer of a store, to read and to write.
pub fn get_node_matrix(ctx: &mut Context) -> (matrix: &mut Vec<i64>)
    ensures
        *matrix == old(ctx).matrix,
        final(ctx).matrix == *final(matrix),
        final(ctx).converged == old(ctx).converged,
{
    &mut ctx.matrix
}

/// Whether the last step on this store found no overlap.
pub fn get_converged(ctx: &Context) -> (converged: bool)
    ensures
        converged == ctx.converged,
{
    ctx.converged
}

/// Checks the parameters of a step.
pub fn check_settings(cfg: &Settings) -> (ok: bool)
    ensures
        ok == settings_ok(*cfg),
{
    -LIMIT <= cfg.margin && cfg.margin <= LIMIT && -LIMIT <= cfg.ratio && cfg.ratio <= LIMIT
        && UNIT <= cfg.expansion && cfg.expansion <= LIMIT && 1 <= cfg.grid_size && cfg.grid_size
        <= MAX_GRID && 0 <= cfg.speed && cfg.speed <= LIMIT
}

/// Decodes a flat buffer into node records, or says what is wrong with it.
pub fn unflatten(matrix: &Vec<i64>) -> (res: Result<Vec<Node>, LayoutError>)
    ensures
        match buffer_error(matrix@) {
            Some(e) => res == Err::<Vec<Node>, LayoutError>(e),
            None => res is Ok && res->Ok_0@ == nodes_of(matrix@),
        },
{
    let len = matrix.len();
    if len % FIELDS != 0 || len / FIELDS > u32::MAX as usize {
        return Err(LayoutError::InvalidBufferLength);
    }
    let count: usize = len / FIELDS;
    let mut nodes: Vec<Node> = Vec::new();
    let mut i: usize = 0;
    while i < count
        invariant
            len == matrix.len(),
            len % 3 == 0,
            count == len / 3,
            count <= u32::MAX,
            i <= count,
            nodes@ == nodes_of(matrix@).take(i as int),
            forall|k: int| 0 <= k < 3 * i ==> in_limit(#[trigger] matrix@[k] as int),
        decreases count - i,
    {
        let x = matrix[FIELDS * i];
        let y = matrix[FIELDS * i + 1];
        let radius = matrix[FIELDS * i + 2];
        if x < -LIMIT || x > LIMIT || y < -LIMIT || y > LIMIT || radius < -LIMIT || radius
            > LIMIT {
            assert(!in_limit(matrix@[3 * i] as int) || !in_limit(matrix@[3 * i + 1] as int)
                || !in_limit(matrix@[3 * i + 2] as int));
            return Err(LayoutError::CoordinateOutOfRange);
        }
        nodes.push(Node { x, y, radius });
        proof {
            assert(nodes@ =~= nodes_of(matrix@).take(i + 1));
            assert forall|k: int| 0 <= k < 3 * (i + 1) implies in_limit(
                #[trigger] matrix@[k] as int,
            ) by {
                if k >= 3 * i {
                    assert(k == 3 * i || k == 3 * i + 1 || k == 3 * i + 2);
                }
            }
        }
        i += 1;
    }
    proof {
        assert(nodes@ =~= nodes_of(matrix@));
    }
    Ok(nodes)
}

/// Encodes node records as a flat buffer.
pub fn flatten(nodes: &Vec<Node>) -> (matrix: Vec<i64>)
    requires
        nodes.len() <= u32::MAX,
    ensures
        matrix@ == flat_of(nodes@),
{
    let mut matrix: Vec<i64> = Vec::new();
    let mut i: usize = 0;
    while i < nodes.len()
        invariant
            i <= nodes.len(),
            matrix@ == flat_of(nodes@).take(3 * i),
        decreases nodes.len() - i,
    {
        let node = nodes[i];
        matrix.push(node.x);
        matrix.push(node.y);
        matrix.push(node.radius);
        proof {
            let full = flat_of(nodes@);
            assert((3 * i) % 3 == 0 && (3 * i) / 3 == i);
            assert((3 * i + 1) % 3 == 1 && (3 * i + 1) / 3 == i);
            assert((3 * i + 2) % 3 == 2 && (3 * i + 2) / 3 == i);
            assert(matrix@ =~= full.take(3 * (i + 1)));
        }
        i += 1;
    }
    proof {
        assert(matrix@ =~= flat_of(nodes@));
    }
    matrix
}

} // verus!
