//! One relaxation step of an overlap-removal layout for circles in the plane.
//!
//! Positions, radii and factors are fixed-point numbers: an `i64` counts
//! millionths of a layout unit. A step finds the circles that overlap, pushes
//! the later one of each overlapping pair away from the earlier one, and
//! reports whether any overlap was left.
//!
//! A step runs in four phases: `bounds` finds the box around the inflated
//! circles, `grid` enters every node into the cells that its box reaches into,
//! `collide` examines the pairs that share a cell and `resolve` sums the
//! corrections that `step` then applies. `laws` states what holds of every
//! step. A host that stores single-precision floats goes through `host`, which
//! converts with `codec`.

pub mod bounds;
pub mod codec;
pub mod collide;
pub mod fixed;
pub mod grid;
pub mod host;
pub mod laws;
pub mod pairs;
pub mod random;
pub mod resolve;
pub mod step;
pub mod store;

pub use bounds::{expand, inflate, tight_bounds, BoundingBox};
pub use codec::{find_binade, float_of_raw, power_of_two, raw_of_float};
pub use collide::{find_collisions, overlap};
pub use fixed::{isqrt, quotient, DAMPING_DIVISOR, JITTER_SPAN, LIMIT, UNIT};
pub use grid::{build_grid, cell_index};
pub use host::{
    decode_buffer, decode_settings, iterate_floats, iterate_floats_with_jitter, store_moved,
};
pub use random::{check_jitters, draw_jitters, jitter};
pub use resolve::{accumulate, count_coincident};
pub use step::{advance, detect, finish, integrate, iterate, iterate_with_jitter, prepare, Plan};
pub use store::{
    check_settings, create_computer_ctx, flatten, get_converged, get_node_matrix, unflatten,
    whole_records, Context, LayoutError, Node, Settings, FIELDS, MAX_GRID,
};
