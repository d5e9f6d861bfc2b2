//! The source of jitter: small random values that separate coincident nodes.

use vstd::prelude::*;
use rand::Rng;
use crate::fixed::JITTER_SPAN;
use crate::resolve::{jitter_ok, jitters_ok};

verus! {

/// Calls `rand::Rng::gen_range` on the thread's generator, `rand::thread_rng()`,
/// with the inclusive range from `lo` to `hi`. The value returned lies in that
/// range; nothing else is claimed of it. An empty range is excluded, as it
/// makes `gen_range` panic.
#[verifier::external_body]
fn uniform_between(lo: i64, hi: i64) -> (r: i64)
    requires
        lo <= hi,
    ensures
        lo <= r <= hi,
{
    rand::thread_rng().gen_range(lo..=hi)
}

/// A random jitter value, drawn uniformly from the raw values strictly between
/// minus and plus `JITTER_SPAN`.
pub fn jitter() -> (j: i64)
    ensures
        -JITTER_SPAN < j < JITTER_SPAN,
{
    uniform_between(1 - JITTER_SPAN, JITTER_SPAN - 1)
}

/// Draws `count` pairs of random jitter values.
pub fn draw_jitters(count: usize) -> (jitters: Vec<(i64, i64)>)
    ensures
        jitters@.len() == count,
        jitters_ok(jitters@),
{
    let mut jitters: Vec<(i64, i64)> = Vec::new();
    let mut k: usize = 0;
    while k < count
        invariant
            k <= count,
            jitters@.len() == k,
            jitters_ok(jitters@),
        decreases count - k,
    {
        let jx = jitter();
        let jy = jitter();
        jitters.push((jx, jy));
        k += 1;
    }
    jitters
}

/// Whether every supplied jitter value is valid.
pub fn check_jitters(jitters: &Vec<(i64, i64)>) -> (ok: bool)
    ensures
        ok == jitters_ok(jitters@),
{
    let mut k: usize = 0;
    while k < jitters.len()
        invariant
            k <= jitters.len(),
            forall|i: int| 0 <= i < k ==> jitter_ok(#[trigger] jitters@[i]),
        decreases jitters.len() - k,
    {
        let j = jitters[k];
        if j.0 <= -JITTER_SPAN || j.0 >= JITTER_SPAN || j.1 <= -JITTER_SPAN || j.1
            >= JITTER_SPAN {
            assert(!jitter_ok(jitters@[k as int]));
            return false;
        }
        k += 1;
    }
    true
}

} // verus!
