//! The step as a host sees it that stores single-precision floats: the buffer
//! and the parameters arrive as bit patterns of floats, are decoded to raw
//! fixed-point values, and the nodes that the step moved are encoded again.

use vstd::prelude::*;
use crate::codec::{float_bits, float_of_raw, float_raw, raw_of_float};
use crate::fixed::UNIT;
use crate::resolve::jitters_ok;
use crate::step::{iterate, iterate_with_jitter, jitter_demand, relates, step_outcome};
use crate::store::{check_settings, settings_ok, Context, LayoutError, Settings};

verus! {

/// The grid resolution that a raw value names: a whole number of units.
pub open spec fn grid_of(raw: int) -> Option<u32> {
    if raw % (UNIT as int) == 0 && 0 <= raw / (UNIT as int) <= u32::MAX {
        Some((raw / (UNIT as int)) as u32)
    } else {
        None
    }
}

/// The parameters that five floats name, if each has a raw value and the grid
/// size is a whole number.
pub open spec fn float_settings(
    margin: u32,
    ratio: u32,
    expansion: u32,
    grid_size: u32,
    speed: u32,
) -> Option<Settings> {
    if float_raw(margin) is None || float_raw(ratio) is None || float_raw(expansion) is None
        || float_raw(grid_size) is None || float_raw(speed) is None || grid_of(
        float_raw(grid_size)->Some_0 as int,
    ) is None {
        None
    } else {
        Some(
            Settings {
                margin: float_raw(margin)->Some_0,
                ratio: float_raw(ratio)->Some_0,
                expansion: float_raw(expansion)->Some_0,
                grid_size: grid_of(float_raw(grid_size)->Some_0 as int)->Some_0,
                speed: float_raw(speed)->Some_0,
            },
        )
    }
}

/// Every float of the buffer has a raw value.
pub open spec fn all_decodable(bits: Seq<u32>) -> bool {
    forall|k: int| 0 <= k < bits.len() ==> float_raw(#[trigger] bits[k]) is Some
}

/// The raw values of the floats of a buffer.
pub open spec fn decoded(bits: Seq<u32>) -> Seq<i64> {
    Seq::new(bits.len(), |k: int| float_raw(bits[k])->Some_0)
}

/// The host's buffer after a step: a value that the step changed is stored as
/// the float nearest to it, any other float stays as it is, bit for bit.
pub open spec fn stored(bits: Seq<u32>, before: Seq<i64>, after: Seq<i64>) -> Seq<u32> {
    Seq::new(
        bits.len(),
        |k: int|
            if after[k] == before[k] {
                bits[k]
            } else {
                float_bits(after[k])
            },
    )
}

/// What a step does to a host's buffer: the new buffer and the convergence
/// flag, or the reason for which the step is refused. The parameters are
/// judged first, then the buffer's length, then its floats.
pub open spec fn float_outcome(
    cfg: Option<Settings>,
    bits: Seq<u32>,
    jitters: Seq<(i64, i64)>,
) -> Result<(Seq<u32>, bool), LayoutError> {
    if cfg is None || !settings_ok(cfg->Some_0) || !jitters_ok(jitters) {
        Err(LayoutError::InvalidParameter)
    } else if bits.len() % 3 != 0 || bits.len() / 3 > u32::MAX {
        Err(LayoutError::InvalidBufferLength)
    } else if !all_decodable(bits) {
        Err(LayoutError::CoordinateOutOfRange)
    } else {
        match step_outcome(decoded(bits), cfg->Some_0, jitters) {
            Ok(state) => Ok((stored(bits, decoded(bits), state.0), state.1)),
            Err(e) => Err(e),
        }
    }
}

/// The number of jitter pairs that a step on a host's buffer consumes: one for
/// each collision of coincident nodes, and none where the step is refused
/// before it looks for collisions.
pub open spec fn float_demand(cfg: Option<Settings>, bits: Seq<u32>) -> nat {
    if cfg is None || !all_decodable(bits) {
        0
    } else {
        jitter_demand(decoded(bits), cfg->Some_0)
    }
}

/// A call's result and the host's buffer after it are what `outcome` says: on
/// success the call returns the flag and the buffer is the new one, on refusal
/// the buffer is as before.
pub open spec fn float_relates(
    outcome: Result<(Seq<u32>, bool), LayoutError>,
    res: Result<bool, LayoutError>,
    before: Seq<u32>,
    after: Seq<u32>,
) -> bool {
    match outcome {
        Ok(state) => res == Ok::<bool, LayoutError>(state.1) && after == state.0,
        Err(e) => res == Err::<bool, LayoutError>(e) && after == before,
    }
}

/// The parameters that five floats name.
pub fn decode_settings(margin: u32, ratio: u32, expansion: u32, grid_size: u32, speed: u32) -> (cfg:
    Option<Settings>)
    ensures
        cfg == float_settings(margin, ratio, expansion, grid_size, speed),
{
    let margin = match raw_of_float(margin) {
        Some(v) => v,
        None => {
            return None;
        },
    };
    let ratio = match raw_of_float(ratio) {
        Some(v) => v,
        None => {
            return None;
        },
    };
    let expansion = match raw_of_float(expansion) {
        Some(v) => v,
        None => {
            return None;
        },
    };
    let grid = match raw_of_float(grid_size) {
        Some(v) => v,
        None => {
            return None;
        },
    };
    let speed = match raw_of_float(speed) {
        Some(v) => v,
        None => {
            return None;
        },
    };
    if grid < 0 || grid % UNIT != 0 || grid / UNIT > u32::MAX as i64 {
        return None;
    }
    Some(Settings { margin, ratio, expansion, grid_size: (grid / UNIT) as u32, speed })
}

/// The raw values of the floats of a buffer, if every float has one.
pub fn decode_buffer(bits: &Vec<u32>) -> (raw: Option<Vec<i64>>)
    ensures
        raw is Some <==> all_decodable(bits@),
        raw is Some ==> raw->Some_0@ == decoded(bits@),
{
    let mut raw: Vec<i64> = Vec::new();
    let mut k: usize = 0;
    while k < bits.len()
        invariant
            k <= bits.len(),
            raw@.len() == k,
            forall|i: int| 0 <= i < k ==> float_raw(#[trigger] bits@[i]) == Some(raw@[i]),
        decreases bits.len() - k,
    {
        match raw_of_float(bits[k]) {
            Some(v) => {
                raw.push(v);
            },
            None => {
                assert(float_raw(bits@[k as int]) is None);
                return None;
            },
        }
        k += 1;
    }
    proof {
        assert(raw@ =~= decoded(bits@));
    }
    Some(raw)
}

/// Encodes the values that a step changed into the host's buffer.
pub fn store_moved(buffer: &mut Vec<u32>, before: &Vec<i64>, after: &Vec<i64>)
    requires
        old(buffer)@.len() == before@.len(),
        before@.len() == after@.len(),
    ensures
        final(buffer)@ == stored(old(buffer)@, before@, after@),
{
    let ghost start = buffer@;
    let mut k: usize = 0;
    while k < buffer.len()
        invariant
            k <= buffer.len(),
            buffer@.len() == start.len(),
            start.len() == before@.len(),
            before@.len() == after@.len(),
            forall|i: int| 0 <= i < k ==> #[trigger] buffer@[i] == stored(start, before@, after@)[i],
            forall|i: int| k <= i < buffer@.len() ==> #[trigger] buffer@[i] == start[i],
        decreases buffer.len() - k,
    {
        if after[k] != before[k] {
            buffer.set(k, float_of_raw(after[k]));
        }
        k += 1;
    }
    proof {
        assert(buffer@ =~= stored(start, before@, after@));
    }
}

/// A copy of a buffer of raw values.
fn copy_of(values: &Vec<i64>) -> (copy: Vec<i64>)
    ensures
        copy@ == values@,
{
    let mut copy: Vec<i64> = Vec::new();
    let mut k: usize = 0;
    while k < values.len()
        invariant
            k <= values.len(),
            copy@ == values@.take(k as int),
        decreases values.len() - k,
    {
        copy.push(values[k]);
        proof {
            assert(copy@ =~= values@.take(k + 1));
        }
        k += 1;
    }
    proof {
        assert(copy@ =~= values@);
    }
    copy
}

/// One step on a host's buffer of floats, with random jitter, of which the
/// step draws as much as it consumes. The parameters and the buffer are bit
/// patterns of single-precision floats. Returns the convergence flag.
///
/// The step is refused, and the buffer left as it is, with
/// `InvalidParameter` where a parameter is no number, has a magnitude above
/// `LIMIT` raw steps (a million units), the expansion is below one, the speed
/// is negative, or the grid size is no whole number from 1 to `MAX_GRID`;
/// with `InvalidBufferLength` where the buffer does not hold whole records;
/// with `CoordinateOutOfRange` where a float of the buffer is no number or
/// has a magnitude above a million units, or where a node would be moved
/// beyond that limit.
pub fn iterate_floats(
    margin: u32,
    ratio: u32,
    expansion: u32,
    grid_size: u32,
    speed: u32,
    buffer: &mut Vec<u32>,
) -> (res: Result<bool, LayoutError>)
    ensures
        exists|jitters: Seq<(i64, i64)>|
            {
                &&& #[trigger] jitters_ok(jitters)
                &&& jitters.len() == float_demand(
                    float_settings(margin, ratio, expansion, grid_size, speed),
                    old(buffer)@,
                )
                &&& float_relates(
                    float_outcome(
                        float_settings(margin, ratio, expansion, grid_size, speed),
                        old(buffer)@,
                        jitters,
                    ),
                    res,
                    old(buffer)@,
                    final(buffer)@,
                )
            },
{
    let ghost none = Seq::<(i64, i64)>::empty();
    let ghost named = float_settings(margin, ratio, expansion, grid_size, speed);
    proof {
        assert(jitters_ok(none));
    }
    let cfg = match decode_settings(margin, ratio, expansion, grid_size, speed) {
        Some(cfg) => cfg,
        None => {
            proof {
                assert(float_relates(
                    float_outcome(named, buffer@, none),
                    Err(LayoutError::InvalidParameter),
                    buffer@,
                    buffer@,
                ));
            }
            return Err(LayoutError::InvalidParameter);
        },
    };
    if !check_settings(&cfg) {
        proof {
            assert(float_relates(
                float_outcome(named, buffer@, none),
                Err(LayoutError::InvalidParameter),
                buffer@,
                buffer@,
            ));
        }
        return Err(LayoutError::InvalidParameter);
    }
    if buffer.len() % 3 != 0 || buffer.len() / 3 > u32::MAX as usize {
        proof {
            assert(float_relates(
                float_outcome(named, buffer@, none),
                Err(LayoutError::InvalidBufferLength),
                buffer@,
                buffer@,
            ));
        }
        return Err(LayoutError::InvalidBufferLength);
    }
    let before = match decode_buffer(buffer) {
        Some(raw) => raw,
        None => {
            proof {
                assert(float_relates(
                    float_outcome(named, buffer@, none),
                    Err(LayoutError::CoordinateOutOfRange),
                    buffer@,
                    buffer@,
                ));
            }
            return Err(LayoutError::CoordinateOutOfRange);
        },
    };
    let mut ctx = Context::new(copy_of(&before));
    let ghost start = buffer@;
    let ghost fresh = ctx;
    let res = iterate(
        cfg.margin,
        cfg.ratio,
        cfg.expansion,
        cfg.grid_size,
        cfg.speed,
        &mut ctx,
    );
    let ghost used = choose|jitters: Seq<(i64, i64)>|
        #[trigger] jitters_ok(jitters) && jitters.len() == jitter_demand(fresh.matrix@, cfg)
            && relates(step_outcome(fresh.matrix@, cfg, jitters), res, fresh, ctx);
    match res {
        Err(e) => {
            proof {
                assert(float_relates(float_outcome(named, start, used), Err(e), start, start));
            }
            Err(e)
        },
        Ok(()) => {
            store_moved(buffer, &before, &ctx.matrix);
            proof {
                assert(float_relates(
                    float_outcome(named, start, used),
                    Ok(ctx.converged),
                    start,
                    buffer@,
                ));
            }
            Ok(ctx.converged)
        },
    }
}

/// One step on a host's buffer of floats with the jitter supplied by the
/// caller, as raw values. Returns the convergence flag.
pub fn iterate_floats_with_jitter(
    margin: u32,
    ratio: u32,
    expansion: u32,
    grid_size: u32,
    speed: u32,
    jitters: &Vec<(i64, i64)>,
    buffer: &mut Vec<u32>,
) -> (res: Result<bool, LayoutError>)
    ensures
        float_relates(
            float_outcome(
                float_settings(margin, ratio, expansion, grid_size, speed),
                old(buffer)@,
                jitters@,
            ),
            res,
            old(buffer)@,
            final(buffer)@,
        ),
{
    let cfg = match decode_settings(margin, ratio, expansion, grid_size, speed) {
        Some(cfg) => cfg,
        None => {
            return Err(LayoutError::InvalidParameter);
        },
    };
    if !check_settings(&cfg) || !crate::random::check_jitters(jitters) {
        return Err(LayoutError::InvalidParameter);
    }
    if buffer.len() % 3 != 0 || buffer.len() / 3 > u32::MAX as usize {
        return Err(LayoutError::InvalidBufferLength);
    }
    let before = match decode_buffer(buffer) {
        Some(raw) => raw,
        None => {
            return Err(LayoutError::CoordinateOutOfRange);
        },
    };
    let mut ctx = Context::new(copy_of(&before));
    match iterate_with_jitter(
        cfg.margin,
        cfg.ratio,
        cfg.expansion,
        cfg.grid_size,
        cfg.speed,
        jitters,
        &mut ctx,
    ) {
        Err(e) => Err(e),
        Ok(()) => {
            store_moved(buffer, &before, &ctx.matrix);
            Ok(ctx.converged)
        },
    }
}

} // verus!
