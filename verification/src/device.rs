//! The device-sink boundary adapter.
//!
//! The transport pushes one intensity per motor. When the engine's
//! produced vector is not exactly one value per motor, it is the core's
//! job — not the transport's — to reconcile the two: too many values are
//! truncated, too few are padded with zeroes.

use vstd::prelude::*;

verus! {

/// The intensity vector reconciled to exactly `motor_count` values:
/// truncated when too long, zero-padded when too short.
pub open spec fn spec_reconciled(values: Seq<i64>, motor_count: int) -> Seq<i64>
    recommends
        motor_count >= 0,
{
    if values.len() >= motor_count {
        values.take(motor_count)
    } else {
        values.add(Seq::new((motor_count - values.len()) as nat, |i: int| 0i64))
    }
}

/// Reconciles an intensity vector with the bound device's motor count:
/// the first `motor_count` values if there are too many, the values
/// followed by zeroes if there are too few.
pub fn reconcile_intensities(values: Vec<i64>, motor_count: usize) -> (r: Vec<i64>)
    ensures
        r@ == spec_reconciled(values@, motor_count as int),
        r@.len() == motor_count,
{
    let ghost v0 = values@;
    let mut v = values;
    if v.len() > motor_count {
        v.truncate(motor_count);
        proof {
            assert(v@ =~= spec_reconciled(v0, motor_count as int));
        }
    } else {
        while v.len() < motor_count
            invariant
                v0.len() <= v@.len() <= motor_count,
                v@ == v0.add(Seq::new((v@.len() - v0.len()) as nat, |i: int| 0i64)),
            decreases motor_count - v@.len(),
        {
            let ghost pre = v@;
            v.push(0);
            proof {
                assert(v@ =~= v0.add(Seq::new((pre.len() + 1 - v0.len()) as nat, |i: int| 0i64)));
            }
        }
        proof {
            assert(v@ == spec_reconciled(v0, motor_count as int));
        }
    }
    v
}

} // verus!
