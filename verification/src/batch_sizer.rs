//! Batch sizing for evaluation passes.
//!
//! An evaluation pass has to see every example exactly once, with no padding
//! and no dropped remainder, so its batch size must divide the number of
//! examples. Among the divisors that do not exceed a ceiling the largest one
//! is chosen.

use crate::model::PipelineError;
use vstd::prelude::*;

verus! {

/// The ceiling that [`sorted_test_batch_size`] applies.
pub const DEFAULT_MAX_BATCH_SIZE: usize = 80;

/// A batch size together with the number of steps that covers a subset with it.
#[derive(Clone, Copy, Debug, PartialEq, Eq, Structural)]
pub struct BatchPlan {
    pub batch_size: usize,
    pub step_count: usize,
}

/// `b` is a batch size that covers `length` examples exactly and respects `max`.
pub open spec fn is_eligible(length: int, max: int, b: int) -> bool {
    1 <= b <= max && b <= length && length % b == 0
}

/// `b` is the largest eligible batch size for `length` under the ceiling `max`.
pub open spec fn is_best_batch_size(length: int, max: int, b: int) -> bool {
    &&& is_eligible(length, max, b)
    &&& forall|c: int| b < c && #[trigger] is_eligible(length, max, c) ==> false
}

/// Chooses the largest batch size that divides `length` and does not exceed
/// `max_batch_size`, together with the resulting number of steps.
///
/// Fails exactly when no such batch size exists, which is when `length` or
/// `max_batch_size` is zero; for a non-empty subset and a positive ceiling the
/// batch size 1 is always eligible.
pub fn choose_batch_size(length: usize, max_batch_size: usize) -> (plan: Result<
    BatchPlan,
    PipelineError,
>)
    ensures
        plan is Err <==> (length == 0 || max_batch_size == 0),
        plan matches Ok(p) ==> {
            &&& is_best_batch_size(length as int, max_batch_size as int, p.batch_size as int)
            &&& p.step_count * p.batch_size == length
            &&& p.step_count == length as int / p.batch_size as int
        },
        plan matches Err(e) ==> e == (PipelineError::NoEligibleBatchSize {
            length,
            max_batch_size,
        }),
{
    if length == 0 || max_batch_size == 0 {
        return Err(PipelineError::NoEligibleBatchSize { length, max_batch_size });
    }
    let mut b: usize = if max_batch_size < length {
        max_batch_size
    } else {
        length
    };
    while length % b != 0
        invariant
            1 <= b <= max_batch_size,
            b <= length,
            forall|c: int| b < c && #[trigger] is_eligible(length as int, max_batch_size as int, c)
                ==> false,
        decreases b,
    {
        assert(b > 1) by {
            if b == 1 {
                assert(length % 1 == 0);
            }
        }
        b = b - 1;
    }
    let steps: usize = length / b;
    proof {
        lemma_exact_quotient(length as int, b as int);
    }
    Ok(BatchPlan { batch_size: b, step_count: steps })
}

/// The largest batch size of at most [`DEFAULT_MAX_BATCH_SIZE`] that divides
/// `length`.
pub fn sorted_test_batch_size(length: usize) -> (batch_size: usize)
    requires
        length > 0,
    ensures
        is_best_batch_size(length as int, DEFAULT_MAX_BATCH_SIZE as int, batch_size as int),
{
    match choose_batch_size(length, DEFAULT_MAX_BATCH_SIZE) {
        Ok(plan) => plan.batch_size,
        Err(_) => 1,
    }
}

/// A divisor times its quotient gives the dividend back.
pub proof fn lemma_exact_quotient(length: int, b: int)
    requires
        b > 0,
        length >= 0,
        length % b == 0,
    ensures
        (length / b) * b == length,
{
    vstd::arithmetic::div_mod::lemma_fundamental_div_mod(length, b);
    assert(b * (length / b) == (length / b) * b) by (nonlinear_arith);
}

} // verus!
