use dataset_pipeline::batch_sizer::{
    choose_batch_size, sorted_test_batch_size, BatchPlan, DEFAULT_MAX_BATCH_SIZE,
};
use dataset_pipeline::model::PipelineError;

#[test]
fn prime_length_leaves_only_batch_size_one() {
    assert_eq!(choose_batch_size(37, 10), Ok(BatchPlan { batch_size: 1, step_count: 37 }));
}

#[test]
fn largest_divisor_within_ceiling_is_chosen() {
    assert_eq!(choose_batch_size(3000, 80), Ok(BatchPlan { batch_size: 75, step_count: 40 }));
    assert_eq!(choose_batch_size(300, 80), Ok(BatchPlan { batch_size: 75, step_count: 4 }));
    assert_eq!(choose_batch_size(96, 32), Ok(BatchPlan { batch_size: 32, step_count: 3 }));
    assert_eq!(choose_batch_size(100, 32), Ok(BatchPlan { batch_size: 25, step_count: 4 }));
}

#[test]
fn ceiling_above_length_gives_one_step() {
    assert_eq!(choose_batch_size(7, 80), Ok(BatchPlan { batch_size: 7, step_count: 1 }));
    assert_eq!(choose_batch_size(1, 1), Ok(BatchPlan { batch_size: 1, step_count: 1 }));
}

#[test]
fn empty_subset_has_no_eligible_batch_size() {
    assert_eq!(
        choose_batch_size(0, 10),
        Err(PipelineError::NoEligibleBatchSize { length: 0, max_batch_size: 10 })
    );
}

#[test]
fn zero_ceiling_has_no_eligible_batch_size() {
    assert_eq!(
        choose_batch_size(12, 0),
        Err(PipelineError::NoEligibleBatchSize { length: 12, max_batch_size: 0 })
    );
}

#[test]
fn batch_size_divides_length_and_respects_ceiling() {
    for length in 1usize..200 {
        for max in 1usize..40 {
            let plan = choose_batch_size(length, max).unwrap();
            assert!(plan.batch_size >= 1 && plan.batch_size <= max);
            assert_eq!(length % plan.batch_size, 0);
            assert_eq!(plan.step_count * plan.batch_size, length);
            for larger in (plan.batch_size + 1)..=max {
                assert_ne!(length % larger, 0);
            }
        }
    }
}

#[test]
fn default_ceiling_is_eighty() {
    assert_eq!(DEFAULT_MAX_BATCH_SIZE, 80);
    assert_eq!(sorted_test_batch_size(300), 75);
    assert_eq!(sorted_test_batch_size(37), 37);
    assert_eq!(sorted_test_batch_size(83), 1);
    assert_eq!(sorted_test_batch_size(160), 80);
}
