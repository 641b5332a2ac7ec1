use lyssa::trial::{
    aggregate_trials, verify_trial_value, write_trial_value, TrialRun, TRIAL_COUNT,
    TRIAL_DELAY_SECS, TEST_REGION_BYTES,
};
use lyssa::BenchError;

#[test]
fn six_trials_discard_the_warmup_and_average_five() {
    // the warmup (1000) is discarded; the mean of 2,4,6,8,10 is 6
    let results = vec![1000u64, 2, 4, 6, 8, 10];
    assert_eq!(results.len(), TRIAL_COUNT);
    assert_eq!(aggregate_trials(&results), Ok(6));
}

#[test]
fn one_trial_cannot_be_aggregated() {
    assert_eq!(aggregate_trials(&vec![5u64]), Err(BenchError::AggregationError));
    assert_eq!(aggregate_trials(&Vec::new()), Err(BenchError::AggregationError));
}

#[test]
fn two_trials_average_the_single_retained_result() {
    assert_eq!(aggregate_trials(&vec![7u64, 42]), Ok(42));
}

#[test]
fn aggregation_truncates_like_integer_division() {
    assert_eq!(aggregate_trials(&vec![0u64, 1, 2]), Ok(1));
}

#[test]
fn aggregation_of_the_largest_measurements_does_not_overflow() {
    let results = vec![u64::MAX; TRIAL_COUNT];
    assert_eq!(aggregate_trials(&results), Ok(u64::MAX));
}

#[test]
fn trial_run_records_in_order_and_finishes_with_the_mean() {
    let mut run = TrialRun::new();
    assert_eq!(run.finish(), Err(BenchError::AggregationError));
    for v in [100u64, 10, 20, 30, 40, 50] {
        run.record(v);
    }
    assert_eq!(run.results.len(), TRIAL_COUNT);
    assert_eq!(run.finish(), Ok(30));
}

#[test]
fn write_failures_are_absorbed_as_zero() {
    assert_eq!(write_trial_value(Some(123)), 123);
    assert_eq!(write_trial_value(None), 0);
}

#[test]
fn verify_failures_are_fatal() {
    assert_eq!(verify_trial_value(Some(123)), Ok(123));
    assert_eq!(verify_trial_value(None), Err(BenchError::ExecutionFailed));
}

#[test]
fn protocol_constants_match_the_fixed_protocol() {
    assert_eq!(TRIAL_COUNT, 6);
    assert_eq!(TRIAL_DELAY_SECS, 5);
    assert_eq!(TEST_REGION_BYTES, 1024 * 1024 * 1024);
}
