//! The trial protocol: a fixed warmup-then-measure sequence. Every
//! backend operation is run a fixed number of times with a quiescence
//! delay between runs; the first result is the warmup and is
//! discarded; the aggregate is the arithmetic mean of the rest.

use vstd::arithmetic::div_mod::{lemma_div_by_multiple, lemma_div_is_ordered};
use vstd::prelude::*;

use crate::BenchError;

verus! {

/// How many times each backend operation is run: one warmup plus
/// five measured trials.
pub const TRIAL_COUNT: usize = 6;

/// Seconds of quiescence between consecutive trials.
pub const TRIAL_DELAY_SECS: u64 = 5;

/// Bytes of the target region each embedded-backend trial covers.
pub const TEST_REGION_BYTES: u64 = 1024 * 1024 * 1024;

/// The sum of a sequence of measurements.
pub open spec fn sum_of(s: Seq<u64>) -> int
    decreases s.len(),
{
    if s.len() == 0 {
        0
    } else {
        s[0] + sum_of(s.skip(1))
    }
}

/// The aggregate of a trial sequence: the mean of everything but the
/// first result, or nothing when fewer than two trials ran.
pub open spec fn aggregate_spec(s: Seq<u64>) -> Option<int> {
    if s.len() < 2 {
        Option::None
    } else {
        Option::Some(sum_of(s.skip(1)) / (s.len() - 1))
    }
}

/// A sum grows by the pushed element.
pub proof fn lemma_sum_push(s: Seq<u64>, x: u64)
    ensures
        sum_of(s.push(x)) == sum_of(s) + x,
    decreases s.len(),
{
    if s.len() == 0 {
        assert(s.push(x).skip(1) =~= s);
    } else {
        assert(s.push(x)[0] == s[0]);
        assert(s.push(x).skip(1) =~= s.skip(1).push(x));
        lemma_sum_push(s.skip(1), x);
    }
}

/// A sum of measurements is never negative.
pub proof fn lemma_sum_nonneg(s: Seq<u64>)
    ensures
        sum_of(s) >= 0,
    decreases s.len(),
{
    if s.len() > 0 {
        lemma_sum_nonneg(s.skip(1));
    }
}

/// The aggregation rule. The first result is the warmup and is
/// discarded; the mean of the retained results is returned. Fewer
/// than two results leave nothing to average: `AggregationError`.
pub fn aggregate_trials(results: &Vec<u64>) -> (r: Result<u64, BenchError>)
    ensures
        match r {
            Result::Ok(m) => aggregate_spec(results@) == Option::Some(m as int),
            Result::Err(e) => aggregate_spec(results@) == Option::None::<int> && e
                == BenchError::AggregationError,
        },
{
    if results.len() < 2 {
        return Result::Err(BenchError::AggregationError);
    }
    let mut acc: u128 = 0;
    let mut i: usize = 1;
    proof {
        assert(results@.subrange(1, 1) =~= Seq::<u64>::empty());
    }
    while i < results.len()
        invariant
            1 <= i <= results.len(),
            acc as int == sum_of(results@.subrange(1, i as int)),
            acc as int <= (i - 1) * (u64::MAX as int),
        decreases results.len() - i,
    {
        let v = results[i];
        proof {
            lemma_sum_push(results@.subrange(1, i as int), v);
            assert(results@.subrange(1, i + 1 as int) =~= results@.subrange(1, i as int).push(v));
        }
        acc = acc + v as u128;
        i += 1;
    }
    let d = (results.len() - 1) as u128;
    let m = acc / d;
    proof {
        assert(results@.subrange(1, results@.len() as int) =~= results@.skip(1));
        lemma_sum_nonneg(results@.skip(1));
        lemma_div_is_ordered(acc as int, (d as int) * (u64::MAX as int), d as int);
        lemma_div_by_multiple(u64::MAX as int, d as int);
        assert((u64::MAX as int) * (d as int) == (d as int) * (u64::MAX as int));
        assert(m as int <= u64::MAX as int);
    }
    Result::Ok(m as u64)
}

/// Law: six trials always mean one discarded warmup and exactly five
/// retained, averaged results — the warmup is `results[0]` and each
/// retained result keeps its place.
pub proof fn lemma_trial_protocol_six(results: Seq<u64>)
    requires
        results.len() == TRIAL_COUNT as int,
    ensures
        results.skip(1).len() == TRIAL_COUNT - 1,
        forall|j: int| 1 <= j < TRIAL_COUNT ==> results.skip(1)[j - 1] == results[j],
        aggregate_spec(results) == Option::Some(sum_of(results.skip(1)) / (TRIAL_COUNT - 1)),
{
    assert forall|j: int| 1 <= j < TRIAL_COUNT implies results.skip(1)[j - 1] == results[j] by {
        assert(results.skip(1)[j - 1] == results[j]);
    }
}

/// Law: a single trial has no retained results, so it aggregates to
/// nothing rather than to a mean over zero results.
pub proof fn lemma_trial_protocol_single(results: Seq<u64>)
    requires
        results.len() < 2,
    ensures
        aggregate_spec(results) == Option::None::<int>,
{
}

/// The write-phase failure rule: a failed embedded-backend call is
/// absorbed as a zero measurement, so one bad trial dilutes the mean
/// instead of aborting the sequence.
pub fn write_trial_value(outcome: Option<u64>) -> (r: u64)
    ensures
        r == match outcome {
            Option::Some(v) => v,
            Option::None => 0u64,
        },
{
    match outcome {
        Option::Some(v) => v,
        Option::None => 0,
    }
}

/// The verify-phase failure rule: a failed embedded-backend call is
/// fatal at once.
pub fn verify_trial_value(outcome: Option<u64>) -> (r: Result<u64, BenchError>)
    ensures
        match outcome {
            Option::Some(v) => r == Result::<u64, BenchError>::Ok(v),
            Option::None => r == Result::<u64, BenchError>::Err(BenchError::ExecutionFailed),
        },
{
    match outcome {
        Option::Some(v) => Result::Ok(v),
        Option::None => Result::Err(BenchError::ExecutionFailed),
    }
}

/// One warmup-then-measure sequence in progress: the driver records
/// every trial's measurement in order and asks for the aggregate at
/// the end.
pub struct TrialRun {
    pub results: Vec<u64>,
}

impl TrialRun {
    /// An empty trial sequence.
    pub fn new() -> (r: TrialRun)
        ensures
            r.results@ == Seq::<u64>::empty(),
    {
        let r = TrialRun { results: Vec::new() };
        proof {
            assert(r.results@ =~= Seq::<u64>::empty());
        }
        r
    }

    /// Records one completed trial's measurement.
    pub fn record(&mut self, value: u64)
        ensures
            final(self).results@ == old(self).results@.push(value),
    {
        self.results.push(value);
    }

    /// The aggregate over the recorded sequence.
    pub fn finish(&self) -> (r: Result<u64, BenchError>)
        ensures
            match r {
                Result::Ok(m) => aggregate_spec(self.results@) == Option::Some(m as int),
                Result::Err(e) => aggregate_spec(self.results@) == Option::None::<int> && e
                    == BenchError::AggregationError,
            },
    {
        aggregate_trials(&self.results)
    }
}

} // verus!
