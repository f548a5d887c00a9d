//! The aggregation rules the roles enforce: replay protection, report timing,
//! batch bucketing and the batch-size gate on collection.

use vstd::prelude::*;
use vstd::arithmetic::div_mod::lemma_fundamental_div_mod;
use crate::aggregate::TransitionFailure;
use crate::messages::{Duration, Id, Nonce, Time, constant_time_eq};
use crate::store::KvState;
use crate::tasks::DapTaskConfig;

verus! {

/// Whether replay protection is enforced. Disabling it is the one permitted
/// degradation, and only an explicit override reaches it.
#[derive(Clone, Copy, Debug, PartialEq, Eq, Structural)]
pub enum ReplayProtection {
    Enabled,
    InsecureDisabled,
}

/// A failure to reach the remote store.
#[derive(Clone, Copy, Debug, PartialEq, Eq, Structural)]
pub struct StorageError;

/// The policy an override read resolves to: protection is disabled only when
/// the key was read and holds true. A missing key, a false value and a failed
/// read all leave protection enabled.
pub open spec fn spec_replay_protection(fetched: Result<Option<bool>, StorageError>) -> ReplayProtection {
    match fetched {
        Ok(Option::Some(true)) => ReplayProtection::InsecureDisabled,
        _ => ReplayProtection::Enabled,
    }
}

/// Resolve the outcome of reading the override key. The resolver is fail-safe:
/// an error or a missing key falls through to enabled.
pub fn resolve_replay_protection(fetched: &Result<Option<bool>, StorageError>) -> (r:
    ReplayProtection)
    ensures
        r == spec_replay_protection(*fetched),
{
    match fetched {
        Ok(Some(true)) => ReplayProtection::InsecureDisabled,
        _ => ReplayProtection::Enabled,
    }
}

/// Read the override from the store and resolve it.
pub fn fetch_replay_protection_override(kv: &KvState) -> (r: ReplayProtection)
    ensures
        r == spec_replay_protection(Ok(kv@.skip_replay_protection)),
{
    let fetched = kv.get_skip_replay_protection();
    resolve_replay_protection(&Ok(fetched))
}

/// A protocol-visible rejection.
#[derive(Clone, Copy, Debug, PartialEq, Eq, Structural)]
pub enum DapAbort {
    BadRequest,
    UnrecognizedTask,
    InvalidBatch,
    BatchMismatch,
    BatchInvalid,
    ReportTooLate,
}

/// The pairs of task identifier and nonce whose reports have finished
/// aggregation. Replay protection means a pair enters this set at most once.
pub struct ReplayCache {
    pub seen: Vec<(Id, Nonce)>,
}

/// The set of pairs an association list holds.
pub open spec fn seen_pairs(entries: Seq<(Id, Nonce)>) -> Set<(Seq<u8>, Seq<u8>)>
    decreases entries.len(),
{
    if entries.len() == 0 {
        Set::empty()
    } else {
        seen_pairs(entries.drop_last()).insert((entries.last().0@, entries.last().1@))
    }
}

pub proof fn lemma_seen_pairs_contains(entries: Seq<(Id, Nonce)>, t: Seq<u8>, n: Seq<u8>)
    ensures
        seen_pairs(entries).contains((t, n)) <==> (exists|i: int|
            0 <= i < entries.len() && (#[trigger] entries[i]).0@ == t && entries[i].1@ == n),
    decreases entries.len(),
{
    if entries.len() > 0 {
        lemma_seen_pairs_contains(entries.drop_last(), t, n);
        if entries.last().0@ == t && entries.last().1@ == n {
            assert(entries[entries.len() - 1].0@ == t && entries[entries.len() - 1].1@ == n);
        } else {
            if exists|i: int|
                0 <= i < entries.len() - 1 && (#[trigger] entries.drop_last()[i]).0@ == t
                    && entries.drop_last()[i].1@ == n {
                let i = choose|i: int|
                    0 <= i < entries.len() - 1 && (#[trigger] entries.drop_last()[i]).0@ == t
                        && entries.drop_last()[i].1@ == n;
                assert(entries[i].0@ == t && entries[i].1@ == n);
            }
            if exists|i: int|
                0 <= i < entries.len() && (#[trigger] entries[i]).0@ == t && entries[i].1@ == n {
                let i = choose|i: int|
                    0 <= i < entries.len() && (#[trigger] entries[i]).0@ == t && entries[i].1@
                        == n;
                assert(entries.drop_last()[i].0@ == t && entries.drop_last()[i].1@ == n);
            }
        }
    }
}

impl View for ReplayCache {
    type V = Set<(Seq<u8>, Seq<u8>)>;

    open spec fn view(&self) -> Set<(Seq<u8>, Seq<u8>)> {
        seen_pairs(self.seen@)
    }
}

/// What a replay check decides: with protection enabled, a pair already seen
/// is rejected as replayed; everything else passes.
pub open spec fn replay_decision(
    seen: Set<(Seq<u8>, Seq<u8>)>,
    task_id: Seq<u8>,
    nonce: Seq<u8>,
    rp: ReplayProtection,
) -> Result<(), TransitionFailure> {
    if rp is Enabled && seen.contains((task_id, nonce)) {
        Err(TransitionFailure::ReportReplayed)
    } else {
        Ok(())
    }
}

impl ReplayCache {
    /// An empty cache.
    pub fn new() -> (r: ReplayCache)
        ensures
            r@ == Set::<(Seq<u8>, Seq<u8>)>::empty(),
    {
        ReplayCache { seen: Vec::new() }
    }

    /// Check a report against the cache under the given policy.
    #[verifier::loop_isolation(false)]
    pub fn check_replay(&self, task_id: &Id, nonce: &Nonce, rp: ReplayProtection) -> (r: Result<
        (),
        TransitionFailure,
    >)
        ensures
            r == replay_decision(self@, task_id@, nonce@, rp),
    {
        match rp {
            ReplayProtection::InsecureDisabled => Ok(()),
            ReplayProtection::Enabled => {
                let mut i: usize = 0;
                while i < self.seen.len()
                    invariant
                        i <= self.seen@.len(),
                        forall|j: int|
                            0 <= j < i ==> !((#[trigger] self.seen@[j]).0@ == task_id@
                                && self.seen@[j].1@ == nonce@),
                    decreases self.seen@.len() - i,
                {
                    if constant_time_eq(self.seen[i].0.as_ref(), task_id.as_ref())
                        && constant_time_eq(self.seen[i].1.as_ref(), nonce.as_ref()) {
                        proof {
                            lemma_seen_pairs_contains(self.seen@, task_id@, nonce@);
                        }
                        return Err(TransitionFailure::ReportReplayed);
                    }
                    i = i + 1;
                }
                proof {
                    lemma_seen_pairs_contains(self.seen@, task_id@, nonce@);
                }
                Ok(())
            },
        }
    }

    /// Record that a report finished aggregation.
    pub fn mark_finished(&mut self, task_id: Id, nonce: Nonce)
        ensures
            final(self)@ == old(self)@.insert((task_id@, nonce@)),
    {
        let ghost entries0 = self.seen@;
        self.seen.push((task_id, nonce));
        proof {
            assert(self.seen@.drop_last() =~= entries0);
        }
    }
}

/// Replay protection holds at-most-once: once a pair is recorded as finished,
/// any later check of the same pair with protection enabled reports a replay —
/// and with protection disabled, nothing is ever rejected.
pub proof fn law_replay_protection(seen: Set<(Seq<u8>, Seq<u8>)>, task_id: Seq<u8>, nonce: Seq<u8>)
    ensures
        replay_decision(seen.insert((task_id, nonce)), task_id, nonce, ReplayProtection::Enabled)
            == Err::<(), TransitionFailure>(TransitionFailure::ReportReplayed),
        replay_decision(seen, task_id, nonce, ReplayProtection::InsecureDisabled) == Ok::<
            (),
            TransitionFailure,
        >(()),
{
}

/// The start of the half-open time-interval bucket a report falls into:
/// its time, rounded down to the task's time precision.
pub fn batch_bucket(time: Time, time_precision: Duration) -> (r: Time)
    requires
        time_precision > 0,
    ensures
        r == (time / time_precision) * time_precision,
        r <= time,
        time - r < time_precision,
        r % time_precision == 0,
{
    proof {
        lemma_fundamental_div_mod(time as int, time_precision as int);
        vstd::arithmetic::div_mod::lemma_mod_multiples_basic(
            (time as int) / (time_precision as int),
            time_precision as int,
        );
    }
    (time / time_precision) * time_precision
}

/// The batch-size gate on collection: a batch is collectable only when it
/// holds at least the task's minimum number of reports.
pub fn check_batch_size(report_count: u64, task: &DapTaskConfig) -> (r: Result<(), DapAbort>)
    ensures
        r == (if report_count < task.min_batch_size {
            Err::<(), DapAbort>(DapAbort::BatchInvalid)
        } else {
            Ok::<(), DapAbort>(())
        }),
{
    if report_count < task.min_batch_size {
        Err(DapAbort::BatchInvalid)
    } else {
        Ok(())
    }
}

/// The timing gate on report intake: a report is accepted only while the task
/// is live, and a report stamped out of the task's lifetime is too late.
pub fn check_report_time(time: Time, task: &DapTaskConfig) -> (r: Result<(), DapAbort>)
    ensures
        r == (if time < task.not_before || time > task.not_after {
            Err::<(), DapAbort>(DapAbort::ReportTooLate)
        } else {
            Ok::<(), DapAbort>(())
        }),
{
    if time < task.not_before || time > task.not_after {
        Err(DapAbort::ReportTooLate)
    } else {
        Ok(())
    }
}

} // verus!
