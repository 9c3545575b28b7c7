//! Pure decision logic of the bounded-concurrency download pipeline: the
//! per-task retry state machine, capped exponential backoff with full
//! jitter, the streaming response-size cap, and the folding of per-task
//! outcomes into success and failure lists.
//!
//! The suspension points themselves (network I/O, sleeping) live outside
//! the library; callers perform them and feed the results back in.

use vstd::prelude::*;
use vstd::arithmetic::power2::*;
use crate::prefix::pow2i;

verus! {

/// Lifecycle of one fetch task.  `Success` and `Exhausted` are terminal.
#[derive(Debug, Clone, Copy, PartialEq, Eq, Structural)]
pub enum TaskState {
    Pending,
    Fetching { attempt: u32 },
    Retrying { next_attempt: u32 },
    Success,
    Exhausted,
}

/// What happened to a task since its last state.
#[derive(Debug, Clone, Copy, PartialEq, Eq, Structural)]
pub enum TaskEvent {
    Begin,
    Outcome { ok: bool },
    BackoffElapsed,
}

/// The effective number of attempts: at least one.
pub open spec fn spec_attempts(retry_attempts: u32) -> int {
    if retry_attempts >= 1 {
        retry_attempts as int
    } else {
        1
    }
}

/// One transition of the per-task state machine
/// `Pending -> Fetching -> {Success | Retrying -> Fetching | Exhausted}`.
/// Terminal states never change; an event that does not apply leaves the
/// state unchanged, so a task can never report both success and failure.
pub fn task_step(st: TaskState, ev: TaskEvent, retry_attempts: u32) -> (r: TaskState)
    ensures
        r == match (st, ev) {
            (TaskState::Pending, TaskEvent::Begin) => TaskState::Fetching { attempt: 0 },
            (TaskState::Fetching { attempt }, TaskEvent::Outcome { ok }) => {
                if ok {
                    TaskState::Success
                } else if attempt + 1 < spec_attempts(retry_attempts) {
                    TaskState::Retrying { next_attempt: (attempt + 1) as u32 }
                } else {
                    TaskState::Exhausted
                }
            },
            (TaskState::Retrying { next_attempt }, TaskEvent::BackoffElapsed) => {
                TaskState::Fetching { attempt: next_attempt }
            },
            _ => st,
        },
{
    let attempts: u32 = if retry_attempts >= 1 {
        retry_attempts
    } else {
        1
    };
    match (st, ev) {
        (TaskState::Pending, TaskEvent::Begin) => TaskState::Fetching { attempt: 0 },
        (TaskState::Fetching { attempt }, TaskEvent::Outcome { ok }) => {
            if ok {
                TaskState::Success
            } else if attempt < u32::MAX && attempt + 1 < attempts {
                TaskState::Retrying { next_attempt: attempt + 1 }
            } else {
                TaskState::Exhausted
            }
        },
        (TaskState::Retrying { next_attempt }, TaskEvent::BackoffElapsed) => {
            TaskState::Fetching { attempt: next_attempt }
        },
        _ => st,
    }
}

/// `pow2(e)`, saturating at `u64::MAX`.
pub fn pow2_saturating_u64(e: u32) -> (r: u64)
    ensures
        pow2(e as nat) <= u64::MAX ==> r as int == pow2i(e as nat),
        pow2(e as nat) > u64::MAX ==> r == u64::MAX,
{
    if e >= 64 {
        proof {
            lemma2_to64();
            lemma_pow2_adds(64, (e - 64) as nat);
            lemma_pow2_pos((e - 64) as nat);
            vstd::arithmetic::mul::lemma_mul_increases(
                pow2i((e - 64) as nat),
                pow2i(64),
            );
        }
        return u64::MAX;
    }
    let mut i: u32 = 0;
    let mut p: u64 = 1;
    proof {
        lemma2_to64();
    }
    while i < e
        invariant
            i <= e < 64,
            p as int == pow2i(i as nat),
        decreases e - i,
    {
        proof {
            lemma_pow2_unfold((i + 1) as nat);
            lemma_pow2_strictly_increases((i + 1) as nat, 64);
            lemma2_to64();
        }
        p = p * 2;
        i = i + 1;
    }
    proof {
        if pow2(e as nat) > u64::MAX {
            lemma_pow2_strictly_increases(e as nat, 64);
            lemma2_to64();
        }
    }
    p
}

/// The backoff window for one retry, in milliseconds:
/// `min(cap, 2^attempt)` seconds, saturating, never below one second.
pub open spec fn spec_backoff_window_ms(retry_count: u32, max_backoff_secs: u64) -> int {
    let cap: int = if max_backoff_secs >= 1 {
        max_backoff_secs as int
    } else {
        1
    };
    let exp: int = if pow2(retry_count as nat) <= u64::MAX {
        pow2i(retry_count as nat)
    } else {
        u64::MAX as int
    };
    let range: int = if exp <= cap {
        exp
    } else {
        cap
    };
    if range * 1000 <= u64::MAX {
        range * 1000
    } else {
        u64::MAX as int
    }
}

/// Capped exponential backoff with full jitter, in milliseconds: the wait
/// is drawn uniformly from `[0, min(cap, 2^attempt))` seconds, using the
/// caller-supplied random word `jitter`.  A cap below one second is raised
/// to one.
pub fn calc_exponential_backoff_ms(retry_count: u32, max_backoff_secs: u64, jitter: u64) -> (ms:
    u64)
    ensures
        ms as int == jitter as int % spec_backoff_window_ms(retry_count, max_backoff_secs),
        (ms as int) < spec_backoff_window_ms(retry_count, max_backoff_secs),
{
    let cap: u64 = if max_backoff_secs >= 1 {
        max_backoff_secs
    } else {
        1
    };
    let exp = pow2_saturating_u64(retry_count);
    let range: u64 = if exp <= cap {
        exp
    } else {
        cap
    };
    let range_ms: u64 = if range <= u64::MAX / 1000 {
        range * 1000
    } else {
        u64::MAX
    };
    proof {
        lemma_pow2_pos(retry_count as nat);
    }
    jitter % range_ms
}

/// Add a chunk to the running total under the byte ceiling; the total
/// saturates, and `None` means the response exceeded the ceiling and the
/// fetch must fail.
pub fn accept_chunk(total: u64, chunk_len: u64, cap: u64) -> (r: Option<u64>)
    ensures
        ({
            let t: int = if total + chunk_len <= u64::MAX {
                total as int + chunk_len as int
            } else {
                u64::MAX as int
            };
            if t <= cap {
                r == Some(t as u64)
            } else {
                r is None
            }
        }),
{
    let t: u64 = if chunk_len <= u64::MAX - total {
        total + chunk_len
    } else {
        u64::MAX
    };
    if t <= cap {
        Some(t)
    } else {
        None
    }
}

/// The identity and result of one finished task: the payload on success,
/// nothing on permanent failure.
pub struct TaskOutcome {
    pub id: String,
    pub body: Option<String>,
}

/// The payloads of the successful outcomes, in order.
pub open spec fn spec_successes(ts: Seq<TaskOutcome>) -> Seq<Seq<char>>
    decreases ts.len(),
{
    if ts.len() == 0 {
        Seq::empty()
    } else {
        spec_successes(ts.drop_last()) + (match ts.last().body {
            Some(b) => seq![b@],
            None => Seq::empty(),
        })
    }
}

/// The identities of the permanently failed outcomes, in order.
pub open spec fn spec_failures(ts: Seq<TaskOutcome>) -> Seq<Seq<char>>
    decreases ts.len(),
{
    if ts.len() == 0 {
        Seq::empty()
    } else {
        spec_failures(ts.drop_last()) + (match ts.last().body {
            Some(_) => Seq::empty(),
            None => seq![ts.last().id@],
        })
    }
}

/// View of a string list.
pub open spec fn str_views(ss: Seq<String>) -> Seq<Seq<char>> {
    ss.map_values(|s: String| s@)
}

/// Fold finished tasks into `(successes, failures)`.  No outcome is lost,
/// none lands in both lists, and task identity is preserved for failures.
pub fn partition_outcomes(ts: &Vec<TaskOutcome>) -> (r: (Vec<String>, Vec<String>))
    ensures
        str_views(r.0@) == spec_successes(ts@),
        str_views(r.1@) == spec_failures(ts@),
        r.0@.len() + r.1@.len() == ts@.len(),
{
    let mut successes: Vec<String> = Vec::new();
    let mut failures: Vec<String> = Vec::new();
    let mut i: usize = 0;
    proof {
        assert(ts@.take(0) =~= Seq::<TaskOutcome>::empty());
        assert(str_views(successes@) =~= spec_successes(ts@.take(0)));
        assert(str_views(failures@) =~= spec_failures(ts@.take(0)));
    }
    while i < ts.len()
        invariant
            i <= ts@.len(),
            str_views(successes@) == spec_successes(ts@.take(i as int)),
            str_views(failures@) == spec_failures(ts@.take(i as int)),
            successes@.len() + failures@.len() == i,
        decreases ts@.len() - i,
    {
        let t = &ts[i];
        proof {
            assert(ts@.take(i as int + 1).drop_last() =~= ts@.take(i as int));
            assert(ts@.take(i as int + 1).last() == ts@[i as int]);
        }
        match &t.body {
            Some(b) => {
                successes.push(b.clone());
                proof {
                    assert(str_views(successes@) =~= spec_successes(ts@.take(i as int + 1)));
                    assert(str_views(failures@) =~= spec_failures(ts@.take(i as int + 1)));
                }
            },
            None => {
                failures.push(t.id.clone());
                proof {
                    assert(str_views(successes@) =~= spec_successes(ts@.take(i as int + 1)));
                    assert(str_views(failures@) =~= spec_failures(ts@.take(i as int + 1)));
                }
            },
        }
        i = i + 1;
    }
    proof {
        assert(ts@.take(ts@.len() as int) =~= ts@);
    }
    (successes, failures)
}

/// Exactly the failed tasks fail: with `k` permanent failures among `n`
/// tasks, the pipeline reports `k` failures and `n - k` successes.
pub proof fn lemma_partition_counts(ts: Seq<TaskOutcome>)
    ensures
        spec_failures(ts).len() == ts.filter(|t: TaskOutcome| t.body is None).len(),
        spec_successes(ts).len() + spec_failures(ts).len() == ts.len(),
    decreases ts.len(),
{
    reveal(Seq::filter);
    if ts.len() == 0 {
    } else {
        lemma_partition_counts(ts.drop_last());
    }
}

/// Outcome of a whole download batch, decided by the caller's policy.
#[derive(Debug, Clone, Copy, PartialEq, Eq, Structural)]
pub enum BatchDecision {
    Proceed,
    AbortPartialFailure,
    AbortNoData,
}

/// Apply the partial-failure policy: any failure aborts unless the caller
/// chose to continue, and an empty success set is reported as "no data",
/// distinct from a partial failure.
pub fn batch_decision(n_success: usize, n_failed: usize, continue_on_partial: bool) -> (r:
    BatchDecision)
    ensures
        n_failed > 0 && !continue_on_partial ==> r == BatchDecision::AbortPartialFailure,
        (n_failed == 0 || continue_on_partial) && n_success == 0 ==> r
            == BatchDecision::AbortNoData,
        (n_failed == 0 || continue_on_partial) && n_success > 0 ==> r == BatchDecision::Proceed,
{
    if n_failed > 0 && !continue_on_partial {
        BatchDecision::AbortPartialFailure
    } else if n_success == 0 {
        BatchDecision::AbortNoData
    } else {
        BatchDecision::Proceed
    }
}

} // verus!
