use fire_scope::fetch::{
    accept_chunk, batch_decision, calc_exponential_backoff_ms, partition_outcomes, task_step,
    BatchDecision, TaskEvent, TaskOutcome, TaskState,
};

fn outcome(id: &str, body: Option<&str>) -> TaskOutcome {
    TaskOutcome { id: id.to_string(), body: body.map(|s| s.to_string()) }
}

#[test]
fn partitions_successes_and_failures() {
    // five tasks, two permanent failures: exactly two failures, three successes
    let ts = vec![
        outcome("https://a.example/x", Some("alpha")),
        outcome("https://b.example/x", None),
        outcome("https://c.example/x", Some("gamma")),
        outcome("https://d.example/x", None),
        outcome("https://e.example/x", Some("epsilon")),
    ];
    let n = ts.len();
    let (ok, failed) = partition_outcomes(&ts);
    assert_eq!(ok, vec!["alpha", "gamma", "epsilon"]);
    assert_eq!(failed, vec!["https://b.example/x", "https://d.example/x"]);
    assert_eq!(ok.len() + failed.len(), n);
}

#[test]
fn backoff_is_capped_with_full_jitter() {
    // window = min(2^3, 16) = 8 s = 8000 ms
    assert_eq!(calc_exponential_backoff_ms(3, 16, 12345), 12345 % 8000);
    // window = min(2^6, 16) = 16 s
    assert_eq!(calc_exponential_backoff_ms(6, 16, 123_456), 123_456 % 16_000);
    // a zero cap behaves as one second
    assert!(calc_exponential_backoff_ms(10, 0, 999_999) < 1000);
    // huge attempt counts saturate instead of overflowing
    let w = calc_exponential_backoff_ms(200, u64::MAX, 42);
    assert_eq!(w, 42);
}

#[test]
fn size_cap_is_enforced() {
    assert_eq!(accept_chunk(10, 20, 100), Some(30));
    assert_eq!(accept_chunk(90, 20, 100), None);
    assert_eq!(accept_chunk(u64::MAX - 1, 10, u64::MAX), Some(u64::MAX));
    assert_eq!(accept_chunk(0, 0, 0), Some(0));
}

#[test]
fn task_state_machine_transitions() {
    let retries = 3;
    let s = task_step(TaskState::Pending, TaskEvent::Begin, retries);
    assert_eq!(s, TaskState::Fetching { attempt: 0 });
    let s = task_step(s, TaskEvent::Outcome { ok: false }, retries);
    assert_eq!(s, TaskState::Retrying { next_attempt: 1 });
    let s = task_step(s, TaskEvent::BackoffElapsed, retries);
    assert_eq!(s, TaskState::Fetching { attempt: 1 });
    let s = task_step(s, TaskEvent::Outcome { ok: true }, retries);
    assert_eq!(s, TaskState::Success);
    // terminal states never change
    assert_eq!(task_step(s, TaskEvent::Begin, retries), TaskState::Success);

    // exhaustion after the last attempt
    let s = task_step(TaskState::Fetching { attempt: 2 }, TaskEvent::Outcome { ok: false }, retries);
    assert_eq!(s, TaskState::Exhausted);
    assert_eq!(task_step(s, TaskEvent::BackoffElapsed, retries), TaskState::Exhausted);

    // zero configured retries still means one attempt
    let s = task_step(TaskState::Fetching { attempt: 0 }, TaskEvent::Outcome { ok: false }, 0);
    assert_eq!(s, TaskState::Exhausted);
}

#[test]
fn batch_policy_decisions() {
    assert_eq!(batch_decision(4, 1, false), BatchDecision::AbortPartialFailure);
    assert_eq!(batch_decision(4, 1, true), BatchDecision::Proceed);
    assert_eq!(batch_decision(0, 5, true), BatchDecision::AbortNoData);
    assert_eq!(batch_decision(0, 0, false), BatchDecision::AbortNoData);
    assert_eq!(batch_decision(5, 0, false), BatchDecision::Proceed);
}
