//! Captured runs, their times and the ledger that they are written to.

use loopctl::memory::calendar::{civil_from_days, format_rfc3339, rfc3339_at};
use loopctl::memory::ledger::{
    append_step, begin_append, ledger_text, writes_inline, EnqueueOutcome, LedgerEvent,
    LedgerQueue, LedgerReport, LedgerStage, WorkerStep,
};
use loopctl::memory::trajectory::{
    millis, outcome_label, run_signals, truncate_chars, TokenSummary, TrajectoryObserver,
    TrajectoryOutcome, TurnFigures,
};
use loopctl::numeric::{scale_to_u16, unit_ratio, wide_unit_ratio};

const MILLI: u128 = 1_000_000;
const SESSION: u128 = 0x1111_2222_3333_4444_5555_6666_7777_8888;

#[test]
fn format_rfc3339_renders_known_timestamps() {
    assert_eq!(
        format_rfc3339(0).as_deref(),
        Some("1970-01-01T00:00:00Z"),
        "the Unix epoch renders exactly"
    );
    assert_eq!(
        format_rfc3339(86_400).as_deref(),
        Some("1970-01-02T00:00:00Z")
    );
    assert_eq!(
        format_rfc3339(951_868_800).as_deref(),
        Some("2000-03-01T00:00:00Z"),
        "the day after a leap-year February lands on March 1"
    );
    assert_eq!(
        format_rfc3339(1_709_164_800).as_deref(),
        Some("2024-02-29T00:00:00Z"),
        "leap days render correctly"
    );
    assert_eq!(
        format_rfc3339(1_700_000_000).as_deref(),
        Some("2023-11-14T22:13:20Z"),
        "an arbitrary modern timestamp renders with time of day"
    );
    assert_eq!(
        format_rfc3339(4_102_444_799).as_deref(),
        Some("2099-12-31T23:59:59Z"),
        "the last second of a century's first decade renders"
    );
}

#[test]
fn dates_turn_over_where_the_calendar_does() {
    assert_eq!(civil_from_days(0), Some((1970, 1, 1)));
    assert_eq!(civil_from_days(58), Some((1970, 2, 28)));
    assert_eq!(civil_from_days(59), Some((1970, 3, 1)));
    assert_eq!(civil_from_days(364), Some((1970, 12, 31)));
    assert_eq!(civil_from_days(365), Some((1971, 1, 1)));
    assert_eq!(rfc3339_at(1_700_000_000), "2023-11-14T22:13:20Z");
}

#[test]
fn truncate_chars_respects_the_limit_and_boundaries() {
    assert_eq!(truncate_chars("abcdef", 3), "abc");
    assert_eq!(truncate_chars("ab", 3), "ab", "shorter text passes through");
    assert_eq!(
        truncate_chars("héllo", 2),
        "hé",
        "multi-byte chars stay whole"
    );
}

#[test]
fn outcome_labels_are_the_stable_jsonl_names() {
    assert_eq!(outcome_label(&TrajectoryOutcome::Success), "success");
    assert_eq!(outcome_label(&TrajectoryOutcome::Failure), "failure");
    assert_eq!(outcome_label(&TrajectoryOutcome::Partial), "partial");
}

#[test]
fn scale_to_u16_is_one_below_threshold_and_grows_above() {
    assert_eq!(scale_to_u16(0), 1);
    assert_eq!(scale_to_u16(1), 1);
    assert_eq!(scale_to_u16(u16::MAX as usize), 1);
    assert_eq!(scale_to_u16(u16::MAX as usize + 1), 2);
    assert!(scale_to_u16(u16::MAX as usize * 4) > 1);
}

fn unit_ratio_f32(numerator: usize, denominator: usize) -> f32 {
    unit_ratio(numerator, denominator).map_or(0.0, |(n, d)| f32::from(n) / f32::from(d))
}

fn unit_ratio_f64(numerator: u64, denominator: u64) -> f64 {
    wide_unit_ratio(numerator, denominator).map_or(0.0, |(n, d)| f64::from(n) / f64::from(d))
}

#[test]
fn a_ratio_never_leaves_the_unit_interval() {
    assert_eq!(unit_ratio(5, 3), Some((3, 3)));
    assert_eq!(unit_ratio(70_000, 1), Some((1, 1)));
    assert_eq!(wide_unit_ratio(9, 4), Some((4, 4)));
    assert_eq!(wide_unit_ratio(u64::MAX, u64::MAX), Some((u32::MAX, u32::MAX)));
    assert_eq!(unit_ratio(0, 0), None);
}

#[test]
fn unit_ratio_f64_normal_range() {
    assert!((unit_ratio_f64(1, 4) - 0.25).abs() < 0.001);
    assert!((unit_ratio_f64(3, 3) - 1.0).abs() < f64::EPSILON);
    assert!(unit_ratio_f64(0, 3).abs() < f64::EPSILON);
}

#[test]
fn unit_ratio_f64_accepts_u64_counts() {
    assert!((unit_ratio_f64(50u64, 100u64) - 0.5).abs() < 0.001);
}

#[test]
fn unit_ratio_f64_is_zero_for_zero_denominator() {
    assert!(unit_ratio_f64(5, 0).abs() < f64::EPSILON);
}

#[test]
fn unit_ratio_f64_saturates_above_u32_max() {
    assert!(unit_ratio_f64(u64::from(u32::MAX) + 1, u64::from(u32::MAX) + 1) >= 0.99);
}

#[test]
fn unit_ratio_f32_identity_and_disjoint_in_normal_range() {
    assert!((unit_ratio_f32(3, 3) - 1.0).abs() < f32::EPSILON);
    assert!(unit_ratio_f32(0, 3).abs() < f32::EPSILON);
}

#[test]
fn unit_ratio_f32_preserves_fraction_in_normal_range() {
    assert!((unit_ratio_f32(1, 4) - 0.25).abs() < 0.01);
    assert!((unit_ratio_f32(2, 3) - 0.66).abs() < 0.01);
}

#[test]
fn unit_ratio_f32_is_zero_for_zero_denominator() {
    assert!(unit_ratio_f32(5, 0).abs() < f32::EPSILON);
}

#[test]
fn unit_ratio_f32_large_partial_overlap_does_not_collapse_to_one() {
    let ratio = unit_ratio_f32(70_000, 100_000);
    assert!((ratio - 0.7_f32).abs() < 0.01, "expected ~0.7, got {ratio}");
    assert!(
        (ratio - 1.0_f32).abs() > 0.01,
        "partial overlap must not collapse to 1.0"
    );
}

fn figures(duration_ms: u64, input_tokens: u64, output_tokens: u64) -> TurnFigures {
    TurnFigures {
        duration_ms,
        input_tokens,
        output_tokens,
    }
}

/// Feed pre/post events for two calls in one wave, deliberately
/// interleaved so a positional implementation pairs them wrong.
fn feed_interleaved_calls(observer: &mut TrajectoryObserver) {
    observer.on_run_start(SESSION, 0);
    observer.on_turn_start(0, "parallel work".to_string());
    observer.on_tool_pre(0, "alpha".to_string(), "call_a".to_string(), 0);
    observer.on_tool_pre(0, "beta".to_string(), "call_b".to_string(), 0);
    observer.on_tool_post(0, "beta".to_string(), "call_b".to_string(), false, 2 * MILLI);
    observer.on_tool_post(0, "alpha".to_string(), "call_a".to_string(), true, 7 * MILLI);
    observer.on_turn_end(0, figures(20, 10, 5));
    observer.on_run_end(true, 1, 25, 0);
}

#[test]
fn parallel_calls_pair_by_id_not_position() {
    let mut observer = TrajectoryObserver::in_memory();
    feed_interleaved_calls(&mut observer);

    let record = &observer.records()[0];
    let calls = &record.turns[0].tool_calls;
    assert_eq!(calls.len(), 2, "both calls are captured");
    assert_eq!(
        calls[0].tool_call_id, "call_b",
        "completion order is driven by pairing, not dispatch position"
    );
    assert_eq!(calls[0].tool, "beta", "each id pairs with its own tool");
    assert!(calls[0].ok);
    assert_eq!(calls[1].tool_call_id, "call_a");
    assert_eq!(calls[1].tool, "alpha");
    assert!(
        !calls[1].ok,
        "the error result lands on its own call, not its neighbor"
    );
    assert_eq!(calls[1].duration_ms, 7);
}

#[test]
fn cancelled_in_flight_call_renders_unfinished() {
    let mut observer = TrajectoryObserver::in_memory();
    observer.on_run_start(SESSION, 0);
    observer.on_turn_start(0, "cancelled work".to_string());
    observer.on_tool_pre(0, "slow".to_string(), "call_x".to_string(), 0);
    observer.on_run_end(false, 1, 50, 50 * MILLI);

    let record = &observer.records()[0];
    let calls = &record.turns[0].tool_calls;
    assert_eq!(calls.len(), 1, "the abandoned call is not lost");
    assert!(
        !calls[0].ok,
        "a call still in flight at run end renders as unfinished"
    );
    assert_eq!(calls[0].duration_ms, 50);
    assert_eq!(
        record.outcome,
        TrajectoryOutcome::Failure,
        "no successful tool work means Failure, even with a dispatch seen"
    );
}

#[test]
fn mid_run_attach_opens_slots_lazily() {
    let mut observer = TrajectoryObserver::in_memory();
    // The run started before the observer attached: only the result is
    // ever observed.
    observer.on_run_start(SESSION, 0);
    observer.on_turn_start(0, "attached mid-run".to_string());
    observer.on_tool_post(
        0,
        "echo".to_string(),
        "call_orphan".to_string(),
        false,
        4 * MILLI,
    );
    observer.on_run_end(false, 1, 9, 0);

    let record = &observer.records()[0];
    let calls = &record.turns[0].tool_calls;
    assert_eq!(
        calls.len(),
        1,
        "an orphan post creates its own slot without a panic or a loss"
    );
    assert_eq!(calls[0].tool_call_id, "call_orphan");
    assert!(calls[0].ok);
    assert_eq!(
        record.outcome,
        TrajectoryOutcome::Partial,
        "the orphan's success counts toward the Partial classification"
    );
}

#[test]
fn a_run_started_mid_run_replaces_the_orphaned_record() {
    let mut observer = TrajectoryObserver::in_memory();
    observer.on_run_start(SESSION, 0);
    observer.on_turn_start(0, "never finished".to_string());

    // A second run starting on the same observer (two loops sharing it)
    // must not resurrect the orphaned run's half-built record.
    observer.on_run_start(SESSION + 1, 0);
    observer.on_turn_start(0, "the live run".to_string());
    observer.on_run_end(true, 1, 5, 0);

    let records = observer.records();
    assert_eq!(
        records.len(),
        1,
        "the orphaned run's record is discarded, loudly, at run start"
    );
    assert_eq!(records[0].turns[0].query, "the live run");
}

#[test]
fn an_empty_run_captures_an_empty_record() {
    let mut observer = TrajectoryObserver::in_memory();
    observer.on_run_start(SESSION, 0);
    observer.on_run_end(true, 0, 0, 0);

    let record = &observer.records()[0];
    assert!(
        record.turns.is_empty(),
        "a run with no turns records zero turns, never a placeholder"
    );
    assert_eq!(record.outcome, TrajectoryOutcome::Success);
    assert_eq!(record.token_summary.input_tokens, 0);
}

#[test]
fn capture_limit_bounds_the_captured_response() {
    let mut observer = TrajectoryObserver::in_memory().with_capture_limit(3);
    observer.on_run_start(SESSION, 0);
    observer.on_turn_start(0, "q".to_string());
    observer.on_response(0, "abcde");
    observer.on_run_end(true, 1, 1, 0);

    let record = &observer.records()[0];
    assert_eq!(
        record.turns[0].response_text, "abc",
        "response text is truncated to the configured limit"
    );

    let mut empty = TrajectoryObserver::in_memory().with_capture_limit(0);
    empty.on_run_start(SESSION, 0);
    empty.on_turn_start(0, "q".to_string());
    empty.on_response(0, "abcde");
    empty.on_run_end(true, 1, 1, 0);
    assert_eq!(
        empty.records()[0].turns[0].response_text,
        "",
        "a zero limit captures no response text"
    );
}

#[test]
fn events_outside_a_run_are_ignored() {
    let mut observer = TrajectoryObserver::in_memory();

    // Every callback, with no run in flight — note `on_run_start` is
    // deliberately never called: the observer absorbs each
    // one and stays healthy for the run that follows.
    observer.on_turn_start(0, "orphan".to_string());
    observer.on_response(0, "orphan");
    observer.on_tool_pre(0, "t".to_string(), "call_o".to_string(), 0);
    observer.on_turn_end(0, figures(1, 1, 1));
    assert!(observer.on_run_end(true, 1, 1, 0).is_none());
    assert!(
        observer.records().is_empty(),
        "events with no run in flight record nothing"
    );

    // The observer still works for a run that starts afterwards.
    feed_interleaved_calls(&mut observer);
    assert_eq!(observer.records().len(), 1);
    assert_eq!(observer.records()[0].turns[0].tool_calls.len(), 2);
}

#[test]
fn a_clobbered_run_warns_exactly_once_per_clobber() {
    let mut observer = TrajectoryObserver::in_memory();
    assert!(!observer.on_run_start(SESSION, 0));
    assert!(
        observer.on_run_start(SESSION, 0),
        "one clobbering run start tells of exactly one discarded record"
    );
    observer.on_run_end(true, 1, 1, 0);
    assert!(!observer.run_in_flight(), "a clean run end loses nothing");
    assert!(!observer.on_run_start(SESSION, 0));
}

#[test]
fn observer_is_send_and_sync() {
    fn assert_send_sync<T: Send + Sync>() {}
    assert_send_sync::<TrajectoryObserver>();
}

#[test]
fn abandoned_call_is_attributed_to_its_dispatch_turn() {
    let mut observer = TrajectoryObserver::in_memory();
    observer.on_run_start(SESSION, 0);
    // Mid-run attach: a dispatch on turn 5 with no turn ever opened.
    observer.on_tool_pre(5, "slow".to_string(), "call_late".to_string(), 0);
    observer.on_run_end(false, 6, 40, 0);

    let record = &observer.records()[0];
    assert_eq!(
        record.turns.len(),
        1,
        "the abandoned call opens exactly one turn slot"
    );
    assert_eq!(
        record.turns[0].turn, 5,
        "an abandoned call is attributed to the turn it was dispatched on"
    );
    assert_eq!(record.turns[0].tool_calls[0].tool_call_id, "call_late");
}

#[test]
fn a_late_turn_end_patches_its_own_turn() {
    let mut observer = TrajectoryObserver::in_memory();
    observer.on_run_start(SESSION, 0);
    observer.on_turn_start(3, "first".to_string());
    // A later turn's event closes turn 3 before its end event arrives.
    observer.on_response(4, "next turn");
    observer.on_turn_end(3, figures(42, 7, 9));
    observer.on_run_end(true, 5, 60, 0);

    let record = &observer.records()[0];
    let indices: Vec<usize> = record.turns.iter().map(|turn| turn.turn).collect();
    assert_eq!(
        indices.len(),
        indices
            .iter()
            .collect::<std::collections::HashSet<_>>()
            .len(),
        "no two captured turns share an index"
    );
    let patched = record
        .turns
        .iter()
        .find(|turn| turn.turn == 3)
        .expect("turn 3 is captured");
    assert_eq!(
        patched.duration_ms, 42,
        "the late end event patches its turn"
    );
    assert_eq!(patched.input_tokens, 7);
    assert_eq!(patched.output_tokens, 9);
}

#[test]
fn a_record_names_its_session_and_sums_its_tokens() {
    let mut observer = TrajectoryObserver::in_memory();
    observer.on_run_start(SESSION, 1_700_000_000);
    observer.on_turn_start(0, "q".to_string());
    observer.on_turn_end(0, figures(1, 10, 20));
    observer.on_turn_start(1, "r".to_string());
    observer.on_turn_end(1, figures(2, 30, 40));
    let record = observer.on_run_end(true, 2, 3, 0).expect("a run was in flight");
    assert_eq!(record.session_id, "11112222-3333-4444-5555-666677778888");
    assert_eq!(record.started_at, "2023-11-14T22:13:20Z");
    assert_eq!(record.token_summary.input_tokens, 40);
    assert_eq!(record.token_summary.output_tokens, 60);
    let signals = run_signals(&record);
    assert_eq!(signals.input_tokens, 40);
    assert_eq!(signals.output_tokens, 60);
    assert_eq!(signals.turns, 2);
    assert_eq!(signals.tool_calls, 0);
    let version: Vec<char> = record.run_id.chars().collect();
    assert_eq!(version.len(), 36);
    assert_eq!(version[14], '4');
}

#[test]
fn retention_keeps_only_the_newest_records() {
    let mut observer = TrajectoryObserver::in_memory().with_memory_retention(Some(2));
    for turns in 1..=4 {
        observer.on_run_start(SESSION, 0);
        observer.on_run_end(true, turns, 0, 0);
    }
    let kept: Vec<usize> = observer.records().iter().map(|r| r.total_turns).collect();
    assert_eq!(kept, vec![3, 4]);
    observer.on_run_start(SESSION, 0);
    assert_eq!(observer.records().len(), 2, "a run in flight is not among them");
    let mut all = TrajectoryObserver::in_memory();
    for turns in 1..=4 {
        all.on_run_start(SESSION, 0);
        all.on_run_end(true, turns, 0, 0);
    }
    let kept: Vec<usize> = all.records().iter().map(|r| r.total_turns).collect();
    assert_eq!(kept, vec![1, 2, 3, 4]);
    assert_eq!(TokenSummary::default().input_tokens, 0);
    assert!(observer.sink().is_none());
    let writing = TrajectoryObserver::writing_to("/tmp/ledger".to_string());
    assert_eq!(writing.sink().map(String::as_str), Some("/tmp/ledger"));
}

#[test]
fn spans_are_given_in_whole_milliseconds() {
    assert_eq!(millis(0), 0);
    assert_eq!(millis(1_999_999), 1);
    assert_eq!(millis(u128::MAX), u64::MAX);
}

// ---------------------------------------------------------------------------
// The ledger
// ---------------------------------------------------------------------------

fn lines_of(step: WorkerStep) -> Vec<String> {
    match step {
        WorkerStep::Write(lines) => lines,
        other => panic!("expected lines to write, got {other:?}"),
    }
}

#[test]
fn enqueued_lines_land_in_the_ledger_in_order() {
    let mut queue = LedgerQueue::with_capacity(8);
    for n in 0..5 {
        queue.enqueue(format!("line {n}"));
    }
    let lines = lines_of(queue.next_step());
    assert_eq!(lines, vec!["line 0", "line 1", "line 2", "line 3", "line 4"]);
    assert!(!queue.is_idle(), "the batch is still being written");
    assert!(queue.batch_written(5));
    assert!(queue.is_idle());
}

#[test]
fn a_full_queue_drops_the_oldest_record() {
    let mut queue = LedgerQueue::with_capacity(2);
    queue.enqueue("one".to_string());
    queue.enqueue("two".to_string());
    let outcome = queue.enqueue("three".to_string());
    assert!(matches!(outcome, EnqueueOutcome::DroppedOldest));
    assert_eq!(lines_of(queue.next_step()), vec!["two", "three"]);
}

#[test]
fn a_zero_capacity_is_clamped_to_keep_the_newest_record() {
    let mut queue = LedgerQueue::with_capacity(0);
    queue.enqueue("old".to_string());
    queue.enqueue("new".to_string());
    assert_eq!(lines_of(queue.next_step()), vec!["new"]);
}

#[test]
fn dropping_the_writer_drains_the_queue() {
    let mut queue = LedgerQueue::with_capacity(4);
    queue.enqueue("pending".to_string());
    queue.close();
    assert_eq!(lines_of(queue.next_step()), vec!["pending"]);
    queue.batch_written(1);
    assert!(matches!(queue.next_step(), WorkerStep::Exit));
    assert!(matches!(
        queue.enqueue("late".to_string()),
        EnqueueOutcome::Refused
    ));
}

#[test]
fn a_flushed_line_is_reported_by_its_bytes() {
    let line = "{\"a\":\"é\"}".to_string();
    assert_eq!(ledger_text(&line), "{\"a\":\"é\"}\n");
    let mut stage = begin_append(&Some(line.clone()));
    assert_eq!(stage, LedgerStage::Directory);
    stage = append_step(stage, LedgerEvent::Succeeded, &line);
    assert_eq!(stage, LedgerStage::Opening);
    stage = append_step(stage, LedgerEvent::Opened { length: Some(7) }, &line);
    assert_eq!(stage, LedgerStage::Writing { length: Some(7) });
    stage = append_step(stage, LedgerEvent::Succeeded, &line);
    assert_eq!(
        stage,
        LedgerStage::Done {
            report: LedgerReport::Flushed { bytes: 11 }
        }
    );
    assert_eq!(
        append_step(stage, LedgerEvent::Failed, &line),
        stage,
        "what is over stays over"
    );
}

#[test]
fn each_failed_append_ends_with_its_report() {
    let line = "x";
    let done = |report: LedgerReport| LedgerStage::Done { report };
    assert_eq!(begin_append(&None), done(LedgerReport::NotSerialized));
    let failed = LedgerEvent::Failed;
    assert_eq!(
        append_step(LedgerStage::Directory, failed, line),
        done(LedgerReport::NoDirectory)
    );
    assert_eq!(
        append_step(LedgerStage::Opening, failed, line),
        done(LedgerReport::NotWritten { repaired: true })
    );
    let repairing = append_step(LedgerStage::Writing { length: Some(3) }, failed, line);
    assert_eq!(repairing, LedgerStage::Repairing { start: 3 });
    assert_eq!(
        append_step(repairing, LedgerEvent::Succeeded, line),
        done(LedgerReport::NotWritten { repaired: true })
    );
    assert_eq!(
        append_step(repairing, failed, line),
        done(LedgerReport::NotWritten { repaired: false })
    );
    let unknown = append_step(
        LedgerStage::Opening,
        LedgerEvent::Opened { length: None },
        line,
    );
    assert_eq!(unknown, LedgerStage::Writing { length: None });
    assert_eq!(
        append_step(unknown, failed, line),
        done(LedgerReport::NotWritten { repaired: false }),
        "nothing is cut off where the length before is not known"
    );
}

#[test]
fn lines_are_written_inline_only_without_a_worker_that_was_wanted() {
    assert!(!writes_inline(true, true));
    assert!(writes_inline(true, false));
    assert!(!writes_inline(false, false));
}

#[test]
fn an_empty_queue_waits() {
    let mut queue = LedgerQueue::with_capacity(1);
    assert!(matches!(queue.next_step(), WorkerStep::Wait));
    assert!(queue.is_idle());
    assert_eq!(queue.enqueue("a".to_string()), EnqueueOutcome::Queued);
    assert!(!queue.is_idle());
}
