//! Lessons mined from runs.

use loopctl::error::LoopError;
use loopctl::memory::answer::{
    candidate_spans, settle_spans, unparseable_response, wire_to_extracted, LlmMemoryWire,
    MAX_RESPONSE_BYTES, MAX_WIRE_CONTENT_BYTES, MAX_WIRE_TAGS,
};
use loopctl::memory::builtin::InMemoryStore;
use loopctl::memory::capped_line::{CappedLine, MAX_LEDGER_LINE};
use loopctl::memory::clip::truncate;
use loopctl::memory::entry::MemoryCategory;
use loopctl::memory::extractor::{
    annotate_store_error, begin_extraction, finish_extraction, newest_record, no_record_error,
    settle_outcome, ExtractionConfig, ExtractionObserver, ExtractionStep, ExtractionStrategy, LlmFailure,
    ProviderFault, NO_CLIENT,
};
use loopctl::memory::mining::{
    category_label, entry_for, heuristic_memories, settle_memories, ExtractedMemory,
};
use loopctl::memory::prompt::{append_candidate_lines, extraction_prompt, summarize_trajectory};
use loopctl::memory::trajectory::{
    TokenSummary, TrajectoryOutcome, TrajectoryRecord, TrajectoryToolCall, TrajectoryTurn,
};
use loopctl::single::Single;
use serde_json::Value;

fn single(x: f32) -> Single {
    Single::from_bits(x.to_bits())
}

fn number(x: Single) -> f32 {
    f32::from_bits(x.bits)
}

fn call(tool: &str, ok: bool) -> TrajectoryToolCall {
    TrajectoryToolCall {
        tool_call_id: format!("{tool}-{}", if ok { "ok" } else { "err" }),
        tool: tool.to_string(),
        ok,
        duration_ms: 10,
    }
}

fn turn(index: usize, query: &str, calls: Vec<TrajectoryToolCall>) -> TrajectoryTurn {
    TrajectoryTurn {
        turn: index,
        query: query.to_string(),
        response_text: format!("response {index}"),
        tool_calls: calls,
        duration_ms: 20,
        input_tokens: 5,
        output_tokens: 5,
    }
}

fn record(outcome: TrajectoryOutcome, turns: Vec<TrajectoryTurn>) -> TrajectoryRecord {
    TrajectoryRecord {
        session_id: "session".to_string(),
        run_id: "run".to_string(),
        outcome,
        started_at: "2026-09-06T00:00:00Z".to_string(),
        duration_ms: 100,
        total_turns: turns.len(),
        token_summary: TokenSummary {
            input_tokens: 0,
            output_tokens: 0,
            cached_input_tokens: None,
            cache_write_tokens: None,
            reasoning_tokens: None,
        },
        turns,
    }
}

fn recovering() -> TrajectoryRecord {
    record(
        TrajectoryOutcome::Success,
        vec![
            turn(0, "read", vec![call("Read", true)]),
            turn(1, "fail", vec![call("Bash", false)]),
            turn(2, "recover", vec![call("Bash", true)]),
        ],
    )
}

/// A pass without a provider.
fn mine(record: &TrajectoryRecord, config: &ExtractionConfig) -> Vec<ExtractedMemory> {
    match begin_extraction(record, config, false) {
        ExtractionStep::Skipped => Vec::new(),
        ExtractionStep::Settled { memories, .. } => memories,
        other => panic!("unexpected step: {other:?}"),
    }
}

fn has_category(mined: &[ExtractedMemory], category: MemoryCategory) -> bool {
    mined.iter().any(|memory| memory.category == category)
}

fn text_of(value: &Value, key: &str) -> Option<String> {
    value.get(key).and_then(Value::as_str).map(str::to_string)
}

fn wire_of(value: &Value) -> Option<LlmMemoryWire> {
    let tags = match value.get("tags") {
        None | Some(Value::Null) => None,
        Some(list) => Some(
            list.as_array()?
                .iter()
                .map(|tag| tag.as_str().map(str::to_string))
                .collect::<Option<Vec<String>>>()?,
        ),
    };
    let quality = match value.get("quality") {
        None | Some(Value::Null) => None,
        Some(n) => Some(single(n.as_f64()? as f32)),
    };
    Some(LlmMemoryWire {
        category: text_of(value, "category")?,
        content: text_of(value, "content")?,
        tags,
        quality,
    })
}

fn parse_span(span: &str) -> Option<Vec<LlmMemoryWire>> {
    let value: Value = serde_json::from_str(span).ok()?;
    value.as_array()?.iter().map(wire_of).collect()
}

fn parse_llm_memories(text: &str) -> Result<Vec<ExtractedMemory>, LoopError> {
    match candidate_spans(text) {
        None => Err(unparseable_response()),
        Some(spans) => {
            let parsed: Vec<Option<Vec<LlmMemoryWire>>> =
                spans.iter().map(|span| parse_span(span)).collect();
            settle_spans(&parsed)
        }
    }
}

fn wire(category: &str, content: &str, tags: Option<Vec<String>>, quality: f32) -> LlmMemoryWire {
    LlmMemoryWire {
        category: category.to_string(),
        content: content.to_string(),
        tags,
        quality: Some(single(quality)),
    }
}

fn many_tags() -> Option<Vec<String>> {
    Some((0..20).map(|i| format!("tag-{i}")).collect())
}

#[test]
fn summary_boundary_budget_never_exceeds_the_cap() {
    let mut boundary_turns: Vec<TrajectoryTurn> = Vec::new();
    for index in 0..60 {
        let mut entry_turn = turn(index, "filler", vec![call("Read", true)]);
        entry_turn.query = format!("query {index}");
        boundary_turns.push(entry_turn);
    }
    let boundary_record = record(TrajectoryOutcome::Success, boundary_turns);
    for budget in (200..=1_500).step_by(7) {
        let summary = summarize_trajectory(&boundary_record, budget);
        assert!(
            summary.len() <= budget,
            "budget {budget}: summary is {} bytes — the marker must be reserved, \
            never appended on top",
            summary.len()
        );
    }
}

#[test]
fn short_trajectory_yields_no_memories() {
    let record = record(
        TrajectoryOutcome::Success,
        vec![turn(0, "one shot", vec![call("Bash", true)])],
    );
    let mined = mine(&record, &ExtractionConfig::default());
    assert!(
        mined.is_empty(),
        "a one-turn run has nothing worth generalizing"
    );
}

#[test]
fn failed_trajectory_mines_only_when_failures_are_included() {
    let failing = record(
        TrajectoryOutcome::Failure,
        vec![
            turn(0, "start", vec![call("Bash", false)]),
            turn(1, "fix it", vec![call("Bash", true)]),
            turn(2, "again", vec![call("Edit", true)]),
        ],
    );
    let mined = mine(&failing, &ExtractionConfig::default());
    assert!(mined.is_empty(), "failures are skipped by default");
    let mut including = ExtractionConfig::default();
    including.include_failures = true;
    let mined = mine(&failing, &including);
    assert!(
        has_category(&mined, MemoryCategory::ErrorPattern),
        "an error-then-recovery pair must yield a recovery memory"
    );
}

#[test]
fn heuristic_mines_recovery_from_error_then_success() {
    let recovering = record(
        TrajectoryOutcome::Success,
        vec![
            turn(0, "run the build", vec![call("Bash", false)]),
            turn(1, "adjust and retry", vec![call("Bash", true)]),
            turn(2, "finish", vec![call("Edit", true)]),
        ],
    );
    let mined = mine(&recovering, &ExtractionConfig::default());
    let recovery = mined
        .iter()
        .find(|memory| memory.category == MemoryCategory::ErrorPattern)
        .expect("the error-then-retry shape must yield an ErrorPattern");
    assert!(
        recovery.content.contains("Bash"),
        "the memory names the failing tool"
    );
    assert!(
        number(recovery.quality) > 0.0,
        "a recovered error is worth keeping"
    );
}

#[test]
fn a_same_turn_success_before_the_failure_is_not_a_recovery() {
    let backwards = record(
        TrajectoryOutcome::Success,
        vec![
            turn(
                0,
                "succeed then break",
                vec![call("Bash", true), call("Bash", false)],
            ),
            turn(1, "carry on", vec![call("Edit", true)]),
            turn(2, "finish", vec![call("Read", true)]),
        ],
    );
    let mined = mine(&backwards, &ExtractionConfig::default());
    assert!(
        !has_category(&mined, MemoryCategory::ErrorPattern),
        "a success that preceded the failure did not recover from it"
    );
}

#[test]
fn a_same_turn_retry_after_the_failure_is_a_recovery() {
    let retried = record(
        TrajectoryOutcome::Success,
        vec![
            turn(
                0,
                "fail then adjust",
                vec![call("Bash", false), call("Bash", true)],
            ),
            turn(1, "carry on", vec![call("Edit", true)]),
            turn(2, "finish", vec![call("Read", true)]),
        ],
    );
    let mined = mine(&retried, &ExtractionConfig::default());
    assert!(
        has_category(&mined, MemoryCategory::ErrorPattern),
        "a retry that succeeded after the failure is a recovery"
    );
}

#[test]
fn repeated_recovery_pairs_dedupe_to_one_memory() {
    let flaky = record(
        TrajectoryOutcome::Success,
        vec![
            turn(0, "try", vec![call("Bash", false), call("Bash", false)]),
            turn(1, "retry", vec![call("Bash", true)]),
            turn(2, "more", vec![call("Bash", false), call("Bash", false)]),
            turn(3, "recover", vec![call("Bash", true), call("Edit", true)]),
        ],
    );
    let mut config = ExtractionConfig::default();
    config.max_memories = 10;
    let mined = mine(&flaky, &config);
    let recoveries = mined
        .iter()
        .filter(|memory| memory.category == MemoryCategory::ErrorPattern)
        .count();
    assert_eq!(
        recoveries, 1,
        "four failed-then-recovered Bash calls are one lesson, not four"
    );
}

#[test]
fn heuristic_mines_strategy_from_successful_chains() {
    let successful = record(
        TrajectoryOutcome::Success,
        vec![
            turn(0, "read", vec![call("Read", true)]),
            turn(1, "edit", vec![call("Edit", true), call("Edit", true)]),
            turn(2, "check", vec![call("Bash", true)]),
        ],
    );
    let mined = mine(&successful, &ExtractionConfig::default());
    assert!(
        has_category(&mined, MemoryCategory::Strategy),
        "a successful multi-tool chain must yield a Strategy memory"
    );
}

#[test]
fn partial_runs_mine_their_successful_chains_by_default() {
    let partial = record(
        TrajectoryOutcome::Partial,
        vec![
            turn(0, "read", vec![call("Read", true)]),
            turn(1, "edit", vec![call("Edit", true), call("Edit", true)]),
            turn(2, "verify", vec![call("Bash", true)]),
        ],
    );
    let mined = mine(&partial, &ExtractionConfig::default());
    assert!(
        has_category(&mined, MemoryCategory::Strategy),
        "a partial run's successful tool chain is exactly what its grade certifies — \
        it must mine without opting into outright failures"
    );
}

#[test]
fn long_chains_cap_their_listing_and_keep_the_count() {
    let calls: Vec<TrajectoryToolCall> = (0..30)
        .map(|index| call(&format!("Tool{index}"), true))
        .collect();
    let long_chain = record(
        TrajectoryOutcome::Success,
        vec![
            turn(0, "start", calls),
            turn(1, "more", vec![call("Read", true)]),
            turn(2, "end", vec![call("Read", true)]),
        ],
    );
    let mined = mine(&long_chain, &ExtractionConfig::default());
    let strategy = mined
        .iter()
        .find(|memory| memory.category == MemoryCategory::Strategy)
        .expect("the chain yields a strategy");
    assert!(
        strategy
            .content
            .contains("a chain of 32 successful tool calls"),
        "the memory names the true chain length: {}",
        strategy.content
    );
    assert!(
        strategy.content.contains("… and 24 more"),
        "the listing collapses past the cap instead of embedding every call: {}",
        strategy.content
    );
    assert!(
        !strategy.content.contains("Tool8"),
        "names past the cap are dropped from the stored content"
    );
}

/// Reads one line into a capped buffer, chunk by chunk; whether the input
/// ended first.
fn read_capped_line(input: &mut &[u8], line: &mut CappedLine, chunk: usize) -> bool {
    loop {
        if input.is_empty() {
            return line.at_end_of_input();
        }
        let n = chunk.min(input.len());
        let (used, done) = line.take_chunk(&input[..n]);
        *input = &input[used..];
        if done {
            return false;
        }
    }
}

#[test]
fn an_overlong_ledger_line_is_skipped_without_buffering_it() {
    let mut overlong = vec![b'A'; 512];
    overlong.push(b'\n');
    overlong.extend_from_slice(br#"{"category":"insight"}"#);
    overlong.push(b'\n');
    let mut reader: &[u8] = &overlong;
    let mut line = CappedLine::new(64);
    let end_of_input = read_capped_line(&mut reader, &mut line, 100);
    assert!(
        !end_of_input && line.bytes().len() <= 65,
        "the over-long line completes truncated at the cap — the reader never \
        buffers the whole newline-less region: {} bytes",
        line.bytes().len()
    );
    assert!(
        serde_json::from_slice::<Value>(line.bytes()).is_err(),
        "a truncated line fails to parse and is skipped like any corrupt line"
    );
    assert!(line.whole().is_none(), "what is held of it does not count");
    let mut line = CappedLine::new(64);
    read_capped_line(&mut reader, &mut line, 7);
    assert_eq!(line.whole(), Some(line.bytes()));
    assert!(
        serde_json::from_slice::<Value>(line.bytes()).is_ok(),
        "the following in-cap line still parses"
    );
}

fn call_to_value(call: &TrajectoryToolCall) -> Value {
    let mut fields = serde_json::Map::new();
    fields.insert("id".to_string(), Value::from(call.tool_call_id.as_str()));
    fields.insert("tool".to_string(), Value::from(call.tool.as_str()));
    fields.insert("ok".to_string(), Value::from(call.ok));
    Value::Object(fields)
}

fn turn_to_value(turn: &TrajectoryTurn) -> Value {
    let mut fields = serde_json::Map::new();
    fields.insert("turn".to_string(), Value::from(turn.turn));
    fields.insert("query".to_string(), Value::from(turn.query.as_str()));
    fields.insert(
        "calls".to_string(),
        Value::Array(turn.tool_calls.iter().map(call_to_value).collect()),
    );
    Value::Object(fields)
}

/// A ledger's line for a successful run.
fn line_of(record: &TrajectoryRecord) -> String {
    let mut fields = serde_json::Map::new();
    fields.insert("run_id".to_string(), Value::from(record.run_id.as_str()));
    fields.insert(
        "turns".to_string(),
        Value::Array(record.turns.iter().map(turn_to_value).collect()),
    );
    Value::Object(fields).to_string()
}

fn call_of(value: &Value) -> Option<TrajectoryToolCall> {
    Some(call(&text_of(value, "tool")?, value.get("ok")?.as_bool()?))
}

fn turn_of(value: &Value) -> Option<TrajectoryTurn> {
    let calls = value.get("calls")?.as_array()?;
    Some(turn(
        value.get("turn")?.as_u64()? as usize,
        &text_of(value, "query")?,
        calls.iter().map(call_of).collect::<Option<Vec<_>>>()?,
    ))
}

fn record_of(line: &[u8]) -> Option<TrajectoryRecord> {
    let value: Value = serde_json::from_slice(line).ok()?;
    let turns = value.get("turns")?.as_array()?;
    let mut read = record(
        TrajectoryOutcome::Success,
        turns.iter().map(turn_of).collect::<Option<Vec<_>>>()?,
    );
    read.run_id = text_of(&value, "run_id")?;
    Some(read)
}

/// The newest record in a ledger's bytes.
fn last_complete_record(ledger: &[u8]) -> Option<TrajectoryRecord> {
    let mut reader = ledger;
    let mut last = None;
    loop {
        let mut line = CappedLine::new(MAX_LEDGER_LINE);
        if read_capped_line(&mut reader, &mut line, 32) {
            return last;
        }
        last = newest_record(last, line.whole().and_then(|bytes| record_of(bytes)));
    }
}

#[test]
fn extract_reads_the_newest_record_from_an_accumulating_ledger() {
    let unminable = record(
        TrajectoryOutcome::Success,
        vec![
            turn(0, "plain", vec![call("Read", true)]),
            turn(1, "work", vec![call("Read", true)]),
            turn(2, "done", vec![call("Read", true)]),
        ],
    );
    let ledger = format!("{}\n{}\n", line_of(&unminable), line_of(&recovering()));
    let newest = last_complete_record(ledger.as_bytes())
        .expect("an accumulating ledger is a valid extraction source");
    let mined = mine(&newest, &ExtractionConfig::default());
    assert!(
        has_category(&mined, MemoryCategory::ErrorPattern),
        "the newest record is mined"
    );
}

#[test]
fn a_final_line_without_a_newline_still_parses() {
    let found = last_complete_record(line_of(&recovering()).as_bytes())
        .expect("the final line parses even without its newline");
    assert_eq!(found.run_id, "run");
}

#[test]
fn a_torn_trailing_ledger_line_still_yields_the_complete_record() {
    let ledger = format!("{}\n{{\"session_id\":\"x\",\"run_i", line_of(&recovering()));
    let found = last_complete_record(ledger.as_bytes()).expect("the complete line is found");
    assert_eq!(
        found.run_id, "run",
        "the complete record is extracted despite the torn trailing line"
    );
}

#[test]
fn a_corrupt_line_does_not_abort_the_ledger_scan() {
    let first = record(
        TrajectoryOutcome::Success,
        vec![turn(0, "read", vec![call("Read", true)])],
    );
    let second = record(
        TrajectoryOutcome::Success,
        vec![
            turn(0, "check", vec![call("Bash", true)]),
            turn(1, "fix", vec![call("Edit", true)]),
            turn(2, "done", vec![call("Bash", true)]),
        ],
    );
    let mut bytes = line_of(&first).into_bytes();
    bytes.push(b'\n');
    bytes.extend_from_slice(b"\xff\xfe not utf-8 at all\n");
    bytes.extend_from_slice(line_of(&second).as_bytes());
    let found = last_complete_record(&bytes).expect("the newest valid record is found");
    assert_eq!(
        found.total_turns, 3,
        "the scan continues past the corrupt line to the newest valid record"
    );
    assert!(last_complete_record(b"").is_none());
    assert!(last_complete_record(b"torn\n\n{").is_none());
}

#[test]
fn extract_into_writes_mined_memories_to_the_store() {
    let ledger = format!("{}\n", line_of(&recovering()));
    let newest = last_complete_record(ledger.as_bytes()).expect("the record is found");
    let candidates = mine(&newest, &ExtractionConfig::default());
    let mut store = InMemoryStore::new();
    let mut written = 0usize;
    for candidate in &candidates {
        store.store(entry_for(candidate, 0));
        written += 1;
    }
    assert_eq!(
        written,
        candidates.len(),
        "every candidate is written to the store"
    );
    assert_eq!(
        store.len(),
        candidates.len(),
        "the store grew by the candidate count"
    );
    assert!(
        has_category(&candidates, MemoryCategory::ErrorPattern),
        "the recovery pair was mined from disk"
    );
}

#[test]
fn a_category_counts_only_as_the_prompt_spells_it() {
    for name in ["strategy", "error_pattern", "insight", "optimization"] {
        assert!(wire_to_extracted(&wire(name, "a real lesson", None, 0.5)).is_some());
    }
    for name in ["Strategy", "ErrorPattern", "INSIGHT", " insight", "fact", ""] {
        assert!(
            wire_to_extracted(&wire(name, "a real lesson", None, 0.5)).is_none(),
            "{name} is no category of the prompt"
        );
    }
}

#[test]
fn oversized_provider_content_drops_and_runaway_tags_drop() {
    let oversized = wire("insight", &"x".repeat(MAX_WIRE_CONTENT_BYTES + 1), None, 0.5);
    assert!(
        wire_to_extracted(&oversized).is_none(),
        "a runaway lesson must not persist into the store"
    );
    let tagged = wire("insight", "a real lesson", many_tags(), 0.5);
    let mined = wire_to_extracted(&tagged).expect("parses");
    assert_eq!(
        mined.tags.len(),
        MAX_WIRE_TAGS,
        "the tag list trims to the cap: {:?}",
        mined.tags
    );
}

#[test]
fn an_oversized_provider_answer_is_a_parse_error_before_scanning() {
    let valid = r#"[{"category":"insight","content":"the lesson","quality":0.5}]"#;
    let huge = format!("{}{}", "[0]".repeat(MAX_RESPONSE_BYTES / 3 + 1), valid);
    let err = parse_llm_memories(&huge).expect_err("oversized answers reject outright");
    assert!(
        err.to_text().contains("no parseable JSON array"),
        "the rejection is the parse failure: {}",
        err.to_text()
    );
}

#[test]
fn a_self_assessed_quality_never_reaches_the_validated_tier() {
    let confident = wire(
        "insight",
        "a lesson the model graded itself highly",
        None,
        0.99,
    );
    let mined = wire_to_extracted(&confident).expect("parses");
    assert!(
        number(mined.quality) <= 0.85,
        "self-assessed confidence reaches the relevance scale but never \
        the 0.9 auto-validate threshold — mining is not confirmation: {}",
        number(mined.quality)
    );
    let entry = entry_for(&mined, 0);
    assert!(
        !entry.validated,
        "a wire-derived memory must not store pre-validated"
    );
}

#[test]
fn trailing_prose_with_a_bracket_does_not_reject_the_array() {
    let text = "[{\"category\":\"insight\",\"content\":\"a real lesson\",\"quality\":0.5}]\n(done [2 items])";
    let mined = parse_llm_memories(text).expect("the array behind the trailing prose parses");
    assert_eq!(mined.len(), 1);
    assert_eq!(mined[0].content, "a real lesson");
}

#[test]
fn prose_with_an_earlier_bracket_pair_still_parses() {
    let text = "Here are the lessons [3 total]:\n[{\"category\":\"insight\",\
                \"content\":\"a real lesson\",\"quality\":0.5}]";
    let mined = parse_llm_memories(text).expect("the array behind the prose parses");
    assert_eq!(
        mined.len(),
        1,
        "the bracketed prose does not reject the response"
    );
    assert_eq!(mined[0].content, "a real lesson");
}

#[test]
fn a_bracket_flood_under_the_cap_parses_the_real_array() {
    let flood = format!(
        "{}{}",
        "[0]".repeat(10_000),
        "[{\"category\":\"insight\",\"content\":\"the survivor\",\"quality\":0.5}]",
    );
    assert!(flood.len() < MAX_RESPONSE_BYTES);
    let mined = parse_llm_memories(&flood)
        .expect("the flood degrades to fast parse failures; the real array parses");
    assert_eq!(mined.len(), 1);
    assert_eq!(mined[0].content, "the survivor");
}

#[test]
fn nested_arrays_fall_through_to_the_inner_memory_array() {
    let text = "[[{\"category\":\"insight\",\"content\":\"nested lesson\",\"quality\":0.5}]]";
    let mined = parse_llm_memories(text).expect("the inner array carries the memories");
    assert_eq!(mined.len(), 1);
    assert_eq!(mined[0].content, "nested lesson");
}

#[test]
fn candidate_lines_keep_an_exact_fit_and_stop_at_the_cap() {
    let candidates: Vec<ExtractedMemory> = (0..3)
        .map(|_| ExtractedMemory {
            category: MemoryCategory::Insight,
            content: "abc".to_string(),
            tags: Vec::new(),
            quality: single(0.5),
        })
        .collect();
    let line = "- [insight] abc\n";
    let mut exact = String::new();
    append_candidate_lines(&mut exact, &candidates, line.len() * 2);
    assert_eq!(
        exact.len(),
        line.len() * 2,
        "two exactly-fitting lines are kept — the cap is inclusive"
    );
    let mut overflow = String::new();
    append_candidate_lines(&mut overflow, &candidates, line.len() * 2 - 1);
    assert_eq!(
        overflow.len(),
        line.len(),
        "the third line one byte over budget stops the listing"
    );
}

#[test]
fn heuristic_mines_repetition_as_optimization_insight() {
    let same_turn = record(
        TrajectoryOutcome::Success,
        vec![
            turn(
                0,
                "search",
                vec![call("Grep", true), call("Grep", true), call("Grep", true)],
            ),
            turn(1, "edit", vec![call("Edit", true)]),
            turn(2, "verify", vec![call("Bash", true)]),
        ],
    );
    let mined = mine(&same_turn, &ExtractionConfig::default());
    let insight = mined
        .iter()
        .find(|memory| memory.tags.iter().any(|tag| tag == "optimization"))
        .expect("three same-turn repeats must yield a tagged optimization insight");
    assert_eq!(
        insight.category,
        MemoryCategory::Insight,
        "optimization learnings reuse the Insight category, tagged"
    );
    assert!(
        insight.content.contains("within one turn"),
        "the memory describes the same-turn shape it mined"
    );
    let cross_turn = record(
        TrajectoryOutcome::Success,
        vec![
            turn(0, "look", vec![call("Edit", true)]),
            turn(1, "look again", vec![call("Edit", true)]),
            turn(2, "look once more", vec![call("Edit", true)]),
        ],
    );
    let mined = mine(&cross_turn, &ExtractionConfig::default());
    assert!(
        !mined
            .iter()
            .any(|memory| memory.tags.iter().any(|tag| tag == "optimization")),
        "sequential same-tool calls across turns are ordinary work, not waste"
    );
}

#[test]
fn a_runaway_tool_name_is_bounded_in_the_mined_repetition_lesson() {
    let long_name = "x".repeat(500);
    let runaway = record(
        TrajectoryOutcome::Success,
        vec![
            turn(0, "look", vec![call("Read", true)]),
            turn(1, "think", vec![call("Read", true)]),
            turn(
                2,
                "flail",
                vec![
                    call(&long_name, false),
                    call(&long_name, false),
                    call(&long_name, false),
                ],
            ),
        ],
    );
    let mined = mine(&runaway, &ExtractionConfig::default());
    let insight = mined
        .iter()
        .find(|memory| memory.tags.iter().any(|tag| tag == "optimization"))
        .expect("three repeats of one name still mine the lesson");
    assert!(
        insight.content.len() < 300,
        "a hallucinated half-kilobyte tool name must not persist into the \
        store unbounded: {} bytes",
        insight.content.len()
    );
    assert!(
        insight.content.contains('…'),
        "the cut name is marked rather than silently shortened"
    );
}

#[test]
fn max_memories_caps_the_candidate_list() {
    let busy = record(
        TrajectoryOutcome::Success,
        vec![
            turn(
                0,
                "explore",
                vec![call("Grep", true), call("Grep", true), call("Grep", true)],
            ),
            turn(1, "fail then fix", vec![call("Bash", false)]),
            turn(2, "retry", vec![call("Bash", true)]),
            turn(
                3,
                "wrap up",
                vec![call("Edit", true), call("Write", true), call("Read", true)],
            ),
        ],
    );
    let mut config = ExtractionConfig::default();
    config.max_memories = 1;
    let mined = mine(&busy, &config);
    assert_eq!(
        mined.len(),
        1,
        "the cap keeps only the highest-quality candidate"
    );
}

fn with_strategy(strategy: ExtractionStrategy) -> ExtractionConfig {
    let mut config = ExtractionConfig::default();
    config.strategy = strategy;
    config
}

fn settled(step: ExtractionStep) -> (Vec<ExtractedMemory>, &'static str) {
    match step {
        ExtractionStep::Settled { memories, outcome } => (memories, outcome),
        other => panic!("expected a settled pass, got {other:?}"),
    }
}

#[test]
fn llm_strategy_parses_the_provider_array() {
    let trajectory = record(
        TrajectoryOutcome::Success,
        vec![
            turn(0, "one", vec![call("Read", true)]),
            turn(1, "two", vec![call("Edit", true)]),
            turn(2, "three", vec![call("Bash", true)]),
        ],
    );
    let config = with_strategy(ExtractionStrategy::Llm);
    assert!(matches!(
        begin_extraction(&trajectory, &config, true),
        ExtractionStep::Ask { .. }
    ));
    let answer = parse_llm_memories(
        "[{\"category\":\"strategy\",\"content\":\"write tests first\",\"tags\":[\"tdd\"],\"quality\":0.9},\
          {\"category\":\"optimization\",\"content\":\"batch grep calls\",\"quality\":0.6}]",
    )
    .expect("a valid array parses");
    let (mined, outcome) = settled(finish_extraction(&trajectory, &config, Ok(answer)));
    assert_eq!(outcome, "ok");
    assert_eq!(mined.len(), 2, "both provider memories survive mapping");
    assert_eq!(mined[0].category, MemoryCategory::Strategy);
    assert!(
        mined[1].tags.iter().any(|tag| tag == "optimization"),
        "the optimization category maps to Insight with the optimization tag"
    );
    let broken = parse_llm_memories("no array here")
        .expect_err("a response without an array must be an Api error");
    assert!(
        matches!(broken, LoopError::Api(_)),
        "malformed provider output surfaces as LoopError::Api"
    );
    assert!(broken.to_text().contains("no parseable JSON array"));
    let failed = finish_extraction(
        &trajectory,
        &config,
        Err(LlmFailure {
            error: LoopError::Api("provider call failed: boom".to_string()),
            fault: ProviderFault::Api,
        }),
    );
    match failed {
        ExtractionStep::Failed { error, outcome } => {
            assert!(error.to_text().contains("provider call failed"));
            assert_eq!(outcome, "api_error");
        }
        other => panic!("a provider transport failure is an error, got {other:?}"),
    }
}

#[test]
fn provider_slips_are_dropped_or_sanitized_during_wire_mapping() {
    let mined = wire_to_extracted(&wire("insight", "a real lesson", many_tags(), 0.5))
        .expect("parses");
    assert!(
        mined.tags.iter().any(|tag| tag == "provider-derived"),
        "every LLM-mined memory carries the provenance tag even when \
        the model filled the tag budget: {:?}",
        mined.tags
    );
    assert_eq!(
        mined.tags.len(),
        MAX_WIRE_TAGS,
        "the provenance slot keeps the total at the cap"
    );

    let backfilled = wire(
        "error_pattern",
        "retry after adjusting the input",
        many_tags(),
        0.5,
    );
    let mined = wire_to_extracted(&backfilled).expect("parses");
    assert_eq!(
        mined.tags.len(),
        MAX_WIRE_TAGS,
        "a backfilled selecting tag and the provenance tag both fit within the cap: {:?}",
        mined.tags
    );
    assert!(
        mined.tags.iter().any(|tag| tag == "recovery")
            && mined.tags.iter().any(|tag| tag == "provider-derived"),
        "the selecting tag is backfilled and the provenance tag survives the squeeze"
    );

    assert!(
        wire_to_extracted(&wire("insight", "   ", None, 0.9)).is_none(),
        "an empty or whitespace-only lesson is not a memory — it must drop like an \
        unknown category, not store as validated text"
    );

    let untagged_recovery = wire(
        "error_pattern",
        "retry the failed call after fixing the input",
        None,
        0.7,
    );
    let mined = wire_to_extracted(&untagged_recovery)
        .expect("an error-pattern lesson with no tags still mines");
    assert!(
        mined.tags.iter().any(|tag| tag == "recovery"),
        "the error_pattern category backfills the recovery tag it is selected by, \
        keeping filter-by-kind parity with the heuristic miner: {:?}",
        mined.tags
    );

    assert!(
        wire_to_extracted(&wire("recovery", "a real lesson", None, 0.8)).is_none(),
        "a category the prompt never defined is dropped, not silently re-mapped — \
        `recovery` is the heuristic tag vocabulary, not a prompt category"
    );

    for poisoned in [f32::NAN, f32::INFINITY, f32::NEG_INFINITY] {
        let mined = wire_to_extracted(&wire("insight", "a real lesson", None, poisoned))
            .expect("a real lesson with a poisoned quality still mines");
        assert!(
            number(mined.quality).is_finite(),
            "a non-finite quality must never reach the store's relevance"
        );
        assert!(
            (number(mined.quality) - 0.5).abs() < f32::EPSILON,
            "a non-finite quality falls back to the mid-scale default, not a clamp \
            that passes NaN through: {}",
            number(mined.quality)
        );
    }
}

#[test]
fn hybrid_falls_back_to_heuristic_on_provider_failure() {
    let trajectory = recovering();
    let config = with_strategy(ExtractionStrategy::Hybrid);
    let failure = LlmFailure {
        error: LoopError::Api("boom".to_string()),
        fault: ProviderFault::Api,
    };
    let (mined, outcome) = settled(finish_extraction(&trajectory, &config, Err(failure)));
    assert!(
        !mined.is_empty(),
        "the heuristic candidates survive the provider failure"
    );
    assert_eq!(outcome, "api_error");
}

#[test]
fn hybrid_candidate_lines_label_categories_in_the_wire_vocabulary() {
    let trajectory = recovering();
    let config = with_strategy(ExtractionStrategy::Hybrid);
    match begin_extraction(&trajectory, &config, true) {
        ExtractionStep::Ask { prompt } => {
            assert!(
                prompt.system.contains("[error_pattern]"),
                "candidate labels must use the snake_case names the parser accepts: {}",
                prompt.system
            );
            assert!(
                !prompt.system.contains("[Strategy]")
                    && !prompt.system.contains("[ErrorPattern]"),
                "Debug names a model might echo back are silently dropped by the parser"
            );
        }
        other => panic!("expected one provider call, got {other:?}"),
    }
    let answer = parse_llm_memories(
        r#"[{"category":"strategy","content":"refined lesson","tags":[],"quality":0.8}]"#,
    )
    .expect("parses");
    let (mined, _) = settled(finish_extraction(&trajectory, &config, Ok(answer)));
    assert!(
        mined
            .iter()
            .any(|memory| memory.content == "refined lesson"),
        "the refined candidate survives parsing"
    );
}

#[test]
fn extract_into_annotates_memory_errors_and_passes_other_variants_through() {
    let passed = annotate_store_error(LoopError::Api("provider unreachable".to_string()), 1);
    assert!(
        matches!(passed, LoopError::Api(_)),
        "a recoverable store error must round-trip as its own variant"
    );
    match annotate_store_error(LoopError::Memory("disk full".to_string()), 1) {
        LoopError::Memory(message) => {
            assert!(
                message.contains("after 1 memories written"),
                "the Memory variant carries the partial-written count: {message}"
            );
            assert!(message.contains("disk full"));
        }
        other => panic!("expected the Memory variant, got: {other:?}"),
    }
}

#[test]
fn a_hybrid_fallback_settles_on_the_failure_outcome() {
    assert_eq!(settle_outcome(None), "ok");
    assert_eq!(
        settle_outcome(Some("api_error")),
        "api_error",
        "the fallback pass reports the LLM failure, not a second ok"
    );
    assert_eq!(settle_outcome(Some("parse_error")), "parse_error");
    assert_eq!(
        settle_outcome(Some(NO_CLIENT)),
        NO_CLIENT,
        "a configured-for-hybrid pass with no client reports no_client, not ok"
    );
}

#[test]
fn a_clientless_hybrid_pass_mines_heuristically_and_settles_on_no_client() {
    let trajectory = recovering();
    let config = with_strategy(ExtractionStrategy::Hybrid);
    let (mined, outcome) = settled(begin_extraction(&trajectory, &config, false));
    assert!(
        !mined.is_empty(),
        "the heuristic half still mines without a provider"
    );
    assert_eq!(outcome, NO_CLIENT);
}

#[test]
fn summary_labels_turns_and_responses_newest_first_within_budget() {
    let turns = vec![
        turn(0, "first query alpha", vec![call("Read", true)]),
        turn(1, "second query beta", vec![call("Edit", true)]),
        turn(2, "third query gamma", vec![call("Bash", true)]),
    ];
    let mut record = record(TrajectoryOutcome::Success, turns);
    record.turns[0].response_text = "first response".to_string();
    record.turns[2].response_text = "third response".to_string();
    let summary = summarize_trajectory(&record, 8_000);
    assert!(
        summary.starts_with("outcome: success\n"),
        "the header renders the outcome in the stable snake_case vocabulary, not a \
        Debug variant name a model might echo back"
    );
    assert!(
        summary.contains("turn: 0") && summary.contains("turn: 1") && summary.contains("turn: 2"),
        "every turn line carries its index"
    );
    let third = summary.find("turn: 2").expect("turn 2 present");
    let first = summary.find("turn: 0").expect("turn 0 present");
    assert!(
        third < first,
        "newest turns render first so truncation drops the run's beginning"
    );
    let line_end = third + summary[third..].find('\n').unwrap_or(0);
    let line = &summary[third..line_end];
    let response_at = line.find("response:").expect("response field labeled");
    let value_at = line.find("third response").expect("response text present");
    assert!(
        value_at > response_at,
        "the response text lands after the response label, not after turn:"
    );
    let tiny = summarize_trajectory(&record, 120);
    assert!(
        tiny.len() <= 120 + "outcome: Success\n".len() + "total turns: 3\n".len(),
        "apart from the fixed header, the marker is reserved and the cap holds: {} bytes",
        tiny.len()
    );
    assert!(tiny.ends_with("…\n"), "a truncated summary is marked");
}

#[test]
fn hybrid_candidates_share_the_context_budget() {
    let turns: Vec<TrajectoryTurn> = (0..40)
        .map(|index| {
            turn(
                index,
                &format!("query number {index} with padding to fill the summary"),
                vec![call("Read", true)],
            )
        })
        .collect();
    let trajectory = record(TrajectoryOutcome::Success, turns);
    let candidates: Vec<ExtractedMemory> = (0..200)
        .map(|index| ExtractedMemory {
            category: MemoryCategory::Strategy,
            content: format!("lesson number {index} with several words to fill the budget"),
            tags: Vec::new(),
            quality: single(0.6),
        })
        .collect();
    let budget = 900;
    let prompt = extraction_prompt(&trajectory, budget, Some(&candidates));
    let total = prompt.system.len() + prompt.summary.len();
    assert!(
        total <= budget,
        "system instruction, candidates, and summary together stay within the \
        configured budget (got {total} bytes)"
    );
    assert!(
        prompt.summary.contains("turn: 39") && !prompt.summary.contains("turn: 0 "),
        "truncation keeps the newest turns and drops the run's beginning"
    );
}

#[test]
fn a_provider_strategy_without_a_client_fails() {
    let config = with_strategy(ExtractionStrategy::Llm);
    match begin_extraction(&recovering(), &config, false) {
        ExtractionStep::Failed { outcome, .. } => assert_eq!(outcome, NO_CLIENT),
        other => panic!("unexpected {other:?}"),
    }
}

#[test]
fn lessons_settle_by_quality_without_repeats() {
    let lesson = |content: &str, quality: f32| ExtractedMemory {
        category: MemoryCategory::Insight,
        content: content.to_string(),
        tags: Vec::new(),
        quality: single(quality),
    };
    let list = vec![lesson("a", 0.3), lesson("b", 0.9), lesson("a", 0.8), lesson("c", 0.1)];
    let out = settle_memories(&list, 2);
    let contents: Vec<&str> = out.iter().map(|m| m.content.as_str()).collect();
    assert_eq!(contents, vec!["b", "a"]);
    assert_eq!(number(out[1].quality), 0.8, "the better of two equals stays");
}

#[test]
fn a_mined_lesson_becomes_an_entry() {
    let lesson = ExtractedMemory {
        category: MemoryCategory::Fact,
        content: "text".to_string(),
        tags: vec!["t".to_string()],
        quality: single(7.0),
    };
    let entry = entry_for(&lesson, 42);
    assert_eq!(entry.memory, "text");
    assert_eq!(entry.tags, vec!["t"]);
    assert_eq!(number(entry.relevance), 1.0);
    assert_eq!(entry.created_at, 42);
    assert_eq!(category_label(MemoryCategory::ErrorPattern), "error_pattern");
    assert_eq!(category_label(MemoryCategory::Working), "working");
    assert!(!heuristic_memories(&recovering()).is_empty());
}

#[test]
fn text_is_cut_at_whole_characters() {
    assert_eq!(truncate("héllo", 6), "héllo");
    assert_eq!(truncate("héllo", 2), "h…");
    assert_eq!(truncate("héllo", 3), "hé…");
    assert_eq!(truncate("x", 0), "…");
}

#[test]
fn an_observer_keeps_what_it_was_given() {
    let observer: ExtractionObserver<&str, &str> =
        ExtractionObserver::new("/tmp/t.jsonl".to_string(), "store");
    assert_eq!(observer.name(), "memory-extractor");
    assert!(observer.client().is_none());
    let observer = observer
        .with_client("client")
        .with_config(with_strategy(ExtractionStrategy::Hybrid));
    assert_eq!(observer.client(), Some(&"client"));
    assert_eq!(*observer.store(), "store");
    assert_eq!(observer.trajectory_path(), "/tmp/t.jsonl");
    assert!(matches!(observer.config().strategy, ExtractionStrategy::Hybrid));
    assert_eq!(
        no_record_error("/x").to_text(),
        LoopError::Memory(
            "no complete trajectory record in /x \u{2014} the file is empty or every line fails to parse"
                .to_string()
        )
        .to_text()
    );
}

#[test]
fn an_observer_without_a_provider_mines_by_rule() {
    let observer: ExtractionObserver<&str, &str> =
        ExtractionObserver::new("/tmp/t.jsonl".to_string(), "store")
            .with_config(with_strategy(ExtractionStrategy::Llm));
    match begin_extraction(&recovering(), &observer.pass_config(), false) {
        ExtractionStep::Settled { memories, outcome } => {
            assert!(has_category(&memories, MemoryCategory::ErrorPattern));
            assert_eq!(outcome, NO_CLIENT);
        }
        other => panic!("unexpected step: {other:?}"),
    }
    let observer = observer.with_client("client");
    assert!(matches!(
        observer.pass_config().strategy,
        ExtractionStrategy::Llm
    ));
    assert_eq!(observer.pass_config().max_memories, observer.config().max_memories);
}
