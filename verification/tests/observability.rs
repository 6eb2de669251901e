//! Events and where they go.

use loopctl::observability::console::{truncate, ConsoleSink};
use loopctl::observability::event::ObserveEvent;
use loopctl::observability::sink::{panic_message, CompositeSink, EventSink, NullSink};
use std::sync::atomic::{AtomicUsize, Ordering};
use std::sync::Arc;

fn line(event: &ObserveEvent) -> Option<String> {
    ConsoleSink.line(event)
}

#[test]
fn console_sink_handles_all_event_types() {
    assert_eq!(
        line(&ObserveEvent::SessionStart { session_id: 0 }).as_deref(),
        Some("[session] started 00000000-0000-0000-0000-000000000000")
    );
    assert_eq!(
        line(&ObserveEvent::TurnStart {
            turn: 0,
            query: "hello".to_string(),
        })
        .as_deref(),
        Some("[turn 0] start: hello")
    );
    assert_eq!(
        line(&ObserveEvent::ToolStart {
            name: "read_file".to_string(),
            input: "{}".to_string(),
        })
        .as_deref(),
        Some("[tool] read_file started")
    );
    assert_eq!(
        line(&ObserveEvent::ToolComplete {
            name: "read_file".to_string(),
            output: "contents".to_string(),
            is_error: false,
            duration_ms: 50,
        })
        .as_deref(),
        Some("[tool] read_file completed in 50ms")
    );
    assert_eq!(
        line(&ObserveEvent::ToolComplete {
            name: "read_file".to_string(),
            output: "not found".to_string(),
            is_error: true,
            duration_ms: 10,
        })
        .as_deref(),
        Some("[tool] read_file failed after 10ms")
    );
    assert_eq!(
        line(&ObserveEvent::TurnComplete {
            turn: 0,
            duration_ms: 100,
            input_tokens: 10,
            output_tokens: 5,
        })
        .as_deref(),
        Some("[turn 0] complete in 100ms (10 in / 5 out tokens)")
    );
    assert_eq!(
        line(&ObserveEvent::TurnFailed {
            turn: 1,
            duration_ms: 200,
            error: "timeout".to_string(),
        })
        .as_deref(),
        Some("[turn 1] failed after 200ms: timeout")
    );
    assert_eq!(
        line(&ObserveEvent::ContextWarning {
            tokens_used: 180_000,
            tokens_remaining: 20_000,
        })
        .as_deref(),
        Some("[context] warning: 180000 used, 20000 remaining")
    );
    assert_eq!(
        line(&ObserveEvent::ContextCompacted {
            messages_before: 50,
            messages_after: 20,
            tokens_saved: 10_000,
        })
        .as_deref(),
        Some("[context] compacted 50 \u{2192} 20 messages (10000 tokens saved)")
    );
    assert_eq!(
        line(&ObserveEvent::Error {
            message: "something broke".to_string(),
            source: "api".to_string(),
        })
        .as_deref(),
        Some("[error] api: something broke")
    );
    assert_eq!(
        line(&ObserveEvent::SessionStop {
            session_id: 0,
            success: true,
            reason: "done".to_string(),
            total_turns: 5,
            duration_ms: 10_000,
        })
        .as_deref(),
        Some(
            "[session] ok 00000000-0000-0000-0000-000000000000 \u{2014} 5 turns in 10000ms (done)"
        )
    );
}

#[test]
fn a_session_id_is_shown_in_its_hyphenated_form() {
    assert_eq!(
        line(&ObserveEvent::SessionStart {
            session_id: 0x0123_4567_89ab_cdef_0123_4567_89ab_cdef,
        })
        .as_deref(),
        Some("[session] started 01234567-89ab-cdef-0123-456789abcdef")
    );
}

#[test]
fn a_long_query_is_shown_by_its_start() {
    let shown = line(&ObserveEvent::TurnStart {
        turn: 7,
        query: "x".repeat(100),
    });
    assert_eq!(
        shown,
        Some(format!("[turn 7] start: {}\u{2026}", "x".repeat(60)))
    );
}

#[test]
fn truncate_short_string_unchanged() {
    assert_eq!(truncate("hello", 10), "hello");
}

#[test]
fn truncate_long_string() {
    let long = "a".repeat(100);
    let result = truncate(&long, 10);
    assert_eq!(result.chars().count(), 11); // 10 chars + ellipsis
    assert!(result.ends_with('\u{2026}'));
}

#[test]
fn truncate_exact_length() {
    assert_eq!(truncate("exactly!", 8), "exactly!");
}

#[test]
fn truncate_empty_string() {
    assert_eq!(truncate("", 10), "");
}

#[test]
fn truncate_multibyte_chars() {
    let input = "héllo😊world";
    let result = truncate(input, 5);
    assert_eq!(result, "héllo…");
}

#[test]
fn truncate_zero_max_len() {
    let result = truncate("hello", 0);
    assert_eq!(result, "\u{2026}");
}

#[test]
fn null_sink_accepts_events() {
    let sink = NullSink;
    sink.on_event(&ObserveEvent::SessionStart { session_id: 0 });
}

#[test]
fn composite_with_builder() {
    let composite = CompositeSink::new(vec![])
        .with(NullSink)
        .with(NullSink)
        .with(NullSink);
    assert_eq!(composite.len(), 3);
}

#[test]
fn composite_with_arc_builder() {
    let shared = Arc::new(NullSink);
    let composite = CompositeSink::new(vec![])
        .with(shared.clone())
        .with(shared);
    assert_eq!(composite.len(), 2);
}

#[test]
fn composite_add_and_len() {
    let mut composite = CompositeSink::new(vec![Box::new(NullSink)]);
    assert_eq!(composite.len(), 1);
    assert!(!composite.is_empty());

    composite.add(Box::new(NullSink));
    assert_eq!(composite.len(), 2);
}

#[test]
fn composite_default_is_empty() {
    let composite: CompositeSink<NullSink> = CompositeSink::default();
    assert!(composite.is_empty());
    assert_eq!(composite.len(), 0);
}

#[test]
fn event_sink_is_object_safe() {
    let _boxed: Box<dyn EventSink> = Box::new(NullSink);
    let _arc: Arc<dyn EventSink> = Arc::new(NullSink);
}

#[test]
fn a_panic_is_told_by_its_payload() {
    let owned = "owned".to_string();
    assert_eq!(panic_message(Some("literal"), None, "unknown panic"), "literal");
    assert_eq!(panic_message(None, Some(&owned), "unknown panic"), "owned");
    assert_eq!(panic_message(None, None, "unknown panic"), "unknown panic");
}

struct CountingSink(Arc<AtomicUsize>);

impl EventSink for CountingSink {
    fn on_event(&self, _event: &ObserveEvent) {
        self.0.fetch_add(1, Ordering::Relaxed);
    }
}

#[test]
fn composite_fans_out() {
    let count_a = Arc::new(AtomicUsize::new(0));
    let count_b = Arc::new(AtomicUsize::new(0));
    let composite = CompositeSink::new(vec![
        CountingSink(Arc::clone(&count_a)),
        CountingSink(Arc::clone(&count_b)),
    ]);
    composite.on_event(&ObserveEvent::SessionStart { session_id: 0 });
    assert_eq!(count_a.load(Ordering::Relaxed), 1);
    assert_eq!(count_b.load(Ordering::Relaxed), 1);
}

#[test]
fn composite_empty() {
    let composite: CompositeSink<NullSink> = CompositeSink::new(vec![]);
    assert!(composite.is_empty());
    composite.on_event(&ObserveEvent::SessionStart { session_id: 0 });
}
