//! One readable line for each event.

use vstd::prelude::*;

use crate::ids;
use crate::observability::event::ObserveEvent;
use crate::text;

verus! {

/// The number of characters of a query that a line shows.
pub const QUERY_PREVIEW: usize = 60;

/// The sink that prints events for a developer to read.
#[derive(Debug, Clone, Copy, Default)]
pub struct ConsoleSink;

/// At most `max_len` characters of a text, with an ellipsis where some are
/// left out.
pub open spec fn shortened(s: Seq<char>, max_len: nat) -> Seq<char> {
    if s.len() <= max_len {
        s
    } else {
        s.take(max_len as int).push('\u{2026}')
    }
}

/// Cuts a text to `max_len` characters, marking the cut by an ellipsis.
pub fn truncate(s: &str, max_len: usize) -> (out: String)
    ensures
        out@ == shortened(s@, max_len as nat),
{
    let chars = text::chars_of(s);
    if chars.len() <= max_len {
        text::string_of(&chars)
    } else {
        let mut out = text::slice_text(&chars, 0, max_len);
        assert(out@ =~= s@.take(max_len as int));
        out.push('\u{2026}');
        out
    }
}

/// The line that an event is shown by, where it has one.
pub open spec fn event_line(event: ObserveEvent) -> Option<Seq<char>> {
    match event {
        ObserveEvent::SessionStart { session_id } => Some(
            "[session] started "@ + ids::hyphenated(session_id),
        ),
        ObserveEvent::SessionStop { session_id, success, reason, total_turns, duration_ms } => Some(
            "[session] "@ + (if success {
                "ok"@
            } else {
                "failed"@
            }) + " "@ + ids::hyphenated(session_id) + " \u{2014} "@ + text::decimal(
                total_turns as nat,
            ) + " turns in "@ + text::decimal(duration_ms as nat) + "ms ("@ + reason@ + ")"@,
        ),
        ObserveEvent::TurnStart { turn, query } => Some(
            "[turn "@ + text::decimal(turn as nat) + "] start: "@ + shortened(
                query@,
                QUERY_PREVIEW as nat,
            ),
        ),
        ObserveEvent::TurnComplete { turn, duration_ms, input_tokens, output_tokens } => Some(
            "[turn "@ + text::decimal(turn as nat) + "] complete in "@ + text::decimal(
                duration_ms as nat,
            ) + "ms ("@ + text::decimal(input_tokens as nat) + " in / "@ + text::decimal(
                output_tokens as nat,
            ) + " out tokens)"@,
        ),
        ObserveEvent::TurnFailed { turn, duration_ms, error } => Some(
            "[turn "@ + text::decimal(turn as nat) + "] failed after "@ + text::decimal(
                duration_ms as nat,
            ) + "ms: "@ + error@,
        ),
        ObserveEvent::ToolStart { name, .. } => Some("[tool] "@ + name@ + " started"@),
        ObserveEvent::ToolComplete { name, is_error, duration_ms, .. } => Some(
            "[tool] "@ + name@ + (if is_error {
                " failed after "@
            } else {
                " completed in "@
            }) + text::decimal(duration_ms as nat) + "ms"@,
        ),
        ObserveEvent::ContextWarning { tokens_used, tokens_remaining } => Some(
            "[context] warning: "@ + text::decimal(tokens_used as nat) + " used, "@ + text::decimal(
                tokens_remaining as nat,
            ) + " remaining"@,
        ),
        ObserveEvent::ContextCompacted { messages_before, messages_after, tokens_saved } => Some(
            "[context] compacted "@ + text::decimal(messages_before as nat) + " \u{2192} "@
                + text::decimal(messages_after as nat) + " messages ("@ + text::decimal(
                tokens_saved as nat,
            ) + " tokens saved)"@,
        ),
        ObserveEvent::Error { message, source } => Some("[error] "@ + source@ + ": "@ + message@),
        ObserveEvent::LoopDetected { .. } => None,
        ObserveEvent::ConvergenceDetected { .. } => None,
    }
}

impl ConsoleSink {
    /// The line to print for an event. The detection events have none.
    pub fn line(&self, event: &ObserveEvent) -> (line: Option<String>)
        ensures
            line is Some <==> event_line(*event) is Some,
            line matches Some(l) ==> event_line(*event) == Some(l@),
    {
        match event {
            ObserveEvent::SessionStart { session_id } => {
                let mut out = String::from_str("[session] started ");
                let id = ids::uuid_text(*session_id);
                text::push_text(&mut out, id.as_str());
                Some(out)
            },
            ObserveEvent::SessionStop { session_id, success, reason, total_turns, duration_ms } => {
                let mut out = String::from_str("[session] ");
                text::push_text(
                    &mut out,
                    if *success {
                        "ok"
                    } else {
                        "failed"
                    },
                );
                text::push_text(&mut out, " ");
                let id = ids::uuid_text(*session_id);
                text::push_text(&mut out, id.as_str());
                text::push_text(&mut out, " \u{2014} ");
                text::push_decimal(&mut out, *total_turns as u128);
                text::push_text(&mut out, " turns in ");
                text::push_decimal(&mut out, *duration_ms as u128);
                text::push_text(&mut out, "ms (");
                text::push_text(&mut out, reason.as_str());
                text::push_text(&mut out, ")");
                Some(out)
            },
            ObserveEvent::TurnStart { turn, query } => {
                let mut out = String::from_str("[turn ");
                text::push_decimal(&mut out, *turn as u128);
                text::push_text(&mut out, "] start: ");
                let preview = truncate(query.as_str(), QUERY_PREVIEW);
                text::push_text(&mut out, preview.as_str());
                Some(out)
            },
            ObserveEvent::TurnComplete { turn, duration_ms, input_tokens, output_tokens } => {
                let mut out = String::from_str("[turn ");
                text::push_decimal(&mut out, *turn as u128);
                text::push_text(&mut out, "] complete in ");
                text::push_decimal(&mut out, *duration_ms as u128);
                text::push_text(&mut out, "ms (");
                text::push_decimal(&mut out, *input_tokens as u128);
                text::push_text(&mut out, " in / ");
                text::push_decimal(&mut out, *output_tokens as u128);
                text::push_text(&mut out, " out tokens)");
                Some(out)
            },
            ObserveEvent::TurnFailed { turn, duration_ms, error } => {
                let mut out = String::from_str("[turn ");
                text::push_decimal(&mut out, *turn as u128);
                text::push_text(&mut out, "] failed after ");
                text::push_decimal(&mut out, *duration_ms as u128);
                text::push_text(&mut out, "ms: ");
                text::push_text(&mut out, error.as_str());
                Some(out)
            },
            ObserveEvent::ToolStart { name, .. } => {
                let mut out = String::from_str("[tool] ");
                text::push_text(&mut out, name.as_str());
                text::push_text(&mut out, " started");
                Some(out)
            },
            ObserveEvent::ToolComplete { name, is_error, duration_ms, .. } => {
                let mut out = String::from_str("[tool] ");
                text::push_text(&mut out, name.as_str());
                text::push_text(
                    &mut out,
                    if *is_error {
                        " failed after "
                    } else {
                        " completed in "
                    },
                );
                text::push_decimal(&mut out, *duration_ms as u128);
                text::push_text(&mut out, "ms");
                Some(out)
            },
            ObserveEvent::ContextWarning { tokens_used, tokens_remaining } => {
                let mut out = String::from_str("[context] warning: ");
                text::push_decimal(&mut out, *tokens_used as u128);
                text::push_text(&mut out, " used, ");
                text::push_decimal(&mut out, *tokens_remaining as u128);
                text::push_text(&mut out, " remaining");
                Some(out)
            },
            ObserveEvent::ContextCompacted { messages_before, messages_after, tokens_saved } => {
                let mut out = String::from_str("[context] compacted ");
                text::push_decimal(&mut out, *messages_before as u128);
                text::push_text(&mut out, " \u{2192} ");
                text::push_decimal(&mut out, *messages_after as u128);
                text::push_text(&mut out, " messages (");
                text::push_decimal(&mut out, *tokens_saved as u128);
                text::push_text(&mut out, " tokens saved)");
                Some(out)
            },
            ObserveEvent::Error { message, source } => {
                let mut out = String::from_str("[error] ");
                text::push_text(&mut out, source.as_str());
                text::push_text(&mut out, ": ");
                text::push_text(&mut out, message.as_str());
                Some(out)
            },
            ObserveEvent::LoopDetected { .. } => None,
            ObserveEvent::ConvergenceDetected { .. } => None,
        }
    }
}

/// A text that is shortened keeps its start, as long as it may be, and ends
/// with an ellipsis; one that fits stays.
pub proof fn a_shortened_text_keeps_its_start(s: Seq<char>, max_len: nat)
    ensures
        s.len() <= max_len ==> shortened(s, max_len) == s,
        s.len() > max_len ==> shortened(s, max_len) == s.take(max_len as int) + seq!['\u{2026}'],
{
    assert(s.take(max_len as int).push('\u{2026}') =~= s.take(max_len as int) + seq!['\u{2026}']);
}

/// Every event of a session, a turn, a tool, the context and every error is
/// shown, marked by what it is of; what detectors report is not.
pub proof fn every_event_but_a_detection_is_shown(event: ObserveEvent)
    ensures
        event_line(event) is None <==> event is LoopDetected || event is ConvergenceDetected,
        event matches ObserveEvent::TurnStart { turn, query } ==> event_line(event) == Some(
            "[turn "@ + text::decimal(turn as nat) + "] start: "@ + shortened(query@, 60),
        ),
        event matches ObserveEvent::SessionStart { session_id } ==> event_line(event) == Some(
            "[session] started "@ + ids::hyphenated(session_id),
        ),
        event matches ObserveEvent::SessionStop {
            session_id,
            success: true,
            reason,
            total_turns,
            duration_ms,
        } ==> event_line(event) == Some(
            "[session] "@ + "ok"@ + " "@ + ids::hyphenated(session_id) + " \u{2014} "@
                + text::decimal(total_turns as nat) + " turns in "@ + text::decimal(
                duration_ms as nat,
            ) + "ms ("@ + reason@ + ")"@,
        ),
        event matches ObserveEvent::SessionStop {
            session_id,
            success: false,
            reason,
            total_turns,
            duration_ms,
        } ==> event_line(event) == Some(
            "[session] "@ + "failed"@ + " "@ + ids::hyphenated(session_id) + " \u{2014} "@
                + text::decimal(total_turns as nat) + " turns in "@ + text::decimal(
                duration_ms as nat,
            ) + "ms ("@ + reason@ + ")"@,
        ),
        event matches ObserveEvent::TurnComplete {
            turn,
            duration_ms,
            input_tokens,
            output_tokens,
        } ==> event_line(event) == Some(
            "[turn "@ + text::decimal(turn as nat) + "] complete in "@ + text::decimal(
                duration_ms as nat,
            ) + "ms ("@ + text::decimal(input_tokens as nat) + " in / "@ + text::decimal(
                output_tokens as nat,
            ) + " out tokens)"@,
        ),
        event matches ObserveEvent::ToolStart { name, .. } ==> event_line(event) == Some(
            "[tool] "@ + name@ + " started"@,
        ),
        event matches ObserveEvent::ContextCompacted {
            messages_before,
            messages_after,
            tokens_saved,
        } ==> event_line(event) == Some(
            "[context] compacted "@ + text::decimal(messages_before as nat) + " \u{2192} "@
                + text::decimal(messages_after as nat) + " messages ("@ + text::decimal(
                tokens_saved as nat,
            ) + " tokens saved)"@,
        ),
        event matches ObserveEvent::TurnFailed { turn, duration_ms, error } ==> event_line(event)
            == Some(
            "[turn "@ + text::decimal(turn as nat) + "] failed after "@ + text::decimal(
                duration_ms as nat,
            ) + "ms: "@ + error@,
        ),
        event matches ObserveEvent::ToolComplete { name, is_error: false, duration_ms, .. }
            ==> event_line(event) == Some(
            "[tool] "@ + name@ + " completed in "@ + text::decimal(duration_ms as nat) + "ms"@,
        ),
        event matches ObserveEvent::ToolComplete { name, is_error: true, duration_ms, .. }
            ==> event_line(event) == Some(
            "[tool] "@ + name@ + " failed after "@ + text::decimal(duration_ms as nat) + "ms"@,
        ),
        event matches ObserveEvent::Error { message, source } ==> event_line(event) == Some(
            "[error] "@ + source@ + ": "@ + message@,
        ),
        event matches ObserveEvent::ContextWarning { tokens_used, tokens_remaining } ==> event_line(
            event,
        ) == Some(
            "[context] warning: "@ + text::decimal(tokens_used as nat) + " used, "@ + text::decimal(
                tokens_remaining as nat,
            ) + " remaining"@,
        ),
{
}

} // verus!
