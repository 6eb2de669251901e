//! The observable events of the agent lifecycle.

use vstd::prelude::*;

verus! {

/// One observable event.
///
/// Within a session: `SessionStart`, then turns, each opened by `TurnStart` and
/// closed by `TurnComplete` or `TurnFailed` around its tool calls, then
/// `SessionStop`.
#[derive(Debug, Clone)]
pub enum ObserveEvent {
    /// A session has started.
    SessionStart { session_id: u128 },
    /// A session has ended.
    SessionStop {
        session_id: u128,
        success: bool,
        reason: String,
        total_turns: usize,
        duration_ms: u64,
    },
    /// A turn has started.
    TurnStart { turn: usize, query: String },
    /// A turn completed successfully.
    TurnComplete { turn: usize, duration_ms: u64, input_tokens: u64, output_tokens: u64 },
    /// A turn failed.
    TurnFailed { turn: usize, duration_ms: u64, error: String },
    /// A tool execution has started.
    ToolStart { name: String, input: String },
    /// A tool execution has completed.
    ToolComplete { name: String, output: String, is_error: bool, duration_ms: u64 },
    /// The context window is running low.
    ContextWarning { tokens_used: u64, tokens_remaining: u64 },
    /// The conversation history was compacted.
    ContextCompacted { messages_before: usize, messages_after: usize, tokens_saved: u64 },
    /// An error that fits no more specific event.
    Error { message: String, source: String },
    /// The same tool call was repeated beyond the loop threshold.
    LoopDetected { tool: String, repetitions: usize },
    /// Recent responses have converged.
    ConvergenceDetected { action: String },
}

} // verus!
