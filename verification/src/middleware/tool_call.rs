//! The innermost layer: the call of the tool itself.

use vstd::prelude::*;

use crate::error;
use crate::error::{ErrorView, LoopError};
use crate::message::ResultView;
use crate::middleware::dispatch;
use crate::middleware::dispatch::{DispatchView, ToolDispatchResult, ToolOutput};
use crate::middleware::timeout;
use crate::observability::sink;
use crate::text;

verus! {

/// Calls the tools that are registered.
#[derive(Debug)]
pub struct ToolCallMiddleware {
    names: Vec<String>,
}

/// What came of calling a tool.
#[derive(Debug)]
pub enum CallOutcome {
    /// It returned an output, or a message why it failed.
    Returned(Result<ToolOutput, String>),
    /// It was cancelled first.
    Cancelled,
    /// It panicked; the payload, where it was a literal or an owned text.
    Panicked { literal: Option<String>, owned: Option<String> },
}

/// What a panic said.
pub open spec fn panic_text(
    tool_name: Seq<char>,
    literal: Option<String>,
    owned: Option<String>,
) -> Seq<char> {
    match (literal, owned) {
        (Some(l), _) => l@,
        (None, Some(o)) => o@,
        (None, None) => "Tool '"@ + tool_name + "' panicked (unknown payload)"@,
    }
}

/// The result of a call.
pub open spec fn settled(
    tool_name: Seq<char>,
    call_id: Seq<char>,
    outcome: CallOutcome,
    duration: nat,
) -> DispatchView {
    let result = match outcome {
        CallOutcome::Returned(Ok(out)) => DispatchView {
            output: out.content@,
            display_hint: match out.display_hint {
                Some(h) => Some(h@),
                None => None,
            },
            ..dispatch::answered(tool_name, Seq::empty(), false, duration)
        },
        CallOutcome::Returned(Err(e)) => dispatch::failed(tool_name, e@, duration),
        CallOutcome::Cancelled => dispatch::failed(
            tool_name,
            timeout::cancelled_text(tool_name),
            duration,
        ),
        CallOutcome::Panicked { literal, owned } => dispatch::failed(
            tool_name,
            "Tool '"@ + tool_name + "' panicked: "@ + panic_text(tool_name, literal, owned),
            duration,
        ),
    };
    DispatchView { tool_call_id: call_id, ..result }
}

impl View for ToolCallMiddleware {
    type V = Seq<Seq<char>>;

    closed spec fn view(&self) -> Seq<Seq<char>> {
        text::texts(self.names@)
    }
}

impl ToolCallMiddleware {
    /// A layer over a registry with tools of these names.
    pub fn new(names: Vec<String>) -> (r: Self)
        ensures
            r@ == text::texts(names@),
    {
        ToolCallMiddleware { names }
    }

    /// The name of the layer.
    pub fn name(&self) -> (r: &'static str)
        ensures
            r@ == "tool_call"@,
    {
        "tool_call"
    }

    /// What a call of a tool that is not registered ends with; nothing where
    /// the tool is to be called.
    pub fn lookup(&self, tool_name: &str, call_id: &str, elapsed: u128) -> (missing: Option<
        ToolDispatchResult,
    >)
        ensures
            match missing {
                Some(result) => {
                    &&& !self@.contains(tool_name@)
                    &&& result@ == (DispatchView {
                        tool_call_id: call_id@,
                        ..dispatch::failed(
                            tool_name@,
                            error::error_text(ErrorView::ToolNotFound { name: tool_name@ }),
                            elapsed as nat,
                        )
                    })
                },
                None => self@.contains(tool_name@),
            },
    {
        if text::list_contains(&self.names, tool_name) {
            return None;
        }
        let error = LoopError::ToolNotFound { name: String::from_str(tool_name) };
        let result = ToolDispatchResult::err(tool_name, error.to_text(), elapsed);
        Some(result.with_call_id(call_id))
    }

    /// The result of a call.
    pub fn settle(&self, tool_name: &str, call_id: &str, outcome: CallOutcome, duration: u128) -> (r:
        ToolDispatchResult)
        ensures
            r@ == settled(tool_name@, call_id@, outcome, duration as nat),
    {
        let result = match outcome {
            CallOutcome::Returned(returned) => ToolDispatchResult::from_result(
                tool_name,
                returned,
                duration,
            ),
            CallOutcome::Cancelled => ToolDispatchResult::err(
                tool_name,
                timeout::cancelled_message(tool_name),
                duration,
            ),
            CallOutcome::Panicked { literal, owned } => {
                let mut fallback = String::from_str("Tool '");
                text::push_text(&mut fallback, tool_name);
                text::push_text(&mut fallback, "' panicked (unknown payload)");
                let said = match &literal {
                    Some(l) => sink::panic_message(Some(l.as_str()), None, fallback.as_str()),
                    None => sink::panic_message(None, owned.as_ref(), fallback.as_str()),
                };
                let mut message = String::from_str("Tool '");
                text::push_text(&mut message, tool_name);
                text::push_text(&mut message, "' panicked: ");
                text::push_text(&mut message, said.as_str());
                ToolDispatchResult::err(tool_name, message, duration)
            },
        };
        result.with_call_id(call_id)
    }
}

/// Whatever becomes of a call, its result carries the call's id and the tool's
/// name; and it is an error exactly where the tool did not hand an output back.
pub proof fn a_result_names_its_call(
    tool_name: Seq<char>,
    call_id: Seq<char>,
    outcome: CallOutcome,
    duration: nat,
)
    ensures
        settled(tool_name, call_id, outcome, duration).tool_call_id == call_id,
        settled(tool_name, call_id, outcome, duration).resolved_tool_name == tool_name,
        settled(tool_name, call_id, outcome, duration).duration == duration,
        settled(tool_name, call_id, outcome, duration).is_error <==> !(outcome matches
            CallOutcome::Returned(Ok(_))),
{
}

/// What a tool hands back is the result of its call, with its hint. A failure
/// is told in the tool's own words, and a cancellation or a panic as what it
/// was; none of these has a hint.
pub proof fn a_call_ends_as_its_tool_did(
    tool_name: Seq<char>,
    call_id: Seq<char>,
    outcome: CallOutcome,
    duration: nat,
)
    ensures
        ({
            let r = settled(tool_name, call_id, outcome, duration);
            &&& outcome matches CallOutcome::Returned(Ok(out)) ==> r.output == out.content@ && (
            out.display_hint matches Some(h) ==> r.display_hint == Some(h@)) && (
            out.display_hint is None ==> r.display_hint is None)
            &&& outcome matches CallOutcome::Returned(Err(e)) ==> r.output == ResultView::Text(e@)
            &&& outcome is Cancelled ==> r.output == ResultView::Text(
                "Tool '"@ + tool_name + "' cancelled"@,
            )
            &&& outcome matches CallOutcome::Panicked { literal, owned } ==> {
                &&& literal matches Some(l) ==> r.output == ResultView::Text(
                    "Tool '"@ + tool_name + "' panicked: "@ + l@,
                )
                &&& literal is None && owned is Some ==> r.output == ResultView::Text(
                    "Tool '"@ + tool_name + "' panicked: "@ + owned->0@,
                )
                &&& literal is None && owned is None ==> r.output == ResultView::Text(
                    "Tool '"@ + tool_name + "' panicked: "@ + ("Tool '"@ + tool_name
                        + "' panicked (unknown payload)"@),
                )
            }
            &&& !(outcome matches CallOutcome::Returned(Ok(_))) ==> r.display_hint is None
        }),
{
}

} // verus!
