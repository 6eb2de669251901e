//! A tool call on its way through the layers, and its result.

use vstd::prelude::*;

use crate::message::{ResultView, ToolResult};

verus! {

/// Whether a call may go on.
#[derive(Debug)]
pub enum PermissionCheck {
    /// It may.
    Allow,
    /// It may not; why.
    Deny { reason: String },
    /// It may, with this JSON input in place of its own.
    Modify { modified_input: String },
    /// The user is to be asked.
    Ask { prompt: String },
}

/// What a permission says.
pub enum PermissionView {
    Allow,
    Deny { reason: Seq<char> },
    Modify { modified_input: Seq<char> },
    Ask { prompt: Seq<char> },
}

impl View for PermissionCheck {
    type V = PermissionView;

    open spec fn view(&self) -> PermissionView {
        match self {
            PermissionCheck::Allow => PermissionView::Allow,
            PermissionCheck::Deny { reason } => PermissionView::Deny { reason: reason@ },
            PermissionCheck::Modify { modified_input } => PermissionView::Modify {
                modified_input: modified_input@,
            },
            PermissionCheck::Ask { prompt } => PermissionView::Ask { prompt: prompt@ },
        }
    }
}

impl Clone for PermissionCheck {
    fn clone(&self) -> (r: Self)
        ensures
            r@ == self@,
    {
        match self {
            PermissionCheck::Allow => PermissionCheck::Allow,
            PermissionCheck::Deny { reason } => PermissionCheck::Deny {
                reason: String::from_str(reason.as_str()),
            },
            PermissionCheck::Modify { modified_input } => PermissionCheck::Modify {
                modified_input: String::from_str(modified_input.as_str()),
            },
            PermissionCheck::Ask { prompt } => PermissionCheck::Ask {
                prompt: String::from_str(prompt.as_str()),
            },
        }
    }
}

/// Where a tool runs.
#[derive(Debug)]
pub struct ToolContext {
    pub cwd: String,
}

/// A tool call on its way inward. Its input is a JSON text.
#[derive(Debug)]
pub struct ToolDispatchContext {
    pub tool_name: String,
    pub input: String,
    pub call_id: String,
    pub turn_number: usize,
    pub permission: PermissionCheck,
    pub tool_context: ToolContext,
}

/// What a call on its way says.
pub struct CallView {
    pub tool_name: Seq<char>,
    pub input: Seq<char>,
    pub call_id: Seq<char>,
    pub turn_number: nat,
    pub permission: PermissionView,
    pub cwd: Seq<char>,
}

impl View for ToolDispatchContext {
    type V = CallView;

    open spec fn view(&self) -> CallView {
        CallView {
            tool_name: self.tool_name@,
            input: self.input@,
            call_id: self.call_id@,
            turn_number: self.turn_number as nat,
            permission: self.permission@,
            cwd: self.tool_context.cwd@,
        }
    }
}

/// What came of a tool call. The duration is in nanoseconds.
#[derive(Debug)]
pub struct ToolDispatchResult {
    pub tool_call_id: String,
    pub output: ToolResult,
    pub is_error: bool,
    pub duration: u128,
    pub resolved_tool_name: String,
    pub display_hint: Option<String>,
}

/// What a result says.
pub struct DispatchView {
    pub tool_call_id: Seq<char>,
    pub output: ResultView,
    pub is_error: bool,
    pub duration: nat,
    pub resolved_tool_name: Seq<char>,
    pub display_hint: Option<Seq<char>>,
}

impl View for ToolDispatchResult {
    type V = DispatchView;

    open spec fn view(&self) -> DispatchView {
        DispatchView {
            tool_call_id: self.tool_call_id@,
            output: self.output@,
            is_error: self.is_error,
            duration: self.duration as nat,
            resolved_tool_name: self.resolved_tool_name@,
            display_hint: match self.display_hint {
                Some(h) => Some(h@),
                None => None,
            },
        }
    }
}

impl Clone for ToolDispatchResult {
    fn clone(&self) -> (r: Self)
        ensures
            r@ == self@,
    {
        ToolDispatchResult {
            tool_call_id: String::from_str(self.tool_call_id.as_str()),
            output: self.output.clone(),
            is_error: self.is_error,
            duration: self.duration,
            resolved_tool_name: String::from_str(self.resolved_tool_name.as_str()),
            display_hint: match &self.display_hint {
                Some(h) => Some(String::from_str(h.as_str())),
                None => None,
            },
        }
    }
}

/// What a tool hands back.
#[derive(Debug)]
pub struct ToolOutput {
    pub content: ToolResult,
    pub display_hint: Option<String>,
}

/// The result of a call that a layer answered with a text.
pub open spec fn answered(
    tool_name: Seq<char>,
    message: Seq<char>,
    is_error: bool,
    duration: nat,
) -> DispatchView {
    DispatchView {
        tool_call_id: Seq::empty(),
        output: ResultView::Text(message),
        is_error,
        duration,
        resolved_tool_name: tool_name,
        display_hint: None,
    }
}

/// The result of a call that failed with a message.
pub open spec fn failed(tool_name: Seq<char>, message: Seq<char>, duration: nat) -> DispatchView {
    answered(tool_name, message, true, duration)
}

impl ToolDispatchResult {
    /// The result of a call that failed with a message.
    pub fn err(tool_name: &str, message: String, duration: u128) -> (r: Self)
        ensures
            r@ == failed(tool_name@, message@, duration as nat),
    {
        ToolDispatchResult {
            tool_call_id: String::new(),
            output: ToolResult::Text(message),
            is_error: true,
            duration,
            resolved_tool_name: String::from_str(tool_name),
            display_hint: None,
        }
    }

    /// The result of a call that succeeded with a text.
    pub fn ok(tool_name: &str, message: String, duration: u128) -> (r: Self)
        ensures
            r@ == answered(tool_name@, message@, false, duration as nat),
    {
        ToolDispatchResult {
            tool_call_id: String::new(),
            output: ToolResult::Text(message),
            is_error: false,
            duration,
            resolved_tool_name: String::from_str(tool_name),
            display_hint: None,
        }
    }

    /// The result of a call that returned: what the tool handed back, or the
    /// message that it failed with.
    pub fn from_result(tool_name: &str, result: Result<ToolOutput, String>, duration: u128) -> (r:
        Self)
        ensures
            r@ == match result {
                Ok(out) => DispatchView {
                    output: out.content@,
                    display_hint: match out.display_hint {
                        Some(h) => Some(h@),
                        None => None,
                    },
                    ..answered(tool_name@, Seq::empty(), false, duration as nat)
                },
                Err(e) => failed(tool_name@, e@, duration as nat),
            },
    {
        match result {
            Ok(out) => ToolDispatchResult {
                tool_call_id: String::new(),
                output: out.content,
                is_error: false,
                duration,
                resolved_tool_name: String::from_str(tool_name),
                display_hint: out.display_hint,
            },
            Err(e) => ToolDispatchResult::err(tool_name, e, duration),
        }
    }

    /// The result under the id of its call.
    pub fn with_call_id(self, call_id: &str) -> (r: Self)
        ensures
            r@ == (DispatchView { tool_call_id: call_id@, ..self@ }),
    {
        let mut r = self;
        r.tool_call_id = String::from_str(call_id);
        r
    }
}

/// A call that a layer answered has the layer's text for its output and no id
/// yet; a failure is an error, an answer whatever it is said to be.
pub proof fn an_answer_carries_its_text(
    tool_name: Seq<char>,
    message: Seq<char>,
    is_error: bool,
    duration: nat,
)
    ensures
        ({
            let r = answered(tool_name, message, is_error, duration);
            &&& r.output == ResultView::Text(message)
            &&& r.is_error == is_error
            &&& r.duration == duration
            &&& r.resolved_tool_name == tool_name
            &&& r.tool_call_id.len() == 0
            &&& r.display_hint is None
        }),
        failed(tool_name, message, duration) == answered(tool_name, message, true, duration),
{
}

} // verus!
