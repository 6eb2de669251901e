//! Checks that run after a tool has written.

pub mod builtin;

use vstd::prelude::*;

use crate::message;
use crate::message::{ResultPartView, ResultView, ToolResult, ToolResultPart};
use crate::middleware::dispatch::{DispatchView, ToolContext, ToolDispatchContext, ToolDispatchResult};
use crate::text;

verus! {

/// What a check found.
#[derive(Debug)]
pub struct VerifyResult {
    pub passed: bool,
    pub diagnostics: String,
}

/// What a check found, as a contract sees it.
pub struct FindingView {
    pub passed: bool,
    pub diagnostics: Seq<char>,
}

impl View for VerifyResult {
    type V = FindingView;

    open spec fn view(&self) -> FindingView {
        FindingView { passed: self.passed, diagnostics: self.diagnostics@ }
    }
}

impl Clone for VerifyResult {
    fn clone(&self) -> (r: Self)
        ensures
            r@ == self@,
    {
        VerifyResult {
            passed: self.passed,
            diagnostics: String::from_str(self.diagnostics.as_str()),
        }
    }
}

/// A finding with nothing to say.
pub open spec fn passing() -> FindingView {
    FindingView { passed: true, diagnostics: Seq::empty() }
}

/// A finding that something is wrong.
pub open spec fn failing(diagnostics: Seq<char>) -> FindingView {
    FindingView { passed: false, diagnostics }
}

impl VerifyResult {
    /// A finding with nothing to say.
    pub fn pass() -> (r: Self)
        ensures
            r@ == passing(),
    {
        let diagnostics = String::new();
        assert(diagnostics@ =~= Seq::<char>::empty());
        VerifyResult { passed: true, diagnostics }
    }

    /// A finding that something is wrong.
    pub fn fail(diagnostics: String) -> (r: Self)
        ensures
            r@ == failing(diagnostics@),
    {
        VerifyResult { passed: false, diagnostics }
    }
}

/// A check that runs after a tool has written.
pub trait Verifier {
    /// Checks what a tool left behind.
    fn verify(&self, ctx: &ToolContext, tool_name: &str) -> (r: VerifyResult);

    /// Checks a call by its JSON input. A check that does not look at inputs
    /// leaves this to what it says of any call of the tool.
    fn verify_call(&self, ctx: &ToolContext, tool_name: &str, input: &str) -> (r: VerifyResult)
        default_ensures
            call_ensures(Self::verify, (self, ctx, tool_name), r),
    {
        self.verify(ctx, tool_name)
    }
}

/// A check that always passes.
#[derive(Debug, Clone, Copy)]
pub struct NoopVerifier;

impl Verifier for NoopVerifier {
    fn verify(&self, ctx: &ToolContext, tool_name: &str) -> (r: VerifyResult)
        ensures
            r@ == passing(),
    {
        VerifyResult::pass()
    }

    fn verify_call(&self, ctx: &ToolContext, tool_name: &str, input: &str) -> (r: VerifyResult)
        ensures
            r@ == passing(),
    {
        VerifyResult::pass()
    }
}

/// What a finding adds to a result.
pub open spec fn block(finding: FindingView) -> Seq<char> {
    "[verify] "@ + (if finding.passed {
        "passed"@
    } else {
        "failed"@
    }) + ": "@ + finding.diagnostics
}

/// A result with a finding.
pub open spec fn with_finding(output: ResultView, finding: FindingView) -> ResultView {
    match output {
        ResultView::Text(s) => ResultView::Text(s + ("\n\n"@ + block(finding))),
        ResultView::Multipart(parts) => ResultView::Multipart(
            parts.push(ResultPartView::Text { text: block(finding) }),
        ),
    }
}

fn block_text(finding: &VerifyResult) -> (out: String)
    ensures
        out@ == block(finding@),
{
    let mut out = String::from_str("[verify] ");
    if finding.passed {
        text::push_text(&mut out, "passed");
    } else {
        text::push_text(&mut out, "failed");
    }
    text::push_text(&mut out, ": ");
    text::push_text(&mut out, finding.diagnostics.as_str());
    out
}

/// Adds a finding to a result: to the end of its text, or as a part of its
/// own.
pub fn append_verify_result(output: &mut ToolResult, finding: &VerifyResult)
    ensures
        final(output)@ == with_finding(old(output)@, finding@),
{
    let added = block_text(finding);
    match output {
        ToolResult::Text(s) => {
            let ghost before = s@;
            text::push_text(s, "\n\n");
            text::push_text(s, added.as_str());
            assert(s@ =~= before + ("\n\n"@ + block(finding@)));
        },
        ToolResult::Multipart(parts) => {
            let ghost before = parts@;
            let part = ToolResultPart::Text { text: added };
            parts.push(part);
            assert(message::result_parts(parts@) =~= message::result_parts(before).push(part@));
        },
    }
}

/// Runs a check after the tools that write.
#[derive(Debug)]
pub struct VerifyMiddleware<V> {
    verifier: V,
    write_tools: Vec<String>,
}

/// The tool that a call came to: the one that its result names, or else the
/// one that was asked for.
pub open spec fn came_to(requested: Seq<char>, result: DispatchView) -> Seq<char> {
    if result.resolved_tool_name.len() == 0 {
        requested
    } else {
        result.resolved_tool_name
    }
}

impl<V> VerifyMiddleware<V> {
    /// The tools whose calls are checked.
    pub closed spec fn watched(&self) -> Seq<Seq<char>> {
        text::texts(self.write_tools@)
    }

    /// The check that is run.
    pub closed spec fn check(&self) -> V {
        self.verifier
    }

    /// A layer that runs a check after these tools.
    pub fn new(verifier: V, write_tools: Vec<String>) -> (r: Self)
        ensures
            r.check() == verifier,
            r.watched() == text::texts(write_tools@),
    {
        VerifyMiddleware { verifier, write_tools }
    }

    /// The name of the layer.
    pub fn name(&self) -> (r: &'static str)
        ensures
            r@ == "verify"@,
    {
        "verify"
    }

    /// The tool that a check is to run for, where one is: after a tool that
    /// writes, and that succeeded.
    pub fn to_check(&self, requested: &str, result: &ToolDispatchResult) -> (tool: Option<String>)
        ensures
            match tool {
                Some(t) => {
                    &&& t@ == came_to(requested@, result@)
                    &&& self.watched().contains(t@)
                    &&& !result@.is_error
                },
                None => result@.is_error || !self.watched().contains(came_to(requested@, result@)),
            },
    {
        let tool = if result.resolved_tool_name.as_str().is_empty() {
            String::from_str(requested)
        } else {
            String::from_str(result.resolved_tool_name.as_str())
        };
        if result.is_error || !text::list_contains(&self.write_tools, tool.as_str()) {
            None
        } else {
            Some(tool)
        }
    }

    /// The result with what a check found. A failed check does not make the
    /// call an error.
    pub fn settle(&self, result: ToolDispatchResult, finding: &VerifyResult) -> (out:
        ToolDispatchResult)
        ensures
            out@ == (DispatchView { output: with_finding(result@.output, finding@), ..result@ }),
    {
        let mut out = result;
        append_verify_result(&mut out.output, finding);
        out
    }
}

/// Whether a finding is what a check says of a call.
pub open spec fn is_finding<V: Verifier>(
    verifier: V,
    ctx: ToolDispatchContext,
    tool_name: Seq<char>,
    input: Seq<char>,
    finding: FindingView,
) -> bool {
    exists|name: &str, sent: &str, given: VerifyResult|
        {
            &&& name@ == tool_name
            &&& sent@ == input
            &&& given@ == finding
            &&& #[trigger] call_ensures(
                V::verify_call,
                (&verifier, &ctx.tool_context, name, sent),
                given,
            )
        }
}

impl<V: Verifier> VerifyMiddleware<V> {
    /// What the layer makes of a result, given the input that the call was
    /// sent with.
    pub fn after_dispatch(
        &self,
        ctx: &ToolDispatchContext,
        input: &str,
        result: ToolDispatchResult,
    ) -> (out: ToolDispatchResult)
        ensures
            ({
                let checks = !result@.is_error && self.watched().contains(
                    came_to(ctx@.tool_name, result@),
                );
                &&& !checks ==> out@ == result@
                &&& checks ==> exists|finding: FindingView|
                    {
                        &&& is_finding(
                            self.check(),
                            *ctx,
                            came_to(ctx@.tool_name, result@),
                            input@,
                            finding,
                        )
                        &&& out@ == (DispatchView {
                            output: #[trigger] with_finding(result@.output, finding),
                            ..result@
                        })
                    }
            }),
    {
        match self.to_check(ctx.tool_name.as_str(), &result) {
            Some(tool) => {
                let finding = self.verifier.verify_call(&ctx.tool_context, tool.as_str(), input);
                assert(is_finding(self.check(), *ctx, tool@, input@, finding@));
                self.settle(result, &finding)
            },
            None => result,
        }
    }
}

/// Whatever a check finds, the call stays the success that it was.
pub proof fn a_check_never_fails_a_call(output: ResultView, finding: FindingView)
    ensures
        output is Text <==> with_finding(output, finding) is Text,
        output matches ResultView::Multipart(parts) ==> with_finding(output, finding)
            == ResultView::Multipart(parts.push(ResultPartView::Text { text: block(finding) })),
{
}

/// A finding says whether the check passed and what it found, behind the result
/// that it is of.
pub proof fn a_finding_follows_its_result(output: ResultView, finding: FindingView)
    ensures
        finding.passed ==> block(finding) == "[verify] passed: "@ + finding.diagnostics,
        !finding.passed ==> block(finding) == "[verify] failed: "@ + finding.diagnostics,
        output matches ResultView::Text(s) ==> with_finding(output, finding) == ResultView::Text(
            s + seq!['\n', '\n'] + block(finding),
        ),
        passing().passed && passing().diagnostics.len() == 0,
        !failing(finding.diagnostics).passed,
        failing(finding.diagnostics).diagnostics == finding.diagnostics,
{
    reveal_strlit("[verify] ");
    reveal_strlit("passed");
    reveal_strlit("failed");
    reveal_strlit(": ");
    reveal_strlit("[verify] passed: ");
    reveal_strlit("[verify] failed: ");
    reveal_strlit("\n\n");
    assert("[verify] "@ + "passed"@ + ": "@ =~= "[verify] passed: "@);
    assert("[verify] "@ + "failed"@ + ": "@ =~= "[verify] failed: "@);
    assert("\n\n"@ =~= seq!['\n', '\n']);
    if let ResultView::Text(s) = output {
        assert(s + ("\n\n"@ + block(finding)) =~= s + seq!['\n', '\n'] + block(finding));
    }
}

/// A check is told the tool that the result names, and the one that was asked
/// for only where it names none.
pub proof fn a_result_names_the_tool_that_is_checked(requested: Seq<char>, result: DispatchView)
    ensures
        result.resolved_tool_name.len() > 0 ==> came_to(requested, result)
            == result.resolved_tool_name,
        result.resolved_tool_name.len() == 0 ==> came_to(requested, result) == requested,
{
}

/// A finding is the check's own of the call's context, for the tool and the
/// input that it was given.
pub proof fn a_finding_is_the_check_s_own<V: Verifier>(
    verifier: V,
    ctx: ToolDispatchContext,
    tool_name: Seq<char>,
    input: Seq<char>,
    finding: FindingView,
)
    ensures
        is_finding(verifier, ctx, tool_name, input, finding) <==> exists|
            name: &str,
            sent: &str,
            given: VerifyResult,
        |
            {
                &&& name@ == tool_name
                &&& sent@ == input
                &&& given@ == finding
                &&& #[trigger] call_ensures(
                    V::verify_call,
                    (&verifier, &ctx.tool_context, name, sent),
                    given,
                )
            },
{
}

} // verus!
