//! Permissions that are checked before a call runs.

use vstd::prelude::*;

use crate::message::ResultView;
use crate::middleware::dispatch;
use crate::middleware::dispatch::{
    CallView, DispatchView, PermissionCheck, PermissionView, ToolDispatchContext,
    ToolDispatchResult,
};
use crate::text;

verus! {

/// A host's own rule.
pub trait PermissionPolicy {
    /// Whether a call may go on.
    fn check(&self, ctx: &ToolDispatchContext) -> (r: PermissionCheck);
}

/// No rule of a host.
#[derive(Debug, Clone, Copy)]
pub struct NoPolicy;

impl PermissionPolicy for NoPolicy {
    fn check(&self, ctx: &ToolDispatchContext) -> (r: PermissionCheck)
        ensures
            r@ == ctx@.permission,
    {
        ctx.permission.clone()
    }
}

/// Where a permission comes from.
#[derive(Debug)]
pub enum PermissionSource<P> {
    /// It is the same for every call.
    Fixed(PermissionCheck),
    /// A rule of the host gives it.
    Policy(P),
    /// The call carries it.
    Context,
}

/// Checks whether a call may go on.
#[derive(Debug)]
pub struct PermissionMiddleware<P> {
    pub source: PermissionSource<P>,
    /// Whether the host can ask the user.
    pub can_ask: bool,
}

/// What happens to a call.
#[derive(Debug)]
pub enum PermissionStep {
    /// It goes on inward.
    Proceed,
    /// The user is to be asked this.
    Ask(String),
    /// It does not run; its result.
    Denied(ToolDispatchResult),
}

/// What happens to a call, as a contract sees it.
pub enum StepView {
    Proceed,
    Ask(Seq<char>),
    Denied(DispatchView),
}

impl View for PermissionStep {
    type V = StepView;

    open spec fn view(&self) -> StepView {
        match self {
            PermissionStep::Proceed => StepView::Proceed,
            PermissionStep::Ask(prompt) => StepView::Ask(prompt@),
            PermissionStep::Denied(result) => StepView::Denied(result@),
        }
    }
}

/// What the user answered.
#[derive(Debug, Clone, Copy, PartialEq, Eq, Structural)]
pub enum AskOutcome {
    /// The call may go on, or may not; and whether it was cancelled by then.
    Answered { approved: bool, cancelled: bool },
    /// It was cancelled first.
    Cancelled,
}

/// What is said of a call that was cancelled while the user was asked.
pub const CANCELLED: &'static str = "cancelled while awaiting approval";

/// The result of a call that may not go on.
pub open spec fn denied(tool_name: Seq<char>, reason: Seq<char>) -> DispatchView {
    dispatch::failed(
        tool_name,
        "Permission "@ + reason + " for tool '"@ + tool_name + "'"@,
        0,
    )
}

/// What a permission comes to.
pub open spec fn decision(
    tool_name: Seq<char>,
    permission: PermissionView,
    can_ask: bool,
) -> StepView {
    match permission {
        PermissionView::Allow => StepView::Proceed,
        PermissionView::Modify { .. } => StepView::Proceed,
        PermissionView::Deny { reason } => StepView::Denied(denied(tool_name, reason)),
        PermissionView::Ask { prompt } => if can_ask {
            StepView::Ask(prompt)
        } else {
            StepView::Denied(denied(tool_name, "permission required: "@ + prompt))
        },
    }
}

/// The input that a call goes on with.
pub open spec fn input_after(permission: PermissionView, input: Seq<char>) -> Seq<char> {
    match permission {
        PermissionView::Modify { modified_input } => modified_input,
        _ => input,
    }
}

/// What the user's answer comes to.
pub open spec fn answer(tool_name: Seq<char>, outcome: AskOutcome) -> StepView {
    match outcome {
        AskOutcome::Answered { approved: true, cancelled: false } => StepView::Proceed,
        AskOutcome::Answered { approved: false, .. } => StepView::Denied(
            denied(tool_name, "denied by user"@),
        ),
        _ => StepView::Denied(denied(tool_name, CANCELLED@)),
    }
}

/// The result of a call that may not go on.
pub fn deny(tool_name: &str, reason: &str) -> (r: ToolDispatchResult)
    ensures
        r@ == denied(tool_name@, reason@),
{
    let mut message = String::from_str("Permission ");
    text::push_text(&mut message, reason);
    text::push_text(&mut message, " for tool '");
    text::push_text(&mut message, tool_name);
    text::push_text(&mut message, "'");
    ToolDispatchResult::err(tool_name, message, 0)
}

/// What a permission comes to; a changed input takes the place of the call's.
pub fn decide(ctx: &mut ToolDispatchContext, permission: PermissionCheck, can_ask: bool) -> (step:
    PermissionStep)
    ensures
        step@ == decision(old(ctx)@.tool_name, permission@, can_ask),
        final(ctx)@ == (CallView {
            input: input_after(permission@, old(ctx)@.input),
            ..old(ctx)@
        }),
{
    match permission {
        PermissionCheck::Allow => PermissionStep::Proceed,
        PermissionCheck::Modify { modified_input } => {
            ctx.input = modified_input;
            PermissionStep::Proceed
        },
        PermissionCheck::Deny { reason } => PermissionStep::Denied(
            deny(ctx.tool_name.as_str(), reason.as_str()),
        ),
        PermissionCheck::Ask { prompt } => {
            if can_ask {
                PermissionStep::Ask(prompt)
            } else {
                let mut reason = String::from_str("permission required: ");
                text::push_text(&mut reason, prompt.as_str());
                PermissionStep::Denied(deny(ctx.tool_name.as_str(), reason.as_str()))
            }
        },
    }
}

/// What the user's answer comes to. A cancelled call does not run, whatever
/// the answer.
pub fn after_ask(tool_name: &str, outcome: AskOutcome) -> (step: PermissionStep)
    ensures
        step@ == answer(tool_name@, outcome),
{
    match outcome {
        AskOutcome::Answered { approved, cancelled } => {
            if !approved {
                PermissionStep::Denied(deny(tool_name, "denied by user"))
            } else if cancelled {
                PermissionStep::Denied(deny(tool_name, CANCELLED))
            } else {
                PermissionStep::Proceed
            }
        },
        AskOutcome::Cancelled => PermissionStep::Denied(deny(tool_name, CANCELLED)),
    }
}

impl PermissionMiddleware<NoPolicy> {
    /// A layer that lets no call through.
    pub fn deny_all() -> (r: Self)
        ensures
            r.source matches PermissionSource::Fixed(p) && p@ == (PermissionView::Deny {
                reason: "blocked by policy"@,
            }),
            !r.can_ask,
    {
        PermissionMiddleware {
            source: PermissionSource::Fixed(
                PermissionCheck::Deny { reason: String::from_str("blocked by policy") },
            ),
            can_ask: false,
        }
    }

    /// A layer that lets every call through.
    pub fn allow_all() -> (r: Self)
        ensures
            r.source matches PermissionSource::Fixed(p) && p@ == PermissionView::Allow,
            !r.can_ask,
    {
        PermissionMiddleware {
            source: PermissionSource::Fixed(PermissionCheck::Allow),
            can_ask: false,
        }
    }

    /// A layer that goes by what each call carries.
    pub fn from_context() -> (r: Self)
        ensures
            r.source is Context,
            !r.can_ask,
    {
        PermissionMiddleware { source: PermissionSource::Context, can_ask: false }
    }
}

impl<P> PermissionMiddleware<P> {
    /// The layer with a rule of the host in place of its own.
    pub fn with_check<Q>(self, policy: Q) -> (r: PermissionMiddleware<Q>)
        ensures
            r.source == PermissionSource::Policy(policy),
            r.can_ask == self.can_ask,
    {
        PermissionMiddleware { source: PermissionSource::Policy(policy), can_ask: self.can_ask }
    }

    /// The layer of a host that can ask the user.
    pub fn with_ask_resolver(self) -> (r: Self)
        ensures
            r.source == self.source,
            r.can_ask,
    {
        let mut r = self;
        r.can_ask = true;
        r
    }

    /// The name of the layer.
    pub fn name(&self) -> (r: &'static str)
        ensures
            r@ == "permission"@,
    {
        "permission"
    }
}

/// Whether a permission is the one that a source gives to a call.
pub open spec fn gives<P: PermissionPolicy>(
    source: PermissionSource<P>,
    ctx: ToolDispatchContext,
    permission: PermissionView,
) -> bool {
    match source {
        PermissionSource::Fixed(p) => permission == p@,
        PermissionSource::Policy(policy) => exists|given: PermissionCheck|
            given@ == permission && #[trigger] call_ensures(P::check, (&policy, &ctx), given),
        PermissionSource::Context => permission == ctx@.permission,
    }
}

impl<P: PermissionPolicy> PermissionMiddleware<P> {
    /// The permission of a call.
    pub fn resolve_permission(&self, ctx: &ToolDispatchContext) -> (r: PermissionCheck)
        ensures
            gives(self.source, *ctx, r@),
    {
        match &self.source {
            PermissionSource::Fixed(p) => p.clone(),
            PermissionSource::Policy(policy) => policy.check(ctx),
            PermissionSource::Context => ctx.permission.clone(),
        }
    }

    /// What happens to a call before it runs.
    pub fn before_dispatch(&self, ctx: &mut ToolDispatchContext) -> (step: PermissionStep)
        ensures
            exists|permission: PermissionView|
                {
                    &&& #[trigger] gives(self.source, *old(ctx), permission)
                    &&& step@ == decision(old(ctx)@.tool_name, permission, self.can_ask)
                    &&& final(ctx)@ == (CallView {
                        input: input_after(permission, old(ctx)@.input),
                        ..old(ctx)@
                    })
                },
    {
        let permission = self.resolve_permission(ctx);
        let ghost given = permission@;
        let step = decide(ctx, permission, self.can_ask);
        assert(gives(self.source, *old(ctx), given));
        step
    }
}

/// A cancelled call does not run, however the user answers.
pub proof fn a_cancelled_call_never_runs(tool_name: Seq<char>, outcome: AskOutcome)
    requires
        outcome matches AskOutcome::Answered { cancelled, .. } ==> cancelled,
    ensures
        answer(tool_name, outcome) is Denied,
{
}

/// Without someone to ask, a question is a denial that carries the prompt; no
/// call waits for an answer.
pub proof fn without_a_resolver_nothing_is_asked(tool_name: Seq<char>, permission: PermissionView)
    ensures
        !(decision(tool_name, permission, false) is Ask),
        permission matches PermissionView::Ask { prompt } ==> decision(
            tool_name,
            permission,
            false,
        ) == StepView::Denied(denied(tool_name, "permission required: "@ + prompt)),
{
}

/// A call that is allowed goes on with its own input, one that is modified with
/// the other, and one that is denied, by the policy or by the user, ends with
/// the reason. Only an approval that comes without a cancellation lets a call
/// go on.
pub proof fn a_call_goes_on_only_with_permission(
    tool_name: Seq<char>,
    permission: PermissionView,
    can_ask: bool,
    input: Seq<char>,
    outcome: AskOutcome,
)
    ensures
        decision(tool_name, permission, can_ask) is Proceed <==> permission is Allow
            || permission is Modify,
        permission matches PermissionView::Deny { reason } ==> decision(
            tool_name,
            permission,
            can_ask,
        ) == StepView::Denied(denied(tool_name, reason)),
        permission matches PermissionView::Ask { prompt } ==> decision(tool_name, permission, true)
            == StepView::Ask(prompt),
        permission matches PermissionView::Modify { modified_input } ==> input_after(
            permission,
            input,
        ) == modified_input,
        !(permission is Modify) ==> input_after(permission, input) == input,
        answer(tool_name, outcome) is Proceed <==> outcome == (AskOutcome::Answered {
            approved: true,
            cancelled: false,
        }),
        outcome matches AskOutcome::Answered { approved: false, .. } ==> answer(tool_name, outcome)
            == StepView::Denied(denied(tool_name, "denied by user"@)),
        !(outcome matches AskOutcome::Answered { approved: false, .. }) && !(answer(
            tool_name,
            outcome,
        ) is Proceed) ==> answer(tool_name, outcome) == StepView::Denied(
            denied(tool_name, "cancelled while awaiting approval"@),
        ),
{
}

/// A denial is an error of the tool that tells the reason, at once.
pub proof fn a_denial_tells_its_reason(tool_name: Seq<char>, reason: Seq<char>)
    ensures
        denied(tool_name, reason).is_error,
        denied(tool_name, reason).duration == 0,
        denied(tool_name, reason).resolved_tool_name == tool_name,
        denied(tool_name, reason).output == ResultView::Text(
            "Permission "@ + reason + " for tool '"@ + tool_name + "'"@,
        ),
        denied(tool_name, reason).display_hint is None,
{
}

/// A fixed permission is given to every call, a policy's is the one that it
/// gives to this call, and else the call has the one that it carries.
pub proof fn a_permission_comes_from_its_source<P: PermissionPolicy>(
    policy: P,
    fixed: PermissionCheck,
    ctx: ToolDispatchContext,
    permission: PermissionView,
)
    ensures
        gives(PermissionSource::<P>::Fixed(fixed), ctx, permission) <==> permission == fixed@,
        gives(PermissionSource::<P>::Context, ctx, permission) <==> permission == ctx@.permission,
        gives(PermissionSource::Policy(policy), ctx, permission) <==> exists|given: PermissionCheck|
            given@ == permission && #[trigger] call_ensures(P::check, (&policy, &ctx), given),
{
}

} // verus!
