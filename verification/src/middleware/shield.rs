//! A shield that judges calls before they run.

use vstd::prelude::*;

use crate::message::{ResultView, ToolResult};
use crate::middleware::dispatch::{CallView, DispatchView, ToolDispatchContext, ToolDispatchResult};
use crate::text;

verus! {

/// How many watched calls are remembered.
pub const RECENT_CALLS: usize = 20;

/// What a shield says is to be done with a call.
#[derive(Debug, Clone, Copy, PartialEq, Eq, Structural)]
pub enum SafetyAction {
    Allow,
    Warn,
    Block,
}

/// What a shield decided.
#[derive(Debug)]
pub struct SafetyDecision {
    pub action: SafetyAction,
    pub reason: Option<String>,
    pub category: Option<String>,
}

/// What a shield is asked about.
#[derive(Debug)]
pub struct ShieldContext {
    pub tool_name: String,
    pub input: String,
    pub turn: usize,
    pub recent_calls: Vec<(String, usize)>,
}

/// A shield.
pub trait ToolSafetyShield {
    /// The tools whose calls it judges.
    fn watched_tools(&self) -> (names: Vec<String>);

    /// Judges a call.
    fn evaluate(&self, ctx: &ShieldContext) -> (decision: SafetyDecision);

    /// Hears of a call that ran.
    fn record_invocation(&self, tool_name: &str, input: &str, success: bool);
}

/// Remembered calls as a contract sees them.
pub open spec fn call_views(calls: Seq<(String, usize)>) -> Seq<(Seq<char>, usize)> {
    calls.map_values(|c: (String, usize)| (c.0@, c.1))
}

/// Lets a shield judge the calls that it watches.
#[derive(Debug)]
pub struct SafetyShieldMiddleware<S> {
    shield: S,
    recent: Vec<(String, usize)>,
}

/// The newest `n` of a list.
pub open spec fn newest<T>(list: Seq<T>, n: nat) -> Seq<T> {
    if list.len() <= n {
        list
    } else {
        list.skip(list.len() - n)
    }
}

/// The remembered calls after one more.
pub open spec fn remembered(recent: Seq<(Seq<char>, usize)>, call: (Seq<char>, usize)) -> Seq<
    (Seq<char>, usize),
> {
    newest(recent.push(call), RECENT_CALLS as nat)
}

/// What is said of a blocked call.
pub open spec fn block_text(reason: Option<Seq<char>>) -> Seq<char> {
    "blocked by safety shield: "@ + match reason {
        Some(r) => r,
        None => "high risk"@,
    }
}

/// The result of a blocked call.
pub open spec fn blocked(call_id: Seq<char>, reason: Option<Seq<char>>) -> DispatchView {
    DispatchView {
        tool_call_id: call_id,
        output: ResultView::Text(block_text(reason)),
        is_error: true,
        duration: 0,
        resolved_tool_name: Seq::empty(),
        display_hint: None,
    }
}

/// The reason of a decision.
pub open spec fn reason_view(decision: SafetyDecision) -> Option<Seq<char>> {
    match decision.reason {
        Some(r) => Some(r@),
        None => None,
    }
}

/// A call that was let through, as it was judged.
#[derive(Debug)]
pub struct JudgedCall {
    pub tool_name: String,
    pub input: String,
    pub turn: usize,
    pub watched: bool,
}

/// The warning that goes with a call that was let through.
#[derive(Debug)]
pub struct ShieldWarning {
    pub reason: String,
    pub category: String,
}

/// What happens to a call before it runs.
#[derive(Debug)]
pub enum ShieldStep {
    /// It runs.
    Proceed { call: JudgedCall, warning: Option<ShieldWarning> },
    /// It does not run; its result.
    Blocked(ToolDispatchResult),
}

/// Whether a step is what a decision on a call comes to.
pub open spec fn is_step(ctx: CallView, decision: Option<SafetyDecision>, step: ShieldStep) -> bool {
    let blocks = decision matches Some(d) && d.action == SafetyAction::Block;
    match step {
        ShieldStep::Blocked(result) => {
            &&& blocks
            &&& result@ == blocked(ctx.call_id, reason_view(decision->0))
        },
        ShieldStep::Proceed { call, warning } => {
            &&& !blocks
            &&& call.tool_name@ == ctx.tool_name
            &&& call.input@ == ctx.input
            &&& call.turn == ctx.turn_number
            &&& call.watched == decision is Some
            &&& warning is Some <==> decision is Some && decision->0.action == SafetyAction::Warn
            &&& warning is Some ==> {
                &&& warning->0.reason@ == match decision->0.reason {
                    Some(r) => r@,
                    None => Seq::<char>::empty(),
                }
                &&& warning->0.category@ == match decision->0.category {
                    Some(c) => c@,
                    None => Seq::<char>::empty(),
                }
            }
        },
    }
}

/// What a decision on a call comes to. A call that is not watched has none,
/// and runs.
pub fn judge(ctx: &ToolDispatchContext, decision: Option<SafetyDecision>) -> (step: ShieldStep)
    ensures
        is_step(ctx@, decision, step),
{
    let watched = decision.is_some();
    let mut warning: Option<ShieldWarning> = None;
    if let Some(d) = decision {
        if d.action == SafetyAction::Block {
            let mut message = String::from_str("blocked by safety shield: ");
            match &d.reason {
                Some(r) => text::push_text(&mut message, r.as_str()),
                None => text::push_text(&mut message, "high risk"),
            }
            return ShieldStep::Blocked(
                ToolDispatchResult {
                    tool_call_id: String::from_str(ctx.call_id.as_str()),
                    output: ToolResult::Text(message),
                    is_error: true,
                    duration: 0,
                    resolved_tool_name: String::new(),
                    display_hint: None,
                },
            );
        }
        if d.action == SafetyAction::Warn {
            warning =
            Some(
                ShieldWarning {
                    reason: match d.reason {
                        Some(r) => r,
                        None => String::new(),
                    },
                    category: match d.category {
                        Some(c) => c,
                        None => String::new(),
                    },
                },
            );
        }
    }
    ShieldStep::Proceed {
        call: JudgedCall {
            tool_name: String::from_str(ctx.tool_name.as_str()),
            input: String::from_str(ctx.input.as_str()),
            turn: ctx.turn_number,
            watched,
        },
        warning,
    }
}

fn copy_calls(calls: &Vec<(String, usize)>, from: usize) -> (out: Vec<(String, usize)>)
    requires
        from <= calls.len(),
    ensures
        call_views(out@) == call_views(calls@).skip(from as int),
{
    let ghost all = call_views(calls@);
    let mut out: Vec<(String, usize)> = Vec::new();
    let mut i: usize = from;
    assert(call_views(out@) =~= all.subrange(from as int, from as int));
    while i < calls.len()
        invariant
            from <= i <= calls.len(),
            all == call_views(calls@),
            call_views(out@) == all.subrange(from as int, i as int),
        decreases calls.len() - i,
    {
        let copy = (String::from_str(calls[i].0.as_str()), calls[i].1);
        assert(call_views(out@.push(copy)) =~= call_views(out@).push((copy.0@, copy.1)));
        assert(all.subrange(from as int, i + 1) =~= all.subrange(from as int, i as int).push(
            all[i as int],
        ));
        out.push(copy);
        i = i + 1;
    }
    assert(all.subrange(from as int, i as int) =~= all.skip(from as int));
    out
}

impl<S> SafetyShieldMiddleware<S> {
    /// The calls that are remembered, oldest first.
    pub closed spec fn recent_view(&self) -> Seq<(Seq<char>, usize)> {
        call_views(self.recent@)
    }

    /// The shield.
    pub closed spec fn shield_view(&self) -> S {
        self.shield
    }

    /// A layer with this shield and nothing to remember.
    pub fn new(shield: S) -> (r: Self)
        ensures
            r.recent_view() == Seq::<(Seq<char>, usize)>::empty(),
            r.shield_view() == shield,
    {
        let r = SafetyShieldMiddleware { shield, recent: Vec::new() };
        assert(call_views(r.recent@) =~= Seq::<(Seq<char>, usize)>::empty());
        r
    }

    /// The name of the layer.
    pub fn name(&self) -> (r: &'static str)
        ensures
            r@ == "safety_shield"@,
    {
        "safety_shield"
    }

    /// The remembered calls, oldest first.
    pub fn recent_calls(&self) -> (out: Vec<(String, usize)>)
        ensures
            call_views(out@) == self.recent_view(),
    {
        let out = copy_calls(&self.recent, 0);
        assert(call_views(self.recent@).skip(0) =~= call_views(self.recent@));
        out
    }

    /// What the shield is asked about a call.
    pub fn shield_ctx(&self, ctx: &ToolDispatchContext) -> (r: ShieldContext)
        ensures
            is_question(r, ctx@, self.recent_view()),
    {
        ShieldContext {
            tool_name: String::from_str(ctx.tool_name.as_str()),
            input: String::from_str(ctx.input.as_str()),
            turn: ctx.turn_number,
            recent_calls: self.recent_calls(),
        }
    }

    /// What the shield is to be asked about a call, given the tools that it
    /// watches; nothing where it does not watch this one.
    pub fn question(&self, watched: &Vec<String>, ctx: &ToolDispatchContext) -> (q: Option<
        ShieldContext,
    >)
        ensures
            q is Some <==> text::texts(watched@).contains(ctx@.tool_name),
            q matches Some(r) ==> is_question(r, ctx@, self.recent_view()),
    {
        if text::list_contains(watched, ctx.tool_name.as_str()) {
            Some(self.shield_ctx(ctx))
        } else {
            None
        }
    }

    /// Remembers a call that ran, where it was watched.
    pub fn remember(&mut self, call: &JudgedCall)
        ensures
            final(self).recent_view() == if call.watched {
                remembered(old(self).recent_view(), (call.tool_name@, call.turn))
            } else {
                old(self).recent_view()
            },
            final(self).shield_view() == old(self).shield_view(),
    {
        if call.watched {
            let ghost before = self.recent@;
            let entry = (String::from_str(call.tool_name.as_str()), call.turn);
            self.recent.push(entry);
            assert(call_views(self.recent@) =~= call_views(before).push((entry.0@, entry.1)));
            if self.recent.len() > RECENT_CALLS {
                let from: usize = self.recent.len() - RECENT_CALLS;
                self.recent = copy_calls(&self.recent, from);
            }
        }
    }
}

/// Whether a question is the one that a call raises.
pub open spec fn is_question(q: ShieldContext, ctx: CallView, recent: Seq<(Seq<char>, usize)>) -> bool {
    &&& q.tool_name@ == ctx.tool_name
    &&& q.input@ == ctx.input
    &&& q.turn == ctx.turn_number
    &&& call_views(q.recent_calls@) == recent
}

/// Whether a decision is what a shield says of a call: nothing where it does
/// not watch the tool.
pub open spec fn is_decision<S: ToolSafetyShield>(
    shield: S,
    ctx: CallView,
    recent: Seq<(Seq<char>, usize)>,
    decision: Option<SafetyDecision>,
) -> bool {
    exists|names: Vec<String>|
        {
            &&& #[trigger] call_ensures(S::watched_tools, (&shield,), names)
            &&& decision is Some <==> text::texts(names@).contains(ctx.tool_name)
            &&& decision matches Some(d) ==> exists|q: ShieldContext|
                is_question(q, ctx, recent) && #[trigger] call_ensures(
                    S::evaluate,
                    (&shield, &q),
                    d,
                )
        }
}

/// Whether a shield has heard of a call that ran.
pub open spec fn has_heard<S: ToolSafetyShield>(
    shield: S,
    tool_name: Seq<char>,
    input: Seq<char>,
    success: bool,
) -> bool {
    exists|name: &str, sent: &str|
        {
            &&& name@ == tool_name
            &&& sent@ == input
            &&& #[trigger] call_ensures(S::record_invocation, (&shield, name, sent, success), ())
        }
}

impl<S: ToolSafetyShield> SafetyShieldMiddleware<S> {
    /// Judges a call before it runs. A shield that watches nothing is not
    /// asked, and neither is one that does not watch this tool.
    pub fn before_dispatch(&self, ctx: &ToolDispatchContext) -> (step: ShieldStep)
        ensures
            exists|decision: Option<SafetyDecision>|
                {
                    &&& is_decision(self.shield_view(), ctx@, self.recent_view(), decision)
                    &&& #[trigger] is_step(ctx@, decision, step)
                },
    {
        let names = self.shield.watched_tools();
        let decision = match self.question(&names, ctx) {
            Some(q) => Some(self.shield.evaluate(&q)),
            None => None,
        };
        assert(is_decision(self.shield_view(), ctx@, self.recent_view(), decision));
        judge(ctx, decision)
    }

    /// Takes note of a call that ran: it is remembered, and the shield hears
    /// of it, where it was watched.
    pub fn after_dispatch(&mut self, call: &JudgedCall, is_error: bool)
        ensures
            final(self).recent_view() == if call.watched {
                remembered(old(self).recent_view(), (call.tool_name@, call.turn))
            } else {
                old(self).recent_view()
            },
            final(self).shield_view() == old(self).shield_view(),
            call.watched ==> has_heard(
                old(self).shield_view(),
                call.tool_name@,
                call.input@,
                !is_error,
            ),
    {
        self.remember(call);
        if call.watched {
            let name = call.tool_name.as_str();
            let input = call.input.as_str();
            self.shield.record_invocation(name, input, !is_error);
            assert(has_heard(self.shield, name@, input@, !is_error));
        }
    }
}

/// No more calls are remembered than fit, the last one is, and the others are
/// the newest before it.
pub proof fn the_newest_calls_are_remembered(
    recent: Seq<(Seq<char>, usize)>,
    call: (Seq<char>, usize),
)
    requires
        recent.len() <= RECENT_CALLS,
    ensures
        remembered(recent, call).len() <= RECENT_CALLS,
        remembered(recent, call).last() == call,
        remembered(recent, call).drop_last() == newest(recent, (RECENT_CALLS - 1) as nat),
{
    assert(remembered(recent, call).drop_last() =~= newest(recent, (RECENT_CALLS - 1) as nat));
}

/// A blocked call does not run: its result is an error that carries the reason.
pub proof fn a_blocked_call_is_an_error(ctx: CallView, decision: SafetyDecision, step: ShieldStep)
    requires
        is_step(ctx, Some(decision), step),
    ensures
        step is Blocked <==> decision.action == SafetyAction::Block,
        step is Blocked ==> step->Blocked_0@ == blocked(ctx.call_id, reason_view(decision)),
{
}

/// However many calls were made, the last twenty are remembered, in order.
pub proof fn the_last_twenty_calls_are_remembered(
    recent: Seq<(Seq<char>, usize)>,
    call: (Seq<char>, usize),
    i: int,
)
    requires
        0 <= i < remembered(recent, call).len(),
    ensures
        recent.len() < 20 ==> remembered(recent, call) == recent.push(call),
        recent.len() >= 20 ==> remembered(recent, call).len() == 20,
        remembered(recent, call)[i] == recent.push(call)[recent.len() + 1 - remembered(
            recent,
            call,
        ).len() + i],
{
}

/// A blocked call is answered at once, under its own id, with the reason of the
/// block or, where there is none, with the risk.
pub proof fn a_block_tells_its_reason(call_id: Seq<char>, reason: Seq<char>)
    ensures
        blocked(call_id, Some(reason)).output == ResultView::Text(
            "blocked by safety shield: "@ + reason,
        ),
        blocked(call_id, None).output == ResultView::Text("blocked by safety shield: high risk"@),
        blocked(call_id, Some(reason)).tool_call_id == call_id,
        blocked(call_id, None).tool_call_id == call_id,
        blocked(call_id, Some(reason)).is_error && blocked(call_id, None).is_error,
        blocked(call_id, Some(reason)).duration == 0 && blocked(call_id, None).duration == 0,
{
    reveal_strlit("blocked by safety shield: ");
    reveal_strlit("high risk");
    reveal_strlit("blocked by safety shield: high risk");
    assert("blocked by safety shield: "@ + "high risk"@
        =~= "blocked by safety shield: high risk"@);
}

/// A call that is not blocked goes on as it came. It carries a warning where
/// the shield warns, with the shield's own words, and is reported afterwards
/// where the shield watches it.
pub proof fn a_call_goes_on_as_it_came(
    ctx: CallView,
    decision: Option<SafetyDecision>,
    call: JudgedCall,
    warning: Option<ShieldWarning>,
)
    requires
        is_step(ctx, decision, ShieldStep::Proceed { call, warning }),
    ensures
        decision matches Some(d) ==> d.action != SafetyAction::Block,
        call.tool_name@ == ctx.tool_name,
        call.input@ == ctx.input,
        call.turn == ctx.turn_number,
        call.watched <==> decision is Some,
        warning is Some <==> (decision matches Some(d) && d.action == SafetyAction::Warn),
        warning matches Some(w) ==> (decision matches Some(d) && (d.reason matches Some(r)
            ==> w.reason@ == r@) && (d.reason is None ==> w.reason@.len() == 0) && (
        d.category matches Some(c) ==> w.category@ == c@) && (d.category is None
            ==> w.category@.len() == 0)),
{
}

/// A shield is asked about a call with the call's own tool, input and turn and
/// with the calls that are remembered.
pub proof fn a_shield_is_asked_about_the_call<S: ToolSafetyShield>(
    shield: S,
    ctx: CallView,
    recent: Seq<(Seq<char>, usize)>,
    decision: Option<SafetyDecision>,
) -> (asked: (Seq<Seq<char>>, ShieldContext))
    requires
        is_decision(shield, ctx, recent, decision),
    ensures
        decision is Some <==> asked.0.contains(ctx.tool_name),
        exists|names: Vec<String>|
            text::texts(names@) == asked.0 && #[trigger] call_ensures(
                S::watched_tools,
                (&shield,),
                names,
            ),
        decision matches Some(d) ==> {
            &&& asked.1.tool_name@ == ctx.tool_name
            &&& asked.1.input@ == ctx.input
            &&& asked.1.turn == ctx.turn_number
            &&& call_views(asked.1.recent_calls@) == recent
            &&& call_ensures(S::evaluate, (&shield, &asked.1), d)
        },
{
    let names = choose|names: Vec<String>|
        {
            &&& #[trigger] call_ensures(S::watched_tools, (&shield,), names)
            &&& decision is Some <==> text::texts(names@).contains(ctx.tool_name)
            &&& decision matches Some(d) ==> exists|q: ShieldContext|
                is_question(q, ctx, recent) && #[trigger] call_ensures(
                    S::evaluate,
                    (&shield, &q),
                    d,
                )
        };
    let q = choose|q: ShieldContext|
        is_question(q, ctx, recent) && #[trigger] call_ensures(
            S::evaluate,
            (&shield, &q),
            decision->0,
        );
    (text::texts(names@), q)
}

/// A shield hears of a call that ran with its tool, its input and whether it
/// succeeded.
pub proof fn a_shield_hears_how_the_call_went<S: ToolSafetyShield>(
    shield: S,
    tool_name: Seq<char>,
    input: Seq<char>,
    success: bool,
)
    ensures
        has_heard(shield, tool_name, input, success) <==> exists|name: &str, sent: &str|
            {
                &&& name@ == tool_name
                &&& sent@ == input
                &&& #[trigger] call_ensures(
                    S::record_invocation,
                    (&shield, name, sent, success),
                    (),
                )
            },
{
}

} // verus!
