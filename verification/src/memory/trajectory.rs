//! Agent runs captured as records.
//!
//! A [`TrajectoryObserver`] listens to the events of a run and assembles them
//! into one [`TrajectoryRecord`]: every turn's query and response, every tool
//! call paired by its id, durations and token sums.

use vstd::prelude::*;

use crate::ids;
use crate::memory::calendar;
use crate::text;

verus! {

/// The default bound on the response text captured per turn, in characters.
pub const DEFAULT_CAPTURE_LIMIT: usize = 2_000;

/// How a run ended.
#[derive(Debug, Clone, Copy, PartialEq, Eq, Structural)]
pub enum TrajectoryOutcome {
    /// The run reported success.
    Success,
    /// The run reported failure and no tool call succeeded.
    Failure,
    /// The run reported failure, but a tool call succeeded.
    Partial,
}

/// Token totals of a run. A detail that the provider did not report is absent,
/// never zero.
#[derive(Debug, Clone, Copy, PartialEq, Eq)]
pub struct TokenSummary {
    pub input_tokens: u64,
    pub output_tokens: u64,
    pub cached_input_tokens: Option<u64>,
    pub cache_write_tokens: Option<u64>,
    pub reasoning_tokens: Option<u64>,
}

impl Default for TokenSummary {
    /// No tokens, and nothing reported beyond that.
    fn default() -> (r: Self)
        ensures
            r == (TokenSummary {
                input_tokens: 0,
                output_tokens: 0,
                cached_input_tokens: None,
                cache_write_tokens: None,
                reasoning_tokens: None,
            }),
    {
        TokenSummary {
            input_tokens: 0,
            output_tokens: 0,
            cached_input_tokens: None,
            cache_write_tokens: None,
            reasoning_tokens: None,
        }
    }
}

/// One tool call of a turn.
#[derive(Debug)]
pub struct TrajectoryToolCall {
    pub tool_call_id: String,
    pub tool: String,
    pub ok: bool,
    pub duration_ms: u64,
}

/// One turn of a run.
#[derive(Debug)]
pub struct TrajectoryTurn {
    pub turn: usize,
    pub query: String,
    pub response_text: String,
    pub tool_calls: Vec<TrajectoryToolCall>,
    pub duration_ms: u64,
    pub input_tokens: u64,
    pub output_tokens: u64,
}

/// One run.
#[derive(Debug)]
pub struct TrajectoryRecord {
    pub session_id: String,
    pub run_id: String,
    pub outcome: TrajectoryOutcome,
    pub started_at: String,
    pub duration_ms: u64,
    pub total_turns: usize,
    pub token_summary: TokenSummary,
    pub turns: Vec<TrajectoryTurn>,
}

/// What a tool call holds.
pub struct CallView {
    pub tool_call_id: Seq<char>,
    pub tool: Seq<char>,
    pub ok: bool,
    pub duration_ms: u64,
}

/// What a turn holds.
pub struct TurnView {
    pub turn: usize,
    pub query: Seq<char>,
    pub response_text: Seq<char>,
    pub tool_calls: Seq<CallView>,
    pub duration_ms: u64,
    pub input_tokens: u64,
    pub output_tokens: u64,
}

/// What a record holds.
pub struct RecordView {
    pub session_id: Seq<char>,
    pub run_id: Seq<char>,
    pub outcome: TrajectoryOutcome,
    pub started_at: Seq<char>,
    pub duration_ms: u64,
    pub total_turns: usize,
    pub token_summary: TokenSummary,
    pub turns: Seq<TurnView>,
}

impl View for TrajectoryToolCall {
    type V = CallView;

    open spec fn view(&self) -> CallView {
        CallView {
            tool_call_id: self.tool_call_id@,
            tool: self.tool@,
            ok: self.ok,
            duration_ms: self.duration_ms,
        }
    }
}

/// What a list of calls holds.
pub open spec fn call_views(calls: Seq<TrajectoryToolCall>) -> Seq<CallView> {
    calls.map_values(|c: TrajectoryToolCall| c@)
}

impl View for TrajectoryTurn {
    type V = TurnView;

    open spec fn view(&self) -> TurnView {
        TurnView {
            turn: self.turn,
            query: self.query@,
            response_text: self.response_text@,
            tool_calls: call_views(self.tool_calls@),
            duration_ms: self.duration_ms,
            input_tokens: self.input_tokens,
            output_tokens: self.output_tokens,
        }
    }
}

/// What a list of turns holds.
pub open spec fn turn_views(turns: Seq<TrajectoryTurn>) -> Seq<TurnView> {
    turns.map_values(|t: TrajectoryTurn| t@)
}

impl View for TrajectoryRecord {
    type V = RecordView;

    open spec fn view(&self) -> RecordView {
        RecordView {
            session_id: self.session_id@,
            run_id: self.run_id@,
            outcome: self.outcome,
            started_at: self.started_at@,
            duration_ms: self.duration_ms,
            total_turns: self.total_turns,
            token_summary: self.token_summary,
            turns: turn_views(self.turns@),
        }
    }
}

/// What a list of records holds.
pub open spec fn record_views(records: Seq<TrajectoryRecord>) -> Seq<RecordView> {
    records.map_values(|r: TrajectoryRecord| r@)
}

impl Clone for TrajectoryToolCall {
    fn clone(&self) -> (r: Self)
        ensures
            r@ == self@,
    {
        TrajectoryToolCall {
            tool_call_id: self.tool_call_id.clone(),
            tool: self.tool.clone(),
            ok: self.ok,
            duration_ms: self.duration_ms,
        }
    }
}

fn copy_calls(calls: &Vec<TrajectoryToolCall>) -> (out: Vec<TrajectoryToolCall>)
    ensures
        call_views(out@) == call_views(calls@),
{
    let mut out: Vec<TrajectoryToolCall> = Vec::new();
    let mut i: usize = 0;
    while i < calls.len()
        invariant
            i <= calls.len(),
            out.len() == i,
            forall|k: int| 0 <= k < i ==> (#[trigger] out@[k])@ == calls@[k]@,
        decreases calls.len() - i,
    {
        out.push(calls[i].clone());
        i = i + 1;
    }
    assert(call_views(out@) =~= call_views(calls@));
    out
}

impl Clone for TrajectoryTurn {
    fn clone(&self) -> (r: Self)
        ensures
            r@ == self@,
    {
        TrajectoryTurn {
            turn: self.turn,
            query: self.query.clone(),
            response_text: self.response_text.clone(),
            tool_calls: copy_calls(&self.tool_calls),
            duration_ms: self.duration_ms,
            input_tokens: self.input_tokens,
            output_tokens: self.output_tokens,
        }
    }
}

impl Clone for TrajectoryRecord {
    fn clone(&self) -> (r: Self)
        ensures
            r@ == self@,
    {
        let mut turns: Vec<TrajectoryTurn> = Vec::new();
        let mut i: usize = 0;
        while i < self.turns.len()
            invariant
                i <= self.turns.len(),
                turns.len() == i,
                forall|k: int| 0 <= k < i ==> (#[trigger] turns@[k])@ == self.turns@[k]@,
            decreases self.turns.len() - i,
        {
            turns.push(self.turns[i].clone());
            i = i + 1;
        }
        assert(turn_views(turns@) =~= turn_views(self.turns@));
        TrajectoryRecord {
            session_id: self.session_id.clone(),
            run_id: self.run_id.clone(),
            outcome: self.outcome,
            started_at: self.started_at.clone(),
            duration_ms: self.duration_ms,
            total_turns: self.total_turns,
            token_summary: self.token_summary,
            turns,
        }
    }
}

/// The stable name of an outcome.
pub open spec fn outcome_name(outcome: TrajectoryOutcome) -> Seq<char> {
    match outcome {
        TrajectoryOutcome::Success => "success"@,
        TrajectoryOutcome::Failure => "failure"@,
        TrajectoryOutcome::Partial => "partial"@,
    }
}

/// The stable name of an outcome.
pub fn outcome_label(outcome: &TrajectoryOutcome) -> (label: &'static str)
    ensures
        label@ == outcome_name(*outcome),
{
    match outcome {
        TrajectoryOutcome::Success => "success",
        TrajectoryOutcome::Failure => "failure",
        TrajectoryOutcome::Partial => "partial",
    }
}

/// At most `limit` characters of a text.
pub open spec fn first_chars(text: Seq<char>, limit: nat) -> Seq<char> {
    if text.len() <= limit {
        text
    } else {
        text.take(limit as int)
    }
}

/// Cuts a text to `limit` characters.
pub fn truncate_chars(text: &str, limit: usize) -> (out: String)
    ensures
        out@ == first_chars(text@, limit as nat),
{
    let chars = text::chars_of(text);
    if chars.len() <= limit {
        text::string_of(&chars)
    } else {
        let out = text::slice_text(&chars, 0, limit);
        assert(out@ =~= text@.take(limit as int));
        out
    }
}

/// The milliseconds of a span in nanoseconds, held at the largest `u64`.
pub open spec fn whole_millis(nanos: u128) -> u64 {
    if nanos / 1_000_000 <= u64::MAX {
        (nanos / 1_000_000) as u64
    } else {
        u64::MAX
    }
}

/// The milliseconds of a span in nanoseconds, held at the largest `u64`.
pub fn millis(nanos: u128) -> (ms: u64)
    ensures
        ms == whole_millis(nanos),
{
    let ms: u128 = nanos / 1_000_000;
    if ms <= u64::MAX as u128 {
        ms as u64
    } else {
        u64::MAX
    }
}

// ---------------------------------------------------------------------------
// The run being assembled
// ---------------------------------------------------------------------------

/// A tool dispatch that awaits its result.
#[derive(Debug)]
pub struct OpenCall {
    pub tool_call_id: String,
    pub tool: String,
    pub turn: usize,
    /// The dispatch on a monotonic clock, in nanoseconds.
    pub started: u128,
}

/// What an open call holds.
pub struct OpenView {
    pub tool_call_id: Seq<char>,
    pub tool: Seq<char>,
    pub turn: usize,
    pub started: u128,
}

impl View for OpenCall {
    type V = OpenView;

    open spec fn view(&self) -> OpenView {
        OpenView {
            tool_call_id: self.tool_call_id@,
            tool: self.tool@,
            turn: self.turn,
            started: self.started,
        }
    }
}

/// What a list of open calls holds.
pub open spec fn open_views(calls: Seq<OpenCall>) -> Seq<OpenView> {
    calls.map_values(|c: OpenCall| c@)
}

/// The run being assembled.
#[derive(Debug)]
pub struct RecordBuilder {
    session_id: String,
    run_id: String,
    started_at: String,
    capture_limit: usize,
    turns: Vec<TrajectoryTurn>,
    current: Option<TrajectoryTurn>,
    open_calls: Vec<OpenCall>,
}

/// What a builder holds.
pub struct BuilderView {
    pub session_id: Seq<char>,
    pub run_id: Seq<char>,
    pub started_at: Seq<char>,
    pub capture_limit: usize,
    pub turns: Seq<TurnView>,
    pub current: Option<TurnView>,
    pub open_calls: Seq<OpenView>,
}

impl View for RecordBuilder {
    type V = BuilderView;

    closed spec fn view(&self) -> BuilderView {
        BuilderView {
            session_id: self.session_id@,
            run_id: self.run_id@,
            started_at: self.started_at@,
            capture_limit: self.capture_limit,
            turns: turn_views(self.turns@),
            current: match self.current {
                Some(t) => Some(t@),
                None => None,
            },
            open_calls: open_views(self.open_calls@),
        }
    }
}

/// A turn of which nothing but its query is known yet.
pub open spec fn fresh_turn(turn: usize, query: Seq<char>) -> TurnView {
    TurnView {
        turn,
        query,
        response_text: Seq::empty(),
        tool_calls: Seq::empty(),
        duration_ms: 0,
        input_tokens: 0,
        output_tokens: 0,
    }
}

/// The turn in flight, if any, moved to the finished ones.
pub open spec fn closed_current(b: BuilderView) -> BuilderView {
    match b.current {
        Some(t) => BuilderView {
            turns: b.turns.push(
                TurnView {
                    response_text: first_chars(t.response_text, b.capture_limit as nat),
                    ..t
                },
            ),
            current: None,
            ..b
        },
        None => b,
    }
}

/// The builder with turn `turn` in flight. Another turn in flight is closed
/// first; a turn that was not in flight is opened without a query.
pub open spec fn with_turn(b: BuilderView, turn: usize) -> BuilderView {
    let ready = match b.current {
        Some(open) => if open.turn != turn {
            closed_current(b)
        } else {
            b
        },
        None => b,
    };
    match ready.current {
        Some(_) => ready,
        None => BuilderView { current: Some(fresh_turn(turn, Seq::empty())), ..ready },
    }
}

/// The builder with one more completed call in turn `turn`.
pub open spec fn with_call(b: BuilderView, turn: usize, call: CallView) -> BuilderView {
    let ready = with_turn(b, turn);
    let t = ready.current->0;
    BuilderView {
        current: Some(TurnView { tool_calls: t.tool_calls.push(call), ..t }),
        ..ready
    }
}

/// The turn with the figures of its end event.
pub open spec fn with_figures(t: TurnView, figures: TurnFigures) -> TurnView {
    TurnView {
        duration_ms: figures.duration_ms,
        input_tokens: figures.input_tokens,
        output_tokens: figures.output_tokens,
        ..t
    }
}

/// What the end event of a turn reports.
#[derive(Debug, Clone, Copy)]
pub struct TurnFigures {
    pub duration_ms: u64,
    pub input_tokens: u64,
    pub output_tokens: u64,
}

/// The place of the last turn numbered `turn` among the first `n`.
pub open spec fn last_numbered(turns: Seq<TurnView>, turn: usize, n: nat) -> Option<int>
    decreases n,
{
    if n == 0 {
        None
    } else if turns[n - 1].turn == turn {
        Some(n - 1)
    } else {
        last_numbered(turns, turn, (n - 1) as nat)
    }
}

/// The builder after the end event of a turn. A turn in flight takes the
/// figures and is closed; a closed turn is patched; a turn that was never seen
/// is recorded with the figures alone.
pub open spec fn turn_ended(b: BuilderView, turn: usize, figures: TurnFigures) -> BuilderView {
    if b.current is Some && b.current->0.turn == turn {
        closed_current(
            BuilderView { current: Some(with_figures(b.current->0, figures)), ..b },
        )
    } else {
        match last_numbered(b.turns, turn, b.turns.len()) {
            Some(i) => BuilderView {
                turns: b.turns.update(i, with_figures(b.turns[i], figures)),
                ..b
            },
            None => {
                let ready = with_turn(b, turn);
                closed_current(
                    BuilderView { current: Some(with_figures(ready.current->0, figures)), ..ready },
                )
            },
        }
    }
}

/// The place of an open call, or the number of open calls.
pub open spec fn open_place(calls: Seq<OpenView>, id: Seq<char>) -> int
    decreases calls.len(),
{
    if calls.len() == 0 {
        0
    } else if calls[0].tool_call_id == id {
        0
    } else {
        1 + open_place(calls.skip(1), id)
    }
}

/// The open calls after a dispatch: one under the same id is replaced.
pub open spec fn dispatched(calls: Seq<OpenView>, call: OpenView) -> Seq<OpenView> {
    let i = open_place(calls, call.tool_call_id);
    if i < calls.len() {
        calls.update(i, call)
    } else {
        calls.push(call)
    }
}

/// The open calls without the one of this id.
pub open spec fn answered(calls: Seq<OpenView>, id: Seq<char>) -> Seq<OpenView> {
    let i = open_place(calls, id);
    if i < calls.len() {
        calls.remove(i)
    } else {
        calls
    }
}

/// No two open calls have the same id.
pub open spec fn ids_differ(calls: Seq<OpenView>) -> bool {
    forall|i: int, j: int|
        0 <= i < j < calls.len() ==> (#[trigger] calls[i]).tool_call_id != (
        #[trigger] calls[j]).tool_call_id
}

/// The call that is recorded for a dispatch that was never answered.
pub open spec fn abandoned(open: OpenView, now: u128) -> CallView {
    CallView {
        tool_call_id: open.tool_call_id,
        tool: open.tool,
        ok: false,
        duration_ms: whole_millis(
            if now >= open.started {
                (now - open.started) as u128
            } else {
                0
            },
        ),
    }
}

/// The builder after its first `n` open calls were recorded as abandoned.
pub open spec fn abandoned_calls(b: BuilderView, now: u128, n: nat) -> BuilderView
    decreases n,
{
    if n == 0 {
        b
    } else {
        let before = abandoned_calls(b, now, (n - 1) as nat);
        with_call(before, b.open_calls[n - 1].turn, abandoned(b.open_calls[n - 1], now))
    }
}

/// The turns of a run that has ended.
pub open spec fn run_turns(b: BuilderView, now: u128) -> Seq<TurnView> {
    closed_current(abandoned_calls(b, now, b.open_calls.len())).turns
}

/// Whether some call of some turn succeeded.
pub open spec fn any_call_ok(turns: Seq<TurnView>) -> bool {
    exists|i: int, j: int|
        0 <= i < turns.len() && 0 <= j < turns[i].tool_calls.len()
            && #[trigger] turns[i].tool_calls[j].ok
}

/// How a run ended: cleanly, in failure, or in failure after some success.
pub open spec fn outcome_of(success: bool, turns: Seq<TurnView>) -> TrajectoryOutcome {
    if success {
        TrajectoryOutcome::Success
    } else if any_call_ok(turns) {
        TrajectoryOutcome::Partial
    } else {
        TrajectoryOutcome::Failure
    }
}

/// A sum held at the largest `u64`.
pub open spec fn capped_sum(n: nat) -> u64 {
    if n <= u64::MAX {
        n as u64
    } else {
        u64::MAX
    }
}

/// The input tokens of the first `n` turns.
pub open spec fn input_sum(turns: Seq<TurnView>, n: nat) -> nat
    decreases n,
{
    if n == 0 {
        0
    } else {
        input_sum(turns, (n - 1) as nat) + turns[n - 1].input_tokens as nat
    }
}

/// The output tokens of the first `n` turns.
pub open spec fn output_sum(turns: Seq<TurnView>, n: nat) -> nat
    decreases n,
{
    if n == 0 {
        0
    } else {
        output_sum(turns, (n - 1) as nat) + turns[n - 1].output_tokens as nat
    }
}

/// The token totals of a list of turns.
pub open spec fn tokens_of(turns: Seq<TurnView>) -> TokenSummary {
    TokenSummary {
        input_tokens: capped_sum(input_sum(turns, turns.len())),
        output_tokens: capped_sum(output_sum(turns, turns.len())),
        cached_input_tokens: None,
        cache_write_tokens: None,
        reasoning_tokens: None,
    }
}

/// The record of a run that has ended.
pub open spec fn finished_record(
    b: BuilderView,
    success: bool,
    total_turns: usize,
    duration_ms: u64,
    now: u128,
) -> RecordView {
    let turns = run_turns(b, now);
    RecordView {
        session_id: b.session_id,
        run_id: b.run_id,
        outcome: outcome_of(success, turns),
        started_at: b.started_at,
        duration_ms,
        total_turns,
        token_summary: tokens_of(turns),
        turns,
    }
}

proof fn lemma_open_place(calls: Seq<OpenView>, id: Seq<char>)
    ensures
        0 <= open_place(calls, id) <= calls.len(),
        forall|i: int|
            0 <= i < open_place(calls, id) ==> (#[trigger] calls[i]).tool_call_id != id,
        open_place(calls, id) < calls.len() ==> calls[open_place(calls, id)].tool_call_id == id,
    decreases calls.len(),
{
    if calls.len() == 0 || calls[0].tool_call_id == id {
    } else {
        lemma_open_place(calls.skip(1), id);
        assert forall|i: int| 0 <= i < open_place(calls, id) implies (
        #[trigger] calls[i]).tool_call_id != id by {
            if i > 0 {
                assert(calls.skip(1)[i - 1] == calls[i]);
            }
        }
    }
}

impl RecordBuilder {
    /// A builder for a run that starts now, under a fresh random run id.
    pub fn new(session_id: String, capture_limit: usize, unix_secs: u64) -> (r: Self)
        ensures
            r@ == (BuilderView {
                session_id: session_id@,
                run_id: r@.run_id,
                started_at: r@.started_at,
                capture_limit,
                turns: Seq::empty(),
                current: None,
                open_calls: Seq::empty(),
            }),
            calendar::renders(r@.started_at, unix_secs),
            exists|id: u128| ids::is_random_id(id) && r@.run_id == #[trigger] ids::hyphenated(id),
    {
        let id: u128 = ids::mint_uuid();
        let r = RecordBuilder {
            session_id,
            run_id: ids::uuid_text(id),
            started_at: calendar::rfc3339_at(unix_secs),
            capture_limit,
            turns: Vec::new(),
            current: None,
            open_calls: Vec::new(),
        };
        assert(turn_views(r.turns@) =~= Seq::<TurnView>::empty());
        assert(open_views(r.open_calls@) =~= Seq::<OpenView>::empty());
        r
    }

    /// Moves the turn in flight, if any, to the finished ones.
    pub fn close_current(&mut self)
        ensures
            final(self)@ == closed_current(old(self)@),
    {
        let ghost before = self.turns@;
        if let Some(turn) = self.current.take() {
            let mut turn = turn;
            turn.response_text = truncate_chars(turn.response_text.as_str(), self.capture_limit);
            self.turns.push(turn);
            assert(turn_views(self.turns@) =~= turn_views(before).push(turn@));
        }
    }

    /// Brings turn `turn` into flight.
    pub fn turn_mut(&mut self, turn: usize)
        ensures
            final(self)@ == with_turn(old(self)@, turn),
            final(self)@.current is Some,
            final(self)@.current->0.turn == turn,
    {
        let stale = match &self.current {
            Some(open) => open.turn != turn,
            None => false,
        };
        if stale {
            self.close_current();
        }
        if self.current.is_none() {
            let opened = TrajectoryTurn {
                turn,
                query: String::new(),
                response_text: String::new(),
                tool_calls: Vec::new(),
                duration_ms: 0,
                input_tokens: 0,
                output_tokens: 0,
            };
            assert(call_views(opened.tool_calls@) =~= Seq::<CallView>::empty());
            self.current = Some(opened);
        }
    }

    /// Records a completed call in turn `turn`.
    pub fn push_call(&mut self, turn: usize, call: TrajectoryToolCall)
        ensures
            final(self)@ == with_call(old(self)@, turn, call@),
    {
        self.turn_mut(turn);
        if let Some(open) = self.current.take() {
            let mut open = open;
            let ghost before = open.tool_calls@;
            open.tool_calls.push(call);
            assert(call_views(open.tool_calls@) =~= call_views(before).push(call@));
            self.current = Some(open);
        }
    }

    /// Closes a call that was never answered.
    pub fn abandon_call(&mut self, open: OpenCall, now: u128)
        ensures
            final(self)@ == with_call(old(self)@, open.turn, abandoned(open@, now)),
    {
        let elapsed: u128 = if now >= open.started {
            now - open.started
        } else {
            0
        };
        let duration_ms = millis(elapsed);
        let turn: usize = open.turn;
        self.push_call(
            turn,
            TrajectoryToolCall { tool_call_id: open.tool_call_id, tool: open.tool, ok: false, duration_ms },
        );
    }
}


// ---------------------------------------------------------------------------
// The observer
// ---------------------------------------------------------------------------

/// Captures runs into records.
pub struct TrajectoryObserver {
    inner: Option<RecordBuilder>,
    finished: Vec<TrajectoryRecord>,
    sink: Option<String>,
    capture_limit: usize,
    retention: Option<usize>,
}

/// What an observer holds.
pub struct ObserverView {
    /// The run in flight.
    pub inner: Option<BuilderView>,
    /// The records of ended runs, oldest first.
    pub finished: Seq<RecordView>,
    /// The directory of the ledger.
    pub sink: Option<Seq<char>>,
    /// The characters of response text kept per turn.
    pub capture_limit: usize,
    /// How many records are retained; all where absent.
    pub retention: Option<usize>,
}

impl View for TrajectoryObserver {
    type V = ObserverView;

    closed spec fn view(&self) -> ObserverView {
        ObserverView {
            inner: match self.inner {
                Some(b) => Some(b@),
                None => None,
            },
            finished: record_views(self.finished@),
            sink: match self.sink {
                Some(d) => Some(d@),
                None => None,
            },
            capture_limit: self.capture_limit,
            retention: self.retention,
        }
    }
}

/// The newest records that a cap lets stay.
pub open spec fn retained(records: Seq<RecordView>, cap: Option<usize>) -> Seq<RecordView> {
    match cap {
        Some(n) => if records.len() > n {
            records.skip(records.len() - n)
        } else {
            records
        },
        None => records,
    }
}

/// The observer with another run in flight.
pub open spec fn with_inner(o: ObserverView, b: BuilderView) -> ObserverView {
    ObserverView { inner: Some(b), ..o }
}

impl TrajectoryObserver {
    /// An observer that keeps its records in memory only.
    pub fn in_memory() -> (r: Self)
        ensures
            r@ == (ObserverView {
                inner: None,
                finished: Seq::empty(),
                sink: None,
                capture_limit: DEFAULT_CAPTURE_LIMIT,
                retention: None,
            }),
    {
        let r = TrajectoryObserver {
            inner: None,
            finished: Vec::new(),
            sink: None,
            capture_limit: DEFAULT_CAPTURE_LIMIT,
            retention: None,
        };
        assert(record_views(r.finished@) =~= Seq::<RecordView>::empty());
        r
    }

    /// An observer whose records are also appended to the ledger in `dir`.
    pub fn writing_to(dir: String) -> (r: Self)
        ensures
            r@ == (ObserverView {
                inner: None,
                finished: Seq::empty(),
                sink: Some(dir@),
                capture_limit: DEFAULT_CAPTURE_LIMIT,
                retention: None,
            }),
    {
        let mut r = TrajectoryObserver::in_memory();
        r.sink = Some(dir);
        r
    }

    /// The observer with another bound on response text.
    pub fn with_capture_limit(self, chars: usize) -> (r: Self)
        ensures
            r@ == (ObserverView { capture_limit: chars, ..self@ }),
    {
        let mut r = self;
        r.capture_limit = chars;
        r
    }

    /// The observer with another cap on retained records.
    pub fn with_memory_retention(self, limit: Option<usize>) -> (r: Self)
        ensures
            r@ == (ObserverView { retention: limit, ..self@ }),
    {
        let mut r = self;
        r.retention = limit;
        r
    }

    /// The finished records, oldest first.
    pub fn records(&self) -> (out: Vec<TrajectoryRecord>)
        ensures
            record_views(out@) == self@.finished,
    {
        let mut out: Vec<TrajectoryRecord> = Vec::new();
        let mut i: usize = 0;
        while i < self.finished.len()
            invariant
                i <= self.finished.len(),
                out.len() == i,
                forall|k: int| 0 <= k < i ==> (#[trigger] out@[k])@ == self.finished@[k]@,
            decreases self.finished.len() - i,
        {
            out.push(self.finished[i].clone());
            i = i + 1;
        }
        assert(record_views(out@) =~= record_views(self.finished@));
        out
    }

    /// The directory of the ledger, where there is one.
    pub fn sink(&self) -> (dir: Option<&String>)
        ensures
            match dir {
                Some(d) => self@.sink == Some(d@),
                None => self@.sink is None,
            },
    {
        self.sink.as_ref()
    }

    /// Whether a run is in flight.
    pub fn run_in_flight(&self) -> (r: bool)
        ensures
            r == self@.inner is Some,
    {
        self.inner.is_some()
    }

    /// A run starts. A run that was still in flight is discarded, which the
    /// result tells.
    pub fn on_run_start(&mut self, session_id: u128, unix_secs: u64) -> (discarded: bool)
        ensures
            discarded == old(self)@.inner is Some,
            final(self)@.inner is Some,
            final(self)@ == with_inner(
                old(self)@,
                (BuilderView {
                    session_id: ids::hyphenated(session_id),
                    run_id: final(self)@.inner->0.run_id,
                    started_at: final(self)@.inner->0.started_at,
                    capture_limit: old(self)@.capture_limit,
                    turns: Seq::empty(),
                    current: None,
                    open_calls: Seq::empty(),
                }),
            ),
            calendar::renders(final(self)@.inner->0.started_at, unix_secs),
            exists|id: u128|
                ids::is_random_id(id) && final(self)@.inner->0.run_id == #[trigger] ids::hyphenated(
                    id,
                ),
    {
        let discarded = self.inner.is_some();
        let builder = RecordBuilder::new(ids::uuid_text(session_id), self.capture_limit, unix_secs);
        self.inner = Some(builder);
        discarded
    }

    /// A turn starts.
    pub fn on_turn_start(&mut self, turn: usize, query: String)
        ensures
            final(self)@ == match old(self)@.inner {
                Some(b) => with_inner(
                    old(self)@,
                    (BuilderView {
                        current: Some(fresh_turn(turn, query@)),
                        ..closed_current(b)
                    }),
                ),
                None => old(self)@,
            },
    {
        if let Some(builder) = self.inner.take() {
            let mut builder = builder;
            builder.close_current();
            let opened = TrajectoryTurn {
                turn,
                query,
                response_text: String::new(),
                tool_calls: Vec::new(),
                duration_ms: 0,
                input_tokens: 0,
                output_tokens: 0,
            };
            assert(call_views(opened.tool_calls@) =~= Seq::<CallView>::empty());
            builder.current = Some(opened);
            self.inner = Some(builder);
        }
    }

    /// The model responded.
    pub fn on_response(&mut self, turn: usize, text: &str)
        ensures
            final(self)@ == match old(self)@.inner {
                Some(b) => with_inner(
                    old(self)@,
                    (BuilderView {
                        current: Some(
                            TurnView {
                                response_text: first_chars(
                                    text@,
                                    old(self)@.capture_limit as nat,
                                ),
                                ..with_turn(b, turn).current->0
                            },
                        ),
                        ..with_turn(b, turn)
                    }),
                ),
                None => old(self)@,
            },
    {
        if let Some(builder) = self.inner.take() {
            let mut builder = builder;
            let kept = truncate_chars(text, self.capture_limit);
            builder.turn_mut(turn);
            if let Some(open) = builder.current.take() {
                let mut open = open;
                open.response_text = kept;
                builder.current = Some(open);
            }
            self.inner = Some(builder);
        }
    }

    /// A tool is dispatched, at `now` on a monotonic clock in nanoseconds.
    pub fn on_tool_pre(&mut self, turn: usize, tool: String, tool_call_id: String, now: u128)
        ensures
            final(self)@ == match old(self)@.inner {
                Some(b) => with_inner(
                    old(self)@,
                    (BuilderView {
                        open_calls: dispatched(
                            b.open_calls,
                            OpenView { tool_call_id: tool_call_id@, tool: tool@, turn, started: now },
                        ),
                        ..b
                    }),
                ),
                None => old(self)@,
            },
    {
        if let Some(builder) = self.inner.take() {
            let mut builder = builder;
            let at = place_of(&builder.open_calls, tool_call_id.as_str());
            let call = OpenCall { tool_call_id, tool, turn, started: now };
            let ghost before = builder.open_calls@;
            proof {
                lemma_open_place(open_views(before), call@.tool_call_id);
            }
            if at < builder.open_calls.len() {
                builder.open_calls.set(at, call);
                assert(open_views(builder.open_calls@) =~= open_views(before).update(
                    at as int,
                    call@,
                ));
            } else {
                builder.open_calls.push(call);
                assert(open_views(builder.open_calls@) =~= open_views(before).push(call@));
            }
            self.inner = Some(builder);
        }
    }

    /// A tool answered, after a duration in nanoseconds.
    pub fn on_tool_post(
        &mut self,
        turn: usize,
        tool: String,
        tool_call_id: String,
        is_error: bool,
        duration: u128,
    )
        ensures
            final(self)@ == match old(self)@.inner {
                Some(b) => with_inner(
                    old(self)@,
                    with_call(
                        BuilderView { open_calls: answered(b.open_calls, tool_call_id@), ..b },
                        turn,
                        CallView {
                            tool_call_id: tool_call_id@,
                            tool: tool@,
                            ok: !is_error,
                            duration_ms: whole_millis(duration),
                        },
                    ),
                ),
                None => old(self)@,
            },
    {
        if let Some(builder) = self.inner.take() {
            let mut builder = builder;
            let at = place_of(&builder.open_calls, tool_call_id.as_str());
            let ghost before = builder.open_calls@;
            proof {
                lemma_open_place(open_views(before), tool_call_id@);
            }
            if at < builder.open_calls.len() {
                builder.open_calls.remove(at);
                assert(open_views(builder.open_calls@) =~= open_views(before).remove(at as int));
            }
            builder.push_call(
                turn,
                TrajectoryToolCall {
                    tool_call_id,
                    tool,
                    ok: !is_error,
                    duration_ms: millis(duration),
                },
            );
            self.inner = Some(builder);
        }
    }

    /// A turn ends.
    pub fn on_turn_end(&mut self, turn: usize, figures: TurnFigures)
        ensures
            final(self)@ == match old(self)@.inner {
                Some(b) => with_inner(old(self)@, turn_ended(b, turn, figures)),
                None => old(self)@,
            },
    {
        if let Some(builder) = self.inner.take() {
            let mut builder = builder;
            builder.end_turn(turn, figures);
            self.inner = Some(builder);
        }
    }

    /// A run ends, at `now` on a monotonic clock in nanoseconds. Its record is
    /// kept and handed to the caller, who writes it to the ledger.
    pub fn on_run_end(
        &mut self,
        success: bool,
        total_turns: usize,
        duration_ms: u64,
        now: u128,
    ) -> (out: Option<TrajectoryRecord>)
        ensures
            out is Some <==> old(self)@.inner is Some,
            old(self)@.inner is None ==> final(self)@ == old(self)@,
            out matches Some(r) ==> {
                &&& r@ == finished_record(
                    old(self)@.inner->0,
                    success,
                    total_turns,
                    duration_ms,
                    now,
                )
                &&& final(self)@ == (ObserverView {
                    inner: None,
                    finished: retained(old(self)@.finished.push(r@), old(self)@.retention),
                    ..old(self)@
                })
            },
    {
        let ghost start = self@;
        match self.inner.take() {
            Some(builder) => {
                let record = builder.finish(success, total_turns, duration_ms, now);
                let ghost before = self.finished@;
                self.finished.push(record.clone());
                proof {
                    assert(record_views(self.finished@) =~= record_views(before).push(record@));
                }
                self.keep_newest();
                Some(record)
            },
            None => None,
        }
    }

    fn keep_newest(&mut self)
        ensures
            final(self)@ == (ObserverView {
                finished: retained(old(self)@.finished, old(self)@.retention),
                ..old(self)@
            }),
    {
        let ghost start = self@;
        let ghost all = self.finished@;
        if let Some(cap) = self.retention {
            let ghost mut dropped: int = 0;
            while self.finished.len() > cap
                invariant
                    self@.inner == start.inner,
                    self@.sink == start.sink,
                    self@.capture_limit == start.capture_limit,
                    self@.retention == start.retention,
                    self.retention == Some(cap),
                    0 <= dropped <= all.len(),
                    self.finished@ == all.skip(dropped),
                    dropped > 0 ==> all.len() - dropped >= cap,
                decreases self.finished.len(),
            {
                self.finished.remove(0);
                proof {
                    assert(all.skip(dropped).remove(0) =~= all.skip(dropped + 1));
                    dropped = dropped + 1;
                }
            }
            proof {
                assert(record_views(all.skip(dropped)) =~= record_views(all).skip(dropped));
                assert(record_views(all).skip(0) =~= record_views(all));
            }
        }
    }
}

fn place_of(calls: &Vec<OpenCall>, id: &str) -> (at: usize)
    ensures
        at == open_place(open_views(calls@), id@),
{
    let ghost views = open_views(calls@);
    let mut i: usize = 0;
    assert(views.skip(0) =~= views);
    while i < calls.len()
        invariant
            i <= calls.len(),
            views == open_views(calls@),
            open_place(views, id@) == i + open_place(views.skip(i as int), id@),
        decreases calls.len() - i,
    {
        assert(views.skip(i as int)[0] == calls@[i as int]@);
        if text::same_text(calls[i].tool_call_id.as_str(), id) {
            return i;
        }
        assert(views.skip(i as int).skip(1) =~= views.skip(i + 1));
        i = i + 1;
    }
    i
}

impl RecordBuilder {
    fn end_turn(&mut self, turn: usize, figures: TurnFigures)
        ensures
            final(self)@ == turn_ended(old(self)@, turn, figures),
    {
        let in_flight = match &self.current {
            Some(open) => open.turn == turn,
            None => false,
        };
        if in_flight {
            self.set_figures(figures);
            self.close_current();
        } else {
            let ghost views = turn_views(self.turns@);
            let mut n: usize = self.turns.len();
            while n > 0 && self.turns[n - 1].turn != turn
                invariant
                    n <= self.turns.len(),
                    views == turn_views(self.turns@),
                    last_numbered(views, turn, views.len()) == last_numbered(views, turn, n as nat),
                decreases n,
            {
                assert(views[n - 1] == self.turns@[n - 1]@);
                n = n - 1;
            }
            if n > 0 {
                assert(views[n - 1] == self.turns@[n - 1]@);
                let ghost before = self.turns@;
                let mut done = self.turns[n - 1].clone();
                done.duration_ms = figures.duration_ms;
                done.input_tokens = figures.input_tokens;
                done.output_tokens = figures.output_tokens;
                self.turns.set(n - 1, done);
                assert(turn_views(self.turns@) =~= views.update(n - 1, done@));
            } else {
                self.turn_mut(turn);
                self.set_figures(figures);
                self.close_current();
            }
        }
    }

    fn set_figures(&mut self, figures: TurnFigures)
        requires
            old(self)@.current is Some,
        ensures
            final(self)@ == (BuilderView {
                current: Some(with_figures(old(self)@.current->0, figures)),
                ..old(self)@
            }),
    {
        if let Some(open) = self.current.take() {
            let mut open = open;
            open.duration_ms = figures.duration_ms;
            open.input_tokens = figures.input_tokens;
            open.output_tokens = figures.output_tokens;
            self.current = Some(open);
        }
    }

    /// The record of the run, ended at `now` on a monotonic clock.
    pub fn finish(self, success: bool, total_turns: usize, duration_ms: u64, now: u128) -> (record:
        TrajectoryRecord)
        ensures
            record@ == finished_record(self@, success, total_turns, duration_ms, now),
    {
        let ghost start = self@;
        let mut builder = self;
        let mut open: Vec<OpenCall> = Vec::new();
        core::mem::swap(&mut builder.open_calls, &mut open);
        let ghost calls = open@;
        let ghost emptied = builder@;
        let mut i: usize = 0;
        proof {
            assert(open_views(calls) == start.open_calls);
        }
        while i < open.len()
            invariant
                i <= open.len(),
                open@ == calls,
                start.open_calls == open_views(calls),
                builder@.turns == abandoned_calls(start, now, i as nat).turns,
                builder@.current == abandoned_calls(start, now, i as nat).current,
                builder@.capture_limit == start.capture_limit,
                abandoned_calls(start, now, i as nat).capture_limit == start.capture_limit,
                builder@.session_id == start.session_id,
                builder@.run_id == start.run_id,
                builder@.started_at == start.started_at,
            decreases open.len() - i,
        {
            let copy = OpenCall {
                tool_call_id: open[i].tool_call_id.clone(),
                tool: open[i].tool.clone(),
                turn: open[i].turn,
                started: open[i].started,
            };
            assert(start.open_calls[i as int] == copy@);
            builder.abandon_call(copy, now);
            i = i + 1;
        }
        builder.close_current();
        let ghost turns = turn_views(builder.turns@);
        assert(turns == run_turns(start, now));
        let ok = any_ok(&builder.turns);
        let token_summary = token_totals(&builder.turns);
        let outcome = if success {
            TrajectoryOutcome::Success
        } else if ok {
            TrajectoryOutcome::Partial
        } else {
            TrajectoryOutcome::Failure
        };
        TrajectoryRecord {
            session_id: builder.session_id,
            run_id: builder.run_id,
            outcome,
            started_at: builder.started_at,
            duration_ms,
            total_turns,
            token_summary,
            turns: builder.turns,
        }
    }
}

fn any_ok(turns: &Vec<TrajectoryTurn>) -> (r: bool)
    ensures
        r == any_call_ok(turn_views(turns@)),
{
    let ghost views = turn_views(turns@);
    let mut i: usize = 0;
    while i < turns.len()
        invariant
            i <= turns.len(),
            views == turn_views(turns@),
            forall|k: int, j: int|
                0 <= k < i && 0 <= j < views[k].tool_calls.len()
                    ==> !(#[trigger] views[k].tool_calls[j].ok),
        decreases turns.len() - i,
    {
        let mut j: usize = 0;
        assert(views[i as int] == turns@[i as int]@);
        while j < turns[i].tool_calls.len()
            invariant
                i < turns.len(),
                j <= turns@[i as int].tool_calls.len(),
                views == turn_views(turns@),
                views[i as int] == turns@[i as int]@,
                forall|m: int|
                    0 <= m < j ==> !(#[trigger] views[i as int].tool_calls[m].ok),
            decreases turns@[i as int].tool_calls.len() - j,
        {
            assert(views[i as int].tool_calls[j as int] == turns@[i as int].tool_calls@[j as int]@);
            if turns[i].tool_calls[j].ok {
                assert(views[i as int].tool_calls[j as int].ok);
                return true;
            }
            j = j + 1;
        }
        i = i + 1;
    }
    false
}

fn token_totals(turns: &Vec<TrajectoryTurn>) -> (r: TokenSummary)
    ensures
        r == tokens_of(turn_views(turns@)),
{
    let ghost views = turn_views(turns@);
    let mut input_tokens: u64 = 0;
    let mut output_tokens: u64 = 0;
    let mut i: usize = 0;
    while i < turns.len()
        invariant
            i <= turns.len(),
            views == turn_views(turns@),
            input_tokens == capped_sum(input_sum(views, i as nat)),
            output_tokens == capped_sum(output_sum(views, i as nat)),
        decreases turns.len() - i,
    {
        assert(views[i as int] == turns@[i as int]@);
        input_tokens = input_tokens.saturating_add(turns[i].input_tokens);
        output_tokens = output_tokens.saturating_add(turns[i].output_tokens);
        i = i + 1;
    }
    TokenSummary {
        input_tokens,
        output_tokens,
        cached_input_tokens: None,
        cache_write_tokens: None,
        reasoning_tokens: None,
    }
}

impl Default for TrajectoryObserver {
    fn default() -> (r: Self)
        ensures
            r@ == (ObserverView {
                inner: None,
                finished: Seq::empty(),
                sink: None,
                capture_limit: DEFAULT_CAPTURE_LIMIT,
                retention: None,
            }),
    {
        TrajectoryObserver::in_memory()
    }
}


/// The signals that a finished record is reported by.
#[derive(Debug, Clone, Copy)]
pub struct RunSignals {
    pub outcome: TrajectoryOutcome,
    pub turns: usize,
    pub duration_ms: u64,
    pub tool_calls: usize,
    pub input_tokens: u64,
    pub output_tokens: u64,
}

/// The number of calls of the first `n` turns.
pub open spec fn call_count(turns: Seq<TurnView>, n: nat) -> nat
    decreases n,
{
    if n == 0 {
        0
    } else {
        call_count(turns, (n - 1) as nat) + turns[n - 1].tool_calls.len()
    }
}

/// The signals of a finished record. The count of tool calls is held at the
/// largest count.
pub fn run_signals(record: &TrajectoryRecord) -> (s: RunSignals)
    ensures
        s.outcome == record@.outcome,
        s.turns == record@.total_turns,
        s.duration_ms == record@.duration_ms,
        s.tool_calls == crate::memory::tokens::capped(
            call_count(record@.turns, record@.turns.len()),
        ),
        s.input_tokens == record@.token_summary.input_tokens,
        s.output_tokens == record@.token_summary.output_tokens,
{
    let ghost views = record@.turns;
    let mut tool_calls: usize = 0;
    let mut i: usize = 0;
    while i < record.turns.len()
        invariant
            i <= record.turns.len(),
            views == turn_views(record.turns@),
            tool_calls == crate::memory::tokens::capped(call_count(views, i as nat)),
        decreases record.turns.len() - i,
    {
        assert(views[i as int] == record.turns@[i as int]@);
        tool_calls = tool_calls.saturating_add(record.turns[i].tool_calls.len());
        i = i + 1;
    }
    RunSignals {
        outcome: record.outcome,
        turns: record.total_turns,
        duration_ms: record.duration_ms,
        tool_calls,
        input_tokens: record.token_summary.input_tokens,
        output_tokens: record.token_summary.output_tokens,
    }
}

// ---------------------------------------------------------------------------
// Laws
// ---------------------------------------------------------------------------

/// A dispatch under an id that is open replaces the open one, so open ids stay
/// distinct; an answer takes its id away and leaves every other one.
pub proof fn calls_pair_by_id(calls: Seq<OpenView>, call: OpenView, id: Seq<char>)
    requires
        ids_differ(calls),
    ensures
        ids_differ(dispatched(calls, call)),
        dispatched(calls, call).contains(call),
        ids_differ(answered(calls, id)),
        forall|i: int|
            0 <= i < answered(calls, id).len() ==> (#[trigger] answered(
                calls,
                id,
            )[i]).tool_call_id != id,
        forall|i: int|
            0 <= i < calls.len() && (#[trigger] calls[i]).tool_call_id != id ==> answered(
                calls,
                id,
            ).contains(calls[i]),
{
    lemma_open_place(calls, call.tool_call_id);
    lemma_open_place(calls, id);
    let k = open_place(calls, call.tool_call_id);
    let d = dispatched(calls, call);
    assert(d[if k < calls.len() {
        k
    } else {
        calls.len() as int
    }] == call);
    let p = open_place(calls, id);
    let a = answered(calls, id);
    assert forall|i: int| 0 <= i < calls.len() && (#[trigger] calls[i]).tool_call_id
        != id implies a.contains(calls[i]) by {
        if p < calls.len() {
            if i < p {
                assert(a[i] == calls[i]);
            } else {
                assert(a[i - 1] == calls[i]);
            }
        } else {
            assert(a[i] == calls[i]);
        }
    }
}

/// A call that was answered and is dispatched no more leaves no trace among
/// the open calls: an answer undoes a dispatch.
pub proof fn an_answer_undoes_a_dispatch(calls: Seq<OpenView>, call: OpenView)
    requires
        forall|i: int|
            0 <= i < calls.len() ==> (#[trigger] calls[i]).tool_call_id != call.tool_call_id,
    ensures
        answered(dispatched(calls, call), call.tool_call_id) == calls,
{
    lemma_open_place(calls, call.tool_call_id);
    let d = dispatched(calls, call);
    lemma_open_place(d, call.tool_call_id);
    assert(open_place(calls, call.tool_call_id) == calls.len());
    assert(d == calls.push(call));
    let p = open_place(d, call.tool_call_id);
    assert(p == calls.len()) by {
        assert(d[calls.len() as int] == call);
        if p < calls.len() {
            assert(d[p] == calls[p]);
        }
    }
    assert(d.remove(p) =~= calls);
}

/// The number of calls that a builder has recorded.
pub open spec fn recorded_calls(b: BuilderView) -> nat {
    call_count(b.turns, b.turns.len()) + match b.current {
        Some(t) => t.tool_calls.len(),
        None => 0,
    }
}

proof fn lemma_call_count_push(turns: Seq<TurnView>, t: TurnView, n: nat)
    requires
        n <= turns.len(),
    ensures
        call_count(turns.push(t), n) == call_count(turns, n),
    decreases n,
{
    if n > 0 {
        lemma_call_count_push(turns, t, (n - 1) as nat);
    }
}

proof fn lemma_closing_keeps_calls(b: BuilderView)
    ensures
        recorded_calls(closed_current(b)) == recorded_calls(b),
{
    if let Some(t) = b.current {
        let kept = TurnView {
            response_text: first_chars(t.response_text, b.capture_limit as nat),
            ..t
        };
        lemma_call_count_push(b.turns, kept, b.turns.len());
    }
}

proof fn lemma_call_is_recorded(b: BuilderView, turn: usize, call: CallView)
    ensures
        recorded_calls(with_call(b, turn, call)) == recorded_calls(b) + 1,
{
    lemma_closing_keeps_calls(b);
}

proof fn lemma_abandoned_are_recorded(b: BuilderView, now: u128, n: nat)
    requires
        n <= b.open_calls.len(),
    ensures
        recorded_calls(abandoned_calls(b, now, n)) == recorded_calls(b) + n,
    decreases n,
{
    if n > 0 {
        lemma_abandoned_are_recorded(b, now, (n - 1) as nat);
        lemma_call_is_recorded(
            abandoned_calls(b, now, (n - 1) as nat),
            b.open_calls[n - 1].turn,
            abandoned(b.open_calls[n - 1], now),
        );
    }
}

/// No call is lost when a run ends: every recorded call and every call in
/// flight is in the record, once.
pub proof fn no_call_is_lost_at_run_end(b: BuilderView, now: u128)
    ensures
        call_count(run_turns(b, now), run_turns(b, now).len()) == recorded_calls(b)
            + b.open_calls.len(),
{
    lemma_abandoned_are_recorded(b, now, b.open_calls.len());
    lemma_closing_keeps_calls(abandoned_calls(b, now, b.open_calls.len()));
}

/// Whether no finished turn holds more response text than the limit.
pub open spec fn within_limit(b: BuilderView) -> bool {
    forall|i: int|
        0 <= i < b.turns.len() ==> (#[trigger] b.turns[i]).response_text.len() <= b.capture_limit
}

proof fn lemma_limit_is_kept(b: BuilderView, turn: usize, call: CallView)
    requires
        within_limit(b),
    ensures
        within_limit(closed_current(b)),
        within_limit(with_turn(b, turn)),
        within_limit(with_call(b, turn, call)),
        with_turn(b, turn).capture_limit == b.capture_limit,
{
}

proof fn lemma_limit_is_kept_by_abandoning(b: BuilderView, now: u128, n: nat)
    requires
        within_limit(b),
        n <= b.open_calls.len(),
    ensures
        within_limit(abandoned_calls(b, now, n)),
        abandoned_calls(b, now, n).capture_limit == b.capture_limit,
    decreases n,
{
    if n > 0 {
        lemma_limit_is_kept_by_abandoning(b, now, (n - 1) as nat);
        lemma_limit_is_kept(
            abandoned_calls(b, now, (n - 1) as nat),
            b.open_calls[n - 1].turn,
            abandoned(b.open_calls[n - 1], now),
        );
    }
}

/// Every step keeps the finished turns within the capture limit, and so the
/// record of the run is.
pub proof fn captured_responses_stay_within_the_limit(
    b: BuilderView,
    turn: usize,
    call: CallView,
    figures: TurnFigures,
    now: u128,
)
    requires
        within_limit(b),
    ensures
        within_limit(closed_current(b)),
        within_limit(with_turn(b, turn)),
        within_limit(with_call(b, turn, call)),
        within_limit(turn_ended(b, turn, figures)),
        forall|i: int|
            0 <= i < run_turns(b, now).len() ==> (#[trigger] run_turns(
                b,
                now,
            )[i]).response_text.len() <= b.capture_limit,
{
    lemma_limit_is_kept(b, turn, call);
    lemma_limit_is_kept_by_abandoning(b, now, b.open_calls.len());
    let last = abandoned_calls(b, now, b.open_calls.len());
    lemma_limit_is_kept(last, turn, call);
    assert(closed_current(last).capture_limit == b.capture_limit);
    assert forall|i: int| 0 <= i < run_turns(b, now).len() implies (#[trigger] run_turns(
        b,
        now,
    )[i]).response_text.len() <= b.capture_limit by {
        assert(closed_current(last).turns[i] == run_turns(b, now)[i]);
    }
    lemma_last_numbered(b.turns, turn, b.turns.len());
    let ended = turn_ended(b, turn, figures);
    assert forall|i: int| 0 <= i < ended.turns.len() implies (
    #[trigger] ended.turns[i]).response_text.len() <= ended.capture_limit by {
        if i < b.turns.len() {
            assert(b.turns[i].response_text.len() <= b.capture_limit);
        }
        let ready = with_turn(b, turn);
        if i < ready.turns.len() {
            assert(ready.turns[i].response_text.len() <= ready.capture_limit);
        }
    }
}

proof fn lemma_last_numbered(turns: Seq<TurnView>, turn: usize, n: nat)
    requires
        n <= turns.len(),
    ensures
        last_numbered(turns, turn, n) matches Some(i) ==> 0 <= i < n && turns[i].turn == turn
            && forall|j: int| i < j < n ==> (#[trigger] turns[j]).turn != turn,
        last_numbered(turns, turn, n) is None ==> forall|i: int|
            0 <= i < n ==> (#[trigger] turns[i]).turn != turn,
    decreases n,
{
    if n > 0 {
        lemma_last_numbered(turns, turn, (n - 1) as nat);
    }
}

/// The end event of a turn that was seen adds no turn under a number that was
/// there: it either closes the turn in flight or patches a closed one.
pub proof fn a_late_end_patches_its_own_turn(b: BuilderView, turn: usize, figures: TurnFigures)
    requires
        b.current is None || b.current->0.turn != turn,
        exists|i: int| 0 <= i < b.turns.len() && (#[trigger] b.turns[i]).turn == turn,
    ensures
        ({
            let ended = turn_ended(b, turn, figures);
            &&& ended.turns.len() == b.turns.len()
            &&& ended.current == b.current
            &&& forall|i: int|
                0 <= i < b.turns.len() ==> (#[trigger] ended.turns[i]).turn == b.turns[i].turn
            &&& exists|i: int|
                0 <= i < ended.turns.len() && (#[trigger] ended.turns[i]) == with_figures(
                    b.turns[i],
                    figures,
                ) && ended.turns[i].turn == turn
        }),
{
    lemma_last_numbered(b.turns, turn, b.turns.len());
    let i = last_numbered(b.turns, turn, b.turns.len())->0;
    let ended = turn_ended(b, turn, figures);
    assert(ended.turns[i] == with_figures(b.turns[i], figures));
}

/// Memory holds no more records than the cap, and the newest are those that
/// stay.
pub proof fn retention_keeps_the_newest(records: Seq<RecordView>, cap: usize)
    ensures
        retained(records, Some(cap)).len() <= cap,
        records.len() <= cap ==> retained(records, Some(cap)) == records,
        cap > 0 && records.len() > 0 ==> retained(records, Some(cap)).last() == records.last(),
{
}

/// The records that the runs which ended left behind, in order, where a step
/// that ended none left nothing.
pub open spec fn ended_runs(steps: Seq<Option<RecordView>>) -> Seq<RecordView>
    decreases steps.len(),
{
    if steps.len() == 0 {
        Seq::empty()
    } else {
        match steps.last() {
            Some(record) => ended_runs(steps.drop_last()).push(record),
            None => ended_runs(steps.drop_last()),
        }
    }
}

/// Whether an observer that started without a record went through these
/// states, where each step is the end of a run, with its record, or anything
/// else that the observer hears.
pub open spec fn is_history(states: Seq<ObserverView>, steps: Seq<Option<RecordView>>) -> bool {
    &&& states.len() == steps.len() + 1
    &&& states[0].finished == Seq::<RecordView>::empty()
    &&& forall|i: int|
        0 <= i < steps.len() ==> {
            &&& (#[trigger] states[i + 1]).retention == states[i].retention
            &&& states[i + 1].finished == match steps[i] {
                Some(record) => retained(states[i].finished.push(record), states[i].retention),
                None => states[i].finished,
            }
        }
}

/// However many runs have ended, and whatever else was heard in between, the
/// observer holds the records of the latest of them, as many as its cap allows,
/// oldest first, and all of them without a cap.
pub proof fn the_latest_runs_are_held(
    states: Seq<ObserverView>,
    steps: Seq<Option<RecordView>>,
)
    requires
        is_history(states, steps),
    ensures
        states.last().retention == states[0].retention,
        states.last().finished == retained(ended_runs(steps), states[0].retention),
        states.last().finished.len() == match states[0].retention {
            Some(cap) => if ended_runs(steps).len() <= cap {
                ended_runs(steps).len()
            } else {
                cap as nat
            },
            None => ended_runs(steps).len(),
        },
    decreases steps.len(),
{
    if steps.len() > 0 {
        let n = steps.len() - 1;
        let before = states.drop_last();
        let less = steps.drop_last();
        assert(is_history(before, less)) by {
            assert forall|i: int| 0 <= i < less.len() implies {
                &&& (#[trigger] before[i + 1]).retention == before[i].retention
                &&& before[i + 1].finished == match less[i] {
                    Some(record) => retained(before[i].finished.push(record), before[i].retention),
                    None => before[i].finished,
                }
            } by {
                assert(states[i + 1] == before[i + 1]);
            }
        }
        the_latest_runs_are_held(before, less);
        assert(states[n + 1].retention == states[n].retention);
        assert(before.last() == states[n]);
        assert(states.last() == states[n + 1]);
        if let Some(record) = steps.last() {
            lemma_retained_step(ended_runs(less), record, states[0].retention);
        }
    }
}

proof fn lemma_retained_step(records: Seq<RecordView>, record: RecordView, cap: Option<usize>)
    ensures
        retained(retained(records, cap).push(record), cap) == retained(records.push(record), cap),
{
    assert(retained(retained(records, cap).push(record), cap) =~= retained(
        records.push(record),
        cap,
    ));
}

/// What is captured of a text is its start, whole up to the limit.
pub proof fn the_start_of_a_response_is_captured(text: Seq<char>, limit: nat, i: int)
    ensures
        first_chars(text, limit).len() <= limit,
        first_chars(text, limit).len() <= text.len(),
        first_chars(text, limit).len() == limit || first_chars(text, limit).len() == text.len(),
        0 <= i < first_chars(text, limit).len() ==> first_chars(text, limit)[i] == text[i],
{
}

/// A span is told in the milliseconds that have passed in full, up to the
/// largest number.
pub proof fn spans_are_told_in_full_milliseconds(nanos: u128)
    ensures
        whole_millis(nanos) * 1_000_000 <= nanos,
        nanos < (whole_millis(nanos) + 1) * 1_000_000 || whole_millis(nanos) == u64::MAX,
{
}

/// The turn in flight, cut to what is captured, becomes the last of the
/// finished ones; where none is in flight nothing happens.
pub proof fn a_turn_is_closed_behind_the_others(b: BuilderView)
    ensures
        b.current is None ==> closed_current(b) == b,
        b.current matches Some(t) ==> closed_current(b) == (BuilderView {
            turns: b.turns + seq![
                TurnView {
                    response_text: if t.response_text.len() <= b.capture_limit {
                        t.response_text
                    } else {
                        t.response_text.take(b.capture_limit as int)
                    },
                    ..t
                },
            ],
            current: None,
            ..b
        }),
{
    if let Some(t) = b.current {
        let cut = TurnView {
            response_text: first_chars(t.response_text, b.capture_limit as nat),
            ..t
        };
        assert(b.turns.push(cut) =~= b.turns + seq![cut]);
    }
}

/// A call is added to the turn that it was made in, behind the calls that the
/// turn has. A turn in flight under another number is closed first, and a turn
/// of which nothing is known starts empty.
pub proof fn a_call_joins_its_own_turn(b: BuilderView, turn: usize, call: CallView)
    ensures
        ({
            let after = with_call(b, turn, call);
            &&& after.current is Some
            &&& after.current->0.turn == turn
            &&& b.current is Some && b.current->0.turn == turn ==> after == (BuilderView {
                current: Some(
                    TurnView {
                        tool_calls: b.current->0.tool_calls + seq![call],
                        ..b.current->0
                    },
                ),
                ..b
            })
            &&& !(b.current is Some && b.current->0.turn == turn) ==> after == (BuilderView {
                current: Some(
                    TurnView {
                        turn,
                        query: Seq::empty(),
                        response_text: Seq::empty(),
                        tool_calls: seq![call],
                        duration_ms: 0,
                        input_tokens: 0,
                        output_tokens: 0,
                    },
                ),
                ..closed_current(b)
            })
        }),
{
    if b.current is Some && b.current->0.turn == turn {
        assert(b.current->0.tool_calls.push(call) =~= b.current->0.tool_calls + seq![call]);
    } else {
        assert(Seq::<CallView>::empty().push(call) =~= seq![call]);
    }
}

/// The end of a turn in flight gives it its figures and closes it. The end of
/// a turn of which nothing is known, in flight or finished, makes it one of the
/// finished turns, with no more than its figures.
pub proof fn an_end_gives_a_turn_its_figures(b: BuilderView, turn: usize, figures: TurnFigures)
    ensures
        b.current is Some && b.current->0.turn == turn ==> turn_ended(b, turn, figures)
            == closed_current(
            BuilderView {
                current: Some(
                    TurnView {
                        duration_ms: figures.duration_ms,
                        input_tokens: figures.input_tokens,
                        output_tokens: figures.output_tokens,
                        ..b.current->0
                    },
                ),
                ..b
            },
        ),
        !(b.current is Some && b.current->0.turn == turn) && (forall|i: int|
            0 <= i < b.turns.len() ==> (#[trigger] b.turns[i]).turn != turn) ==> turn_ended(
            b,
            turn,
            figures,
        ) == (BuilderView {
            turns: closed_current(b).turns + seq![
                TurnView {
                    turn,
                    query: Seq::empty(),
                    response_text: Seq::empty(),
                    tool_calls: Seq::empty(),
                    duration_ms: figures.duration_ms,
                    input_tokens: figures.input_tokens,
                    output_tokens: figures.output_tokens,
                },
            ],
            ..closed_current(b)
        }),
        forall|i: int|
            0 <= i < b.turns.len() && !(b.current is Some && b.current->0.turn == turn) && (
            #[trigger] b.turns[i]).turn == turn && (forall|j: int|
                i < j < b.turns.len() ==> (#[trigger] b.turns[j]).turn != turn) ==> turn_ended(
                b,
                turn,
                figures,
            ) == (BuilderView {
                turns: b.turns.update(
                    i,
                    TurnView {
                        duration_ms: figures.duration_ms,
                        input_tokens: figures.input_tokens,
                        output_tokens: figures.output_tokens,
                        ..b.turns[i]
                    },
                ),
                ..b
            }),
{
    lemma_last_numbered(b.turns, turn, b.turns.len());
    if !(b.current is Some && b.current->0.turn == turn) && (forall|i: int|
        0 <= i < b.turns.len() ==> (#[trigger] b.turns[i]).turn != turn) {
        let done = with_figures(fresh_turn(turn, Seq::empty()), figures);
        assert(first_chars(Seq::<char>::empty(), b.capture_limit as nat) =~= Seq::<
            char,
        >::empty());
        let closed = closed_current(b);
        assert(closed.turns.push(done) =~= closed.turns + seq![done]);
    }
}

/// A dispatch takes the place of an open one under its id, and else comes last;
/// an answer takes the open one under its id out of the others, which keep
/// their order.
pub proof fn open_calls_keep_their_order(calls: Seq<OpenView>, call: OpenView, i: int)
    requires
        ids_differ(calls),
        0 <= i < calls.len(),
    ensures
        calls[i].tool_call_id == call.tool_call_id ==> dispatched(calls, call) == calls.update(
            i,
            call,
        ) && answered(calls, call.tool_call_id) == calls.take(i) + calls.skip(i + 1),
        (forall|j: int|
            0 <= j < calls.len() ==> (#[trigger] calls[j]).tool_call_id != call.tool_call_id)
            ==> dispatched(calls, call) == calls + seq![call] && answered(calls, call.tool_call_id)
            == calls,
{
    lemma_open_place(calls, call.tool_call_id);
    let p = open_place(calls, call.tool_call_id);
    if calls[i].tool_call_id == call.tool_call_id {
        if p < i {
            assert(calls[p].tool_call_id != calls[i].tool_call_id);
        }
        assert(p == i);
        assert(calls.remove(i) =~= calls.take(i) + calls.skip(i + 1));
    }
    assert(calls.push(call) =~= calls + seq![call]);
}

/// A call that was never answered is recorded as one that failed, under its own
/// id and tool, with the time since its dispatch.
pub proof fn an_unanswered_call_has_failed(open: OpenView, now: u128)
    ensures
        abandoned(open, now).tool_call_id == open.tool_call_id,
        abandoned(open, now).tool == open.tool,
        !abandoned(open, now).ok,
        now < open.started ==> abandoned(open, now).duration_ms == 0,
        now >= open.started ==> abandoned(open, now).duration_ms * 1_000_000 <= now - open.started,
        now >= open.started && abandoned(open, now).duration_ms < u64::MAX ==> now - open.started
            < (abandoned(open, now).duration_ms + 1) * 1_000_000,
{
    if now >= open.started {
        spans_are_told_in_full_milliseconds((now - open.started) as u128);
    }
}

/// The calls of turns, one turn after the other.
pub open spec fn calls_in(turns: Seq<TurnView>) -> Seq<CallView> {
    turns.map_values(|t: TurnView| t.tool_calls).flatten()
}

/// The calls that a builder has recorded, those of the turn in flight last.
pub open spec fn calls_so_far(b: BuilderView) -> Seq<CallView> {
    match b.current {
        Some(t) => calls_in(b.turns) + t.tool_calls,
        None => calls_in(b.turns),
    }
}

proof fn lemma_calls_in_push(turns: Seq<TurnView>, t: TurnView)
    ensures
        calls_in(turns.push(t)) == calls_in(turns) + t.tool_calls,
{
    let lists = turns.map_values(|t: TurnView| t.tool_calls);
    assert(turns.push(t).map_values(|t: TurnView| t.tool_calls) =~= lists.push(t.tool_calls));
    lists.lemma_flatten_push(t.tool_calls);
}

proof fn lemma_closing_keeps_the_calls(b: BuilderView)
    ensures
        calls_so_far(closed_current(b)) == calls_so_far(b),
{
    if let Some(t) = b.current {
        let kept = TurnView {
            response_text: first_chars(t.response_text, b.capture_limit as nat),
            ..t
        };
        lemma_calls_in_push(b.turns, kept);
    }
}

/// A call that is recorded comes behind all that were recorded before.
pub proof fn calls_are_recorded_in_order(b: BuilderView, turn: usize, call: CallView)
    ensures
        calls_so_far(with_call(b, turn, call)) == calls_so_far(b) + seq![call],
        calls_so_far(closed_current(b)) == calls_so_far(b),
        calls_so_far(with_turn(b, turn)) == calls_so_far(b),
{
    lemma_closing_keeps_the_calls(b);
    let ready = with_turn(b, turn);
    let t = ready.current->0;
    let all = calls_in(ready.turns);
    assert(calls_so_far(ready) =~= calls_so_far(b));
    assert(all + t.tool_calls.push(call) =~= (all + t.tool_calls) + seq![call]);
}

/// The record of a run holds the calls that were answered, in their order, and
/// then those that were not, each as a failure.
pub proof fn unanswered_calls_come_last(b: BuilderView, now: u128)
    ensures
        calls_in(run_turns(b, now)) == calls_so_far(b) + Seq::new(
            b.open_calls.len(),
            |i: int| abandoned(b.open_calls[i], now),
        ),
{
    let n = b.open_calls.len();
    lemma_unanswered(b, now, n);
    let last = abandoned_calls(b, now, n);
    lemma_closing_keeps_the_calls(last);
}

proof fn lemma_unanswered(b: BuilderView, now: u128, n: nat)
    requires
        n <= b.open_calls.len(),
    ensures
        calls_so_far(abandoned_calls(b, now, n)) == calls_so_far(b) + Seq::new(
            n,
            |i: int| abandoned(b.open_calls[i], now),
        ),
    decreases n,
{
    let done = Seq::new(n, |i: int| abandoned(b.open_calls[i], now));
    if n == 0 {
        assert(calls_so_far(b) + done =~= calls_so_far(b));
    } else {
        lemma_unanswered(b, now, (n - 1) as nat);
        let fewer = Seq::new((n - 1) as nat, |i: int| abandoned(b.open_calls[i], now));
        let call = abandoned(b.open_calls[n - 1], now);
        let before = abandoned_calls(b, now, (n - 1) as nat);
        calls_are_recorded_in_order(before, b.open_calls[n - 1].turn, call);
        assert((calls_so_far(b) + fewer) + seq![call] =~= calls_so_far(b) + done);
    }
}

/// A run that reports success is one; one that reports failure is partial where
/// any call of it succeeded and else a failure.
pub proof fn one_good_call_makes_a_failure_partial(
    success: bool,
    turns: Seq<TurnView>,
    i: int,
    j: int,
)
    ensures
        success ==> outcome_of(success, turns) == TrajectoryOutcome::Success,
        !success && 0 <= i < turns.len() && 0 <= j < turns[i].tool_calls.len()
            && turns[i].tool_calls[j].ok ==> outcome_of(success, turns)
            == TrajectoryOutcome::Partial,
        !success && (forall|k: int|
            0 <= k < calls_in(turns).len() ==> !(#[trigger] calls_in(turns)[k]).ok) ==> outcome_of(
            success,
            turns,
        ) == TrajectoryOutcome::Failure,
{
    if any_call_ok(turns) {
        let (a, c) = choose|a: int, c: int|
            0 <= a < turns.len() && 0 <= c < turns[a].tool_calls.len()
                && #[trigger] turns[a].tool_calls[c].ok;
        lemma_call_is_in(turns, a, c);
        let k = choose|k: int|
            0 <= k < calls_in(turns).len() && calls_in(turns)[k] == turns[a].tool_calls[c];
        assert(calls_in(turns)[k].ok);
    }
}

proof fn lemma_call_is_in(turns: Seq<TurnView>, i: int, j: int)
    requires
        0 <= i < turns.len(),
        0 <= j < turns[i].tool_calls.len(),
    ensures
        calls_in(turns).contains(turns[i].tool_calls[j]),
    decreases turns.len(),
{
    let fewer = turns.drop_last();
    let last = turns.last();
    assert(turns =~= fewer.push(last));
    lemma_calls_in_push(fewer, last);
    let all = calls_in(turns);
    if i == turns.len() - 1 {
        assert(all[calls_in(fewer).len() + j] == last.tool_calls[j]);
    } else {
        lemma_call_is_in(fewer, i, j);
        let k = choose|k: int|
            0 <= k < calls_in(fewer).len() && calls_in(fewer)[k] == fewer[i].tool_calls[j];
        assert(all[k] == turns[i].tool_calls[j]);
    }
}

/// Every turn adds its own tokens and its own calls to the totals of a run,
/// which are held at the largest number.
pub proof fn every_turn_adds_its_tokens(turns: Seq<TurnView>, t: TurnView)
    ensures
        tokens_of(Seq::empty()) == (TokenSummary {
            input_tokens: 0,
            output_tokens: 0,
            cached_input_tokens: None,
            cache_write_tokens: None,
            reasoning_tokens: None,
        }),
        ({
            let before = tokens_of(turns);
            let after = tokens_of(turns.push(t));
            &&& before.input_tokens + t.input_tokens <= u64::MAX ==> after.input_tokens
                == before.input_tokens + t.input_tokens
            &&& before.input_tokens + t.input_tokens > u64::MAX ==> after.input_tokens == u64::MAX
            &&& before.output_tokens + t.output_tokens <= u64::MAX ==> after.output_tokens
                == before.output_tokens + t.output_tokens
            &&& before.output_tokens + t.output_tokens > u64::MAX ==> after.output_tokens
                == u64::MAX
            &&& after.cached_input_tokens is None
            &&& after.cache_write_tokens is None
            &&& after.reasoning_tokens is None
        }),
{
    lemma_sums_push(turns, t, turns.len());
}

proof fn lemma_sums_push(turns: Seq<TurnView>, t: TurnView, n: nat)
    requires
        n <= turns.len(),
    ensures
        input_sum(turns.push(t), n) == input_sum(turns, n),
        output_sum(turns.push(t), n) == output_sum(turns, n),
    decreases n,
{
    if n > 0 {
        lemma_sums_push(turns, t, (n - 1) as nat);
    }
}

/// The calls of a run are counted one by one.
pub proof fn every_call_is_counted(turns: Seq<TurnView>)
    ensures
        call_count(turns, turns.len()) == calls_in(turns).len(),
    decreases turns.len(),
{
    if turns.len() == 0 {
        let lists = turns.map_values(|t: TurnView| t.tool_calls);
        assert(lists.len() == 0);
        assert(lists.flatten() =~= Seq::<CallView>::empty());
    } else {
        let fewer = turns.drop_last();
        every_call_is_counted(fewer);
        assert(turns =~= fewer.push(turns.last()));
        lemma_calls_in_push(fewer, turns.last());
        lemma_call_count_push(fewer, turns.last(), fewer.len());
    }
}

/// A record says of its run what the run was started with and what its end
/// reported; the outcome and the tokens are those of the turns that it holds.
pub proof fn a_record_tells_its_run(
    b: BuilderView,
    success: bool,
    total_turns: usize,
    duration_ms: u64,
    now: u128,
)
    ensures
        ({
            let r = finished_record(b, success, total_turns, duration_ms, now);
            &&& r.session_id == b.session_id
            &&& r.run_id == b.run_id
            &&& r.started_at == b.started_at
            &&& r.duration_ms == duration_ms
            &&& r.total_turns == total_turns
            &&& r.turns == run_turns(b, now)
            &&& r.outcome == outcome_of(success, r.turns)
            &&& r.token_summary == tokens_of(r.turns)
            &&& b.open_calls.len() == 0 ==> r.turns == closed_current(b).turns
        }),
{
}

/// The three outcomes have names of their own.
pub proof fn outcomes_are_told_apart(outcome: TrajectoryOutcome)
    ensures
        outcome_name(outcome) == "success"@ <==> outcome == TrajectoryOutcome::Success,
        outcome_name(outcome) == "failure"@ <==> outcome == TrajectoryOutcome::Failure,
        outcome_name(outcome) == "partial"@ <==> outcome == TrajectoryOutcome::Partial,
{
    reveal_strlit("success");
    reveal_strlit("failure");
    reveal_strlit("partial");
    assert("success"@[0] == 's' && "failure"@[0] == 'f' && "partial"@[0] == 'p');
}

/// Whether a builder has recorded a call in a turn of this number.
pub open spec fn has_call(b: BuilderView, turn: usize, call: CallView) -> bool {
    ||| exists|k: int|
        0 <= k < b.turns.len() && (#[trigger] b.turns[k]).turn == turn
            && b.turns[k].tool_calls.contains(call)
    ||| b.current matches Some(t) && t.turn == turn && t.tool_calls.contains(call)
}

/// What was recorded in a turn stays there, whatever is recorded afterwards.
pub proof fn a_recorded_call_stays_in_its_turn(
    b: BuilderView,
    turn: usize,
    call: CallView,
    other_turn: usize,
    other: CallView,
)
    requires
        has_call(b, turn, call),
    ensures
        has_call(closed_current(b), turn, call),
        has_call(with_call(b, other_turn, other), turn, call),
{
    let closed = closed_current(b);
    let after = with_call(b, other_turn, other);
    if exists|k: int|
        0 <= k < b.turns.len() && (#[trigger] b.turns[k]).turn == turn
            && b.turns[k].tool_calls.contains(call) {
        let k = choose|k: int|
            0 <= k < b.turns.len() && (#[trigger] b.turns[k]).turn == turn
                && b.turns[k].tool_calls.contains(call);
        assert(closed.turns[k] == b.turns[k]);
        assert(after.turns[k] == b.turns[k]);
    } else {
        let k = b.turns.len() as int;
        assert(closed.turns[k].turn == turn && closed.turns[k].tool_calls.contains(call));
        let calls = b.current->0.tool_calls;
        let i = choose|i: int| 0 <= i < calls.len() && calls[i] == call;
        assert(calls.push(other)[i] == call);
        if other_turn == turn {
            assert(after.current->0.tool_calls == calls.push(other));
        } else {
            assert(after.turns == closed.turns);
            assert(after.turns[k].turn == turn);
        }
    }
}

/// An unanswered call is recorded in the turn that it was dispatched in.
pub proof fn an_unanswered_call_stays_in_its_turn(b: BuilderView, now: u128, i: int)
    requires
        0 <= i < b.open_calls.len(),
    ensures
        exists|k: int|
            0 <= k < run_turns(b, now).len() && (#[trigger] run_turns(b, now)[k]).turn
                == b.open_calls[i].turn && run_turns(b, now)[k].tool_calls.contains(
                abandoned(b.open_calls[i], now),
            ),
{
    let n = b.open_calls.len();
    lemma_abandoned_in_turn(b, now, i, n);
    let last = abandoned_calls(b, now, n);
    let call = abandoned(b.open_calls[i], now);
    let turn = b.open_calls[i].turn;
    a_recorded_call_stays_in_its_turn(last, turn, call, turn, call);
    let done = closed_current(last);
    let k = choose|k: int|
        0 <= k < done.turns.len() && (#[trigger] done.turns[k]).turn == turn
            && done.turns[k].tool_calls.contains(call);
    assert(run_turns(b, now)[k] == done.turns[k]);
}

proof fn lemma_abandoned_in_turn(b: BuilderView, now: u128, i: int, n: nat)
    requires
        0 <= i < n <= b.open_calls.len(),
    ensures
        has_call(
            abandoned_calls(b, now, n),
            b.open_calls[i].turn,
            abandoned(b.open_calls[i], now),
        ),
    decreases n,
{
    let before = abandoned_calls(b, now, (n - 1) as nat);
    let open = b.open_calls[n - 1];
    let call = abandoned(open, now);
    if i == n - 1 {
        let after = with_call(before, open.turn, call);
        let calls = after.current->0.tool_calls;
        assert(calls[calls.len() - 1] == call);
    } else {
        lemma_abandoned_in_turn(b, now, i, (n - 1) as nat);
        a_recorded_call_stays_in_its_turn(
            before,
            b.open_calls[i].turn,
            abandoned(b.open_calls[i], now),
            open.turn,
            call,
        );
    }
}

/// Unless told otherwise, two thousand characters of a response are captured.
pub proof fn two_thousand_characters_are_captured()
    ensures
        DEFAULT_CAPTURE_LIMIT == 2_000,
{
}

/// What happens in a run leaves everything else of an observer alone: the
/// finished records, the ledger and the limits.
pub proof fn a_run_touches_only_itself(o: ObserverView, b: BuilderView)
    ensures
        with_inner(o, b).inner == Some(b),
        with_inner(o, b).finished == o.finished,
        with_inner(o, b).sink == o.sink,
        with_inner(o, b).capture_limit == o.capture_limit,
        with_inner(o, b).retention == o.retention,
{
}

} // verus!
