//! What a provider is asked when it is to extract lessons from a record.

use vstd::prelude::*;

use crate::memory::clip;
use crate::memory::mining;
use crate::memory::mining::{ExtractedMemory, MinedView};
use crate::memory::trajectory;
use crate::memory::trajectory::{
    CallView, RecordView, TrajectoryRecord, TrajectoryToolCall, TrajectoryTurn, TurnView,
};
use crate::text;

verus! {

/// What the provider is told to do.
pub const INSTRUCTION: &'static str = "You are a memory extractor. Read the agent trajectory and emit JSON: an array of {\"category\",\"content\",\"tags\",\"quality\"} objects. category is one of \"strategy\", \"error_pattern\", \"insight\", or \"optimization\". Only emit genuinely reusable lessons, phrased as advice.";

/// What the provider is told of the lessons that were found already.
pub const PREAMBLE: &'static str = "\nCandidate lessons already mined from this trajectory follow; refine, merge, generalize, and drop the weak ones:\n";

/// The bytes of the mark that older turns were left out.
pub const MARK_BYTES: usize = 4;

/// The mark that older turns were left out.
pub open spec fn cut_mark() -> Seq<char> {
    "\u{2026}\n"@
}

proof fn lemma_cut_mark()
    ensures
        text::byte_length(cut_mark()) == MARK_BYTES,
{
    reveal_strlit("\u{2026}\n");
    let none = Seq::<char>::empty();
    let one = none.push('\u{2026}');
    assert(cut_mark() =~= one.push('\n'));
    text::lemma_byte_length_push(none, '\u{2026}');
    text::lemma_byte_length_push(one, '\n');
    text::lemma_byte_length_bounds(none);
}

/// The head of a summary, which is never left out.
pub open spec fn summary_head(record: RecordView) -> Seq<char> {
    "outcome: "@ + trajectory::outcome_name(record.outcome) + "\ntotal turns: "@ + text::decimal(
        record.total_turns as nat,
    ) + "\n"@
}

/// A call as a summary shows it.
pub open spec fn call_flag(call: CallView) -> Seq<char> {
    if call.ok {
        call.tool + "(ok)"@
    } else {
        call.tool + "(error)"@
    }
}

/// The calls of a turn as a summary shows them.
pub open spec fn call_flags(calls: Seq<CallView>) -> Seq<Seq<char>> {
    calls.map_values(|c: CallView| call_flag(c))
}

/// The line of a turn.
pub open spec fn turn_line(turn: TurnView) -> Seq<char> {
    "turn: "@ + text::decimal(turn.turn as nat) + " | tools: "@ + text::joined(
        call_flags(turn.tool_calls),
        ", "@,
    ) + " | query: "@ + clip::clipped(turn.query, 200) + " | response: "@ + clip::clipped(
        turn.response_text,
        160,
    ) + "\n"@
}

/// What a budget leaves for lines.
pub open spec fn line_budget(budget: nat) -> int {
    if budget >= MARK_BYTES {
        budget - MARK_BYTES
    } else {
        0
    }
}

/// The lines of the first `n` turns, newest first, where `used` bytes are
/// spent. The first line that does not fit is replaced by the mark, and nothing
/// follows it.
pub open spec fn turn_lines(turns: Seq<TurnView>, n: nat, used: nat, budget: nat) -> Seq<char>
    decreases n,
{
    if n == 0 {
        Seq::empty()
    } else {
        let line = turn_line(turns[n - 1]);
        if used + text::byte_length(line) > line_budget(budget) {
            cut_mark()
        } else {
            line + turn_lines(turns, (n - 1) as nat, used + text::byte_length(line), budget)
        }
    }
}

/// The summary of a record within a budget.
pub open spec fn summary(record: RecordView, budget: nat) -> Seq<char> {
    let head = summary_head(record);
    head + turn_lines(record.turns, record.turns.len(), text::byte_length(head), budget)
}

fn flag_text(call: &TrajectoryToolCall) -> (out: String)
    ensures
        out@ == call_flag(call@),
{
    let mut out = call.tool.clone();
    if call.ok {
        text::push_text(&mut out, "(ok)");
    } else {
        text::push_text(&mut out, "(error)");
    }
    out
}

fn line_text(turn: &TrajectoryTurn) -> (out: String)
    ensures
        out@ == turn_line(turn@),
{
    let ghost calls = turn@.tool_calls;
    let mut flags: Vec<String> = Vec::new();
    let mut i: usize = 0;
    assert(text::texts(flags@) =~= call_flags(calls).take(0));
    while i < turn.tool_calls.len()
        invariant
            i <= turn.tool_calls.len(),
            calls == trajectory::call_views(turn.tool_calls@),
            text::texts(flags@) == call_flags(calls).take(i as int),
        decreases turn.tool_calls.len() - i,
    {
        let flag = flag_text(&turn.tool_calls[i]);
        proof {
            assert(calls[i as int] == turn.tool_calls@[i as int]@);
            assert(text::texts(flags@.push(flag)) =~= text::texts(flags@).push(flag@));
            assert(call_flags(calls).take(i + 1) =~= call_flags(calls).take(i as int).push(
                call_flag(calls[i as int]),
            ));
        }
        flags.push(flag);
        i = i + 1;
    }
    assert(call_flags(calls).take(calls.len() as int) =~= call_flags(calls));
    let mut out = String::from_str("turn: ");
    text::push_decimal(&mut out, turn.turn as u128);
    text::push_text(&mut out, " | tools: ");
    let tools = text::join(&flags, ", ");
    text::push_text(&mut out, tools.as_str());
    text::push_text(&mut out, " | query: ");
    let query = clip::truncate(turn.query.as_str(), 200);
    text::push_text(&mut out, query.as_str());
    text::push_text(&mut out, " | response: ");
    let response = clip::truncate(turn.response_text.as_str(), 160);
    text::push_text(&mut out, response.as_str());
    text::push_text(&mut out, "\n");
    out
}

/// Summarizes a record within a budget of bytes.
pub fn summarize_trajectory(record: &TrajectoryRecord, budget: usize) -> (out: String)
    ensures
        out@ == summary(record@, budget as nat),
{
    let mut out = String::from_str("outcome: ");
    text::push_text(&mut out, trajectory::outcome_label(&record.outcome));
    text::push_text(&mut out, "\ntotal turns: ");
    text::push_decimal(&mut out, record.total_turns as u128);
    text::push_text(&mut out, "\n");
    let ghost turns = record@.turns;
    let ghost whole = summary(record@, budget as nat);
    let room: usize = budget.saturating_sub(MARK_BYTES);
    let mut used: usize = text::byte_len(out.as_str());
    let mut n: usize = record.turns.len();
    while n > 0
        invariant
            n <= record.turns.len(),
            turns == trajectory::turn_views(record.turns@),
            room == line_budget(budget as nat),
            whole == summary(record@, budget as nat),
            out@ + turn_lines(turns, n as nat, used as nat, budget as nat) == whole,
        decreases n,
    {
        n = n - 1;
        let line = line_text(&record.turns[n]);
        let len: usize = text::byte_len(line.as_str());
        assert(turns[n as int] == record.turns@[n as int]@);
        if used > room || len > room - used {
            text::push_text(&mut out, "\u{2026}\n");
            return out;
        }
        let ghost before = out@;
        text::push_text(&mut out, line.as_str());
        proof {
            let rest = turn_lines(turns, n as nat, (used + len) as nat, budget as nat);
            assert((before + line@) + rest =~= before + (line@ + rest));
        }
        used = used + len;
    }
    assert(out@ + Seq::<char>::empty() =~= out@);
    out
}

/// The line of a candidate.
pub open spec fn candidate_line(m: MinedView) -> Seq<char> {
    "- ["@ + mining::category_name(m.category) + "] "@ + m.content + "\n"@
}

/// The lines of the candidates from `i` on that fit; the first that does not
/// ends the list.
pub open spec fn candidate_lines(list: Seq<MinedView>, i: int, budget: nat) -> Seq<char>
    decreases list.len() - i,
{
    if i >= list.len() {
        Seq::empty()
    } else {
        let line = candidate_line(list[i]);
        if text::byte_length(line) > budget {
            Seq::empty()
        } else {
            line + candidate_lines(list, i + 1, (budget - text::byte_length(line)) as nat)
        }
    }
}

/// Appends the lines of the candidates that fit into a budget of bytes.
pub fn append_candidate_lines(system: &mut String, candidates: &Vec<ExtractedMemory>, budget: usize)
    ensures
        final(system)@ == old(system)@ + candidate_lines(
            mining::mined_views(candidates@),
            0,
            budget as nat,
        ),
{
    let ghost views = mining::mined_views(candidates@);
    let ghost whole = system@ + candidate_lines(views, 0, budget as nat);
    let mut remaining: usize = budget;
    let mut i: usize = 0;
    while i < candidates.len()
        invariant
            i <= candidates.len(),
            views == mining::mined_views(candidates@),
            whole == old(system)@ + candidate_lines(views, 0, budget as nat),
            system@ + candidate_lines(views, i as int, remaining as nat) == whole,
        decreases candidates.len() - i,
    {
        let mut line = String::from_str("- [");
        text::push_text(&mut line, mining::category_label(candidates[i].category));
        text::push_text(&mut line, "] ");
        text::push_text(&mut line, candidates[i].content.as_str());
        text::push_text(&mut line, "\n");
        let len: usize = text::byte_len(line.as_str());
        assert(views[i as int] == candidates@[i as int]@);
        if len > remaining {
            assert(system@ + Seq::<char>::empty() =~= system@);
            return;
        }
        let ghost before = system@;
        text::push_text(system, line.as_str());
        proof {
            let rest = candidate_lines(views, i + 1, (remaining - len) as nat);
            assert((before + line@) + rest =~= before + (line@ + rest));
        }
        remaining = remaining - len;
        i = i + 1;
    }
    assert(system@ + Seq::<char>::empty() =~= system@);
}

/// What is sent to the provider.
#[derive(Debug)]
pub struct ExtractionPrompt {
    /// The instruction, with the candidates where there are any.
    pub system: String,
    /// The summary of the record.
    pub summary: String,
}

/// A difference held at zero.
pub open spec fn rest_of(budget: nat, spent: nat) -> nat {
    if budget >= spent {
        (budget - spent) as nat
    } else {
        0
    }
}

/// The instruction with its preamble, where there are candidates.
pub open spec fn instruction(refining: bool) -> Seq<char> {
    if refining {
        INSTRUCTION@ + PREAMBLE@
    } else {
        INSTRUCTION@
    }
}

/// The summary that goes with an instruction into one budget.
pub open spec fn prompt_summary(record: RecordView, budget: nat, refining: bool) -> Seq<char> {
    summary(record, rest_of(budget, text::byte_length(instruction(refining))))
}

/// The instruction with the candidates that still fit.
pub open spec fn prompt_system(
    record: RecordView,
    budget: nat,
    candidates: Option<Seq<MinedView>>,
) -> Seq<char> {
    match candidates {
        None => instruction(false),
        Some(list) => instruction(true) + candidate_lines(
            list,
            0,
            rest_of(
                rest_of(budget, text::byte_length(instruction(true))),
                text::byte_length(prompt_summary(record, budget, true)),
            ),
        ),
    }
}

/// Writes the prompt for a record. With candidates the provider is asked to
/// refine them.
pub fn extraction_prompt(
    record: &TrajectoryRecord,
    budget: usize,
    candidates: Option<&Vec<ExtractedMemory>>,
) -> (out: ExtractionPrompt)
    ensures
        out.summary@ == prompt_summary(record@, budget as nat, candidates is Some),
        out.system@ == prompt_system(
            record@,
            budget as nat,
            match candidates {
                Some(list) => Some(mining::mined_views(list@)),
                None => None,
            },
        ),
{
    let mut system = String::from_str(INSTRUCTION);
    if candidates.is_some() {
        text::push_text(&mut system, PREAMBLE);
    }
    let room: usize = budget.saturating_sub(text::byte_len(system.as_str()));
    let summary = summarize_trajectory(record, room);
    if let Some(list) = candidates {
        let left: usize = room.saturating_sub(text::byte_len(summary.as_str()));
        append_candidate_lines(&mut system, list, left);
    }
    ExtractionPrompt { system, summary }
}

// ---------------------------------------------------------------------------
// Laws
// ---------------------------------------------------------------------------

proof fn lemma_turn_lines_fit(turns: Seq<TurnView>, n: nat, used: nat, budget: nat)
    ensures
        used + text::byte_length(turn_lines(turns, n, used, budget)) <= budget || text::byte_length(
            turn_lines(turns, n, used, budget),
        ) <= MARK_BYTES,
    decreases n,
{
    lemma_cut_mark();
    text::lemma_byte_length_bounds(Seq::<char>::empty());
    if n > 0 {
        let line = turn_line(turns[n - 1]);
        if used + text::byte_length(line) <= line_budget(budget) {
            let next = used + text::byte_length(line);
            let rest = turn_lines(turns, (n - 1) as nat, next, budget);
            lemma_turn_lines_fit(turns, (n - 1) as nat, next, budget);
            text::lemma_encoding_of_parts(line, rest);
            text::lemma_byte_length_bounds(line);
            assert(line.len() > 0);
        }
    }
}

/// A summary takes no more bytes than its budget, or than its head and the
/// mark where the budget is too small for those.
pub proof fn a_summary_stays_within_its_budget(record: RecordView, budget: nat)
    ensures
        text::byte_length(summary(record, budget)) <= budget || text::byte_length(
            summary(record, budget),
        ) <= text::byte_length(summary_head(record)) + MARK_BYTES,
        text::byte_length(summary_head(record)) + MARK_BYTES <= budget ==> text::byte_length(
            summary(record, budget),
        ) <= budget,
{
    let head = summary_head(record);
    let used = text::byte_length(head);
    lemma_turn_lines_fit(record.turns, record.turns.len(), used, budget);
    text::lemma_encoding_of_parts(
        head,
        turn_lines(record.turns, record.turns.len(), used, budget),
    );
}

proof fn lemma_candidate_lines_fit(list: Seq<MinedView>, i: int, budget: nat)
    ensures
        text::byte_length(candidate_lines(list, i, budget)) <= budget,
    decreases list.len() - i,
{
    text::lemma_byte_length_bounds(Seq::<char>::empty());
    if i < list.len() {
        let line = candidate_line(list[i]);
        if text::byte_length(line) <= budget {
            let left = (budget - text::byte_length(line)) as nat;
            lemma_candidate_lines_fit(list, i + 1, left);
            text::lemma_encoding_of_parts(line, candidate_lines(list, i + 1, left));
        }
    }
}

/// The whole prompt, candidates included, takes no more bytes than the budget,
/// wherever the budget has room for the instruction, the head and the mark.
pub proof fn a_prompt_stays_within_its_budget(
    record: RecordView,
    budget: nat,
    candidates: Option<Seq<MinedView>>,
)
    requires
        text::byte_length(instruction(candidates is Some)) + text::byte_length(summary_head(record))
            + MARK_BYTES <= budget,
    ensures
        text::byte_length(prompt_system(record, budget, candidates)) + text::byte_length(
            prompt_summary(record, budget, candidates is Some),
        ) <= budget,
{
    let told = text::byte_length(instruction(candidates is Some));
    let room = rest_of(budget, told);
    a_summary_stays_within_its_budget(record, room);
    if let Some(list) = candidates {
        let left = rest_of(
            room,
            text::byte_length(prompt_summary(record, budget, true)),
        );
        lemma_candidate_lines_fit(list, 0, left);
        text::lemma_encoding_of_parts(instruction(true), candidate_lines(list, 0, left));
    }
}

/// A summary lists the newest turns, newest first, as many as fit with its head
/// and the mark into its budget: the result is their number. Only where a turn
/// was left out does the mark end the summary, and the next turn would not have
/// fitted.
pub proof fn a_summary_lists_the_newest_turns(record: RecordView, budget: nat) -> (k: nat)
    ensures
        k <= record.turns.len(),
        ({
            let n = record.turns.len();
            let shown = Seq::new(k, |i: int| turn_line(record.turns[n - 1 - i]));
            let start = summary_head(record) + shown.flatten();
            &&& k == n ==> summary(record, budget) == start
            &&& k < n ==> summary(record, budget) == start + seq!['\u{2026}', '\n']
            &&& k > 0 ==> text::byte_length(start) + 4 <= budget
            &&& k < n ==> text::byte_length(start) + text::byte_length(
                turn_line(record.turns[n - 1 - k]),
            ) + 4 > budget
        }),
{
    let head = summary_head(record);
    let n = record.turns.len();
    reveal_strlit("\u{2026}\n");
    assert(cut_mark() =~= seq!['\u{2026}', '\n']);
    let k = lemma_turn_lines(record.turns, n, head, budget);
    k
}

proof fn lemma_turn_lines(turns: Seq<TurnView>, n: nat, head: Seq<char>, budget: nat) -> (k: nat)
    requires
        n <= turns.len(),
    ensures
        k <= n,
        ({
            let shown = Seq::new(k, |i: int| turn_line(turns[n - 1 - i]));
            let whole = head + turn_lines(turns, n, text::byte_length(head), budget);
            let start = head + shown.flatten();
            &&& k == n ==> whole == start
            &&& k < n ==> whole == start + cut_mark()
            &&& k > 0 ==> text::byte_length(start) + 4 <= budget
            &&& k < n ==> text::byte_length(start) + text::byte_length(turn_line(turns[n - 1 - k]))
                + 4 > budget
        }),
    decreases n,
{
    let none = Seq::new(0, |i: int| turn_line(turns[n - 1 - i]));
    assert(none.flatten() =~= Seq::<char>::empty());
    assert(head + none.flatten() =~= head);
    let used = text::byte_length(head);
    if n == 0 {
        assert(head + turn_lines(turns, n, used, budget) =~= head);
        0
    } else {
        let line = turn_line(turns[n - 1]);
        if used + text::byte_length(line) > line_budget(budget) {
            0
        } else {
            text::lemma_encoding_of_parts(head, line);
            let longer = head + line;
            let m = lemma_turn_lines(turns, (n - 1) as nat, longer, budget);
            lemma_one_more_line(turns, n, head, m);
            let k = m + 1;
            let rest = Seq::new(m, |i: int| turn_line(turns[n - 2 - i]));
            let shown = Seq::new(k, |i: int| turn_line(turns[n - 1 - i]));
            let less = (n - 1) as nat;
            let again = Seq::new(m, |i: int| turn_line(turns[less - 1 - i]));
            assert(again =~= rest);
            let after = turn_lines(turns, less, text::byte_length(longer), budget);
            assert(head + (line + after) =~= longer + after);
            k
        }
    }
}

proof fn lemma_one_more_line(turns: Seq<TurnView>, n: nat, head: Seq<char>, m: nat)
    requires
        0 < n <= turns.len(),
        m < n,
    ensures
        ({
            let line = turn_line(turns[n - 1]);
            let rest = Seq::new(m, |i: int| turn_line(turns[n - 2 - i]));
            let shown = Seq::new(m + 1, |i: int| turn_line(turns[n - 1 - i]));
            &&& head + shown.flatten() == (head + line) + rest.flatten()
            &&& m == 0 ==> (head + line) + rest.flatten() == head + line
        }),
{
    let line = turn_line(turns[n - 1]);
    let rest = Seq::new(m, |i: int| turn_line(turns[n - 2 - i]));
    let shown = Seq::new(m + 1, |i: int| turn_line(turns[n - 1 - i]));
    assert(shown.drop_first() =~= rest);
    assert(shown.first() == line);
    assert(shown.flatten() == line + rest.flatten());
    assert(head + (line + rest.flatten()) =~= (head + line) + rest.flatten());
    if m == 0 {
        assert(rest.flatten() =~= Seq::<char>::empty());
        assert((head + line) + rest.flatten() =~= head + line);
    }
}

/// A prompt lists the first candidates, in their order, as many as fit into
/// what is left of the budget: the result is their number, and the next one
/// would not have fitted.
pub proof fn a_prompt_lists_the_first_candidates(list: Seq<MinedView>, from: int, budget: nat) -> (k:
    nat)
    requires
        0 <= from <= list.len(),
    ensures
        from + k <= list.len(),
        ({
            let shown = Seq::new(k, |i: int| candidate_line(list[from + i])).flatten();
            &&& candidate_lines(list, from, budget) == shown
            &&& text::byte_length(shown) <= budget
            &&& from + k < list.len() ==> text::byte_length(shown) + text::byte_length(
                candidate_line(list[from + k]),
            ) > budget
        }),
    decreases list.len() - from,
{
    let none = Seq::new(0, |i: int| candidate_line(list[from + i]));
    assert(none.flatten() =~= Seq::<char>::empty());
    if from == list.len() {
        0
    } else {
        let line = candidate_line(list[from]);
        if text::byte_length(line) > budget {
            0
        } else {
            let left = (budget - text::byte_length(line)) as nat;
            let m = a_prompt_lists_the_first_candidates(list, from + 1, left);
            let rest = Seq::new(m, |i: int| candidate_line(list[from + 1 + i]));
            let k = m + 1;
            let shown = Seq::new(k, |i: int| candidate_line(list[from + i]));
            assert(shown =~= seq![line] + rest);
            assert(shown.drop_first() =~= rest);
            assert(shown.first() == line);
            assert(shown.flatten() == line + rest.flatten());
            text::lemma_encoding_of_parts(line, rest.flatten());
            k
        }
    }
}

/// A turn's line tells its number, its calls in order with how each went, and
/// the start of its query and its response.
pub proof fn a_turn_s_line_tells_its_calls(turn: TurnView, i: int)
    ensures
        turn_line(turn) == "turn: "@ + text::decimal(turn.turn as nat) + " | tools: "@
            + text::joined(call_flags(turn.tool_calls), ", "@) + " | query: "@ + clip::clipped(
            turn.query,
            200,
        ) + " | response: "@ + clip::clipped(turn.response_text, 160) + "\n"@,
        call_flags(turn.tool_calls).len() == turn.tool_calls.len(),
        0 <= i < turn.tool_calls.len() && turn.tool_calls[i].ok ==> call_flags(turn.tool_calls)[i]
            == turn.tool_calls[i].tool + "(ok)"@,
        0 <= i < turn.tool_calls.len() && !turn.tool_calls[i].ok ==> call_flags(turn.tool_calls)[i]
            == turn.tool_calls[i].tool + "(error)"@,
{
}

/// The summary gets what the instruction leaves of the budget, and the
/// candidates what both leave; a plain prompt is the instruction alone.
pub proof fn a_budget_is_spent_in_order(
    record: RecordView,
    budget: nat,
    list: Seq<MinedView>,
)
    ensures
        prompt_system(record, budget, None) == INSTRUCTION@,
        text::byte_length(INSTRUCTION@) <= budget ==> prompt_summary(record, budget, false)
            == summary(record, (budget - text::byte_length(INSTRUCTION@)) as nat),
        text::byte_length(INSTRUCTION@) > budget ==> prompt_summary(record, budget, false)
            == summary(record, 0),
        text::byte_length(INSTRUCTION@ + PREAMBLE@) <= budget ==> prompt_summary(
            record,
            budget,
            true,
        ) == summary(record, (budget - text::byte_length(INSTRUCTION@ + PREAMBLE@)) as nat),
        ({
            let fixed = text::byte_length(INSTRUCTION@ + PREAMBLE@) + text::byte_length(
                prompt_summary(record, budget, true),
            );
            &&& fixed <= budget ==> prompt_system(record, budget, Some(list)) == INSTRUCTION@
                + PREAMBLE@ + candidate_lines(list, 0, (budget - fixed) as nat)
            &&& fixed >= budget ==> prompt_system(record, budget, Some(list)) == INSTRUCTION@
                + PREAMBLE@ + candidate_lines(list, 0, 0)
        }),
{
}

/// The head of a summary tells the outcome and how many turns the run took.
pub proof fn a_head_tells_outcome_and_turns(record: RecordView)
    ensures
        summary_head(record) == "outcome: "@ + trajectory::outcome_name(record.outcome)
            + "\ntotal turns: "@ + text::decimal(record.total_turns as nat) + "\n"@,
{
}

} // verus!
