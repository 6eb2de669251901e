//! Lessons mined from a record by rule.

use vstd::prelude::*;

use crate::ids;
use crate::memory::clip;
use crate::memory::entry;
use crate::memory::entry::{EntryView, MemoryCategory, MemoryEntry};
use crate::memory::trajectory;
use crate::memory::trajectory::{
    CallView, RecordView, TrajectoryOutcome, TrajectoryRecord, TrajectoryToolCall, TurnView,
};
use crate::ordering;
use crate::selection;
use crate::single::Single;
use crate::text;

verus! {

/// One lesson, before it is written to memory.
#[derive(Debug)]
pub struct ExtractedMemory {
    pub category: MemoryCategory,
    pub content: String,
    pub tags: Vec<String>,
    pub quality: Single,
}

/// What a lesson holds.
pub struct MinedView {
    pub category: MemoryCategory,
    pub content: Seq<char>,
    pub tags: Seq<Seq<char>>,
    pub quality: Single,
}

impl View for ExtractedMemory {
    type V = MinedView;

    open spec fn view(&self) -> MinedView {
        MinedView {
            category: self.category,
            content: self.content@,
            tags: text::texts(self.tags@),
            quality: self.quality,
        }
    }
}

/// What a list of lessons holds.
pub open spec fn mined_views(list: Seq<ExtractedMemory>) -> Seq<MinedView> {
    list.map_values(|m: ExtractedMemory| m@)
}

impl Clone for ExtractedMemory {
    fn clone(&self) -> (r: Self)
        ensures
            r@ == self@,
    {
        ExtractedMemory {
            category: self.category,
            content: self.content.clone(),
            tags: text::copy_texts(&self.tags),
            quality: self.quality,
        }
    }
}

/// The stable name of a category.
pub open spec fn category_name(category: MemoryCategory) -> Seq<char> {
    match category {
        MemoryCategory::Strategy => "strategy"@,
        MemoryCategory::ErrorPattern => "error_pattern"@,
        MemoryCategory::Insight => "insight"@,
        MemoryCategory::Fact => "fact"@,
        MemoryCategory::Working => "working"@,
        MemoryCategory::Trajectory => "trajectory"@,
    }
}

/// The stable name of a category.
pub fn category_label(category: MemoryCategory) -> (label: &'static str)
    ensures
        label@ == category_name(category),
{
    match category {
        MemoryCategory::Strategy => "strategy",
        MemoryCategory::ErrorPattern => "error_pattern",
        MemoryCategory::Insight => "insight",
        MemoryCategory::Fact => "fact",
        MemoryCategory::Working => "working",
        MemoryCategory::Trajectory => "trajectory",
    }
}

// ---------------------------------------------------------------------------
// The calls of a record
// ---------------------------------------------------------------------------

/// All calls of the first `n` turns, in order.
pub open spec fn all_calls(turns: Seq<TurnView>, n: nat) -> Seq<CallView>
    decreases n,
{
    if n == 0 {
        Seq::empty()
    } else {
        all_calls(turns, (n - 1) as nat) + turns[n - 1].tool_calls
    }
}

/// All calls of a record, in order.
pub open spec fn calls_of(record: RecordView) -> Seq<CallView> {
    all_calls(record.turns, record.turns.len())
}

fn flat_calls(record: &TrajectoryRecord) -> (out: Vec<TrajectoryToolCall>)
    ensures
        trajectory::call_views(out@) == calls_of(record@),
{
    let ghost turns = record@.turns;
    let mut out: Vec<TrajectoryToolCall> = Vec::new();
    let mut i: usize = 0;
    assert(trajectory::call_views(out@) =~= Seq::<CallView>::empty());
    while i < record.turns.len()
        invariant
            i <= record.turns.len(),
            turns == trajectory::turn_views(record.turns@),
            trajectory::call_views(out@) == all_calls(turns, i as nat),
        decreases record.turns.len() - i,
    {
        let ghost before = all_calls(turns, i as nat);
        let ghost added = turns[i as int].tool_calls;
        let turn = &record.turns[i];
        assert(turns[i as int] == turn@);
        let mut j: usize = 0;
        assert(before + added.take(0) =~= before);
        while j < turn.tool_calls.len()
            invariant
                j <= turn.tool_calls.len(),
                added == trajectory::call_views(turn.tool_calls@),
                trajectory::call_views(out@) == before + added.take(j as int),
            decreases turn.tool_calls.len() - j,
        {
            let copy = turn.tool_calls[j].clone();
            proof {
                assert(trajectory::call_views(out@.push(copy)) =~= trajectory::call_views(
                    out@,
                ).push(copy@));
                assert(added[j as int] == copy@);
                assert(before + added.take(j + 1) =~= (before + added.take(j as int)).push(copy@));
            }
            out.push(copy);
            j = j + 1;
        }
        assert(added.take(added.len() as int) =~= added);
        i = i + 1;
    }
    out
}

// ---------------------------------------------------------------------------
// Recoveries
// ---------------------------------------------------------------------------

/// The quality of a recovery lesson, 0.7.
pub const RECOVERY_QUALITY: u32 = 0x3f33_3333;

/// Whether some call of the list succeeded with this tool.
pub open spec fn succeeds_in(calls: Seq<CallView>, tool: Seq<char>) -> bool {
    exists|i: int| 0 <= i < calls.len() && (#[trigger] calls[i]).ok && calls[i].tool == tool
}

/// The lesson of a failed call whose tool succeeded later.
pub open spec fn recovery_lesson(tool: Seq<char>) -> MinedView {
    MinedView {
        category: MemoryCategory::ErrorPattern,
        content: "a "@ + tool + " call failed and a later "@ + tool
            + " call succeeded \u{2014} retry "@ + tool
            + " after adjusting the input before giving up"@,
        tags: seq!["recovery"@],
        quality: Single { bits: RECOVERY_QUALITY },
    }
}

/// One lesson for each failed call whose tool succeeds later, newest first.
pub open spec fn recoveries(calls: Seq<CallView>) -> Seq<MinedView>
    decreases calls.len(),
{
    if calls.len() == 0 {
        Seq::empty()
    } else {
        let newer = recoveries(calls.skip(1));
        if !calls[0].ok && succeeds_in(calls.skip(1), calls[0].tool) {
            newer.push(recovery_lesson(calls[0].tool))
        } else {
            newer
        }
    }
}

fn one_tag(tag: &str) -> (tags: Vec<String>)
    ensures
        text::texts(tags@) == seq![tag@],
{
    let mut tags: Vec<String> = Vec::new();
    tags.push(String::from_str(tag));
    assert(text::texts(tags@) =~= seq![tag@]);
    tags
}

fn recovery_memory(tool: &str) -> (m: ExtractedMemory)
    ensures
        m@ == recovery_lesson(tool@),
{
    let mut content = String::from_str("a ");
    text::push_text(&mut content, tool);
    text::push_text(&mut content, " call failed and a later ");
    text::push_text(&mut content, tool);
    text::push_text(&mut content, " call succeeded \u{2014} retry ");
    text::push_text(&mut content, tool);
    text::push_text(&mut content, " after adjusting the input before giving up");
    ExtractedMemory {
        category: MemoryCategory::ErrorPattern,
        content,
        tags: one_tag("recovery"),
        quality: Single { bits: RECOVERY_QUALITY },
    }
}

/// Mines failures that a later call recovered from.
pub fn mine_recoveries(record: &TrajectoryRecord) -> (out: Vec<ExtractedMemory>)
    ensures
        mined_views(out@) == recoveries(calls_of(record@)),
{
    let flat = flat_calls(record);
    let ghost calls = calls_of(record@);
    let mut out: Vec<ExtractedMemory> = Vec::new();
    let mut recovered: Vec<String> = Vec::new();
    let mut i: usize = flat.len();
    assert(calls.skip(calls.len() as int) =~= Seq::<CallView>::empty());
    assert(mined_views(out@) =~= Seq::<MinedView>::empty());
    while i > 0
        invariant
            i <= flat.len(),
            calls == trajectory::call_views(flat@),
            mined_views(out@) == recoveries(calls.skip(i as int)),
            forall|t: Seq<char>| #[trigger]
                text::texts(recovered@).contains(t) <==> succeeds_in(calls.skip(i as int), t),
        decreases i,
    {
        i = i - 1;
        let ghost newer = calls.skip(i + 1);
        let ghost now = calls.skip(i as int);
        let call = &flat[i];
        proof {
            assert(now.skip(1) =~= newer);
            assert(now[0] == call@);
        }
        let seen = text::list_contains(&recovered, call.tool.as_str());
        let ghost before = recovered@;
        if call.ok {
            if !seen {
                recovered.push(call.tool.clone());
            }
            proof {
                assert forall|t: Seq<char>| #[trigger]
                    text::texts(recovered@).contains(t) <==> succeeds_in(now, t) by {
                    lemma_success_step(calls, i as int, t);
                    if !seen {
                        lemma_contains_push(before, recovered@.last(), t);
                        assert(recovered@ =~= before.push(recovered@.last()));
                    }
                }
            }
        } else {
            proof {
                assert forall|t: Seq<char>| #[trigger]
                    text::texts(recovered@).contains(t) <==> succeeds_in(now, t) by {
                    lemma_success_step(calls, i as int, t);
                }
            }
            if seen {
                let m = recovery_memory(call.tool.as_str());
                assert(mined_views(out@.push(m)) =~= mined_views(out@).push(m@));
                out.push(m);
            }
        }
    }
    assert(calls.skip(0) =~= calls);
    out
}

proof fn lemma_success_step(calls: Seq<CallView>, i: int, t: Seq<char>)
    requires
        0 <= i < calls.len(),
    ensures
        succeeds_in(calls.skip(i), t) == (succeeds_in(calls.skip(i + 1), t) || (calls[i].ok
            && calls[i].tool == t)),
{
    let now = calls.skip(i);
    let newer = calls.skip(i + 1);
    if succeeds_in(newer, t) {
        let k = choose|k: int| 0 <= k < newer.len() && (#[trigger] newer[k]).ok && newer[k].tool == t;
        assert(now[k + 1] == newer[k]);
    }
    if calls[i].ok && calls[i].tool == t {
        assert(now[0] == calls[i]);
    }
    if succeeds_in(now, t) {
        let k = choose|k: int| 0 <= k < now.len() && (#[trigger] now[k]).ok && now[k].tool == t;
        if k > 0 {
            assert(newer[k - 1] == now[k]);
        }
    }
}

proof fn lemma_contains_push(list: Seq<String>, s: String, t: Seq<char>)
    ensures
        text::texts(list.push(s)).contains(t) == (text::texts(list).contains(t) || s@ == t),
{
    let longer = text::texts(list.push(s));
    let shorter = text::texts(list);
    if shorter.contains(t) {
        let k = choose|k: int| 0 <= k < shorter.len() && shorter[k] == t;
        assert(longer[k] == t);
    }
    if s@ == t {
        assert(longer[list.len() as int] == t);
    }
    if longer.contains(t) {
        let k = choose|k: int| 0 <= k < longer.len() && longer[k] == t;
        if k < shorter.len() {
            assert(shorter[k] == t);
        }
    }
}

// ---------------------------------------------------------------------------
// Strategies
// ---------------------------------------------------------------------------

/// How many tool names a strategy lists before it counts the rest.
pub const CHAIN_LISTING_CAP: usize = 8;

/// The tools of the successful calls, in order.
pub open spec fn chain_of(calls: Seq<CallView>) -> Seq<Seq<char>>
    decreases calls.len(),
{
    if calls.len() == 0 {
        Seq::empty()
    } else {
        let before = chain_of(calls.drop_last());
        if calls.last().ok {
            before.push(calls.last().tool)
        } else {
            before
        }
    }
}

/// The chain as it is listed: at most eight names, and the number of the rest.
pub open spec fn chain_listing(chain: Seq<Seq<char>>) -> Seq<char> {
    if chain.len() > CHAIN_LISTING_CAP {
        text::joined(chain.take(CHAIN_LISTING_CAP as int), " \u{2192} "@)
            + " \u{2192} \u{2026} and "@ + text::decimal((chain.len() - CHAIN_LISTING_CAP) as nat)
            + " more"@
    } else {
        text::joined(chain, " \u{2192} "@)
    }
}

/// The quality of a chain of `n` calls: 0.5 and 0.05 for each call, at most
/// 0.85.
pub open spec fn chain_quality(n: nat) -> Single {
    Single {
        bits: if n <= 3 {
            0x3f26_6666
        } else if n == 4 {
            0x3f33_3333
        } else if n == 5 {
            0x3f40_0000
        } else if n == 6 {
            0x3f4c_cccd
        } else {
            0x3f59_999a
        },
    }
}

/// The lesson of a chain.
pub open spec fn chain_lesson(chain: Seq<Seq<char>>) -> MinedView {
    MinedView {
        category: MemoryCategory::Strategy,
        content: "a chain of "@ + text::decimal(chain.len()) + " successful tool calls ("@
            + chain_listing(chain)
            + ") completed this "@ + "task \u{2014} for similar tasks, follow this order"@,
        tags: seq!["chain"@],
        quality: chain_quality(chain.len()),
    }
}

/// The strategies of a record: one, where it did not fail outright and three
/// or more calls succeeded.
pub open spec fn strategies(record: RecordView) -> Seq<MinedView> {
    let chain = chain_of(calls_of(record));
    if record.outcome == TrajectoryOutcome::Failure || chain.len() < 3 {
        Seq::empty()
    } else {
        seq![chain_lesson(chain)]
    }
}

/// Mines chains of successful calls.
pub fn mine_strategies(record: &TrajectoryRecord) -> (out: Vec<ExtractedMemory>)
    ensures
        mined_views(out@) == strategies(record@),
{
    let mut out: Vec<ExtractedMemory> = Vec::new();
    assert(mined_views(out@) =~= Seq::<MinedView>::empty());
    if record.outcome == TrajectoryOutcome::Failure {
        return out;
    }
    let flat = flat_calls(record);
    let ghost calls = calls_of(record@);
    let mut chain: Vec<String> = Vec::new();
    let mut i: usize = 0;
    assert(calls.take(0) =~= Seq::<CallView>::empty());
    assert(text::texts(chain@) =~= Seq::<Seq<char>>::empty());
    while i < flat.len()
        invariant
            i <= flat.len(),
            calls == trajectory::call_views(flat@),
            text::texts(chain@) == chain_of(calls.take(i as int)),
        decreases flat.len() - i,
    {
        let call = &flat[i];
        proof {
            assert(calls.take(i + 1).drop_last() =~= calls.take(i as int));
            assert(calls.take(i + 1).last() == call@);
        }
        if call.ok {
            let ghost before = chain@;
            chain.push(call.tool.clone());
            assert(text::texts(chain@) =~= text::texts(before).push(call.tool@));
        }
        i = i + 1;
    }
    assert(calls.take(calls.len() as int) =~= calls);
    if chain.len() < 3 {
        return out;
    }
    let ghost names = text::texts(chain@);
    let mut content = String::from_str("a chain of ");
    text::push_decimal(&mut content, chain.len() as u128);
    text::push_text(&mut content, " successful tool calls (");
    let listing = list_chain(&chain);
    text::push_text(&mut content, listing.as_str());
    text::push_text(&mut content, ") completed this ");
    text::push_text(&mut content, "task \u{2014} for similar tasks, follow this order");
    let quality = Single {
        bits: if chain.len() <= 3 {
            0x3f26_6666
        } else if chain.len() == 4 {
            0x3f33_3333
        } else if chain.len() == 5 {
            0x3f40_0000
        } else if chain.len() == 6 {
            0x3f4c_cccd
        } else {
            0x3f59_999a
        },
    };
    let m = ExtractedMemory {
        category: MemoryCategory::Strategy,
        content,
        tags: one_tag("chain"),
        quality,
    };
    assert(m@ == chain_lesson(names));
    out.push(m);
    assert(mined_views(out@) =~= seq![chain_lesson(names)]);
    out
}

fn list_chain(chain: &Vec<String>) -> (out: String)
    ensures
        out@ == chain_listing(text::texts(chain@)),
{
    if chain.len() > CHAIN_LISTING_CAP {
        let mut head: Vec<String> = Vec::new();
        let mut i: usize = 0;
        while i < CHAIN_LISTING_CAP
            invariant
                i <= CHAIN_LISTING_CAP < chain.len(),
                head@ == chain@.take(i as int),
            decreases CHAIN_LISTING_CAP - i,
        {
            assert(chain@.take(i + 1) =~= chain@.take(i as int).push(chain@[i as int]));
            head.push(chain[i].clone());
            i = i + 1;
        }
        assert(text::texts(head@) =~= text::texts(chain@).take(CHAIN_LISTING_CAP as int));
        let mut out = text::join(&head, " \u{2192} ");
        text::push_text(&mut out, " \u{2192} \u{2026} and ");
        text::push_decimal(&mut out, (chain.len() - CHAIN_LISTING_CAP) as u128);
        text::push_text(&mut out, " more");
        out
    } else {
        text::join(chain, " \u{2192} ")
    }
}

// ---------------------------------------------------------------------------
// Repetition
// ---------------------------------------------------------------------------

/// The bytes of a tool name that a repetition lesson keeps.
pub const MAX_MINED_TOOL_NAME_BYTES: usize = 64;

/// The number of the first `n` calls that use this tool.
pub open spec fn uses(calls: Seq<CallView>, tool: Seq<char>, n: nat) -> nat
    decreases n,
{
    if n == 0 {
        0
    } else {
        uses(calls, tool, (n - 1) as nat) + if calls[n - 1].tool == tool {
            1nat
        } else {
            0nat
        }
    }
}

/// The quality of a repetition of `n` calls: 0.4 and 0.1 for each, at most 0.8.
pub open spec fn repetition_quality(n: nat) -> Single {
    Single {
        bits: if n <= 3 {
            0x3f33_3334
        } else {
            0x3f4c_cccd
        },
    }
}

/// The lesson of a tool that was called `n` times within one turn.
pub open spec fn repetition_lesson(tool: Seq<char>, n: nat) -> MinedView {
    let name = clip::clipped(tool, MAX_MINED_TOOL_NAME_BYTES as nat);
    MinedView {
        category: MemoryCategory::Insight,
        content: name + " was called "@ + text::decimal(n)
            + " times within one turn \u{2014} batch or cache the repeated "@ + name
            + " calls to save turns"@,
        tags: seq!["optimization"@, "performance"@],
        quality: repetition_quality(n),
    }
}

/// The lessons of one turn, from its first `n` calls: one for each tool, at its
/// first call, that the turn calls three times or more.
pub open spec fn turn_repetitions(calls: Seq<CallView>, n: nat) -> Seq<MinedView>
    decreases n,
{
    if n == 0 {
        Seq::empty()
    } else {
        let before = turn_repetitions(calls, (n - 1) as nat);
        let tool = calls[n - 1].tool;
        if uses(calls, tool, (n - 1) as nat) == 0 && uses(calls, tool, calls.len()) >= 3 {
            before.push(repetition_lesson(tool, uses(calls, tool, calls.len())))
        } else {
            before
        }
    }
}

/// The lessons of the first `n` turns.
pub open spec fn repetitions(turns: Seq<TurnView>, n: nat) -> Seq<MinedView>
    decreases n,
{
    if n == 0 {
        Seq::empty()
    } else {
        let calls = turns[n - 1].tool_calls;
        repetitions(turns, (n - 1) as nat) + turn_repetitions(calls, calls.len())
    }
}

fn count_uses(calls: &Vec<TrajectoryToolCall>, tool: &str, n: usize) -> (count: usize)
    requires
        n <= calls.len(),
    ensures
        count == uses(trajectory::call_views(calls@), tool@, n as nat),
{
    let ghost views = trajectory::call_views(calls@);
    let mut count: usize = 0;
    let mut i: usize = 0;
    while i < n
        invariant
            i <= n <= calls.len(),
            count <= i,
            views == trajectory::call_views(calls@),
            count == uses(views, tool@, i as nat),
        decreases n - i,
    {
        assert(views[i as int] == calls@[i as int]@);
        if text::same_text(calls[i].tool.as_str(), tool) {
            count = count + 1;
        }
        i = i + 1;
    }
    count
}

fn repetition_memory(tool: &str, count: usize) -> (m: ExtractedMemory)
    ensures
        m@ == repetition_lesson(tool@, count as nat),
{
    let name = clip::truncate(tool, MAX_MINED_TOOL_NAME_BYTES);
    let mut content = name.clone();
    text::push_text(&mut content, " was called ");
    text::push_decimal(&mut content, count as u128);
    text::push_text(
        &mut content,
        " times within one turn \u{2014} batch or cache the repeated ",
    );
    text::push_text(&mut content, name.as_str());
    text::push_text(&mut content, " calls to save turns");
    let mut tags = one_tag("optimization");
    text::push_to_list(&mut tags, "performance");
    assert(text::texts(tags@) =~= seq!["optimization"@, "performance"@]);
    ExtractedMemory {
        category: MemoryCategory::Insight,
        content,
        tags,
        quality: Single {
            bits: if count <= 3 {
                0x3f33_3334
            } else {
                0x3f4c_cccd
            },
        },
    }
}

/// Mines tools that were called three times or more within one turn.
pub fn mine_repetition(record: &TrajectoryRecord) -> (out: Vec<ExtractedMemory>)
    ensures
        mined_views(out@) == repetitions(record@.turns, record@.turns.len()),
{
    let ghost turns = record@.turns;
    let mut out: Vec<ExtractedMemory> = Vec::new();
    let mut i: usize = 0;
    assert(mined_views(out@) =~= Seq::<MinedView>::empty());
    while i < record.turns.len()
        invariant
            i <= record.turns.len(),
            turns == trajectory::turn_views(record.turns@),
            mined_views(out@) == repetitions(turns, i as nat),
        decreases record.turns.len() - i,
    {
        let calls = &record.turns[i].tool_calls;
        let ghost views = turns[i as int].tool_calls;
        let ghost before = repetitions(turns, i as nat);
        assert(views == trajectory::call_views(calls@));
        let mut j: usize = 0;
        assert(before + turn_repetitions(views, 0) =~= before);
        while j < calls.len()
            invariant
                j <= calls.len(),
                views == trajectory::call_views(calls@),
                mined_views(out@) == before + turn_repetitions(views, j as nat),
            decreases calls.len() - j,
        {
            assert(views[j as int] == calls@[j as int]@);
            let tool = calls[j].tool.as_str();
            let ghost sofar = turn_repetitions(views, j as nat);
            if count_uses(calls, tool, j) == 0 {
                let count = count_uses(calls, tool, calls.len());
                if count >= 3 {
                    let m = repetition_memory(tool, count);
                    proof {
                        assert(mined_views(out@.push(m)) =~= mined_views(out@).push(m@));
                        assert(before + sofar.push(m@) =~= (before + sofar).push(m@));
                    }
                    out.push(m);
                }
            }
            j = j + 1;
        }
        i = i + 1;
    }
    out
}

// ---------------------------------------------------------------------------
// All together
// ---------------------------------------------------------------------------

/// Everything that the three rules find in a record.
pub open spec fn heuristics(record: RecordView) -> Seq<MinedView> {
    recoveries(calls_of(record)) + strategies(record) + repetitions(
        record.turns,
        record.turns.len(),
    )
}

/// Runs the three rules over a record.
pub fn heuristic_memories(record: &TrajectoryRecord) -> (out: Vec<ExtractedMemory>)
    ensures
        mined_views(out@) == heuristics(record@),
{
    let mut out = mine_recoveries(record);
    let mut chains = mine_strategies(record);
    let mut repeats = mine_repetition(record);
    let ghost a = out@;
    let ghost b = chains@;
    let ghost c = repeats@;
    out.append(&mut chains);
    out.append(&mut repeats);
    assert(mined_views(out@) =~= mined_views(a) + mined_views(b) + mined_views(c)) by {
        assert(out@ =~= a + b + c);
    }
    out
}

/// Whether two lessons say the same of the same kind.
pub open spec fn same_lesson(a: MinedView, b: MinedView) -> bool {
    a.category == b.category && a.content == b.content
}

/// Whether a list holds the lesson already.
pub open spec fn holds_lesson(list: Seq<MinedView>, m: MinedView) -> bool {
    exists|i: int| 0 <= i < list.len() && same_lesson(#[trigger] list[i], m)
}

/// The list without the lessons that stand earlier in it.
pub open spec fn deduped(list: Seq<MinedView>) -> Seq<MinedView>
    decreases list.len(),
{
    if list.len() == 0 {
        Seq::empty()
    } else {
        let before = deduped(list.drop_last());
        if holds_lesson(before, list.last()) {
            before
        } else {
            before.push(list.last())
        }
    }
}

/// The qualities of a list of lessons.
pub open spec fn qualities(list: Seq<MinedView>) -> Seq<Single> {
    list.map_values(|m: MinedView| m.quality)
}

/// The list with the best lessons first and equal ones in their order.
pub open spec fn best_first(list: Seq<MinedView>) -> Seq<MinedView> {
    ordering::ranking(qualities(list)).map_values(|i: usize| list[i as int])
}

/// The lessons that a pass settles for: the best `max` different ones.
pub open spec fn settled(list: Seq<MinedView>, max: usize) -> Seq<MinedView> {
    let d = deduped(best_first(list));
    if d.len() <= max {
        d
    } else {
        d.take(max as int)
    }
}

/// Whether a list holds a lesson of this kind and content.
fn knows_lesson(list: &Vec<ExtractedMemory>, m: &ExtractedMemory) -> (r: bool)
    ensures
        r == holds_lesson(mined_views(list@), m@),
{
    let ghost views = mined_views(list@);
    let mut i: usize = 0;
    while i < list.len()
        invariant
            i <= list.len(),
            views == mined_views(list@),
            forall|k: int| 0 <= k < i ==> !same_lesson(#[trigger] views[k], m@),
        decreases list.len() - i,
    {
        assert(views[i as int] == list@[i as int]@);
        if list[i].category == m.category && text::same_text(
            list[i].content.as_str(),
            m.content.as_str(),
        ) {
            assert(same_lesson(views[i as int], m@));
            return true;
        }
        i = i + 1;
    }
    false
}

/// Orders lessons by quality, drops repeats and keeps the best `max`.
pub fn settle_memories(list: &Vec<ExtractedMemory>, max: usize) -> (out: Vec<ExtractedMemory>)
    ensures
        mined_views(out@) == settled(mined_views(list@), max),
{
    let ghost views = mined_views(list@);
    let mut keys: Vec<Single> = Vec::new();
    let mut i: usize = 0;
    while i < list.len()
        invariant
            i <= list.len(),
            views == mined_views(list@),
            keys@ == qualities(views).take(i as int),
        decreases list.len() - i,
    {
        proof {
            assert(views[i as int] == list@[i as int]@);
            assert(qualities(views).take(i + 1) =~= qualities(views).take(i as int).push(
                views[i as int].quality,
            ));
        }
        keys.push(list[i].quality);
        i = i + 1;
    }
    assert(keys@ =~= qualities(views));
    let order = ordering::rank_descending(&keys);
    let ghost sorted = best_first(views);
    let mut out: Vec<ExtractedMemory> = Vec::new();
    let mut k: usize = 0;
    assert(sorted.take(0) =~= Seq::<MinedView>::empty());
    assert(mined_views(out@) =~= Seq::<MinedView>::empty());
    while k < order.len()
        invariant
            k <= order.len(),
            views == mined_views(list@),
            order@ == ordering::ranking(qualities(views)),
            ordering::is_ranking(qualities(views), order@),
            sorted == best_first(views),
            mined_views(out@) == deduped(sorted.take(k as int)),
        decreases order.len() - k,
    {
        let at: usize = order[k];
        proof {
            assert(at < views.len());
            assert(sorted.take(k + 1).drop_last() =~= sorted.take(k as int));
            assert(sorted.take(k + 1).last() == views[at as int]);
        }
        if !knows_lesson(&out, &list[at]) {
            let copy = list[at].clone();
            assert(mined_views(out@.push(copy)) =~= mined_views(out@).push(copy@));
            out.push(copy);
        }
        k = k + 1;
    }
    assert(sorted.take(sorted.len() as int) =~= sorted);
    let ghost full = out@;
    out.truncate(max);
    proof {
        if full.len() > max {
            assert(mined_views(out@) =~= mined_views(full).take(max as int));
        } else {
            assert(out@ =~= full);
        }
    }
    out
}

proof fn lemma_deduped(list: Seq<MinedView>)
    ensures
        deduped(list).len() <= list.len(),
        forall|i: int, j: int|
            0 <= i < j < deduped(list).len() ==> !same_lesson(
                #[trigger] deduped(list)[i],
                #[trigger] deduped(list)[j],
            ),
        forall|i: int| 0 <= i < list.len() ==> holds_lesson(deduped(list), #[trigger] list[i]),
    decreases list.len(),
{
    if list.len() > 0 {
        let short = list.drop_last();
        lemma_deduped(short);
        let before = deduped(short);
        let after = deduped(list);
        assert forall|i: int, j: int| 0 <= i < j < after.len() implies !same_lesson(
            #[trigger] after[i],
            #[trigger] after[j],
        ) by {
            if j < before.len() {
                assert(!same_lesson(before[i], before[j]));
            } else {
                assert(after[i] == before[i]);
            }
        }
        assert forall|i: int| 0 <= i < list.len() implies holds_lesson(after, #[trigger] list[i]) by {
            if i < short.len() {
                assert(short[i] == list[i]);
                assert(holds_lesson(before, short[i]));
                let k = choose|k: int|
                    0 <= k < before.len() && same_lesson(#[trigger] before[k], short[i]);
                assert(after[k] == before[k]);
            } else if !holds_lesson(before, list.last()) {
                assert(after[before.len() as int] == list.last());
            } else {
                let k = choose|k: int|
                    0 <= k < before.len() && same_lesson(#[trigger] before[k], list.last());
                assert(after[k] == before[k]);
            }
        }
    }
}

/// A pass never settles for more lessons than it may, and never for the same
/// lesson twice; where there is room for all, every lesson that was found is
/// kept.
pub proof fn a_pass_settles_for_different_lessons(list: Seq<MinedView>, max: usize)
    ensures
        settled(list, max).len() <= max,
        forall|i: int, j: int|
            0 <= i < j < settled(list, max).len() ==> !same_lesson(
                #[trigger] settled(list, max)[i],
                #[trigger] settled(list, max)[j],
            ),
        best_first(list).len() <= max ==> forall|i: int|
            0 <= i < best_first(list).len() ==> holds_lesson(
                settled(list, max),
                #[trigger] best_first(list)[i],
            ),
{
    lemma_deduped(best_first(list));
    let d = deduped(best_first(list));
    let s = settled(list, max);
    assert forall|i: int, j: int| 0 <= i < j < s.len() implies !same_lesson(
        #[trigger] s[i],
        #[trigger] s[j],
    ) by {
        assert(s[i] == d[i] && s[j] == d[j]);
    }
}

// ---------------------------------------------------------------------------
// From lesson to entry
// ---------------------------------------------------------------------------

/// The quality from which a lesson is stored as validated, 0.9.
pub const VALIDATED_QUALITY: u32 = 0x3f66_6666;

/// The entry that a lesson is stored as.
pub open spec fn entry_of(m: MinedView, id: u128, created_at: i128) -> EntryView {
    EntryView {
        tags: m.tags,
        validated: m.quality.reaches(Single { bits: VALIDATED_QUALITY }),
        ..entry::fresh_entry(id, m.category, m.content, created_at, m.quality.clamped())
    }
}

/// The entry that a lesson is stored as, under a fresh random id.
pub fn entry_for(memory: &ExtractedMemory, created_at: i128) -> (out: MemoryEntry)
    ensures
        out@ == entry_of(memory@, out.id, created_at),
        ids::is_random_id(out.id),
{
    let mut out = MemoryEntry::new(memory.category, memory.content.clone(), created_at);
    out.relevance = memory.quality.clamp_unit();
    out.tags = text::copy_texts(&memory.tags);
    out.validated = memory.quality.reaches(Single { bits: VALIDATED_QUALITY });
    out
}

/// Mining is no confirmation: no lesson that the rules find is stored as
/// validated.
pub proof fn mined_lessons_are_not_validated(tool: Seq<char>, chain: Seq<Seq<char>>, n: nat)
    ensures
        !recovery_lesson(tool).quality.reaches(Single { bits: VALIDATED_QUALITY }),
        !chain_lesson(chain).quality.reaches(Single { bits: VALIDATED_QUALITY }),
        !repetition_lesson(tool, n).quality.reaches(Single { bits: VALIDATED_QUALITY }),
{
}

// ---------------------------------------------------------------------------
// What is mined
// ---------------------------------------------------------------------------

/// The calls of a record are those of its turns, turn by turn and each in its
/// order.
pub proof fn calls_come_in_the_order_of_the_run(record: RecordView)
    ensures
        calls_of(record) == record.turns.map_values(|t: TurnView| t.tool_calls).flatten(),
{
    lemma_all_calls(record.turns, record.turns.len());
    assert(record.turns.take(record.turns.len() as int) =~= record.turns);
}

proof fn lemma_all_calls(turns: Seq<TurnView>, n: nat)
    requires
        n <= turns.len(),
    ensures
        all_calls(turns, n) == turns.take(n as int).map_values(
            |t: TurnView| t.tool_calls,
        ).flatten(),
    decreases n,
{
    let lists = turns.take(n as int).map_values(|t: TurnView| t.tool_calls);
    if n == 0 {
        assert(lists =~= Seq::<Seq<CallView>>::empty());
    } else {
        lemma_all_calls(turns, (n - 1) as nat);
        let fewer = turns.take(n - 1).map_values(|t: TurnView| t.tool_calls);
        assert(lists =~= fewer.push(turns[n - 1].tool_calls));
        fewer.lemma_flatten_push(turns[n - 1].tool_calls);
    }
}

/// The chain lists the tools of exactly the successful calls, in the order of
/// the run: the result names their places.
pub proof fn the_chain_follows_the_run(calls: Seq<CallView>) -> (places: Seq<int>)
    ensures
        selection::selects(places, calls.len(), |i: int| calls[i].ok),
        chain_of(calls) == places.map_values(|i: int| calls[i].tool),
        (forall|i: int| 0 <= i < calls.len() ==> (#[trigger] calls[i]).ok) ==> chain_of(calls)
            == calls.map_values(|c: CallView| c.tool),
{
    let rule = |i: int| calls[i].ok;
    let places = lemma_chain(calls, calls.len(), rule);
    assert(calls.take(calls.len() as int) =~= calls);
    if forall|i: int| 0 <= i < calls.len() ==> (#[trigger] calls[i]).ok {
        lemma_whole_chain(calls);
    }
    places
}

proof fn lemma_whole_chain(calls: Seq<CallView>)
    requires
        forall|i: int| 0 <= i < calls.len() ==> (#[trigger] calls[i]).ok,
    ensures
        chain_of(calls) == calls.map_values(|c: CallView| c.tool),
    decreases calls.len(),
{
    if calls.len() > 0 {
        let less = calls.drop_last();
        assert forall|i: int| 0 <= i < less.len() implies (#[trigger] less[i]).ok by {
            assert(calls[i].ok);
        }
        lemma_whole_chain(less);
        assert(calls[calls.len() - 1].ok);
    }
    assert(chain_of(calls) =~= calls.map_values(|c: CallView| c.tool));
}

proof fn lemma_chain(calls: Seq<CallView>, n: nat, rule: spec_fn(int) -> bool) -> (places: Seq<int>)
    requires
        n <= calls.len(),
        forall|i: int| #[trigger] rule(i) == calls[i].ok,
    ensures
        selection::selects(places, n, rule),
        chain_of(calls.take(n as int)) == places.map_values(|i: int| calls[i].tool),
    decreases n,
{
    if n == 0 {
        selection::lemma_none(rule);
        let none = Seq::<int>::empty();
        assert(chain_of(calls.take(0)) =~= none.map_values(|i: int| calls[i].tool));
        none
    } else {
        let last = n - 1;
        let before = lemma_chain(calls, last as nat, rule);
        selection::lemma_next(before, last as nat, rule);
        let now = calls.take(n as int);
        assert(now.drop_last() =~= calls.take(last));
        assert(now.last() == calls[last]);
        assert(rule(last) == calls[last].ok);
        let places = if rule(last) {
            before.push(last)
        } else {
            before
        };
        assert(chain_of(now) =~= places.map_values(|i: int| calls[i].tool));
        places
    }
}

/// A chain of up to eight names is listed whole, and a longer one by its first
/// eight and the number of the others.
pub proof fn a_chain_is_listed_from_its_start(chain: Seq<Seq<char>>)
    ensures
        chain.len() <= 8 ==> chain_listing(chain) == text::joined(chain, " \u{2192} "@),
        chain.len() > 8 ==> chain_listing(chain) == text::joined(chain.take(8), " \u{2192} "@)
            + " \u{2192} \u{2026} and "@ + text::decimal((chain.len() - 8) as nat) + " more"@,
{
}

/// A run yields one strategy where it did not fail outright and at least three
/// of its calls succeeded, and none otherwise.
pub proof fn three_successes_make_a_strategy(record: RecordView)
    ensures
        record.outcome == TrajectoryOutcome::Failure ==> strategies(record).len() == 0,
        chain_of(calls_of(record)).len() < 3 ==> strategies(record).len() == 0,
        record.outcome != TrajectoryOutcome::Failure && chain_of(calls_of(record)).len() >= 3
            ==> strategies(record) == seq![chain_lesson(chain_of(calls_of(record)))],
{
}

/// Whether the failed call at a place was recovered from: a later call of the
/// same tool succeeded.
pub open spec fn is_recovered(calls: Seq<CallView>, i: int) -> bool {
    !calls[i].ok && exists|j: int|
        i < j < calls.len() && (#[trigger] calls[j]).ok && calls[j].tool == calls[i].tool
}

/// There is one recovery for each failed call whose tool succeeded later, the
/// latest failure first: the result names the places of those calls, in the
/// order of the run.
pub proof fn each_recovered_failure_is_mined(calls: Seq<CallView>) -> (places: Seq<int>)
    ensures
        selection::selects(places, calls.len(), |i: int| is_recovered(calls, i)),
        recoveries(calls).len() == places.len(),
        forall|k: int|
            0 <= k < places.len() ==> #[trigger] recoveries(calls)[k] == recovery_lesson(
                calls[places[places.len() - 1 - k]].tool,
            ),
{
    let places = lemma_recoveries(calls, 0);
    assert(calls.skip(0) =~= calls);
    let rule = |i: int| is_recovered(calls, i);
    assert(selection::selects(places, calls.len(), rule)) by {
        assert forall|p: int| 0 <= p < calls.len() && #[trigger] rule(p) implies places.contains(
            p,
        ) by {
            assert(is_recovered(calls, p));
        }
    }
    places
}

proof fn lemma_recoveries(calls: Seq<CallView>, from: int) -> (places: Seq<int>)
    requires
        0 <= from <= calls.len(),
    ensures
        forall|j: int|
            0 <= j < places.len() ==> from <= #[trigger] places[j] < calls.len() && is_recovered(
                calls,
                places[j],
            ),
        forall|i: int, j: int|
            0 <= i < j < places.len() ==> #[trigger] places[i] < #[trigger] places[j],
        forall|p: int|
            from <= p < calls.len() && #[trigger] is_recovered(calls, p) ==> places.contains(p),
        recoveries(calls.skip(from)).len() == places.len(),
        forall|k: int|
            0 <= k < places.len() ==> #[trigger] recoveries(calls.skip(from))[k]
                == recovery_lesson(calls[places[places.len() - 1 - k]].tool),
    decreases calls.len() - from,
{
    if from == calls.len() {
        Seq::empty()
    } else {
        let later = lemma_recoveries(calls, from + 1);
        let now = calls.skip(from);
        assert(now.skip(1) =~= calls.skip(from + 1));
        assert(now[0] == calls[from]);
        assert(succeeds_in(now.skip(1), now[0].tool) <==> exists|j: int|
            from < j < calls.len() && (#[trigger] calls[j]).ok && calls[j].tool
                == calls[from].tool) by {
            let rest = now.skip(1);
            if succeeds_in(rest, now[0].tool) {
                let i = choose|i: int|
                    0 <= i < rest.len() && (#[trigger] rest[i]).ok && rest[i].tool == now[0].tool;
                assert(calls[from + 1 + i] == rest[i]);
            }
            if exists|j: int|
                from < j < calls.len() && (#[trigger] calls[j]).ok && calls[j].tool
                    == calls[from].tool {
                let j = choose|j: int|
                    from < j < calls.len() && (#[trigger] calls[j]).ok && calls[j].tool
                        == calls[from].tool;
                assert(rest[j - from - 1] == calls[j]);
            }
        }
        if is_recovered(calls, from) {
            let places = seq![from] + later;
            let old = recoveries(calls.skip(from + 1));
            assert(recoveries(now) == old.push(recovery_lesson(calls[from].tool)));
            assert forall|p: int| from <= p < calls.len() && #[trigger] is_recovered(
                calls,
                p,
            ) implies places.contains(p) by {
                if p == from {
                    assert(places[0] == p);
                } else {
                    let j = choose|j: int| 0 <= j < later.len() && later[j] == p;
                    assert(places[j + 1] == p);
                }
            }
            assert forall|k: int| 0 <= k < places.len() implies #[trigger] recoveries(now)[k]
                == recovery_lesson(calls[places[places.len() - 1 - k]].tool) by {
                if k < old.len() {
                    assert(recoveries(now)[k] == old[k]);
                    assert(places[places.len() - 1 - k] == later[later.len() - 1 - k]);
                }
            }
            places
        } else {
            assert(recoveries(now) == recoveries(calls.skip(from + 1)));
            assert forall|p: int| from <= p < calls.len() && #[trigger] is_recovered(
                calls,
                p,
            ) implies later.contains(p) by {
                assert(p != from);
            }
            later
        }
    }
}

/// Every call of a tool counts as one use of it, and no other does.
pub proof fn every_call_of_a_tool_is_a_use(calls: Seq<CallView>, tool: Seq<char>, n: nat) -> (places:
    Seq<int>)
    requires
        n <= calls.len(),
    ensures
        selection::selects(places, n, |i: int| calls[i].tool == tool),
        uses(calls, tool, n) == places.len(),
    decreases n,
{
    let rule = |i: int| calls[i].tool == tool;
    if n == 0 {
        selection::lemma_none(rule);
        Seq::empty()
    } else {
        let before = every_call_of_a_tool_is_a_use(calls, tool, (n - 1) as nat);
        selection::lemma_next(before, (n - 1) as nat, rule);
        if rule(n - 1) {
            before.push(n - 1)
        } else {
            before
        }
    }
}

/// Whether the call at a place is the first of its tool.
pub open spec fn is_first_use(calls: Seq<CallView>, i: int) -> bool {
    forall|j: int| 0 <= j < i ==> (#[trigger] calls[j]).tool != calls[i].tool
}

/// A turn yields one lesson for each tool that it calls at least three times,
/// with the number of its calls, in the order of their first calls: the result
/// names those.
pub proof fn three_calls_in_a_turn_are_a_repetition(calls: Seq<CallView>) -> (places: Seq<int>)
    ensures
        selection::selects(
            places,
            calls.len(),
            |i: int| is_first_use(calls, i) && uses(calls, calls[i].tool, calls.len()) >= 3,
        ),
        turn_repetitions(calls, calls.len()) == places.map_values(
            |i: int|
                repetition_lesson(calls[i].tool, uses(calls, calls[i].tool, calls.len())),
        ),
{
    let rule = |i: int| is_first_use(calls, i) && uses(calls, calls[i].tool, calls.len()) >= 3;
    lemma_turn_repetitions(calls, calls.len(), rule)
}

proof fn lemma_turn_repetitions(calls: Seq<CallView>, n: nat, rule: spec_fn(int) -> bool) -> (places:
    Seq<int>)
    requires
        n <= calls.len(),
        forall|i: int| #[trigger]
            rule(i) == (is_first_use(calls, i) && uses(calls, calls[i].tool, calls.len()) >= 3),
    ensures
        selection::selects(places, n, rule),
        turn_repetitions(calls, n) == places.map_values(
            |i: int|
                repetition_lesson(calls[i].tool, uses(calls, calls[i].tool, calls.len())),
        ),
    decreases n,
{
    let lesson = |i: int|
        repetition_lesson(calls[i].tool, uses(calls, calls[i].tool, calls.len()));
    if n == 0 {
        selection::lemma_none(rule);
        let none = Seq::<int>::empty();
        assert(turn_repetitions(calls, 0) =~= none.map_values(lesson));
        none
    } else {
        let last = n - 1;
        let before = lemma_turn_repetitions(calls, last as nat, rule);
        selection::lemma_next(before, last as nat, rule);
        let tool = calls[last].tool;
        let same = every_call_of_a_tool_is_a_use(calls, tool, last as nat);
        assert(uses(calls, tool, last as nat) == 0 <==> is_first_use(calls, last)) by {
            let here = |i: int| calls[i].tool == tool;
            if same.len() > 0 {
                assert(here(same[0]));
                assert(calls[same[0]].tool == tool);
            }
            if same.len() == 0 {
                assert forall|j: int| 0 <= j < last implies (#[trigger] calls[j]).tool
                    != calls[last].tool by {
                    if calls[j].tool == tool {
                        assert(here(j));
                        assert(same.contains(j));
                    }
                }
            }
        }
        let places = if rule(last) {
            before.push(last)
        } else {
            before
        };
        assert(turn_repetitions(calls, n) =~= places.map_values(lesson));
        places
    }
}

/// The repetitions of a run are those of its turns, turn by turn.
pub proof fn repetitions_go_turn_by_turn(turns: Seq<TurnView>)
    ensures
        repetitions(turns, turns.len()) == turns.map_values(
            |t: TurnView| turn_repetitions(t.tool_calls, t.tool_calls.len()),
        ).flatten(),
{
    lemma_repetitions(turns, turns.len());
    assert(turns.take(turns.len() as int) =~= turns);
}

proof fn lemma_repetitions(turns: Seq<TurnView>, n: nat)
    requires
        n <= turns.len(),
    ensures
        repetitions(turns, n) == turns.take(n as int).map_values(
            |t: TurnView| turn_repetitions(t.tool_calls, t.tool_calls.len()),
        ).flatten(),
    decreases n,
{
    let f = |t: TurnView| turn_repetitions(t.tool_calls, t.tool_calls.len());
    let lists = turns.take(n as int).map_values(f);
    if n == 0 {
        assert(lists =~= Seq::<Seq<MinedView>>::empty());
    } else {
        lemma_repetitions(turns, (n - 1) as nat);
        let fewer = turns.take(n - 1).map_values(f);
        assert(lists =~= fewer.push(f(turns[n - 1])));
        fewer.lemma_flatten_push(f(turns[n - 1]));
    }
}

/// What the three kinds of lessons say, how they are tagged, and how good they
/// are: 0.7 for a recovery, 0.65 for a chain of three and 0.05 more for each
/// further call up to 0.85, and 0.7 for three calls in a turn and 0.8 for more.
pub proof fn lessons_are_advice_of_their_kind(tool: Seq<char>, chain: Seq<Seq<char>>, n: nat)
    requires
        text::byte_length(tool) <= 64,
        chain.len() >= 3,
        n >= 3,
    ensures
        recovery_lesson(tool) == (MinedView {
            category: MemoryCategory::ErrorPattern,
            content: "a "@ + tool + " call failed and a later "@ + tool
                + " call succeeded \u{2014} retry "@ + tool
                + " after adjusting the input before giving up"@,
            tags: seq!["recovery"@],
            quality: Single { bits: 0x3f33_3333 },
        }),
        chain_lesson(chain).category == MemoryCategory::Strategy,
        chain_lesson(chain).tags == seq!["chain"@],
        chain_lesson(chain).content == "a chain of "@ + text::decimal(chain.len())
            + " successful tool calls ("@ + chain_listing(chain) + ") completed this "@
            + "task \u{2014} for similar tasks, follow this order"@,
        chain.len() == 3 ==> chain_lesson(chain).quality.bits == 0x3f26_6666,
        chain.len() == 4 ==> chain_lesson(chain).quality.bits == 0x3f33_3333,
        chain.len() == 5 ==> chain_lesson(chain).quality.bits == 0x3f40_0000,
        chain.len() == 6 ==> chain_lesson(chain).quality.bits == 0x3f4c_cccd,
        chain.len() >= 7 ==> chain_lesson(chain).quality.bits == 0x3f59_999a,
        repetition_lesson(tool, n) == (MinedView {
            category: MemoryCategory::Insight,
            content: tool + " was called "@ + text::decimal(n)
                + " times within one turn \u{2014} batch or cache the repeated "@ + tool
                + " calls to save turns"@,
            tags: seq!["optimization"@, "performance"@],
            quality: Single {
                bits: if n == 3 {
                    0x3f33_3334
                } else {
                    0x3f4c_cccd
                },
            },
        }),
{
}

/// What the rules find is recoveries, then strategies, then repetitions, and
/// nothing is lost between them.
pub proof fn all_three_rules_are_heard(record: RecordView)
    ensures
        ({
            let r = recoveries(calls_of(record));
            let s = strategies(record);
            let t = repetitions(record.turns, record.turns.len());
            let all = heuristics(record);
            &&& all.len() == r.len() + s.len() + t.len()
            &&& all.take(r.len() as int) == r
            &&& all.skip(r.len() as int).take(s.len() as int) == s
            &&& all.skip((r.len() + s.len()) as int) == t
        }),
{
    let r = recoveries(calls_of(record));
    let s = strategies(record);
    let t = repetitions(record.turns, record.turns.len());
    let all = heuristics(record);
    assert(all.take(r.len() as int) =~= r);
    assert(all.skip(r.len() as int).take(s.len() as int) =~= s);
    assert(all.skip((r.len() + s.len()) as int) =~= t);
}

/// Of lessons that say the same of the same kind the first stays, and only
/// later ones go: the result names the places of those that stay.
pub proof fn the_first_of_equal_lessons_stays(list: Seq<MinedView>) -> (places: Seq<int>)
    ensures
        selection::selects(
            places,
            list.len(),
            |i: int| forall|j: int| 0 <= j < i ==> !same_lesson(#[trigger] list[j], list[i]),
        ),
        deduped(list) == places.map_values(|i: int| list[i]),
{
    let rule = |i: int| forall|j: int| 0 <= j < i ==> !same_lesson(#[trigger] list[j], list[i]);
    let places = lemma_deduped_places(list, list.len(), rule);
    assert(list.take(list.len() as int) =~= list);
    places
}

proof fn lemma_deduped_places(list: Seq<MinedView>, n: nat, rule: spec_fn(int) -> bool) -> (places:
    Seq<int>)
    requires
        n <= list.len(),
        forall|i: int| #[trigger]
            rule(i) == (forall|j: int|
                0 <= j < i ==> !same_lesson(#[trigger] list[j], list[i])),
    ensures
        selection::selects(places, n, rule),
        deduped(list.take(n as int)) == places.map_values(|i: int| list[i]),
    decreases n,
{
    if n == 0 {
        selection::lemma_none(rule);
        let none = Seq::<int>::empty();
        assert(deduped(list.take(0)) =~= none.map_values(|i: int| list[i]));
        none
    } else {
        let last = n - 1;
        let before = lemma_deduped_places(list, last as nat, rule);
        selection::lemma_next(before, last as nat, rule);
        let now = list.take(n as int);
        let short = list.take(last);
        assert(now.drop_last() =~= short);
        assert(now.last() == list[last]);
        lemma_deduped(short);
        let kept = deduped(short);
        assert(holds_lesson(kept, list[last]) <==> !rule(last)) by {
            if holds_lesson(kept, list[last]) {
                let k = choose|k: int|
                    0 <= k < kept.len() && same_lesson(#[trigger] kept[k], list[last]);
                assert(kept[k] == list[before[k]]);
                assert(same_lesson(list[before[k]], list[last]));
            }
            if !rule(last) {
                let j = choose|j: int| 0 <= j < last && same_lesson(#[trigger] list[j], list[last]);
                assert(short[j] == list[j]);
                assert(holds_lesson(kept, short[j]));
                let k = choose|k: int|
                    0 <= k < kept.len() && same_lesson(#[trigger] kept[k], short[j]);
                assert(same_lesson(kept[k], list[last]));
            }
        }
        let places = if rule(last) {
            before.push(last)
        } else {
            before
        };
        assert(deduped(now) =~= places.map_values(|i: int| list[i]));
        places
    }
}

/// The lessons that a pass settles for stand in the list, best first. Where
/// there is room left, every lesson of the list is among them; where there is
/// none, what was left out is no better than any that stayed.
pub proof fn a_pass_settles_for_the_best(list: Seq<MinedView>, max: usize)
    requires
        list.len() <= usize::MAX,
    ensures
        ({
            let s = settled(list, max);
            &&& forall|k: int| 0 <= k < s.len() ==> list.contains(#[trigger] s[k])
            &&& forall|i: int, j: int|
                0 <= i < j < s.len() ==> (#[trigger] s[i]).quality.key() >= (
                #[trigger] s[j]).quality.key()
            &&& s.len() < max ==> forall|i: int|
                0 <= i < list.len() ==> holds_lesson(s, #[trigger] list[i])
            &&& forall|i: int, k: int|
                0 <= i < list.len() && 0 <= k < s.len() && !holds_lesson(s, #[trigger] list[i])
                    ==> (#[trigger] s[k]).quality.key() >= list[i].quality.key()
        }),
{
    let sorted = best_first(list);
    let s = settled(list, max);
    lemma_best_first(list);
    let at = lemma_settled_places(list, max);
    assert forall|k: int| 0 <= k < s.len() implies list.contains(#[trigger] s[k]) by {
        assert(s[k] == sorted[at[k]]);
    }
    assert forall|i: int, j: int| 0 <= i < j < s.len() implies (#[trigger] s[i]).quality.key() >= (
    #[trigger] s[j]).quality.key() by {
        assert(s[i] == sorted[at[i]] && s[j] == sorted[at[j]]);
    }
    assert forall|i: int| 0 <= i < list.len() && s.len() < max implies holds_lesson(
        s,
        #[trigger] list[i],
    ) by {
        assert(sorted.contains(list[i]));
        let p = choose|p: int| 0 <= p < sorted.len() && sorted[p] == list[i];
        lemma_deduped(sorted);
        assert(s == deduped(sorted));
    }
    assert forall|i: int, k: int|
        0 <= i < list.len() && 0 <= k < s.len() && !holds_lesson(s, #[trigger] list[i]) implies (
    #[trigger] s[k]).quality.key() >= list[i].quality.key() by {
        assert(sorted.contains(list[i]));
        let p = choose|p: int| 0 <= p < sorted.len() && sorted[p] == list[i];
        lemma_left_out(list, max, at, p, k);
    }
}

/// The best come first, and nothing is lost or added on the way.
proof fn lemma_best_first(list: Seq<MinedView>)
    requires
        list.len() <= usize::MAX,
    ensures
        forall|a: int, b: int|
            0 <= a < b < best_first(list).len() ==> (#[trigger] best_first(list)[a]).quality.key()
                >= (#[trigger] best_first(list)[b]).quality.key(),
        forall|i: int| 0 <= i < list.len() ==> best_first(list).contains(#[trigger] list[i]),
        forall|p: int|
            0 <= p < best_first(list).len() ==> list.contains(#[trigger] best_first(list)[p]),
{
    let keys = qualities(list);
    let order = ordering::ranking(keys);
    ordering::a_list_has_a_ranking(keys);
    let sorted = best_first(list);
    assert forall|a: int, b: int| 0 <= a < b < sorted.len() implies (
    #[trigger] sorted[a]).quality.key() >= (#[trigger] sorted[b]).quality.key() by {
        assert(ordering::ranks_before(keys, order[a] as int, order[b] as int));
    }
    assert forall|i: int| 0 <= i < list.len() implies sorted.contains(#[trigger] list[i]) by {
        ordering::a_ranking_is_complete(keys, order, i);
        let p = choose|p: int| 0 <= p < order.len() && #[trigger] order[p] == i;
        assert(sorted[p] == list[i]);
    }
    assert forall|p: int| 0 <= p < sorted.len() implies list.contains(#[trigger] sorted[p]) by {
        assert(sorted[p] == list[order[p] as int]);
    }
}

/// Where what a pass settles for stands among the best.
proof fn lemma_settled_places(list: Seq<MinedView>, max: usize) -> (at: Seq<int>)
    ensures
        selection::selects(
            at,
            best_first(list).len(),
            |i: int|
                forall|j: int|
                    0 <= j < i ==> !same_lesson(
                        #[trigger] best_first(list)[j],
                        best_first(list)[i],
                    ),
        ),
        deduped(best_first(list)) == at.map_values(|i: int| best_first(list)[i]),
        settled(list, max).len() <= at.len(),
        forall|k: int|
            0 <= k < settled(list, max).len() ==> #[trigger] settled(list, max)[k] == best_first(
                list,
            )[at[k]],
        forall|i: int, j: int|
            0 <= i < j < at.len() ==> 0 <= #[trigger] at[i] < #[trigger] at[j] < best_first(
                list,
            ).len(),
        forall|k: int| 0 <= k < at.len() ==> 0 <= #[trigger] at[k] < best_first(list).len(),
{
    the_first_of_equal_lessons_stays(best_first(list))
}

/// What a pass left out is no better than what it settled for.
proof fn lemma_left_out(list: Seq<MinedView>, max: usize, at: Seq<int>, p: int, k: int)
    requires
        list.len() <= usize::MAX,
        selection::selects(
            at,
            best_first(list).len(),
            |i: int|
                forall|j: int|
                    0 <= j < i ==> !same_lesson(
                        #[trigger] best_first(list)[j],
                        best_first(list)[i],
                    ),
        ),
        deduped(best_first(list)) == at.map_values(|i: int| best_first(list)[i]),
        0 <= p < best_first(list).len(),
        0 <= k < settled(list, max).len(),
        !holds_lesson(settled(list, max), best_first(list)[p]),
    ensures
        settled(list, max)[k].quality.key() >= best_first(list)[p].quality.key(),
{
    let sorted = best_first(list);
    let s = settled(list, max);
    let d = deduped(sorted);
    assert(s[k] == d[k] && d[k] == sorted[at[k]]);
    if p < at[k] {
        // What stands before one that stayed is among those that stayed.
        lemma_earlier_is_held(sorted, at, p, k);
        let m = choose|m: int| 0 <= m < k && same_lesson(#[trigger] d[m], sorted[p]);
        assert(s[m] == d[m]);
        assert(holds_lesson(s, sorted[p]));
    } else if p == at[k] {
        assert(same_lesson(s[k], sorted[p]));
    } else {
        lemma_best_first(list);
    }
}

proof fn lemma_earlier_is_held(sorted: Seq<MinedView>, at: Seq<int>, p: int, k: int)
    requires
        selection::selects(
            at,
            sorted.len(),
            |i: int| forall|j: int| 0 <= j < i ==> !same_lesson(#[trigger] sorted[j], sorted[i]),
        ),
        deduped(sorted) == at.map_values(|i: int| sorted[i]),
        0 <= k < at.len(),
        0 <= p < at[k],
    ensures
        exists|m: int| 0 <= m < k && same_lesson(#[trigger] deduped(sorted)[m], sorted[p]),
    decreases p,
{
    let rule = |i: int|
        forall|j: int| 0 <= j < i ==> !same_lesson(#[trigger] sorted[j], sorted[i]);
    if rule(p) {
        assert(at.contains(p));
        let m = choose|m: int| 0 <= m < at.len() && at[m] == p;
        assert(m < k) by {
            if m > k {
                assert(at[k] < at[m]);
            }
        }
        assert(same_lesson(deduped(sorted)[m], sorted[p]));
    } else {
        let j = choose|j: int| 0 <= j < p && same_lesson(#[trigger] sorted[j], sorted[p]);
        lemma_earlier_is_held(sorted, at, j, k);
        let m = choose|m: int| 0 <= m < k && same_lesson(#[trigger] deduped(sorted)[m], sorted[j]);
        assert(same_lesson(deduped(sorted)[m], sorted[p]));
    }
}

/// A lesson is stored under its own category, text and tags, as relevant as it
/// is good, and as validated from 0.9 on.
pub proof fn a_lesson_is_stored_as_it_is(m: MinedView, id: u128, created_at: i128)
    ensures
        entry_of(m, id, created_at) == (EntryView {
            id,
            category: m.category,
            memory: m.content,
            tags: m.tags,
            created_at,
            last_accessed: None,
            last_decayed: None,
            relevance: entry_of(m, id, created_at).relevance,
            access_count: 0,
            validated: 0x3f66_6666 <= m.quality.bits <= 0x7f80_0000,
        }),
        m.quality.bits <= 0x3f80_0000 ==> entry_of(m, id, created_at).relevance == m.quality,
        0x3f80_0000 < m.quality.bits <= 0x7f80_0000 ==> entry_of(m, id, created_at).relevance.bits
            == 0x3f80_0000,
{
}

/// Each category has a name of its own.
pub proof fn categories_have_their_names()
    ensures
        category_name(MemoryCategory::Strategy) == "strategy"@,
        category_name(MemoryCategory::ErrorPattern) == "error_pattern"@,
        category_name(MemoryCategory::Insight) == "insight"@,
        category_name(MemoryCategory::Fact) == "fact"@,
        category_name(MemoryCategory::Working) == "working"@,
        category_name(MemoryCategory::Trajectory) == "trajectory"@,
{
}

/// A repetition names its tool, by the first 64 bytes of a longer name.
pub proof fn a_long_name_is_clipped(tool: Seq<char>, n: nat)
    ensures
        repetition_lesson(tool, n).content == clip::clipped(tool, 64) + " was called "@
            + text::decimal(n) + " times within one turn \u{2014} batch or cache the repeated "@
            + clip::clipped(tool, 64) + " calls to save turns"@,
        repetition_lesson(tool, n).category == MemoryCategory::Insight,
        repetition_lesson(tool, n).tags == seq!["optimization"@, "performance"@],
{
}

} // verus!
