//! A store whose entries are mirrored in a file, one line each.

use std::collections::HashMap;
use vstd::prelude::*;
use vstd::std_specs::iter::IteratorSpec;

use crate::error::{ErrorView, LoopError};
use crate::memory::builtin;
use crate::memory::consolidate;
use crate::memory::consolidate::{ConsolidationConfig, PassFigures, RelevanceArithmetic};
use crate::memory::entry;
use crate::memory::entry::{ConsolidationStats, EntryView, MemoryEntry};
use crate::memory::rewrite::{RewriteError, RewriteFault};
use crate::memory::score;
use crate::ordering;
use crate::selection;
use crate::single::Single;
use crate::text;

verus! {

broadcast use vstd::std_specs::hash::group_hash_axioms;

/// What is said of an append to a file whose tail is suspect.
pub const UNUSABLE: &'static str =
    "the memory file is unusable after an unrecoverable append failure; drop every live handle and reopen to repair it";

/// What opening a file comes to next.
#[derive(Debug, Clone, Copy, PartialEq, Eq, Structural)]
pub enum OpenStep {
    /// A live store has the file; its mirror is shared.
    Attach,
    /// The file is to be loaded.
    Load,
    /// The file is to be rewritten, its last line having been torn, before the
    /// store is registered.
    Repair,
    /// The store is to be registered.
    Register,
}

/// What opening a file comes to next, given whether a live store has it and,
/// once it was loaded, whether its last line was torn. A file that a live store
/// has is not read again, and one that was not torn is not rewritten.
pub fn open_step(attached: bool, loaded: Option<bool>) -> (step: OpenStep)
    ensures
        step == OpenStep::Attach <==> attached,
        step == OpenStep::Load <==> !attached && loaded is None,
        step == OpenStep::Repair <==> !attached && loaded == Some(true),
        step == OpenStep::Register <==> !attached && loaded == Some(false),
{
    if attached {
        return OpenStep::Attach;
    }
    match loaded {
        None => OpenStep::Load,
        Some(true) => OpenStep::Repair,
        Some(false) => OpenStep::Register,
    }
}

/// The entries of a memory file, with the accesses that no consolidation has
/// folded in yet.
pub struct FileMirror {
    entries: Vec<MemoryEntry>,
    access_log: HashMap<u128, i128>,
    append_unusable: bool,
    is_fallback: bool,
}

/// What a mirror holds.
pub struct MirrorView {
    pub entries: Seq<EntryView>,
    pub access_log: Map<u128, i128>,
    /// Whether an append failed and left the tail of the file suspect.
    pub append_unusable: bool,
    /// Whether the store was made under a key that may still change.
    pub is_fallback: bool,
}

impl View for FileMirror {
    type V = MirrorView;

    closed spec fn view(&self) -> MirrorView {
        MirrorView {
            entries: entry::entry_views(self.entries@),
            access_log: self.access_log@,
            append_unusable: self.append_unusable,
            is_fallback: self.is_fallback,
        }
    }
}

/// What came of appending a line to the file.
#[derive(Debug)]
pub enum AppendOutcome {
    /// The line was written and flushed.
    Written,
    /// The file could not be opened; why. Nothing was written.
    NotOpened(String),
    /// The line could not be written or flushed; why. A part of it may stand in
    /// the file.
    NotWritten(String),
}

/// Where the last entry with this id stands, or -1.
pub open spec fn last_place(list: Seq<EntryView>, id: u128) -> int
    decreases list.len(),
{
    if list.len() == 0 {
        -1
    } else if list.last().id == id {
        list.len() - 1
    } else {
        last_place(list.drop_last(), id)
    }
}

/// The entry that takes the place of the file's entry at `i`: the mirror's copy
/// where it has one and no earlier line of the file took it.
pub open spec fn settled(merged: Seq<EntryView>, file: Seq<EntryView>, i: int) -> EntryView {
    let id = file[i].id;
    if consolidate::has_id(merged, id) && !consolidate::has_id(file.take(i), id) {
        merged[last_place(merged, id)]
    } else {
        file[i]
    }
}

/// The entries of the first `n` of `list` that `other` does not know.
pub open spec fn unknown_to(list: Seq<EntryView>, other: Seq<EntryView>, n: nat) -> Seq<EntryView>
    decreases n,
{
    if n == 0 {
        Seq::empty()
    } else {
        let before = unknown_to(list, other, (n - 1) as nat);
        if consolidate::has_id(other, list[n - 1].id) {
            before
        } else {
            before.push(list[n - 1])
        }
    }
}

/// A mirror in the order of its file. An entry that both have keeps the
/// mirror's copy, one that only the file has is adopted, and those that only
/// the mirror has follow at the end.
pub open spec fn reordered(merged: Seq<EntryView>, file: Seq<EntryView>) -> Seq<EntryView> {
    Seq::new(file.len(), |i: int| settled(merged, file, i)) + unknown_to(
        merged,
        file,
        merged.len(),
    )
}

fn find_last(list: &Vec<MemoryEntry>, n: usize, id: u128) -> (place: Option<usize>)
    requires
        n <= list.len(),
    ensures
        ({
            let first = entry::entry_views(list@).take(n as int);
            match place {
                Some(k) => {
                    &&& k < n
                    &&& k == last_place(first, id)
                    &&& consolidate::has_id(first, id)
                },
                None => !consolidate::has_id(first, id),
            }
        }),
{
    let ghost all = entry::entry_views(list@);
    let ghost first = all.take(n as int);
    let mut k: usize = n;
    assert(first.take(n as int) =~= first);
    while k > 0
        invariant
            k <= n <= list.len(),
            all == entry::entry_views(list@),
            first == all.take(n as int),
            last_place(first, id) == last_place(first.take(k as int), id),
            forall|j: int| k <= j < n ==> (#[trigger] first[j]).id != id,
        decreases k,
    {
        let here: u128 = list[k - 1].id;
        assert(first[k - 1] == list@[k - 1]@);
        assert(first.take(k as int).last() == first[k - 1]);
        if here == id {
            return Some(k - 1);
        }
        assert(first.take(k as int).drop_last() =~= first.take(k - 1));
        k = k - 1;
    }
    None
}

/// Puts a mirror into the order of its file.
pub fn reorder_merged_entries(merged: &Vec<MemoryEntry>, file: &Vec<MemoryEntry>) -> (out: Vec<
    MemoryEntry,
>)
    ensures
        entry::entry_views(out@) == reordered(
            entry::entry_views(merged@),
            entry::entry_views(file@),
        ),
{
    let ghost m = entry::entry_views(merged@);
    let ghost f = entry::entry_views(file@);
    let ghost head = Seq::new(f.len(), |i: int| settled(m, f, i));
    let mut out: Vec<MemoryEntry> = Vec::new();
    let mut i: usize = 0;
    assert(entry::entry_views(out@) =~= head.take(0));
    assert(m.take(m.len() as int) =~= m);
    assert(f.take(f.len() as int) =~= f);
    while i < file.len()
        invariant
            i <= file.len(),
            m == entry::entry_views(merged@),
            f == entry::entry_views(file@),
            m.take(m.len() as int) == m,
            head == Seq::new(f.len(), |i: int| settled(m, f, i)),
            entry::entry_views(out@) == head.take(i as int),
        decreases file.len() - i,
    {
        let id: u128 = file[i].id;
        assert(f[i as int] == file@[i as int]@);
        let taken = find_last(file, i, id);
        let place = find_last(merged, merged.len(), id);
        let copy = match (taken, place) {
            (None, Some(k)) => {
                assert(m[k as int] == merged@[k as int]@);
                merged[k].clone()
            },
            _ => file[i].clone(),
        };
        assert(copy@ == settled(m, f, i as int));
        assert(entry::entry_views(out@.push(copy)) =~= entry::entry_views(out@).push(copy@));
        assert(head.take(i + 1) =~= head.take(i as int).push(head[i as int]));
        out.push(copy);
        i = i + 1;
    }
    assert(head.take(i as int) =~= head);
    let mut k: usize = 0;
    assert(head + unknown_to(m, f, 0) =~= head);
    while k < merged.len()
        invariant
            k <= merged.len(),
            m == entry::entry_views(merged@),
            f == entry::entry_views(file@),
            f.take(f.len() as int) == f,
            entry::entry_views(out@) == head + unknown_to(m, f, k as nat),
        decreases merged.len() - k,
    {
        let id: u128 = merged[k].id;
        assert(m[k as int] == merged@[k as int]@);
        let known = find_last(file, file.len(), id);
        if known.is_none() {
            let copy = merged[k].clone();
            assert(entry::entry_views(out@.push(copy)) =~= entry::entry_views(out@).push(copy@));
            assert((head + unknown_to(m, f, k as nat)).push(copy@) =~= head + unknown_to(
                m,
                f,
                k as nat,
            ).push(copy@));
            out.push(copy);
        }
        k = k + 1;
    }
    out
}

/// The union of two access logs, with the later stamp where both have one.
pub open spec fn logs_joined(a: Map<u128, i128>, b: Map<u128, i128>) -> Map<u128, i128> {
    Map::new(
        |id: u128| a.contains_key(id) || b.contains_key(id),
        |id: u128|
            if a.contains_key(id) && b.contains_key(id) {
                consolidate::later(a[id], b[id])
            } else if a.contains_key(id) {
                a[id]
            } else {
                b[id]
            },
    )
}

/// The log after a stamp: a later one that was there stays.
pub open spec fn stamped_at(log: Map<u128, i128>, id: u128, now: i128) -> Map<u128, i128> {
    if log.contains_key(id) {
        log.insert(id, consolidate::later(log[id], now))
    } else {
        log.insert(id, now)
    }
}

/// The log after the first `n` entries of a ranking were handed out: those
/// that the query matched are stamped.
pub open spec fn stamped(
    log: Map<u128, i128>,
    entries: Seq<EntryView>,
    matched: Seq<bool>,
    order: Seq<usize>,
    now: i128,
    n: nat,
) -> Map<u128, i128>
    decreases n,
{
    if n == 0 {
        log
    } else {
        let before = stamped(log, entries, matched, order, now, (n - 1) as nat);
        let i = order[n - 1] as int;
        if matched[i] {
            stamped_at(before, entries[i].id, now)
        } else {
            before
        }
    }
}

/// Whether `out` and `log` are what handing out the best `limit` entries gives.
pub open spec fn is_selection(
    before: MirrorView,
    scores: Seq<Single>,
    matched: Seq<bool>,
    limit: usize,
    now: i128,
    out: Seq<EntryView>,
    log: Map<u128, i128>,
) -> bool {
    let n = builtin::within(limit, before.entries.len());
    let order = ordering::ranking(scores);
    &&& scores.len() == before.entries.len()
    &&& out == order.take(n as int).map_values(|i: usize| before.entries[i as int])
    &&& log == stamped(before.access_log, before.entries, matched, order, now, n)
}

/// The entry with its logged access folded in; a later access that it already
/// shows stays.
pub open spec fn folded(e: EntryView, log: Map<u128, i128>) -> EntryView {
    if log.contains_key(e.id) {
        EntryView {
            last_accessed: consolidate::later_access(e.last_accessed, Some(log[e.id])),
            access_count: consolidate::counts_added(e.access_count, 1),
            ..e
        }
    } else {
        e
    }
}

/// The entries with their logged accesses folded in.
pub open spec fn all_folded(entries: Seq<EntryView>, log: Map<u128, i128>) -> Seq<EntryView> {
    entries.map_values(|e: EntryView| folded(e, log))
}

/// The entries that a rewrite starts from: a store under a key that may still
/// change goes by the file, where the file could be read.
pub open spec fn resynced(
    entries: Seq<EntryView>,
    is_fallback: bool,
    file: Option<Seq<EntryView>>,
) -> Seq<EntryView> {
    match file {
        Some(f) => if is_fallback {
            reordered(entries, f)
        } else {
            entries
        },
        None => entries,
    }
}

/// What the file holds, where it could be read.
pub open spec fn file_view(file: Option<Vec<MemoryEntry>>) -> Option<Seq<EntryView>> {
    match file {
        Some(f) => Some(entry::entry_views(f@)),
        None => None,
    }
}

/// Whether `next` and `stats` are what a consolidation pass makes of a mirror
/// whose logged accesses were folded in.
pub open spec fn is_plan<A: RelevanceArithmetic>(
    arithmetic: A,
    before: MirrorView,
    file: Option<Seq<EntryView>>,
    config: ConsolidationConfig,
    now: i128,
    f: PassFigures,
    next: Seq<EntryView>,
    stats: ConsolidationStats,
) -> bool {
    let start = resynced(
        all_folded(before.entries, before.access_log),
        before.is_fallback,
        file,
    );
    consolidate::is_run(
        arithmetic,
        start,
        consolidate::normal_config(config),
        now,
        f,
        next,
        stats,
    )
}

/// The mirror after a consolidation was written out, or was not.
pub open spec fn after_consolidation(
    before: MirrorView,
    next: Seq<EntryView>,
    outcome: Result<(), RewriteFault>,
) -> MirrorView {
    match outcome {
        Err(RewriteFault::PreCommit(_)) => before,
        _ => MirrorView {
            entries: next,
            access_log: Map::empty(),
            append_unusable: false,
            is_fallback: before.is_fallback,
        },
    }
}

/// How a rewrite went, as a contract sees it.
pub open spec fn outcome_view(outcome: Result<(), RewriteError>) -> Result<(), RewriteFault> {
    match outcome {
        Ok(()) => Ok(()),
        Err(e) => Err(e@),
    }
}

/// The error that a failed rewrite leaves.
pub open spec fn fault_error(fault: RewriteFault) -> ErrorView {
    match fault {
        RewriteFault::PreCommit(e) => e,
        RewriteFault::NotDurable(e) => e,
    }
}

impl FileMirror {
    /// A mirror of a file with these entries.
    pub fn new(entries: Vec<MemoryEntry>, is_fallback: bool) -> (r: Self)
        ensures
            r@ == (MirrorView {
                entries: entry::entry_views(entries@),
                access_log: Map::empty(),
                append_unusable: false,
                is_fallback,
            }),
    {
        FileMirror { entries, access_log: HashMap::new(), append_unusable: false, is_fallback }
    }

    /// Whether the store was made under a key that may still change.
    pub fn is_fallback(&self) -> (r: bool)
        ensures
            r == self@.is_fallback,
    {
        self.is_fallback
    }

    /// The entries, in the order of the file.
    pub fn entries(&self) -> (r: &Vec<MemoryEntry>)
        ensures
            entry::entry_views(r@) == self@.entries,
    {
        &self.entries
    }

    /// The number of entries.
    pub fn len(&self) -> (n: usize)
        ensures
            n == self@.entries.len(),
    {
        self.entries.len()
    }

    /// Whether there is no entry.
    pub fn is_empty(&self) -> (r: bool)
        ensures
            r == (self@.entries.len() == 0),
    {
        self.entries.len() == 0
    }

    /// Whether a line may be appended: not while the tail is suspect.
    pub fn begin_append(&self) -> (r: Result<(), LoopError>)
        ensures
            match r {
                Ok(()) => !self@.append_unusable,
                Err(e) => self@.append_unusable && e@ == ErrorView::Memory(UNUSABLE@),
            },
    {
        if self.append_unusable {
            Err(LoopError::Memory(String::from_str(UNUSABLE)))
        } else {
            Ok(())
        }
    }

    /// Settles a store after its line was appended, or was not: the mirror
    /// gains the entry exactly where the line was written, and a failed write
    /// makes the tail suspect.
    pub fn finish_store(&mut self, entry: MemoryEntry, outcome: AppendOutcome) -> (r: Result<
        (),
        LoopError,
    >)
        ensures
            match outcome {
                AppendOutcome::Written => r is Ok && final(self)@ == (MirrorView {
                    entries: old(self)@.entries.push(entry@),
                    ..old(self)@
                }),
                AppendOutcome::NotOpened(e) => r is Err && r->Err_0@ == ErrorView::Memory(
                    "cannot open memory file for append: "@ + e@,
                ) && final(self)@ == old(self)@,
                AppendOutcome::NotWritten(e) => r is Err && r->Err_0@ == ErrorView::Memory(
                    "cannot append to memory file: "@ + e@,
                ) && final(self)@ == (MirrorView { append_unusable: true, ..old(self)@ }),
            },
    {
        match outcome {
            AppendOutcome::Written => {
                let ghost before = self.entries@;
                self.entries.push(entry);
                assert(entry::entry_views(self.entries@) =~= entry::entry_views(before).push(
                    entry@,
                ));
                Ok(())
            },
            AppendOutcome::NotOpened(e) => {
                let mut m = String::from_str("cannot open memory file for append: ");
                text::push_text(&mut m, e.as_str());
                Err(LoopError::Memory(m))
            },
            AppendOutcome::NotWritten(e) => {
                self.append_unusable = true;
                let mut m = String::from_str("cannot append to memory file: ");
                text::push_text(&mut m, e.as_str());
                Err(LoopError::Memory(m))
            },
        }
    }

    /// Hands out the best `limit` entries, given the rank of each and whether
    /// the query matched it, and stamps those that it matched.
    pub fn select(
        &mut self,
        scores: &Vec<Single>,
        matched: &Vec<bool>,
        limit: usize,
        now: i128,
    ) -> (out: Vec<MemoryEntry>)
        requires
            scores.len() == old(self)@.entries.len(),
            matched.len() == old(self)@.entries.len(),
        ensures
            is_selection(
                old(self)@,
                scores@,
                matched@,
                limit,
                now,
                entry::entry_views(out@),
                final(self)@.access_log,
            ),
            final(self)@ == (MirrorView { access_log: final(self)@.access_log, ..old(self)@ }),
    {
        let ghost before = self@;
        let order = ordering::rank_descending(scores);
        let n: usize = if limit <= order.len() {
            limit
        } else {
            order.len()
        };
        let ghost picks = order@.map_values(|i: usize| before.entries[i as int]);
        let mut out: Vec<MemoryEntry> = Vec::new();
        let mut k: usize = 0;
        assert(entry::entry_views(out@) =~= picks.take(0));
        while k < n
            invariant
                k <= n <= order.len(),
                ordering::is_ranking(scores@, order@),
                scores.len() == before.entries.len(),
                matched.len() == before.entries.len(),
                self@ == (MirrorView { access_log: self@.access_log, ..before }),
                picks == order@.map_values(|i: usize| before.entries[i as int]),
                entry::entry_views(out@) == picks.take(k as int),
                self@.access_log == stamped(
                    before.access_log,
                    before.entries,
                    matched@,
                    order@,
                    now,
                    k as nat,
                ),
            decreases n - k,
        {
            let i: usize = order[k];
            assert(i < scores@.len());
            let copy = self.entries[i].clone();
            proof {
                assert(copy@ == before.entries[i as int]);
                assert(entry::entry_views(out@.push(copy)) =~= entry::entry_views(out@).push(
                    copy@,
                ));
                assert(picks.take(k + 1) =~= picks.take(k as int).push(picks[k as int]));
            }
            if matched[i] {
                let stamp: i128 = match self.access_log.get(&copy.id) {
                    Some(t) => if *t >= now {
                        *t
                    } else {
                        now
                    },
                    None => now,
                };
                self.access_log.insert(copy.id, stamp);
            }
            out.push(copy);
            k = k + 1;
        }
        proof {
            assert(picks.take(n as int) =~= order@.take(n as int).map_values(
                |i: usize| before.entries[i as int],
            ));
        }
        out
    }

    /// The best `limit` entries for a query. An entry that the query did not
    /// match may be handed out, but it is not stamped.
    pub fn retrieve<A: RelevanceArithmetic>(
        &mut self,
        arithmetic: &A,
        query: &str,
        limit: usize,
        now: i128,
    ) -> (out: Vec<MemoryEntry>)
        ensures
            exists|scores: Seq<Single>|
                {
                    &&& builtin::are_scores(*arithmetic, old(self)@.entries, query@, scores)
                    &&& #[trigger] is_selection(
                        old(self)@,
                        scores,
                        builtin::answers(old(self)@.entries, query@),
                        limit,
                        now,
                        entry::entry_views(out@),
                        final(self)@.access_log,
                    )
                },
            final(self)@ == (MirrorView { access_log: final(self)@.access_log, ..old(self)@ }),
    {
        let lower = text::to_lowercase(query);
        let words = text::split_whitespace(lower.as_str());
        let whole = text::trim_white(lower.as_str());
        let ghost hits = builtin::answers(self@.entries, query@);
        let mut scores: Vec<Single> = Vec::new();
        let mut matched: Vec<bool> = Vec::new();
        let mut i: usize = 0;
        while i < self.entries.len()
            invariant
                i <= self.entries.len(),
                scores.len() == i,
                hits == builtin::answers(self@.entries, query@),
                matched@ == hits.take(i as int),
                forall|k: int|
                    0 <= k < i ==> score::is_score(
                        *arithmetic,
                        self@.entries[k],
                        text::stripped(text::lowercase(query@)),
                        text::words(text::lowercase(query@)),
                        #[trigger] scores@[k],
                    ),
                text::texts(words@) == text::words(text::lowercase(query@)),
                whole@ == text::stripped(text::lowercase(query@)),
            decreases self.entries.len() - i,
        {
            let (rank, hit) = score::score_entry(
                arithmetic,
                &self.entries[i],
                whole.as_str(),
                &words,
            );
            proof {
                assert(self@.entries[i as int] == self.entries@[i as int]@);
                assert(hits.take(i + 1) =~= hits.take(i as int).push(hit));
            }
            scores.push(rank);
            matched.push(hit);
            i = i + 1;
        }
        assert(matched@ =~= hits);
        assert(builtin::are_scores(*arithmetic, self@.entries, query@, scores@));
        self.select(&scores, &matched, limit, now)
    }

    /// Copies of the entries with their logged accesses folded in.
    fn folded_entries(&self) -> (next: Vec<MemoryEntry>)
        ensures
            entry::entry_views(next@) == all_folded(self@.entries, self@.access_log),
    {
        let ghost want = all_folded(self@.entries, self@.access_log);
        let mut next: Vec<MemoryEntry> = Vec::new();
        let mut i: usize = 0;
        assert(entry::entry_views(next@) =~= want.take(0));
        while i < self.entries.len()
            invariant
                i <= self.entries.len(),
                want == all_folded(self@.entries, self@.access_log),
                entry::entry_views(next@) == want.take(i as int),
            decreases self.entries.len() - i,
        {
            let mut copy = self.entries[i].clone();
            assert(copy@ == self@.entries[i as int]);
            if let Some(t) = self.access_log.get(&copy.id) {
                let stamp: i128 = match copy.last_accessed {
                    Some(s) => if s >= *t {
                        s
                    } else {
                        *t
                    },
                    None => *t,
                };
                copy.last_accessed = Some(stamp);
                copy.access_count = copy.access_count.saturating_add(1);
            }
            assert(copy@ == want[i as int]);
            assert(entry::entry_views(next@.push(copy)) =~= entry::entry_views(next@).push(copy@));
            assert(want.take(i + 1) =~= want.take(i as int).push(want[i as int]));
            next.push(copy);
            i = i + 1;
        }
        assert(want.take(i as int) =~= want);
        next
    }

    /// The entries after a consolidation pass, which the file is to be
    /// rewritten with. The mirror does not change yet.
    pub fn plan_consolidation<A: RelevanceArithmetic>(
        &self,
        arithmetic: &A,
        config: &ConsolidationConfig,
        file: &Option<Vec<MemoryEntry>>,
        now: i128,
    ) -> (plan: (Vec<MemoryEntry>, ConsolidationStats))
        ensures
            exists|f: PassFigures| #[trigger]
                is_plan(
                    *arithmetic,
                    self@,
                    file_view(*file),
                    *config,
                    now,
                    f,
                    entry::entry_views(plan.0@),
                    plan.1,
                ),
    {
        let mut next = self.folded_entries();
        if self.is_fallback {
            if let Some(f) = file {
                next = reorder_merged_entries(&next, f);
            }
        }
        let ghost start = entry::entry_views(next@);
        let stats = consolidate::consolidate_entries(arithmetic, &mut next, config, now);
        let plan = (next, stats);
        proof {
            let used = consolidate::normal_config(*config);
            let done = entry::entry_views(plan.0@);
            let f = choose|f: PassFigures| #[trigger]
                consolidate::is_run(*arithmetic, start, used, now, f, done, stats);
            assert(consolidate::is_run(*arithmetic, start, used, now, f, done, stats));
            assert(is_plan(*arithmetic, self@, file_view(*file), *config, now, f, done, plan.1));
        }
        plan
    }

    /// Settles a consolidation after the file was rewritten, or was not. The
    /// mirror follows the file: where the new file is in place the pass counts,
    /// even if its durability is not confirmed; where it is not, the mirror and
    /// the logged accesses stay as they were.
    pub fn finish_consolidation(
        &mut self,
        next: Vec<MemoryEntry>,
        stats: ConsolidationStats,
        outcome: Result<(), RewriteError>,
    ) -> (r: Result<ConsolidationStats, LoopError>)
        ensures
            final(self)@ == after_consolidation(
                old(self)@,
                entry::entry_views(next@),
                outcome_view(outcome),
            ),
            match outcome_view(outcome) {
                Ok(()) => r == Ok::<ConsolidationStats, LoopError>(stats),
                Err(fault) => r is Err && r->Err_0@ == fault_error(fault),
            },
    {
        match outcome {
            Ok(()) => {
                self.access_log.clear();
                self.entries = next;
                self.append_unusable = false;
                Ok(stats)
            },
            Err(RewriteError::NotDurable(error)) => {
                self.access_log.clear();
                self.entries = next;
                self.append_unusable = false;
                Err(error)
            },
            Err(RewriteError::PreCommit(error)) => Err(error),
        }
    }

    /// Brings the mirror up to the file before a rewrite.
    pub fn resync(&mut self, file: &Option<Vec<MemoryEntry>>)
        ensures
            final(self)@ == (MirrorView {
                entries: resynced(old(self)@.entries, old(self)@.is_fallback, file_view(*file)),
                ..old(self)@
            }),
    {
        if self.is_fallback {
            if let Some(f) = file {
                self.entries = reorder_merged_entries(&self.entries, f);
            }
        }
    }

    /// Settles a flush after the file was rewritten, or was not: only a rewrite
    /// that is confirmed lets appends through again.
    pub fn finish_flush(&mut self, outcome: Result<(), RewriteError>) -> (r: Result<(), LoopError>)
        ensures
            match outcome_view(outcome) {
                Ok(()) => r is Ok && final(self)@ == (MirrorView {
                    append_unusable: false,
                    ..old(self)@
                }),
                Err(fault) => r is Err && r->Err_0@ == fault_error(fault) && final(self)@ == old(
                    self,
                )@,
            },
    {
        match outcome {
            Ok(()) => {
                self.append_unusable = false;
                Ok(())
            },
            Err(e) => Err(e.into_error()),
        }
    }

    /// Takes in a mirror of the same file that is given up: the entries that
    /// only it has are added, the order is reset to the file's where the file
    /// could be read, and the logged accesses are united.
    pub fn merge_mirror(&mut self, stale: &FileMirror, file: &Option<Vec<MemoryEntry>>)
        ensures
            ({
                let mine = old(self)@.entries;
                let union = mine + unknown_to(stale@.entries, mine, stale@.entries.len());
                final(self)@ == (MirrorView {
                    entries: resynced(union, true, file_view(*file)),
                    access_log: logs_joined(old(self)@.access_log, stale@.access_log),
                    ..old(self)@
                })
            }),
    {
        let ghost before = self@;
        let ghost theirs = stale@.entries;
        let own: usize = self.entries.len();
        let mut i: usize = 0;
        assert(before.entries + unknown_to(theirs, before.entries, 0) =~= before.entries);
        while i < stale.entries.len()
            invariant
                i <= stale.entries.len(),
                own == before.entries.len(),
                own <= self.entries.len(),
                theirs == stale@.entries,
                self@ == (MirrorView {
                    entries: before.entries + unknown_to(theirs, before.entries, i as nat),
                    ..before
                }),
            decreases stale.entries.len() - i,
        {
            let id: u128 = stale.entries[i].id;
            assert(theirs[i as int] == stale.entries@[i as int]@);
            assert(self@.entries.take(own as int) =~= before.entries);
            let known = find_last(&self.entries, own, id);
            if known.is_none() {
                let copy = stale.entries[i].clone();
                let ghost now = self.entries@;
                self.entries.push(copy);
                assert(entry::entry_views(self.entries@) =~= entry::entry_views(now).push(copy@));
                assert((before.entries + unknown_to(theirs, before.entries, i as nat)).push(copy@)
                    =~= before.entries + unknown_to(theirs, before.entries, i as nat).push(copy@));
            }
            i = i + 1;
        }
        if let Some(f) = file {
            self.entries = reorder_merged_entries(&self.entries, f);
        }
        self.join_log(&stale.access_log);
    }

    /// Unites the access log with another.
    fn join_log(&mut self, other: &HashMap<u128, i128>)
        ensures
            final(self)@ == (MirrorView {
                access_log: logs_joined(old(self)@.access_log, other@),
                ..old(self)@
            }),
    {
        let ghost before = self@;
        let ghost mine = self.access_log@;
        let ghost ids = other.keys().remaining().unref();
        let ghost mut seen: Seq<u128> = Seq::empty();
        for id in it: other.keys()
            invariant
                it.seq().unref() == ids,
                ids.to_set() == other@.dom(),
                it.seq().no_duplicates(),
                seen == ids.take(it.index() as int),
                self@ == (MirrorView { access_log: self@.access_log, ..before }),
                mine == before.access_log,
                forall|x: u128| #[trigger]
                    self.access_log@.contains_key(x) <==> mine.contains_key(x) || seen.contains(x),
                forall|x: u128| #[trigger]
                    self.access_log@.contains_key(x) ==> self.access_log@[x] == if seen.contains(
                        x,
                    ) {
                        logs_joined(mine, other@)[x]
                    } else {
                        mine[x]
                    },
        {
            let ghost next = seen.push(*id);
            proof {
                assert(ids[it.index() as int] == *id);
                assert(ids.take(it.index() + 1) =~= next);
                assert(!seen.contains(*id));
                assert(ids.to_set().contains(*id));
                assert forall|x: u128| next.contains(x) <==> seen.contains(x) || x == *id by {
                    assert(next[seen.len() as int] == *id);
                    if seen.contains(x) {
                        let j = choose|j: int| 0 <= j < seen.len() && seen[j] == x;
                        assert(next[j] == x);
                    }
                }
            }
            if let Some(stamp) = other.get(id) {
                let joined: i128 = match self.access_log.get(id) {
                    Some(t) => if *t >= *stamp {
                        *t
                    } else {
                        *stamp
                    },
                    None => *stamp,
                };
                self.access_log.insert(*id, joined);
            }
            proof {
                seen = next;
            }
        }
        proof {
            assert(seen =~= ids);
            assert forall|x: u128| seen.contains(x) <==> other@.contains_key(x) by {
                assert(ids.to_set().contains(x) <==> ids.contains(x));
            }
            assert(self.access_log@ =~= logs_joined(mine, other@));
        }
    }
}

proof fn lemma_last_place(list: Seq<EntryView>, id: u128)
    requires
        consolidate::has_id(list, id),
    ensures
        0 <= last_place(list, id) < list.len(),
        list[last_place(list, id)].id == id,
    decreases list.len(),
{
    if list.last().id != id {
        let i = choose|i: int| 0 <= i < list.len() && #[trigger] list[i].id == id;
        assert(list.drop_last()[i].id == id);
        lemma_last_place(list.drop_last(), id);
    }
}

proof fn lemma_unknown(list: Seq<EntryView>, other: Seq<EntryView>, n: nat, i: int)
    requires
        0 <= i < n <= list.len(),
        !consolidate::has_id(other, list[i].id),
    ensures
        consolidate::has_id(unknown_to(list, other, n), list[i].id),
    decreases n,
{
    let now = unknown_to(list, other, n);
    let before = unknown_to(list, other, (n - 1) as nat);
    if i == n - 1 {
        assert(now[before.len() as int].id == list[i].id);
    } else {
        lemma_unknown(list, other, (n - 1) as nat, i);
        let j = choose|j: int| 0 <= j < before.len() && #[trigger] before[j].id == list[i].id;
        assert(now[j] == before[j]);
    }
}

/// Putting a mirror into the order of its file keeps that order: the entry at
/// each of the file's places has the id that the file has there.
pub proof fn reordering_follows_the_file(merged: Seq<EntryView>, file: Seq<EntryView>)
    ensures
        reordered(merged, file).len() >= file.len(),
        forall|i: int|
            0 <= i < file.len() ==> (#[trigger] reordered(merged, file)[i]).id == file[i].id,
{
    assert forall|i: int| 0 <= i < file.len() implies (#[trigger] reordered(
        merged,
        file,
    )[i]).id == file[i].id by {
        if consolidate::has_id(merged, file[i].id) {
            lemma_last_place(merged, file[i].id);
        }
    }
}

/// Putting a mirror into the order of its file loses nothing: every entry of
/// the file and every entry of the mirror is still there.
pub proof fn reordering_loses_nothing(merged: Seq<EntryView>, file: Seq<EntryView>, id: u128)
    requires
        consolidate::has_id(merged, id) || consolidate::has_id(file, id),
    ensures
        consolidate::has_id(reordered(merged, file), id),
{
    let out = reordered(merged, file);
    let head = Seq::new(file.len(), |i: int| settled(merged, file, i));
    let tail = unknown_to(merged, file, merged.len());
    if consolidate::has_id(file, id) {
        reordering_follows_the_file(merged, file);
        let i = choose|i: int| 0 <= i < file.len() && #[trigger] file[i].id == id;
        assert(out[i].id == id);
    } else {
        let i = choose|i: int| 0 <= i < merged.len() && #[trigger] merged[i].id == id;
        lemma_unknown(merged, file, merged.len(), i);
        let j = choose|j: int| 0 <= j < tail.len() && #[trigger] tail[j].id == id;
        assert(out[head.len() + j] == tail[j]);
    }
}

/// Uniting two mirrors of one file loses nothing: every entry of either, and
/// every entry of the file, is there afterwards.
pub proof fn a_merge_of_mirrors_loses_nothing(
    mine: Seq<EntryView>,
    theirs: Seq<EntryView>,
    file: Option<Seq<EntryView>>,
    id: u128,
)
    requires
        consolidate::has_id(mine, id) || consolidate::has_id(theirs, id) || (file is Some
            && consolidate::has_id(file->0, id)),
    ensures
        consolidate::has_id(
            resynced(mine + unknown_to(theirs, mine, theirs.len()), true, file),
            id,
        ),
{
    let more = unknown_to(theirs, mine, theirs.len());
    let union = mine + more;
    if consolidate::has_id(mine, id) {
        let i = choose|i: int| 0 <= i < mine.len() && #[trigger] mine[i].id == id;
        assert(union[i].id == id);
    } else if consolidate::has_id(theirs, id) {
        let i = choose|i: int| 0 <= i < theirs.len() && #[trigger] theirs[i].id == id;
        lemma_unknown(theirs, mine, theirs.len(), i);
        let j = choose|j: int| 0 <= j < more.len() && #[trigger] more[j].id == id;
        assert(union[mine.len() + j] == more[j]);
    }
    if let Some(f) = file {
        reordering_loses_nothing(union, f, id);
    }
}

/// Which of two access logs is taken into which makes no difference, and no
/// stamp goes back in time.
pub proof fn logs_unite_either_way(a: Map<u128, i128>, b: Map<u128, i128>)
    ensures
        logs_joined(a, b) == logs_joined(b, a),
        forall|id: u128| #[trigger]
            a.contains_key(id) ==> logs_joined(a, b).contains_key(id) && logs_joined(a, b)[id]
                >= a[id],
{
    assert(logs_joined(a, b) =~= logs_joined(b, a));
}

/// No query takes a stamp back in time, and none removes one.
pub proof fn a_stamp_never_goes_back(
    log: Map<u128, i128>,
    entries: Seq<EntryView>,
    matched: Seq<bool>,
    order: Seq<usize>,
    now: i128,
    n: nat,
)
    ensures
        forall|id: u128| #[trigger]
            log.contains_key(id) ==> stamped(log, entries, matched, order, now, n).contains_key(id)
                && stamped(log, entries, matched, order, now, n)[id] >= log[id],
    decreases n,
{
    if n > 0 {
        a_stamp_never_goes_back(log, entries, matched, order, now, (n - 1) as nat);
    }
}

/// A consolidation whose rewrite failed before the commit changes nothing: the
/// entries, the logged accesses and the suspicion of the tail stay. One whose
/// file is in place counts, whether or not its durability was confirmed.
pub proof fn the_mirror_follows_the_file(
    before: MirrorView,
    next: Seq<EntryView>,
    error: ErrorView,
)
    ensures
        after_consolidation(before, next, Err(RewriteFault::PreCommit(error))) == before,
        after_consolidation(before, next, Err(RewriteFault::NotDurable(error)))
            == after_consolidation(before, next, Ok(())),
        after_consolidation(before, next, Ok(())).entries == next,
        !after_consolidation(before, next, Ok(())).append_unusable,
{
}

/// What is handed out are the entries that rank highest, highest first and
/// earlier ones before later ones where they rank alike, as many as the limit
/// allows: the result names their places. No entry that was left out ranks
/// before one that was handed out.
pub proof fn the_best_entries_are_handed_out(
    before: MirrorView,
    scores: Seq<Single>,
    matched: Seq<bool>,
    limit: usize,
    now: i128,
    out: Seq<EntryView>,
    log: Map<u128, i128>,
) -> (places: Seq<int>)
    requires
        is_selection(before, scores, matched, limit, now, out, log),
        before.entries.len() <= usize::MAX,
    ensures
        out.len() == if limit <= before.entries.len() {
            limit as nat
        } else {
            before.entries.len()
        },
        places.len() == out.len(),
        forall|k: int|
            0 <= k < out.len() ==> 0 <= #[trigger] places[k] < before.entries.len() && out[k]
                == before.entries[places[k]],
        forall|i: int, j: int|
            0 <= i < j < out.len() ==> scores[#[trigger] places[i]].key() > scores[
            #[trigger] places[j]].key() || (scores[places[i]].key() == scores[places[j]].key()
                && places[i] < places[j]),
        forall|p: int, k: int|
            #![trigger scores[p], places[k]]
            0 <= p < before.entries.len() && 0 <= k < out.len() && !places.contains(p)
                ==> scores[places[k]].key() > scores[p].key() || (scores[places[k]].key()
                == scores[p].key() && places[k] < p),
        forall|id: u128| #[trigger]
            log.contains_key(id) <==> before.access_log.contains_key(id) || was_found(
                before.entries,
                matched,
                places,
                id,
            ),
        forall|id: u128| #[trigger]
            log.contains_key(id) ==> log[id] == if was_found(before.entries, matched, places, id) {
                if before.access_log.contains_key(id) && before.access_log[id] > now {
                    before.access_log[id]
                } else {
                    now
                }
            } else {
                before.access_log[id]
            },
{
    let n = builtin::within(limit, before.entries.len()) as int;
    let order = ordering::ranking(scores);
    ordering::the_first_of_a_ranking_are_the_best(scores, n);
    let places = Seq::new(n as nat, |k: int| order[k] as int);
    assert forall|p: int, k: int|
        #![trigger scores[p], places[k]]
        0 <= p < before.entries.len() && 0 <= k < out.len() && !places.contains(p) implies scores[
    places[k]].key() > scores[p].key() || (scores[places[k]].key() == scores[p].key()
        && places[k] < p) by {
        assert(!(exists|m: int| 0 <= m < n && #[trigger] order[m] == p)) by {
            if exists|m: int| 0 <= m < n && #[trigger] order[m] == p {
                let m = choose|m: int| 0 <= m < n && #[trigger] order[m] == p;
                assert(places[m] == p);
            }
        }
        assert(order[k] == places[k]);
    }
    lemma_stamps(before.access_log, before.entries, matched, order, now, n as nat, places);
    places
}

/// Whether one of the entries at these places has this id and was matched.
pub open spec fn was_found(
    entries: Seq<EntryView>,
    matched: Seq<bool>,
    places: Seq<int>,
    id: u128,
) -> bool {
    exists|k: int|
        0 <= k < places.len() && matched[#[trigger] places[k]] && entries[places[k]].id == id
}

proof fn lemma_stamps(
    log: Map<u128, i128>,
    entries: Seq<EntryView>,
    matched: Seq<bool>,
    order: Seq<usize>,
    now: i128,
    n: nat,
    places: Seq<int>,
)
    requires
        places.len() == n,
        n <= order.len(),
        forall|k: int| 0 <= k < n ==> #[trigger] places[k] == order[k],
    ensures
        ({
            let after = stamped(log, entries, matched, order, now, n);
            &&& forall|id: u128| #[trigger]
                after.contains_key(id) <==> log.contains_key(id) || was_found(
                    entries,
                    matched,
                    places,
                    id,
                )
            &&& forall|id: u128| #[trigger]
                after.contains_key(id) ==> after[id] == if was_found(entries, matched, places, id) {
                    if log.contains_key(id) && log[id] > now {
                        log[id]
                    } else {
                        now
                    }
                } else {
                    log[id]
                }
        }),
    decreases n,
{
    if n > 0 {
        let fewer = places.drop_last();
        lemma_stamps(log, entries, matched, order, now, (n - 1) as nat, fewer);
        let last = places[n - 1];
        assert(order[n - 1] as int == last);
        assert forall|id: u128| #[trigger] was_found(entries, matched, places, id) == (was_found(
            entries,
            matched,
            fewer,
            id,
        ) || (matched[last] && entries[last].id == id)) by {
            if was_found(entries, matched, fewer, id) {
                let k = choose|k: int|
                    0 <= k < fewer.len() && matched[#[trigger] fewer[k]] && entries[fewer[k]].id
                        == id;
                assert(places[k] == fewer[k]);
            }
            if was_found(entries, matched, places, id) {
                let k = choose|k: int|
                    0 <= k < places.len() && matched[#[trigger] places[k]] && entries[places[k]].id
                        == id;
                if k < fewer.len() {
                    assert(fewer[k] == places[k]);
                }
            }
        }
        let before = stamped(log, entries, matched, order, now, (n - 1) as nat);
        let after = stamped(log, entries, matched, order, now, n);
        assert forall|id: u128| #[trigger] after.contains_key(id) == (log.contains_key(id)
            || was_found(entries, matched, places, id)) by {
            assert(before.contains_key(id) == (log.contains_key(id) || was_found(
                entries,
                matched,
                fewer,
                id,
            )));
        }
    }
}

/// A logged access is folded into the entry with that id: its last access is
/// the later of the two, and it counts once. The other entries stay as they
/// are, and so do all places.
pub proof fn logged_accesses_count_once(entries: Seq<EntryView>, log: Map<u128, i128>, i: int)
    requires
        0 <= i < entries.len(),
    ensures
        all_folded(entries, log).len() == entries.len(),
        !log.contains_key(entries[i].id) ==> all_folded(entries, log)[i] == entries[i],
        log.contains_key(entries[i].id) ==> {
            let after = all_folded(entries, log)[i];
            &&& after == (EntryView {
                last_accessed: after.last_accessed,
                access_count: after.access_count,
                ..entries[i]
            })
            &&& after.last_accessed is Some && after.last_accessed->0 >= log[entries[i].id]
            &&& entries[i].last_accessed matches Some(t) ==> after.last_accessed->0 >= t
            &&& after.last_accessed == Some(log[entries[i].id]) || after.last_accessed
                == entries[i].last_accessed
            &&& entries[i].access_count < usize::MAX ==> after.access_count
                == entries[i].access_count + 1
            &&& entries[i].access_count == usize::MAX ==> after.access_count == usize::MAX
        },
{
}

/// Where both have an entry, the mirror's copy stays at the file's place; where
/// only the file has it, the file's does; and what only the mirror has follows
/// in its order. Stated where neither has an id twice.
pub proof fn the_mirror_s_copies_stay(merged: Seq<EntryView>, file: Seq<EntryView>) -> (places: Seq<
    int,
>)
    requires
        forall|i: int, j: int|
            0 <= i < j < merged.len() ==> (#[trigger] merged[i]).id != (#[trigger] merged[j]).id,
        forall|i: int, j: int|
            0 <= i < j < file.len() ==> (#[trigger] file[i]).id != (#[trigger] file[j]).id,
    ensures
        forall|i: int, j: int|
            0 <= i < file.len() && 0 <= j < merged.len() && (#[trigger] file[i]).id == (
            #[trigger] merged[j]).id ==> reordered(merged, file)[i] == merged[j],
        forall|i: int|
            0 <= i < file.len() && !(exists|j: int|
                0 <= j < merged.len() && (#[trigger] merged[j]).id == file[i].id)
                ==> #[trigger] reordered(merged, file)[i] == file[i],
        selection::selects(
            places,
            merged.len(),
            |j: int| !consolidate::has_id(file, merged[j].id),
        ),
        reordered(merged, file).skip(file.len() as int) == places.map_values(|j: int| merged[j]),
{
    let out = reordered(merged, file);
    assert forall|i: int, j: int|
        0 <= i < file.len() && 0 <= j < merged.len() && (#[trigger] file[i]).id == (
        #[trigger] merged[j]).id implies out[i] == merged[j] by {
        assert(merged[j].id == file[i].id);
        assert(consolidate::has_id(merged, file[i].id));
        if consolidate::has_id(file.take(i), file[i].id) {
            let q = choose|q: int|
                0 <= q < file.take(i).len() && #[trigger] file.take(i)[q].id == file[i].id;
            assert(file[q].id != file[i].id);
        }
        lemma_last_place(merged, file[i].id);
        let l = last_place(merged, file[i].id);
        if l < j {
            assert(merged[l].id != merged[j].id);
        } else if j < l {
            assert(merged[j].id != merged[l].id);
        }
        assert(out[i] == settled(merged, file, i));
    }
    assert forall|i: int|
        0 <= i < file.len() && !(exists|j: int|
            0 <= j < merged.len() && (#[trigger] merged[j]).id == file[i].id) implies
        #[trigger] out[i] == file[i] by {
        if consolidate::has_id(merged, file[i].id) {
            let j = choose|j: int| 0 <= j < merged.len() && #[trigger] merged[j].id == file[i].id;
            assert(merged[j].id == file[i].id);
        }
        assert(out[i] == settled(merged, file, i));
    }
    let places = what_another_lacks_is_added_in_order(merged, file, merged.len());
    assert(out.skip(file.len() as int) =~= unknown_to(merged, file, merged.len()));
    places
}

/// What is added from one list to another are the entries whose ids the other
/// lacks, in their order: the result names their places.
pub proof fn what_another_lacks_is_added_in_order(
    list: Seq<EntryView>,
    other: Seq<EntryView>,
    n: nat,
) -> (places: Seq<int>)
    requires
        n <= list.len(),
    ensures
        selection::selects(places, n, |j: int| !consolidate::has_id(other, list[j].id)),
        unknown_to(list, other, n) == places.map_values(|j: int| list[j]),
    decreases n,
{
    let rule = |j: int| !consolidate::has_id(other, list[j].id);
    if n == 0 {
        selection::lemma_none(rule);
        let none = Seq::<int>::empty();
        assert(unknown_to(list, other, 0) =~= none.map_values(|j: int| list[j]));
        none
    } else {
        let before = what_another_lacks_is_added_in_order(list, other, (n - 1) as nat);
        selection::lemma_next(before, (n - 1) as nat, rule);
        let places = if rule(n - 1) {
            before.push(n - 1)
        } else {
            before
        };
        assert(unknown_to(list, other, n) =~= places.map_values(|j: int| list[j]));
        places
    }
}

/// The file counts only for a store whose key may still change, and only where
/// it could be read.
pub proof fn only_a_provisional_store_goes_by_its_file(
    entries: Seq<EntryView>,
    file: Seq<EntryView>,
)
    ensures
        resynced(entries, false, Some(file)) == entries,
        resynced(entries, true, None) == entries,
        resynced(entries, true, Some(file)) == reordered(entries, file),
        resynced(entries, true, Some(Seq::empty())) == entries,
{
    let none = Seq::<EntryView>::empty();
    assert forall|i: int| 0 <= i < entries.len() implies !consolidate::has_id(
        none,
        #[trigger] entries[i].id,
    ) by {}
    lemma_all_unknown(entries, entries.len());
    assert(reordered(entries, none) =~= entries);
}

proof fn lemma_all_unknown(list: Seq<EntryView>, n: nat)
    requires
        n <= list.len(),
    ensures
        unknown_to(list, Seq::empty(), n) == list.take(n as int),
    decreases n,
{
    if n > 0 {
        lemma_all_unknown(list, (n - 1) as nat);
        assert(!consolidate::has_id(Seq::empty(), list[n - 1].id));
    }
    assert(unknown_to(list, Seq::empty(), n) =~= list.take(n as int));
}

/// A united log has the stamps of both, and the later one where both have one.
pub proof fn a_united_log_has_the_later_stamps(a: Map<u128, i128>, b: Map<u128, i128>, id: u128)
    ensures
        logs_joined(a, b).contains_key(id) <==> a.contains_key(id) || b.contains_key(id),
        a.contains_key(id) && !b.contains_key(id) ==> logs_joined(a, b)[id] == a[id],
        !a.contains_key(id) && b.contains_key(id) ==> logs_joined(a, b)[id] == b[id],
        a.contains_key(id) && b.contains_key(id) && a[id] >= b[id] ==> logs_joined(a, b)[id]
            == a[id],
        a.contains_key(id) && b.contains_key(id) && a[id] <= b[id] ==> logs_joined(a, b)[id]
            == b[id],
{
}

/// A consolidation of a mirror folds its logged accesses in, goes by the file
/// where it is to, and runs with the configuration in range; afterwards the log
/// is empty.
pub proof fn a_mirror_is_consolidated_whole<A: RelevanceArithmetic>(
    arithmetic: A,
    before: MirrorView,
    file: Option<Seq<EntryView>>,
    config: ConsolidationConfig,
    now: i128,
    f: PassFigures,
    next: Seq<EntryView>,
    stats: ConsolidationStats,
)
    requires
        is_plan(arithmetic, before, file, config, now, f, next, stats),
    ensures
        !before.is_fallback || file is None ==> consolidate::is_run(
            arithmetic,
            all_folded(before.entries, before.access_log),
            consolidate::normal_config(config),
            now,
            f,
            next,
            stats,
        ),
        before.is_fallback && file is Some ==> consolidate::is_run(
            arithmetic,
            reordered(all_folded(before.entries, before.access_log), file->0),
            consolidate::normal_config(config),
            now,
            f,
            next,
            stats,
        ),
        after_consolidation(before, next, Ok(())).access_log == Map::<u128, i128>::empty(),
        after_consolidation(before, next, Ok(())).is_fallback == before.is_fallback,
{
}

/// Also where an id stands more than once, the file's first line with it takes
/// the mirror's last copy, and every further line stays the file's.
pub proof fn a_copy_is_taken_once(merged: Seq<EntryView>, file: Seq<EntryView>, i: int, j: int)
    requires
        0 <= i < file.len(),
    ensures
        0 <= j < merged.len() && merged[j].id == file[i].id && (forall|k: int|
            j < k < merged.len() ==> (#[trigger] merged[k]).id != file[i].id) && (forall|k: int|
            0 <= k < i ==> (#[trigger] file[k]).id != file[i].id) ==> reordered(merged, file)[i]
            == merged[j],
        (exists|k: int| 0 <= k < i && (#[trigger] file[k]).id == file[i].id) ==> reordered(
            merged,
            file,
        )[i] == file[i],
        (forall|k: int| 0 <= k < merged.len() ==> (#[trigger] merged[k]).id != file[i].id)
            ==> reordered(merged, file)[i] == file[i],
{
    let id = file[i].id;
    assert(reordered(merged, file)[i] == settled(merged, file, i));
    if exists|k: int| 0 <= k < i && (#[trigger] file[k]).id == id {
        let k = choose|k: int| 0 <= k < i && (#[trigger] file[k]).id == id;
        assert(file.take(i)[k].id == id);
        assert(consolidate::has_id(file.take(i), id));
    }
    if consolidate::has_id(file.take(i), id) {
        let k = choose|k: int| 0 <= k < file.take(i).len() && #[trigger] file.take(i)[k].id == id;
        assert(file[k].id == id);
    }
    if 0 <= j < merged.len() && merged[j].id == id && (forall|k: int|
        j < k < merged.len() ==> (#[trigger] merged[k]).id != id) {
        assert(consolidate::has_id(merged, id));
        lemma_none_behind(merged, id, j);
    }
}

proof fn lemma_none_behind(list: Seq<EntryView>, id: u128, j: int)
    requires
        0 <= j < list.len(),
        list[j].id == id,
        forall|k: int| j < k < list.len() ==> (#[trigger] list[k]).id != id,
    ensures
        last_place(list, id) == j,
    decreases list.len(),
{
    if j < list.len() - 1 {
        let fewer = list.drop_last();
        assert(list[list.len() - 1].id != id);
        assert forall|k: int| j < k < fewer.len() implies (#[trigger] fewer[k]).id != id by {
            assert(list[k].id != id);
        }
        lemma_none_behind(fewer, id, j);
    }
}

/// What failed is told in the error that the rewrite left, whichever it was.
pub proof fn a_failed_rewrite_tells_its_error(e: ErrorView)
    ensures
        fault_error(RewriteFault::PreCommit(e)) == e,
        fault_error(RewriteFault::NotDurable(e)) == e,
{
}

} // verus!
