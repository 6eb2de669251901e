//! A store that keeps its entries in memory.

use std::collections::HashMap;
use vstd::prelude::*;

use crate::memory::consolidate;
use crate::memory::consolidate::{ConsolidationConfig, PassFigures, RelevanceArithmetic};
use crate::memory::entry;
use crate::memory::entry::{ConsolidationStats, EntryView, MemoryEntry};
use crate::memory::score;
use crate::ordering;
use crate::single::Single;
use crate::text;

verus! {

broadcast use vstd::std_specs::hash::group_hash_axioms;

/// Entries in order of arrival, with a log of the accesses that no
/// consolidation has folded in yet.
pub struct InMemoryStore {
    entries: Vec<MemoryEntry>,
    access_log: HashMap<u128, i128>,
    consolidation: ConsolidationConfig,
}

/// What a store holds.
pub struct StoreView {
    pub entries: Seq<EntryView>,
    pub access_log: Map<u128, i128>,
    pub consolidation: ConsolidationConfig,
}

impl View for InMemoryStore {
    type V = StoreView;

    closed spec fn view(&self) -> StoreView {
        StoreView {
            entries: entry::entry_views(self.entries@),
            access_log: self.access_log@,
            consolidation: self.consolidation,
        }
    }
}

/// The log after the first `n` entries of a ranking were handed out: those
/// that the query matched are stamped.
pub open spec fn stamped(
    log: Map<u128, i128>,
    entries: Seq<EntryView>,
    matched: Seq<bool>,
    order: Seq<usize>,
    now: i128,
    n: nat,
) -> Map<u128, i128>
    decreases n,
{
    if n == 0 {
        log
    } else {
        let before = stamped(log, entries, matched, order, now, (n - 1) as nat);
        let i = order[n - 1] as int;
        if matched[i] {
            before.insert(entries[i].id, now)
        } else {
            before
        }
    }
}

/// The number of entries that a limit lets through.
pub open spec fn within(limit: usize, n: nat) -> nat {
    if limit <= n {
        limit as nat
    } else {
        n
    }
}

/// Whether `out` and `log` are what handing out the best `limit` entries gives.
pub open spec fn is_selection(
    before: StoreView,
    scores: Seq<Single>,
    matched: Seq<bool>,
    limit: usize,
    now: i128,
    out: Seq<EntryView>,
    log: Map<u128, i128>,
) -> bool {
    let n = within(limit, before.entries.len());
    let order = ordering::ranking(scores);
    &&& scores.len() == before.entries.len()
    &&& out == order.take(n as int).map_values(|i: usize| before.entries[i as int])
    &&& log == stamped(before.access_log, before.entries, matched, order, now, n)
}

/// The entry with its logged access folded in.
pub open spec fn folded(e: EntryView, log: Map<u128, i128>) -> EntryView {
    if log.contains_key(e.id) {
        EntryView {
            last_accessed: Some(log[e.id]),
            access_count: consolidate::counts_added(e.access_count, 1),
            ..e
        }
    } else {
        e
    }
}

/// Whether an entry of a store matches a query.
pub open spec fn entry_matches(e: EntryView, query: Seq<char>) -> bool {
    score::is_match(
        e,
        text::stripped(text::lowercase(query)),
        text::words(text::lowercase(query)),
    )
}

/// Which entries match a query.
pub open spec fn answers(entries: Seq<EntryView>, query: Seq<char>) -> Seq<bool> {
    entries.map_values(|e: EntryView| entry_matches(e, query))
}

/// Whether `scores` are what the host's formula gives for the entries and a
/// query.
pub open spec fn are_scores<A: RelevanceArithmetic>(
    arithmetic: A,
    entries: Seq<EntryView>,
    query: Seq<char>,
    scores: Seq<Single>,
) -> bool {
    &&& scores.len() == entries.len()
    &&& forall|i: int|
        0 <= i < entries.len() ==> score::is_score(
            arithmetic,
            entries[i],
            text::stripped(text::lowercase(query)),
            text::words(text::lowercase(query)),
            #[trigger] scores[i],
        )
}

/// The entries with their logged accesses folded in.
pub open spec fn all_folded(entries: Seq<EntryView>, log: Map<u128, i128>) -> Seq<EntryView> {
    entries.map_values(|e: EntryView| folded(e, log))
}

impl InMemoryStore {
    /// An empty store.
    pub fn new() -> (r: Self)
        ensures
            r@.entries == Seq::<EntryView>::empty(),
            r@.access_log == Map::<u128, i128>::empty(),
            r@.consolidation == consolidate::default_config(),
    {
        let r = InMemoryStore {
            entries: Vec::new(),
            access_log: HashMap::new(),
            consolidation: ConsolidationConfig::default(),
        };
        assert(entry::entry_views(r.entries@) =~= Seq::<EntryView>::empty());
        r
    }

    /// The store with another consolidation configuration.
    pub fn with_consolidation(self, config: ConsolidationConfig) -> (r: Self)
        ensures
            r@ == (StoreView { consolidation: config, ..self@ }),
    {
        let mut r = self;
        r.consolidation = config;
        r
    }

    /// The store with these entries in place of its own.
    pub fn with_entries(self, entries: Vec<MemoryEntry>) -> (r: Self)
        ensures
            r@ == (StoreView { entries: entry::entry_views(entries@), ..self@ }),
    {
        let mut r = self;
        r.entries = entries;
        r
    }

    /// Adds an entry at the end.
    pub fn store(&mut self, entry: MemoryEntry)
        ensures
            final(self)@ == (StoreView { entries: old(self)@.entries.push(entry@), ..old(self)@ }),
    {
        let ghost before = self.entries@;
        self.entries.push(entry);
        assert(entry::entry_views(self.entries@) =~= entry::entry_views(before).push(entry@));
    }

    /// The number of entries.
    pub fn len(&self) -> (n: usize)
        ensures
            n == self@.entries.len(),
    {
        self.entries.len()
    }

    /// Whether there is no entry.
    pub fn is_empty(&self) -> (r: bool)
        ensures
            r == (self@.entries.len() == 0),
    {
        self.entries.len() == 0
    }

    /// Hands out the best `limit` entries, given the rank of each and whether
    /// the query matched it, and stamps those that it matched.
    pub fn select(
        &mut self,
        scores: &Vec<Single>,
        matched: &Vec<bool>,
        limit: usize,
        now: i128,
    ) -> (out: Vec<MemoryEntry>)
        requires
            scores.len() == old(self)@.entries.len(),
            matched.len() == old(self)@.entries.len(),
        ensures
            is_selection(
                old(self)@,
                scores@,
                matched@,
                limit,
                now,
                entry::entry_views(out@),
                final(self)@.access_log,
            ),
            final(self)@ == (StoreView { access_log: final(self)@.access_log, ..old(self)@ }),
    {
        let ghost before = self@;
        let order = ordering::rank_descending(scores);
        let n: usize = if limit <= order.len() {
            limit
        } else {
            order.len()
        };
        let ghost picks = order@.map_values(|i: usize| before.entries[i as int]);
        let mut out: Vec<MemoryEntry> = Vec::new();
        let mut k: usize = 0;
        assert(entry::entry_views(out@) =~= picks.take(0));
        while k < n
            invariant
                k <= n <= order.len(),
                ordering::is_ranking(scores@, order@),
                scores.len() == before.entries.len(),
                matched.len() == before.entries.len(),
                self@.entries == before.entries,
                self@.consolidation == before.consolidation,
                picks == order@.map_values(|i: usize| before.entries[i as int]),
                entry::entry_views(out@) == picks.take(k as int),
                self@.access_log == stamped(
                    before.access_log,
                    before.entries,
                    matched@,
                    order@,
                    now,
                    k as nat,
                ),
            decreases n - k,
        {
            let i: usize = order[k];
            assert(i < scores@.len());
            let copy = self.entries[i].clone();
            proof {
                assert(copy@ == before.entries[i as int]);
                assert(entry::entry_views(out@.push(copy)) =~= entry::entry_views(out@).push(
                    copy@,
                ));
                assert(picks.take(k + 1) =~= picks.take(k as int).push(picks[k as int]));
            }
            if matched[i] {
                self.access_log.insert(copy.id, now);
            }
            out.push(copy);
            k = k + 1;
        }
        proof {
            assert(picks.take(n as int) =~= order@.take(n as int).map_values(
                |i: usize| before.entries[i as int],
            ));
        }
        out
    }

    /// The best `limit` entries for a query. An entry that the query did not
    /// match may be handed out, but it is not stamped.
    pub fn retrieve<A: RelevanceArithmetic>(
        &mut self,
        arithmetic: &A,
        query: &str,
        limit: usize,
        now: i128,
    ) -> (out: Vec<MemoryEntry>)
        ensures
            exists|scores: Seq<Single>|
                {
                    &&& are_scores(*arithmetic, old(self)@.entries, query@, scores)
                    &&& #[trigger] is_selection(
                        old(self)@,
                        scores,
                        answers(old(self)@.entries, query@),
                        limit,
                        now,
                        entry::entry_views(out@),
                        final(self)@.access_log,
                    )
                },
            final(self)@ == (StoreView { access_log: final(self)@.access_log, ..old(self)@ }),
    {
        let lower = text::to_lowercase(query);
        let words = text::split_whitespace(lower.as_str());
        let whole = text::trim_white(lower.as_str());
        let ghost hits = answers(self@.entries, query@);
        let mut scores: Vec<Single> = Vec::new();
        let mut matched: Vec<bool> = Vec::new();
        let mut i: usize = 0;
        while i < self.entries.len()
            invariant
                i <= self.entries.len(),
                scores.len() == i,
                hits == answers(self@.entries, query@),
                matched@ == hits.take(i as int),
                forall|k: int|
                    0 <= k < i ==> score::is_score(
                        *arithmetic,
                        self@.entries[k],
                        text::stripped(text::lowercase(query@)),
                        text::words(text::lowercase(query@)),
                        #[trigger] scores@[k],
                    ),
                text::texts(words@) == text::words(text::lowercase(query@)),
                whole@ == text::stripped(text::lowercase(query@)),
            decreases self.entries.len() - i,
        {
            let (rank, hit) = score::score_entry(
                arithmetic,
                &self.entries[i],
                whole.as_str(),
                &words,
            );
            proof {
                assert(self@.entries[i as int] == self.entries@[i as int]@);
                assert(hits.take(i + 1) =~= hits.take(i as int).push(hit));
            }
            scores.push(rank);
            matched.push(hit);
            i = i + 1;
        }
        assert(matched@ =~= hits);
        assert(are_scores(*arithmetic, self@.entries, query@, scores@));
        self.select(&scores, &matched, limit, now)
    }

    /// Folds the logged accesses into the entries, clears the log and runs a
    /// consolidation pass.
    pub fn consolidate<A: RelevanceArithmetic>(&mut self, arithmetic: &A, now: i128) -> (stats:
        ConsolidationStats)
        ensures
            exists|f: PassFigures| #[trigger]
                consolidate::is_run(
                    *arithmetic,
                    all_folded(old(self)@.entries, old(self)@.access_log),
                    consolidate::normal_config(old(self)@.consolidation),
                    now,
                    f,
                    final(self)@.entries,
                    stats,
                ),
            final(self)@.access_log == Map::<u128, i128>::empty(),
            final(self)@.consolidation == old(self)@.consolidation,
    {
        let ghost before = self@;
        let mut i: usize = 0;
        while i < self.entries.len()
            invariant
                i <= self.entries.len(),
                self.entries@.len() == before.entries.len(),
                self.access_log@ == before.access_log,
                self.consolidation == before.consolidation,
                forall|k: int|
                    0 <= k < i ==> (#[trigger] self.entries@[k])@ == folded(
                        before.entries[k],
                        before.access_log,
                    ),
                forall|k: int|
                    i <= k < before.entries.len() ==> (#[trigger] self.entries@[k])@
                        == before.entries[k],
            decreases self.entries.len() - i,
        {
            let id: u128 = self.entries[i].id;
            let stamp: Option<i128> = match self.access_log.get(&id) {
                Some(t) => Some(*t),
                None => None,
            };
            if let Some(t) = stamp {
                let mut copy = self.entries[i].clone();
                copy.last_accessed = Some(t);
                copy.access_count = copy.access_count.saturating_add(1);
                self.entries.set(i, copy);
            }
            i = i + 1;
        }
        proof {
            assert(entry::entry_views(self.entries@) =~= all_folded(
                before.entries,
                before.access_log,
            ));
        }
        self.access_log.clear();
        let config = self.consolidation;
        let ghost start = entry::entry_views(self.entries@);
        let stats = consolidate::consolidate_entries(arithmetic, &mut self.entries, &config, now);
        proof {
            let used = consolidate::normal_config(config);
            let f = choose|f: PassFigures| #[trigger]
                consolidate::is_run(
                    *arithmetic,
                    start,
                    used,
                    now,
                    f,
                    entry::entry_views(self.entries@),
                    stats,
                );
            assert(consolidate::is_run(
                *arithmetic,
                all_folded(before.entries, before.access_log),
                consolidate::normal_config(before.consolidation),
                now,
                f,
                self@.entries,
                stats,
            ));
        }
        stats
    }
}

impl Default for InMemoryStore {
    fn default() -> (r: Self)
        ensures
            r@.entries == Seq::<EntryView>::empty(),
            r@.access_log == Map::<u128, i128>::empty(),
            r@.consolidation == consolidate::default_config(),
    {
        InMemoryStore::new()
    }
}

/// A query that matches no entry leaves the access log alone, however many
/// entries it hands out.
pub proof fn an_unmatched_query_stamps_nothing(
    log: Map<u128, i128>,
    entries: Seq<EntryView>,
    matched: Seq<bool>,
    order: Seq<usize>,
    now: i128,
    n: nat,
)
    requires
        forall|k: int| 0 <= k < n ==> !matched[(#[trigger] order[k]) as int],
    ensures
        stamped(log, entries, matched, order, now, n) == log,
    decreases n,
{
    if n > 0 {
        an_unmatched_query_stamps_nothing(log, entries, matched, order, now, (n - 1) as nat);
    }
}

/// A stamp in the log is either an old one or the time of this query, and an
/// id that was in the log stays in it.
pub proof fn stamping_only_adds(
    log: Map<u128, i128>,
    entries: Seq<EntryView>,
    matched: Seq<bool>,
    order: Seq<usize>,
    now: i128,
    n: nat,
)
    ensures
        ({
            let after = stamped(log, entries, matched, order, now, n);
            &&& forall|id: u128| log.contains_key(id) ==> #[trigger] after.contains_key(id)
            &&& forall|id: u128| #[trigger]
                after.contains_key(id) ==> after[id] == now || (log.contains_key(id) && after[id]
                    == log[id])
        }),
    decreases n,
{
    if n > 0 {
        stamping_only_adds(log, entries, matched, order, now, (n - 1) as nat);
        let before = stamped(log, entries, matched, order, now, (n - 1) as nat);
        let after = stamped(log, entries, matched, order, now, n);
        assert forall|id: u128| log.contains_key(id) implies #[trigger] after.contains_key(id) by {
            assert(before.contains_key(id));
        }
        assert forall|id: u128| #[trigger] after.contains_key(id) implies after[id] == now || (
        log.contains_key(id) && after[id] == log[id]) by {
            if after[id] != now {
                assert(before.contains_key(id));
            }
        }
    }
}

/// What is handed out are the entries that rank highest, highest first and
/// earlier ones before later ones where they rank alike, as many as the limit
/// allows: the result names their places. No entry that was left out ranks
/// before one that was handed out.
pub proof fn the_best_entries_are_handed_out(
    before: StoreView,
    scores: Seq<Single>,
    matched: Seq<bool>,
    limit: usize,
    now: i128,
    out: Seq<EntryView>,
    log: Map<u128, i128>,
) -> (places: Seq<int>)
    requires
        is_selection(before, scores, matched, limit, now, out, log),
        before.entries.len() <= usize::MAX,
    ensures
        out.len() == if limit <= before.entries.len() {
            limit as nat
        } else {
            before.entries.len()
        },
        places.len() == out.len(),
        forall|k: int|
            0 <= k < out.len() ==> 0 <= #[trigger] places[k] < before.entries.len() && out[k]
                == before.entries[places[k]],
        forall|i: int, j: int|
            0 <= i < j < out.len() ==> scores[#[trigger] places[i]].key() > scores[
            #[trigger] places[j]].key() || (scores[places[i]].key() == scores[places[j]].key()
                && places[i] < places[j]),
        forall|p: int, k: int|
            #![trigger scores[p], places[k]]
            0 <= p < before.entries.len() && 0 <= k < out.len() && !places.contains(p)
                ==> scores[places[k]].key() > scores[p].key() || (scores[places[k]].key()
                == scores[p].key() && places[k] < p),
        forall|id: u128| #[trigger]
            log.contains_key(id) <==> before.access_log.contains_key(id) || was_found(
                before.entries,
                matched,
                places,
                id,
            ),
        forall|id: u128| #[trigger]
            log.contains_key(id) ==> log[id] == if was_found(before.entries, matched, places, id) {
                now
            } else {
                before.access_log[id]
            },
{
    let n = within(limit, before.entries.len()) as int;
    let order = ordering::ranking(scores);
    ordering::the_first_of_a_ranking_are_the_best(scores, n);
    let places = Seq::new(n as nat, |k: int| order[k] as int);
    assert forall|p: int, k: int|
        #![trigger scores[p], places[k]]
        0 <= p < before.entries.len() && 0 <= k < out.len() && !places.contains(p) implies scores[
    places[k]].key() > scores[p].key() || (scores[places[k]].key() == scores[p].key()
        && places[k] < p) by {
        assert(!(exists|m: int| 0 <= m < n && #[trigger] order[m] == p)) by {
            if exists|m: int| 0 <= m < n && #[trigger] order[m] == p {
                let m = choose|m: int| 0 <= m < n && #[trigger] order[m] == p;
                assert(places[m] == p);
            }
        }
        assert(order[k] == places[k]);
    }
    lemma_stamps(before.access_log, before.entries, matched, order, now, n as nat, places);
    places
}

/// Whether one of the entries at these places has this id and was matched.
pub open spec fn was_found(
    entries: Seq<EntryView>,
    matched: Seq<bool>,
    places: Seq<int>,
    id: u128,
) -> bool {
    exists|k: int|
        0 <= k < places.len() && matched[#[trigger] places[k]] && entries[places[k]].id == id
}

proof fn lemma_stamps(
    log: Map<u128, i128>,
    entries: Seq<EntryView>,
    matched: Seq<bool>,
    order: Seq<usize>,
    now: i128,
    n: nat,
    places: Seq<int>,
)
    requires
        places.len() == n,
        n <= order.len(),
        forall|k: int| 0 <= k < n ==> #[trigger] places[k] == order[k],
    ensures
        ({
            let after = stamped(log, entries, matched, order, now, n);
            &&& forall|id: u128| #[trigger]
                after.contains_key(id) <==> log.contains_key(id) || was_found(
                    entries,
                    matched,
                    places,
                    id,
                )
            &&& forall|id: u128| #[trigger]
                after.contains_key(id) ==> after[id] == if was_found(entries, matched, places, id) {
                    now
                } else {
                    log[id]
                }
        }),
    decreases n,
{
    if n > 0 {
        let fewer = places.drop_last();
        lemma_stamps(log, entries, matched, order, now, (n - 1) as nat, fewer);
        let last = places[n - 1];
        assert(order[n - 1] as int == last);
        assert forall|id: u128| #[trigger] was_found(entries, matched, places, id) == (was_found(
            entries,
            matched,
            fewer,
            id,
        ) || (matched[last] && entries[last].id == id)) by {
            if was_found(entries, matched, fewer, id) {
                let k = choose|k: int|
                    0 <= k < fewer.len() && matched[#[trigger] fewer[k]] && entries[fewer[k]].id
                        == id;
                assert(places[k] == fewer[k]);
            }
            if was_found(entries, matched, places, id) {
                let k = choose|k: int|
                    0 <= k < places.len() && matched[#[trigger] places[k]] && entries[places[k]].id
                        == id;
                if k < fewer.len() {
                    assert(fewer[k] == places[k]);
                }
            }
        }
        let before = stamped(log, entries, matched, order, now, (n - 1) as nat);
        let after = stamped(log, entries, matched, order, now, n);
        assert forall|id: u128| #[trigger] after.contains_key(id) == (log.contains_key(id)
            || was_found(entries, matched, places, id)) by {
            assert(before.contains_key(id) == (log.contains_key(id) || was_found(
                entries,
                matched,
                fewer,
                id,
            )));
        }
    }
}

/// An entry answers a query where one of the query's words occurs in its text
/// or the whole query, without the white space at its ends, occurs in one of
/// its tags, all in lower case.
pub proof fn an_entry_answers_by_word_or_tag(entries: Seq<EntryView>, query: Seq<char>, i: int)
    requires
        0 <= i < entries.len(),
    ensures
        answers(entries, query).len() == entries.len(),
        answers(entries, query)[i] <==> {
            ||| exists|k: int|
                0 <= k < text::words(text::lowercase(query)).len() && text::occurs(
                    text::lowercase(entries[i].memory),
                    #[trigger] text::words(text::lowercase(query))[k],
                )
            ||| text::stripped(text::lowercase(query)).len() > 0 && exists|k: int|
                0 <= k < entries[i].tags.len() && text::occurs(
                    text::lowercase(#[trigger] entries[i].tags[k]),
                    text::stripped(text::lowercase(query)),
                )
        },
{
    score::any_word_or_tag_makes_a_match(
        entries[i],
        text::stripped(text::lowercase(query)),
        text::words(text::lowercase(query)),
    );
}

/// Every entry is ranked for the query in lower case, by its words and, without
/// the white space at its ends, as a whole.
pub proof fn every_entry_is_ranked<A: RelevanceArithmetic>(
    arithmetic: A,
    entries: Seq<EntryView>,
    query: Seq<char>,
    scores: Seq<Single>,
    i: int,
)
    requires
        are_scores(arithmetic, entries, query, scores),
        0 <= i < entries.len(),
    ensures
        scores.len() == entries.len(),
        score::is_score(
            arithmetic,
            entries[i],
            text::stripped(text::lowercase(query)),
            text::words(text::lowercase(query)),
            scores[i],
        ),
{
    assert(score::is_score(
        arithmetic,
        entries[i],
        text::stripped(text::lowercase(query)),
        text::words(text::lowercase(query)),
        scores[i],
    ));
}

/// A logged access is folded into the entry with that id: it becomes its last
/// access and counts once. The other entries stay as they are, and so do all
/// places.
pub proof fn logged_accesses_count_once(entries: Seq<EntryView>, log: Map<u128, i128>, i: int)
    requires
        0 <= i < entries.len(),
    ensures
        all_folded(entries, log).len() == entries.len(),
        !log.contains_key(entries[i].id) ==> all_folded(entries, log)[i] == entries[i],
        log.contains_key(entries[i].id) ==> all_folded(entries, log)[i] == (EntryView {
            last_accessed: Some(log[entries[i].id]),
            access_count: all_folded(entries, log)[i].access_count,
            ..entries[i]
        }),
        log.contains_key(entries[i].id) && entries[i].access_count < usize::MAX ==> all_folded(
            entries,
            log,
        )[i].access_count == entries[i].access_count + 1,
        log.contains_key(entries[i].id) && entries[i].access_count == usize::MAX ==> all_folded(
            entries,
            log,
        )[i].access_count == usize::MAX,
{
}

} // verus!
