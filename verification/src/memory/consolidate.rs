//! The consolidation pass: decay, merge, prune.
//!
//! The floating-point formulas belong to the host and come in through
//! [`RelevanceArithmetic`]. What is done with their results is decided here:
//! each step has a function that takes the results as arguments and says
//! exactly what comes of them, and [`consolidate_entries`] runs the steps.

pub mod accounts;
pub mod steps;

use vstd::prelude::*;

use crate::memory::entry;
use crate::memory::entry::{ConsolidationStats, EntryView, MemoryCategory, MemoryEntry};
use crate::memory::tokens;
use crate::numeric;
use crate::single::Single;
use crate::text;

verus! {

/// The formulas of a consolidation pass that need floating point.
pub trait RelevanceArithmetic {
    /// `numerator / denominator`.
    fn ratio(&self, numerator: u16, denominator: u16) -> Single;

    /// `relevance + 0.1`.
    fn raised(&self, relevance: Single) -> Single;

    /// `relevance * 0.5 ^ (age / half_life * category_decay_weight(category))`,
    /// with both spans in nanoseconds and the half-life at least one second.
    fn faded(
        &self,
        relevance: Single,
        age: u128,
        half_life: u128,
        category: MemoryCategory,
    ) -> Single;

    /// The composite quality of an entry: 0.45 relevance, 0.30 access, 0.15
    /// recency, 0.10 validation.
    fn quality(&self, parts: &QualityParts) -> Single;

    /// The rank of an entry for a query: `base * 0.5`, plus 0.4 times the
    /// overlap of the words where there is one, plus 0.3 for a tag, plus 0.1.
    fn rank(&self, base: Single, overlap: Option<(u16, u16)>, tag_match: bool) -> Single;
}

/// What the quality of an entry is made of.
#[derive(Debug, Clone, Copy, PartialEq, Eq, Structural)]
pub struct QualityParts {
    /// The relevance, held between zero and one.
    pub relevance: Single,
    /// How often the entry was handed out, held at the largest count.
    pub access_count: u16,
    /// How long ago that was last, or how long ago the entry was made, in
    /// nanoseconds. Nothing where the clock says that it lies ahead.
    pub idle: Option<u128>,
    pub validated: bool,
}

/// What the quality of an entry is made of.
pub open spec fn quality_parts_of(e: EntryView, now: i128) -> QualityParts {
    let touched = match e.last_accessed {
        Some(t) => t,
        None => e.created_at,
    };
    QualityParts {
        relevance: e.relevance.clamped(),
        access_count: if e.access_count <= u16::MAX {
            e.access_count as u16
        } else {
            u16::MAX
        },
        idle: if now >= touched {
            Some((now - touched) as u128)
        } else {
            None
        },
        validated: e.validated,
    }
}

/// What the quality of an entry is made of.
pub fn quality_parts(entry: &MemoryEntry, now: i128) -> (parts: QualityParts)
    ensures
        parts == quality_parts_of(entry@, now),
{
    let touched: i128 = match entry.last_accessed {
        Some(t) => t,
        None => entry.created_at,
    };
    QualityParts {
        relevance: entry.relevance.clamp_unit(),
        access_count: if entry.access_count <= u16::MAX as usize {
            entry.access_count as u16
        } else {
            u16::MAX
        },
        idle: if now >= touched {
            Some(span(touched, now))
        } else {
            None
        },
        validated: entry.validated,
    }
}

/// How fast a category fades, as a multiple of the neutral rate.
pub fn category_decay_weight(category: MemoryCategory) -> (weight: Single)
    ensures
        weight.bits == match category {
            MemoryCategory::Fact | MemoryCategory::Strategy => 0x3f00_0000u32,
            MemoryCategory::Insight | MemoryCategory::ErrorPattern => 0x3f40_0000u32,
            MemoryCategory::Trajectory => 0x3f80_0000u32,
            MemoryCategory::Working => 0x4000_0000u32,
        },
{
    match category {
        MemoryCategory::Fact => Single { bits: 0x3f00_0000 },
        MemoryCategory::Strategy => Single { bits: 0x3f00_0000 },
        MemoryCategory::Insight => Single { bits: 0x3f40_0000 },
        MemoryCategory::ErrorPattern => Single { bits: 0x3f40_0000 },
        MemoryCategory::Trajectory => Single { bits: 0x3f80_0000 },
        MemoryCategory::Working => Single { bits: 0x4000_0000 },
    }
}

/// Durable knowledge fades slowest and working memory fastest.
pub proof fn durable_categories_fade_slower()
    ensures
        (Single { bits: 0x3f00_0000 }).below(Single { bits: 0x3f40_0000 }),
        (Single { bits: 0x3f40_0000 }).below(Single { bits: 0x3f80_0000 }),
        (Single { bits: 0x3f80_0000 }).below(Single { bits: 0x4000_0000 }),
{
}

// ---------------------------------------------------------------------------
// Decay
// ---------------------------------------------------------------------------

/// The later of two instants.
pub open spec fn later(a: i128, b: i128) -> i128 {
    if a >= b {
        a
    } else {
        b
    }
}

/// The earlier of two instants.
pub open spec fn earlier(a: i128, b: i128) -> i128 {
    if a <= b {
        a
    } else {
        b
    }
}

/// The instant that an entry fades from: the later of its last decay and its
/// last access, each replaced by its creation where it never happened.
pub open spec fn decay_baseline(e: EntryView) -> i128 {
    later(
        match e.last_decayed {
            Some(t) => t,
            None => e.created_at,
        },
        match e.last_accessed {
            Some(t) => t,
            None => e.created_at,
        },
    )
}

/// The entry with its decay stamp advanced to `now`, never backwards.
pub open spec fn stamp_advanced(e: EntryView, now: i128) -> EntryView {
    EntryView {
        last_decayed: Some(
            match e.last_decayed {
                Some(t) => later(t, now),
                None => now,
            },
        ),
        ..e
    }
}

/// The entry after one decay at `now`, where `faded` is its relevance times the
/// decay factor. A clock before the baseline fades nothing.
pub open spec fn decayed(e: EntryView, now: i128, faded: Single) -> EntryView {
    if now < decay_baseline(e) {
        stamp_advanced(e, now)
    } else {
        EntryView { relevance: faded.clamped(), ..stamp_advanced(e, now) }
    }
}

fn baseline_of(entry: &MemoryEntry) -> (t: i128)
    ensures
        t == decay_baseline(entry@),
{
    let decayed_at: i128 = match entry.last_decayed {
        Some(t) => t,
        None => entry.created_at,
    };
    let accessed_at: i128 = match entry.last_accessed {
        Some(t) => t,
        None => entry.created_at,
    };
    if decayed_at >= accessed_at {
        decayed_at
    } else {
        accessed_at
    }
}

/// The span between two instants.
fn span(from: i128, to: i128) -> (n: u128)
    requires
        from <= to,
    ensures
        n == to - from,
{
    if from >= 0 {
        (to - from) as u128
    } else if to < 0 {
        (to - from) as u128
    } else {
        let below_zero: u128 = (-(from + 1)) as u128;
        to as u128 + below_zero + 1
    }
}

/// How long an entry has faded since its baseline, in nanoseconds. Nothing
/// where `now` lies before it.
pub fn decay_age(entry: &MemoryEntry, now: i128) -> (age: Option<u128>)
    ensures
        age is Some <==> now >= decay_baseline(entry@),
        age matches Some(a) ==> a == now - decay_baseline(entry@),
{
    let from: i128 = baseline_of(entry);
    if now < from {
        None
    } else {
        Some(span(from, now))
    }
}

/// Fades one entry, where `faded` is its relevance times the decay factor.
pub fn decay_relevance(entry: &mut MemoryEntry, now: i128, faded: Single)
    ensures
        final(entry)@ == decayed(old(entry)@, now, faded),
{
    let from: i128 = baseline_of(entry);
    if now >= from {
        entry.relevance = faded.clamp_unit();
    }
    entry.last_decayed = Some(
        match entry.last_decayed {
            Some(t) => if t >= now {
                t
            } else {
                now
            },
            None => now,
        },
    );
}

/// The decay stamp never moves backwards, and time that was already decayed is
/// never decayed again: after a decay at `now` the baseline lies at `now` or
/// later, so a second decay at the same instant has no age to fade.
pub proof fn decayed_time_is_not_decayed_again(e: EntryView, now: i128, faded: Single)
    ensures
        decay_baseline(decayed(e, now, faded)) >= now,
        e.last_decayed matches Some(t) ==> decayed(e, now, faded).last_decayed == Some(
            later(t, now),
        ),
        now < decay_baseline(e) ==> decayed(e, now, faded).relevance == e.relevance,
{
}

/// An entry that fades in two steps is stamped as one that fades in one, keeps
/// its other fields as that one does, and is handed the same age in all: the
/// ages of the two steps add up to the age of the one. Where the host's formula
/// comes to the same relevance, the two entries are the same.
pub proof fn decay_in_steps_covers_the_same_time(
    e: EntryView,
    first: i128,
    second: i128,
    faded_once: Single,
    faded_twice: Single,
    faded_whole: Single,
)
    requires
        decay_baseline(e) <= first <= second,
    ensures
        ({
            let halfway = decayed(e, first, faded_once);
            let stepped = decayed(halfway, second, faded_twice);
            let whole = decayed(e, second, faded_whole);
            &&& stepped.last_decayed == Some(second)
            &&& whole.last_decayed == Some(second)
            &&& stepped == EntryView { relevance: faded_twice.clamped(), ..whole }
            &&& whole == EntryView {
                relevance: faded_whole.clamped(),
                last_decayed: Some(second),
                ..e
            }
            &&& (first - decay_baseline(e)) + (second - decay_baseline(halfway)) == second
                - decay_baseline(e)
            &&& faded_twice.clamped() == faded_whole.clamped() ==> stepped == whole
        }),
{
}

// ---------------------------------------------------------------------------
// Clusters
// ---------------------------------------------------------------------------

/// A group of near-duplicates.
#[derive(Debug)]
pub struct MemoryCluster {
    /// The entry that the group merges into.
    pub canonical: MemoryEntry,
    /// The entries that merge into it.
    pub duplicates: Vec<MemoryEntry>,
}

/// What a cluster holds.
pub struct ClusterView {
    pub canonical: EntryView,
    pub duplicates: Seq<EntryView>,
}

impl View for MemoryCluster {
    type V = ClusterView;

    open spec fn view(&self) -> ClusterView {
        ClusterView {
            canonical: self.canonical@,
            duplicates: entry::entry_views(self.duplicates@),
        }
    }
}

impl Clone for MemoryCluster {
    fn clone(&self) -> (r: Self)
        ensures
            r@ == self@,
    {
        MemoryCluster {
            canonical: self.canonical.clone(),
            duplicates: entry::copy_entries(&self.duplicates),
        }
    }
}

/// What a list of clusters holds.
pub open spec fn cluster_views(clusters: Seq<MemoryCluster>) -> Seq<ClusterView> {
    clusters.map_values(|c: MemoryCluster| c@)
}

/// The default similarity threshold, 0.6.
pub const DEFAULT_MERGE_THRESHOLD: u32 = 0x3f19_999a;

/// The default prune floor, 0.05.
pub const DEFAULT_PRUNE_FLOOR: u32 = 0x3d4c_cccd;

/// The default half-life, fourteen days in nanoseconds.
pub const DEFAULT_HALF_LIFE: u128 = 1_209_600_000_000_000;

/// One second in nanoseconds.
pub const SECOND: u128 = 1_000_000_000;

/// A merge threshold as it is used: one outside the unit interval, or zero,
/// gives way to the default.
pub open spec fn sound_threshold(threshold: Single) -> Single {
    if threshold.in_unit() && threshold.key() > 0 {
        threshold
    } else {
        Single { bits: DEFAULT_MERGE_THRESHOLD }
    }
}

fn sound_threshold_of(threshold: Single) -> (r: Single)
    ensures
        r == sound_threshold(threshold),
{
    if threshold.in_unit() && threshold.place() > 0 {
        threshold
    } else {
        Single { bits: DEFAULT_MERGE_THRESHOLD }
    }
}

/// Whether entry `i` joins the group that entry `seed` opened: it has tokens,
/// the category is the same, and their similarity reaches the threshold.
pub open spec fn joins(
    entries: Seq<EntryView>,
    similarity: Seq<Seq<Single>>,
    threshold: Single,
    i: int,
    seed: int,
) -> bool {
    &&& tokens::tokens(entries[i].memory).len() > 0
    &&& entries[i].category == entries[seed].category
    &&& similarity[i][seed].reaches(threshold)
}

/// The first group, from `from` on, that entry `i` joins; the number of groups
/// where it joins none.
pub open spec fn home(
    entries: Seq<EntryView>,
    similarity: Seq<Seq<Single>>,
    threshold: Single,
    groups: Seq<Seq<int>>,
    i: int,
    from: int,
) -> int
    decreases groups.len() - from,
{
    if from >= groups.len() {
        groups.len() as int
    } else if joins(entries, similarity, threshold, i, groups[from][0]) {
        from
    } else {
        home(entries, similarity, threshold, groups, i, from + 1)
    }
}

/// The groups of the first `n` entries. Each entry, in order, is added to the
/// first group that it joins, or opens one.
pub open spec fn groups(
    entries: Seq<EntryView>,
    similarity: Seq<Seq<Single>>,
    threshold: Single,
    n: nat,
) -> Seq<Seq<int>>
    decreases n,
{
    if n == 0 {
        Seq::empty()
    } else {
        let i = n - 1;
        let before = groups(entries, similarity, threshold, i as nat);
        let k = home(entries, similarity, threshold, before, i, 0);
        if k < before.len() {
            before.update(k, before[k].push(i))
        } else {
            before.push(seq![i])
        }
    }
}

/// The cluster of a group of entries: the first is canonical.
pub open spec fn cluster_of(entries: Seq<EntryView>, group: Seq<int>) -> ClusterView {
    ClusterView {
        canonical: entries[group[0]],
        duplicates: group.skip(1).map_values(|i: int| entries[i]),
    }
}

/// The clusters of a list of entries.
pub open spec fn clusters(
    entries: Seq<EntryView>,
    similarity: Seq<Seq<Single>>,
    threshold: Single,
) -> Seq<ClusterView> {
    groups(entries, similarity, threshold, entries.len()).map_values(
        |g: Seq<int>| cluster_of(entries, g),
    )
}

proof fn lemma_home(
    entries: Seq<EntryView>,
    similarity: Seq<Seq<Single>>,
    threshold: Single,
    groups: Seq<Seq<int>>,
    i: int,
    from: int,
)
    requires
        0 <= from <= groups.len(),
    ensures
        from <= home(entries, similarity, threshold, groups, i, from) <= groups.len(),
        ({
            let k = home(entries, similarity, threshold, groups, i, from);
            &&& k < groups.len() ==> joins(entries, similarity, threshold, i, groups[k][0])
            &&& forall|q: int|
                from <= q < k ==> !joins(entries, similarity, threshold, i, (#[trigger] groups[q])[0])
        }),
    decreases groups.len() - from,
{
    if from < groups.len() && !joins(entries, similarity, threshold, i, groups[from][0]) {
        lemma_home(entries, similarity, threshold, groups, i, from + 1);
    }
}

/// Every group is non-empty and holds places below `n`.
proof fn lemma_groups_hold_places(
    entries: Seq<EntryView>,
    similarity: Seq<Seq<Single>>,
    threshold: Single,
    n: nat,
)
    ensures
        ({
            let g = groups(entries, similarity, threshold, n);
            &&& g.len() <= n
            &&& forall|k: int| 0 <= k < g.len() ==> (#[trigger] g[k]).len() > 0
            &&& forall|k: int, m: int|
                0 <= k < g.len() && 0 <= m < g[k].len() ==> 0 <= #[trigger] g[k][m] < n
        }),
    decreases n,
{
    if n > 0 {
        let i = (n - 1) as nat;
        lemma_groups_hold_places(entries, similarity, threshold, i);
        let before = groups(entries, similarity, threshold, i);
        lemma_home(entries, similarity, threshold, before, i as int, 0);
    }
}

/// Whether `similarity` lists, for each entry, its similarity to each earlier
/// one.
pub open spec fn covers(similarity: Seq<Seq<Single>>, n: nat) -> bool {
    &&& similarity.len() == n
    &&& forall|i: int| 0 <= i < n ==> (#[trigger] similarity[i]).len() == i
}

/// The rows of a table of similarities.
pub open spec fn rows(table: Seq<Vec<Single>>) -> Seq<Seq<Single>> {
    table.map_values(|r: Vec<Single>| r@)
}

/// Partitions entries into clusters, given the similarity of each entry to
/// each earlier one.
pub fn cluster_by_similarity(
    entries: &Vec<MemoryEntry>,
    similarity: &Vec<Vec<Single>>,
    threshold: Single,
) -> (out: Vec<MemoryCluster>)
    requires
        covers(rows(similarity@), entries@.len()),
    ensures
        cluster_views(out@) == clusters(
            entry::entry_views(entries@),
            rows(similarity@),
            sound_threshold(threshold),
        ),
{
    let threshold = sound_threshold_of(threshold);
    let ghost views = entry::entry_views(entries@);
    let ghost table = rows(similarity@);
    let mut out: Vec<MemoryCluster> = Vec::new();
    let mut seeds: Vec<usize> = Vec::new();
    let mut i: usize = 0;
    while i < entries.len()
        invariant
            i <= entries.len(),
            views == entry::entry_views(entries@),
            table == rows(similarity@),
            covers(table, entries@.len()),
            out.len() == groups(views, table, threshold, i as nat).len(),
            seeds.len() == out.len(),
            forall|k: int|
                0 <= k < out.len() ==> #[trigger] out@[k]@ == cluster_of(
                    views,
                    groups(views, table, threshold, i as nat)[k],
                ),
            forall|k: int|
                0 <= k < seeds.len() ==> (#[trigger] seeds@[k]) == groups(
                    views,
                    table,
                    threshold,
                    i as nat,
                )[k][0] && seeds@[k] < i,
        decreases entries.len() - i,
    {
        let ghost before = groups(views, table, threshold, i as nat);
        let ghost after = groups(views, table, threshold, (i + 1) as nat);
        proof {
            lemma_groups_hold_places(views, table, threshold, i as nat);
            assert(table[i as int] == similarity@[i as int]@);
            assert(similarity@[i as int]@.len() == i);
        }
        let own = tokens::normalized_tokens(entries[i].memory.as_str());
        let mut k: usize = 0;
        let mut placed = false;
        if own.len() > 0 {
            while k < out.len() && !placed
                invariant
                    i < entries.len(),
                    k <= out.len(),
                    out.len() == before.len(),
                    seeds.len() == out.len(),
                    views == entry::entry_views(entries@),
                    table == rows(similarity@),
                    table[i as int] == similarity@[i as int]@,
                    similarity@.len() == entries@.len(),
                    similarity@[i as int]@.len() == i,
                    tokens::tokens(views[i as int].memory).len() > 0,
                    forall|m: int|
                        0 <= m < seeds.len() ==> (#[trigger] seeds@[m]) == before[m][0] && seeds@[m]
                            < i,
                    home(views, table, threshold, before, i as int, 0) == home(
                        views,
                        table,
                        threshold,
                        before,
                        i as int,
                        k as int,
                    ),
                    placed ==> k < out.len() && joins(
                        views,
                        table,
                        threshold,
                        i as int,
                        before[k as int][0],
                    ),
                decreases (out.len() - k) + (if placed { 0int } else { 1int }),
            {
                let seed: usize = seeds[k];
                assert(views[i as int].category == entries@[i as int].category);
                assert(views[seed as int].category == entries@[seed as int].category);
                if entries[i].category == entries[seed].category && similarity[i][seed].reaches(
                    threshold,
                ) {
                    placed = true;
                } else {
                    k = k + 1;
                }
            }
        } else {
            proof {
                lemma_nothing_to_join(views, table, threshold, before, i as int, 0);
            }
            k = out.len();
        }
        let copy = entries[i].clone();
        if placed {
            let ghost old_out = out@;
            let mut cluster = out.remove(k);
            let ghost old_dups = cluster.duplicates@;
            cluster.duplicates.push(copy);
            proof {
                assert(entry::entry_views(cluster.duplicates@) =~= entry::entry_views(
                    old_dups,
                ).push(copy@));
                let g = before[k as int];
                assert(g.push(i as int).skip(1) =~= g.skip(1).push(i as int));
                assert(cluster_of(views, g.push(i as int)).duplicates =~= cluster_of(
                    views,
                    g,
                ).duplicates.push(views[i as int]));
                assert(old_out[k as int]@ == cluster_of(views, g));
                assert(cluster@ == cluster_of(views, after[k as int]));
            }
            out.insert(k, cluster);
            assert(out@ =~= old_out.update(k as int, cluster));
        } else {
            let cluster = MemoryCluster { canonical: copy, duplicates: Vec::new() };
            proof {
                assert(seq![i as int].skip(1) =~= Seq::<int>::empty());
                assert(entry::entry_views(cluster.duplicates@) =~= Seq::<EntryView>::empty());
                assert(cluster_of(views, seq![i as int]).duplicates =~= Seq::<EntryView>::empty());
                assert(cluster@ == cluster_of(views, seq![i as int]));
            }
            out.push(cluster);
            seeds.push(i);
        }
        i = i + 1;
    }
    assert(cluster_views(out@) =~= clusters(views, table, threshold));
    out
}

proof fn lemma_nothing_to_join(
    entries: Seq<EntryView>,
    similarity: Seq<Seq<Single>>,
    threshold: Single,
    groups: Seq<Seq<int>>,
    i: int,
    from: int,
)
    requires
        0 <= from <= groups.len(),
        tokens::tokens(entries[i].memory).len() == 0,
    ensures
        home(entries, similarity, threshold, groups, i, from) == groups.len(),
    decreases groups.len() - from,
{
    if from < groups.len() {
        lemma_nothing_to_join(entries, similarity, threshold, groups, i, from + 1);
    }
}


/// Place `i` stands at place `m` of group `k`.
pub open spec fn stands_in(g: Seq<Seq<int>>, i: int, k: int, m: int) -> bool {
    0 <= k < g.len() && 0 <= m < g[k].len() && g[k][m] == i
}

/// Place `i` stands in some group.
pub open spec fn stands_somewhere(g: Seq<Seq<int>>, i: int) -> bool {
    exists|k: int, m: int| #[trigger] stands_in(g, i, k, m)
}

/// Every entry lands in exactly one group, exactly once.
pub proof fn every_entry_lands_in_one_group(
    entries: Seq<EntryView>,
    similarity: Seq<Seq<Single>>,
    threshold: Single,
    n: nat,
)
    ensures
        ({
            let g = groups(entries, similarity, threshold, n);
            &&& forall|i: int|
                0 <= i < n ==> #[trigger] stands_somewhere(g, i)
            &&& forall|i: int, k: int, m: int, k2: int, m2: int| #[trigger]
                stands_in(g, i, k, m) && #[trigger] stands_in(g, i, k2, m2) ==> k == k2 && m == m2
        }),
    decreases n,
{
    if n > 0 {
        let last = n - 1;
        every_entry_lands_in_one_group(entries, similarity, threshold, last as nat);
        lemma_groups_hold_places(entries, similarity, threshold, last as nat);
        let before = groups(entries, similarity, threshold, last as nat);
        let g = groups(entries, similarity, threshold, n);
        lemma_home(entries, similarity, threshold, before, last, 0);
        let home_k = home(entries, similarity, threshold, before, last, 0);
        assert forall|i: int| 0 <= i < n implies #[trigger] stands_somewhere(g, i) by {
            if i < last {
                assert(stands_somewhere(before, i));
                let (k, m) = choose|k: int, m: int| stands_in(before, i, k, m);
                assert(stands_in(g, i, k, m));
            } else if home_k < before.len() {
                assert(stands_in(g, i, home_k, before[home_k].len() as int));
            } else {
                assert(stands_in(g, i, before.len() as int, 0));
            }
        }
        assert forall|i: int, k: int, m: int, k2: int, m2: int| #[trigger]
            stands_in(g, i, k, m) && #[trigger] stands_in(g, i, k2, m2) implies k == k2 && m
            == m2 by {
            if i != last {
                assert(stands_in(before, i, k, m));
                assert(stands_in(before, i, k2, m2));
            } else {
                if home_k < before.len() {
                    assert(k == home_k && m == before[home_k].len()) by {
                        if !(k == home_k && m == before[home_k].len()) {
                            assert(before[k][m] < last);
                        }
                    }
                    assert(k2 == home_k && m2 == before[home_k].len()) by {
                        if !(k2 == home_k && m2 == before[home_k].len()) {
                            assert(before[k2][m2] < last);
                        }
                    }
                } else {
                    assert(k == before.len()) by {
                        if k < before.len() {
                            assert(before[k][m] < last);
                        }
                    }
                    assert(k2 == before.len()) by {
                        if k2 < before.len() {
                            assert(before[k2][m2] < last);
                        }
                    }
                }
            }
        }
    }
}

/// All members of a group share their category, and every member but the first
/// has tokens.
pub proof fn groups_keep_to_one_category(
    entries: Seq<EntryView>,
    similarity: Seq<Seq<Single>>,
    threshold: Single,
    n: nat,
)
    requires
        n <= entries.len(),
    ensures
        ({
            let g = groups(entries, similarity, threshold, n);
            forall|k: int, m: int|
                0 <= k < g.len() && 0 <= m < g[k].len() ==> {
                    &&& entries[#[trigger] g[k][m]].category == entries[g[k][0]].category
                    &&& m > 0 ==> tokens::tokens(entries[g[k][m]].memory).len() > 0
                }
        }),
    decreases n,
{
    if n > 0 {
        let last = n - 1;
        groups_keep_to_one_category(entries, similarity, threshold, last as nat);
        lemma_groups_hold_places(entries, similarity, threshold, last as nat);
        let before = groups(entries, similarity, threshold, last as nat);
        let g = groups(entries, similarity, threshold, n);
        lemma_home(entries, similarity, threshold, before, last, 0);
        let home_k = home(entries, similarity, threshold, before, last, 0);
        assert forall|k: int, m: int| 0 <= k < g.len() && 0 <= m < g[k].len() implies {
            &&& entries[#[trigger] g[k][m]].category == entries[g[k][0]].category
            &&& m > 0 ==> tokens::tokens(entries[g[k][m]].memory).len() > 0
        } by {
            if k < before.len() && m < before[k].len() {
                assert(before[k][m] == g[k][m]);
                assert(before[k].len() > 0);
                assert(before[k][0] == g[k][0]);
            }
        }
    }
}

// ---------------------------------------------------------------------------
// Promotion and merging
// ---------------------------------------------------------------------------

/// The duplicate, among the first `n`, whose quality beats the canonical one's
/// and every earlier one's, with that quality.
pub open spec fn best_of(canonical: Single, qualities: Seq<Single>, n: nat) -> (Option<int>, Single)
    decreases n,
{
    if n == 0 {
        (None, canonical)
    } else {
        let (place, best) = best_of(canonical, qualities, (n - 1) as nat);
        if best.below(qualities[n - 1]) {
            (Some(n - 1), qualities[n - 1])
        } else {
            (place, best)
        }
    }
}

/// The cluster with its best member in the canonical place; the member that
/// stood there goes to the end of the duplicates.
pub open spec fn promoted(c: ClusterView, canonical: Single, qualities: Seq<Single>) -> ClusterView {
    match best_of(canonical, qualities, qualities.len()).0 {
        Some(k) => ClusterView {
            canonical: c.duplicates[k],
            duplicates: c.duplicates.remove(k).push(c.canonical),
        },
        None => c,
    }
}

proof fn lemma_best_of(canonical: Single, qualities: Seq<Single>, n: nat)
    requires
        n <= qualities.len(),
    ensures
        best_of(canonical, qualities, n).0 matches Some(k) ==> 0 <= k < n && best_of(
            canonical,
            qualities,
            n,
        ).1 == qualities[k],
        best_of(canonical, qualities, n).0 is None ==> best_of(canonical, qualities, n).1
            == canonical,
    decreases n,
{
    if n > 0 {
        lemma_best_of(canonical, qualities, (n - 1) as nat);
    }
}

/// Where no quality is a NaN, no member of the cluster is better than the one
/// that is promoted.
pub proof fn the_promoted_member_is_the_best(canonical: Single, qualities: Seq<Single>, n: nat)
    requires
        n <= qualities.len(),
        !canonical.is_nan(),
        forall|i: int| 0 <= i < n ==> !(#[trigger] qualities[i]).is_nan(),
    ensures
        best_of(canonical, qualities, n).1.reaches(canonical),
        forall|i: int|
            0 <= i < n ==> best_of(canonical, qualities, n).1.reaches(#[trigger] qualities[i]),
    decreases n,
{
    if n > 0 {
        the_promoted_member_is_the_best(canonical, qualities, (n - 1) as nat);
    }
}

/// Puts the best member of a cluster into the canonical place, given the
/// quality of each.
pub fn promote_highest_quality(
    cluster: &mut MemoryCluster,
    canonical: Single,
    qualities: &Vec<Single>,
)
    requires
        qualities.len() == old(cluster).duplicates.len(),
    ensures
        final(cluster)@ == promoted(old(cluster)@, canonical, qualities@),
{
    let mut place: Option<usize> = None;
    let mut best: Single = canonical;
    let mut i: usize = 0;
    while i < qualities.len()
        invariant
            i <= qualities.len(),
            best == best_of(canonical, qualities@, i as nat).1,
            match place {
                Some(k) => best_of(canonical, qualities@, i as nat).0 == Some(k as int) && k < i,
                None => best_of(canonical, qualities@, i as nat).0 is None,
            },
        decreases qualities.len() - i,
    {
        if best.below(qualities[i]) {
            best = qualities[i];
            place = Some(i);
        }
        i = i + 1;
    }
    let ghost before = cluster@;
    let ghost before_dups = cluster.duplicates@;
    if let Some(k) = place {
        let better = cluster.duplicates.remove(k);
        let demoted = cluster.canonical.clone();
        cluster.canonical = better;
        cluster.duplicates.push(demoted);
        proof {
            assert(entry::entry_views(cluster.duplicates@) =~= entry::entry_views(
                before_dups,
            ).remove(k as int).push(before.canonical));
        }
    }
}

/// The list with the tags of `more`, up to the first `n`, added where they are
/// not there yet.
pub open spec fn tags_joined(have: Seq<Seq<char>>, more: Seq<Seq<char>>, n: nat) -> Seq<Seq<char>>
    decreases n,
{
    if n == 0 {
        have
    } else {
        let before = tags_joined(have, more, (n - 1) as nat);
        if before.contains(more[n - 1]) {
            before
        } else {
            before.push(more[n - 1])
        }
    }
}

/// The later of two accesses, where one that never happened is the earliest.
pub open spec fn later_access(a: Option<i128>, b: Option<i128>) -> Option<i128> {
    match (a, b) {
        (Some(x), Some(y)) => Some(later(x, y)),
        (Some(x), None) => Some(x),
        (None, y) => y,
    }
}

/// A sum held at the largest count.
pub open spec fn counts_added(a: usize, b: usize) -> usize {
    if a + b <= usize::MAX {
        (a + b) as usize
    } else {
        usize::MAX
    }
}

/// The entry after it took in one duplicate; its relevance is left alone.
pub open spec fn absorbed(e: EntryView, d: EntryView) -> EntryView {
    EntryView {
        created_at: earlier(e.created_at, d.created_at),
        last_accessed: later_access(e.last_accessed, d.last_accessed),
        access_count: counts_added(e.access_count, d.access_count),
        validated: e.validated || d.validated,
        tags: tags_joined(e.tags, d.tags, d.tags.len()),
        ..e
    }
}

/// The entry after it took in the first `n` duplicates.
pub open spec fn absorbed_all(e: EntryView, duplicates: Seq<EntryView>, n: nat) -> EntryView
    decreases n,
{
    if n == 0 {
        e
    } else {
        absorbed(absorbed_all(e, duplicates, (n - 1) as nat), duplicates[n - 1])
    }
}

/// The entry that a cluster merges into, with the given relevance. Its decay
/// stamp is its own, or its own creation, so that an older provenance does not
/// make it fade for a time it did not live through.
pub open spec fn merged(c: ClusterView, relevance: Single) -> EntryView {
    absorbed_all(
        EntryView {
            relevance,
            last_decayed: Some(
                match c.canonical.last_decayed {
                    Some(t) => t,
                    None => c.canonical.created_at,
                },
            ),
            ..c.canonical
        },
        c.duplicates,
        c.duplicates.len(),
    )
}

fn join_tags(have: &mut Vec<String>, more: &Vec<String>)
    ensures
        text::texts(final(have)@) == tags_joined(
            text::texts(old(have)@),
            text::texts(more@),
            more@.len(),
        ),
{
    let ghost start = text::texts(have@);
    let mut i: usize = 0;
    while i < more.len()
        invariant
            i <= more.len(),
            text::texts(have@) == tags_joined(start, text::texts(more@), i as nat),
        decreases more.len() - i,
    {
        let ghost before = text::texts(have@);
        assert(text::texts(more@)[i as int] == more@[i as int]@);
        if !text::list_contains(have, more[i].as_str()) {
            have.push(more[i].clone());
            assert(text::texts(have@) =~= before.push(more@[i as int]@));
        }
        i = i + 1;
    }
}

/// Merges a cluster into one entry, where `relevance` is the canonical
/// relevance raised once for each duplicate.
pub fn merge_cluster(cluster: MemoryCluster, relevance: Single) -> (out: MemoryEntry)
    ensures
        out@ == merged(cluster@, relevance),
{
    let duplicates = cluster.duplicates;
    let mut out = cluster.canonical;
    let ghost views = entry::entry_views(duplicates@);
    out.relevance = relevance;
    out.last_decayed = Some(
        match out.last_decayed {
            Some(t) => t,
            None => out.created_at,
        },
    );
    let ghost start = out@;
    let mut i: usize = 0;
    while i < duplicates.len()
        invariant
            i <= duplicates.len(),
            views == entry::entry_views(duplicates@),
            out@ == absorbed_all(start, views, i as nat),
        decreases duplicates.len() - i,
    {
        let d = &duplicates[i];
        assert(views[i as int] == d@);
        if d.created_at < out.created_at {
            out.created_at = d.created_at;
        }
        out.last_accessed = match (out.last_accessed, d.last_accessed) {
            (Some(x), Some(y)) => Some(
                if x >= y {
                    x
                } else {
                    y
                },
            ),
            (Some(x), None) => Some(x),
            (None, y) => y,
        };
        out.access_count = out.access_count.saturating_add(d.access_count);
        out.validated = out.validated || d.validated;
        join_tags(&mut out.tags, &d.tags);
        i = i + 1;
    }
    out
}

/// A merge keeps the canonical id, category and text, never loses a tag of any
/// member, and is validated where any member was.
pub proof fn a_merge_keeps_identity_and_corroboration(c: ClusterView, relevance: Single)
    ensures
        merged(c, relevance).id == c.canonical.id,
        merged(c, relevance).category == c.canonical.category,
        merged(c, relevance).memory == c.canonical.memory,
        merged(c, relevance).relevance == relevance,
        merged(c, relevance).created_at <= c.canonical.created_at,
        c.canonical.validated ==> merged(c, relevance).validated,
        forall|t: Seq<char>|
            c.canonical.tags.contains(t) ==> #[trigger] merged(c, relevance).tags.contains(t),
        forall|i: int|
            0 <= i < c.duplicates.len() ==> {
                &&& merged(c, relevance).created_at <= (#[trigger] c.duplicates[i]).created_at
                &&& c.duplicates[i].validated ==> merged(c, relevance).validated
                &&& forall|t: Seq<char>|
                    c.duplicates[i].tags.contains(t) ==> #[trigger] merged(
                        c,
                        relevance,
                    ).tags.contains(t)
            },
{
    let start = EntryView {
        relevance,
        last_decayed: Some(
            match c.canonical.last_decayed {
                Some(t) => t,
                None => c.canonical.created_at,
            },
        ),
        ..c.canonical
    };
    lemma_absorbed_all(start, c.duplicates, c.duplicates.len());
}

proof fn lemma_tags_joined(have: Seq<Seq<char>>, more: Seq<Seq<char>>, n: nat)
    requires
        n <= more.len(),
    ensures
        forall|t: Seq<char>| have.contains(t) ==> #[trigger] tags_joined(have, more, n).contains(t),
        forall|i: int|
            0 <= i < n ==> tags_joined(have, more, n).contains(#[trigger] more[i]),
    decreases n,
{
    if n > 0 {
        lemma_tags_joined(have, more, (n - 1) as nat);
        let before = tags_joined(have, more, (n - 1) as nat);
        let after = tags_joined(have, more, n);
        assert forall|t: Seq<char>| before.contains(t) || t == more[n - 1] implies #[trigger] after.contains(
            t,
        ) by {
            if before.contains(t) {
                let k = choose|k: int| 0 <= k < before.len() && before[k] == t;
                assert(after[k] == t);
            } else {
                assert(after[before.len() as int] == t);
            }
        }
    }
}

proof fn lemma_absorbed_all(e: EntryView, duplicates: Seq<EntryView>, n: nat)
    requires
        n <= duplicates.len(),
    ensures
        ({
            let r = absorbed_all(e, duplicates, n);
            &&& r.id == e.id
            &&& r.category == e.category
            &&& r.memory == e.memory
            &&& r.relevance == e.relevance
            &&& r.created_at <= e.created_at
            &&& e.validated ==> r.validated
            &&& forall|t: Seq<char>| e.tags.contains(t) ==> #[trigger] r.tags.contains(t)
            &&& forall|i: int|
                0 <= i < n ==> {
                    &&& r.created_at <= (#[trigger] duplicates[i]).created_at
                    &&& duplicates[i].validated ==> r.validated
                    &&& forall|t: Seq<char>|
                        duplicates[i].tags.contains(t) ==> #[trigger] r.tags.contains(t)
                }
        }),
    decreases n,
{
    if n > 0 {
        lemma_absorbed_all(e, duplicates, (n - 1) as nat);
        let before = absorbed_all(e, duplicates, (n - 1) as nat);
        let d = duplicates[n - 1];
        lemma_tags_joined(before.tags, d.tags, d.tags.len());
        let r = absorbed_all(e, duplicates, n);
        assert forall|i: int| 0 <= i < n implies {
            &&& r.created_at <= (#[trigger] duplicates[i]).created_at
            &&& duplicates[i].validated ==> r.validated
            &&& forall|t: Seq<char>|
                duplicates[i].tags.contains(t) ==> #[trigger] r.tags.contains(t)
        } by {
            assert forall|t: Seq<char>| duplicates[i].tags.contains(t) implies #[trigger] r.tags.contains(
                t,
            ) by {
                if i < n - 1 {
                    assert(before.tags.contains(t));
                } else {
                    let k = choose|k: int| 0 <= k < d.tags.len() && d.tags[k] == t;
                    assert(r.tags.contains(d.tags[k]));
                }
            }
        }
    }
}


// ---------------------------------------------------------------------------
// The pass
// ---------------------------------------------------------------------------

/// Which parts of a pass run, and with which figures.
#[derive(Debug, Clone, Copy)]
pub struct ConsolidationConfig {
    /// Whether entries fade first.
    pub decay: bool,
    /// The half-life in nanoseconds.
    pub half_life: u128,
    /// Whether near-duplicates are merged.
    pub merge: bool,
    /// The similarity from which two entries are near-duplicates.
    pub merge_threshold: Single,
    /// The relevance and the quality below which an entry is pruned.
    pub prune_floor: Single,
}

/// The configuration of a pass that nobody configured.
pub open spec fn default_config() -> ConsolidationConfig {
    ConsolidationConfig {
        decay: true,
        half_life: DEFAULT_HALF_LIFE,
        merge: true,
        merge_threshold: Single { bits: DEFAULT_MERGE_THRESHOLD },
        prune_floor: Single { bits: DEFAULT_PRUNE_FLOOR },
    }
}

impl Default for ConsolidationConfig {
    fn default() -> (r: Self)
        ensures
            r == default_config(),
    {
        ConsolidationConfig {
            decay: true,
            half_life: DEFAULT_HALF_LIFE,
            merge: true,
            merge_threshold: Single { bits: DEFAULT_MERGE_THRESHOLD },
            prune_floor: Single { bits: DEFAULT_PRUNE_FLOOR },
        }
    }
}

/// The configuration as a pass uses it: a half-life below one second, a merge
/// threshold outside the unit interval or zero, and a prune floor outside the
/// unit interval give way to the defaults.
pub open spec fn normal_config(c: ConsolidationConfig) -> ConsolidationConfig {
    ConsolidationConfig {
        half_life: if c.half_life < SECOND {
            DEFAULT_HALF_LIFE
        } else {
            c.half_life
        },
        merge_threshold: sound_threshold(c.merge_threshold),
        prune_floor: if c.prune_floor.in_unit() {
            c.prune_floor
        } else {
            Single { bits: DEFAULT_PRUNE_FLOOR }
        },
        ..c
    }
}

impl ConsolidationConfig {
    /// The configuration as a pass uses it.
    pub fn normalized(&self) -> (r: Self)
        ensures
            r == normal_config(*self),
    {
        ConsolidationConfig {
            decay: self.decay,
            half_life: if self.half_life < SECOND {
                DEFAULT_HALF_LIFE
            } else {
                self.half_life
            },
            merge: self.merge,
            merge_threshold: sound_threshold_of(self.merge_threshold),
            prune_floor: if self.prune_floor.in_unit() {
                self.prune_floor
            } else {
                Single { bits: DEFAULT_PRUNE_FLOOR }
            },
        }
    }
}

/// A normalized configuration is sound, and normalizing it again changes
/// nothing.
pub proof fn normalizing_is_idempotent(c: ConsolidationConfig)
    ensures
        normal_config(normal_config(c)) == normal_config(c),
        normal_config(c).half_life >= SECOND,
        normal_config(c).merge_threshold.in_unit(),
        normal_config(c).merge_threshold.key() > 0,
        normal_config(c).prune_floor.in_unit(),
{
}

/// The elements of a list that are picked, in order.
pub open spec fn picked<T>(list: Seq<T>, pick: Seq<bool>) -> Seq<T>
    decreases list.len(),
{
    if list.len() == 0 {
        Seq::empty()
    } else {
        let before = picked(list.drop_last(), pick);
        if pick[list.len() - 1] {
            before.push(list.last())
        } else {
            before
        }
    }
}

/// Which entries have a relevance in the unit interval.
pub open spec fn health(entries: Seq<EntryView>) -> Seq<bool> {
    entries.map_values(|e: EntryView| e.relevance.in_unit())
}

/// The opposite choice.
pub open spec fn others(pick: Seq<bool>) -> Seq<bool> {
    pick.map_values(|b: bool| !b)
}

/// The entries that take part in decay and merging.
pub open spec fn healthy(entries: Seq<EntryView>) -> Seq<EntryView> {
    picked(entries, health(entries))
}

/// The entry with no relevance left.
pub open spec fn zeroed(e: EntryView) -> EntryView {
    EntryView { relevance: Single { bits: 0 }, ..e }
}

/// The entries whose relevance was out of range, with none left.
pub open spec fn degraded(entries: Seq<EntryView>) -> Seq<EntryView> {
    picked(entries, others(health(entries))).map_values(|e: EntryView| zeroed(e))
}

/// The floating-point results that a pass worked with.
pub struct PassFigures {
    /// The faded relevance of each healthy entry.
    pub faded: Seq<Single>,
    /// The similarity of each healthy entry to each earlier one.
    pub similarity: Seq<Seq<Single>>,
    /// The qualities of the members of each cluster, the canonical one first.
    pub qualities: Seq<Seq<Single>>,
    /// The relevance that each cluster merged with.
    pub raised: Seq<Single>,
    /// The quality of each entry that was looked at for pruning.
    pub last_qualities: Seq<Single>,
}

/// The healthy entries after decay.
pub open spec fn after_decay(
    entries: Seq<EntryView>,
    config: ConsolidationConfig,
    now: i128,
    f: PassFigures,
) -> Seq<EntryView> {
    let h = healthy(entries);
    if config.decay {
        Seq::new(h.len(), |i: int| decayed(h[i], now, f.faded[i]))
    } else {
        h
    }
}

/// The clusters that a pass merges.
pub open spec fn pass_clusters(
    entries: Seq<EntryView>,
    config: ConsolidationConfig,
    now: i128,
    f: PassFigures,
) -> Seq<ClusterView> {
    clusters(
        after_decay(entries, config, now, f),
        f.similarity,
        sound_threshold(config.merge_threshold),
    )
}

/// A cluster with its best member in front.
pub open spec fn lead_by_best(c: ClusterView, qualities: Seq<Single>) -> ClusterView {
    promoted(c, qualities[0], qualities.skip(1))
}

/// The healthy entries after decay and merging.
pub open spec fn after_merge(
    entries: Seq<EntryView>,
    config: ConsolidationConfig,
    now: i128,
    f: PassFigures,
) -> Seq<EntryView> {
    if config.merge {
        let cs = pass_clusters(entries, config, now, f);
        Seq::new(
            cs.len(),
            |k: int| merged(lead_by_best(cs[k], f.qualities[k]), f.raised[k]),
        )
    } else {
        after_decay(entries, config, now, f)
    }
}

/// The entries that are looked at for pruning: the merged ones and, behind
/// them, the degraded ones.
pub open spec fn pool(
    entries: Seq<EntryView>,
    config: ConsolidationConfig,
    now: i128,
    f: PassFigures,
) -> Seq<EntryView> {
    after_merge(entries, config, now, f) + degraded(entries)
}

/// Which entries reach the floor both by relevance and by quality.
pub open spec fn keeps(list: Seq<EntryView>, qualities: Seq<Single>, floor: Single) -> Seq<bool> {
    Seq::new(
        list.len(),
        |i: int| !(list[i].relevance.below(floor) || qualities[i].below(floor)),
    )
}

/// The text bytes of a list of entries.
pub open spec fn text_bytes(list: Seq<EntryView>) -> nat
    decreases list.len(),
{
    if list.len() == 0 {
        0
    } else {
        text_bytes(list.drop_last()) + text::byte_length(list.last().memory)
    }
}

/// The number of duplicates of the first `n` clusters.
pub open spec fn duplicates_in(cs: Seq<ClusterView>, n: nat) -> nat
    decreases n,
{
    if n == 0 {
        0
    } else {
        duplicates_in(cs, (n - 1) as nat) + cs[n - 1].duplicates.len()
    }
}

/// The text bytes of the duplicates of the first `n` clusters, each with its
/// best member in front.
pub open spec fn duplicate_bytes(
    cs: Seq<ClusterView>,
    qualities: Seq<Seq<Single>>,
    n: nat,
) -> nat
    decreases n,
{
    if n == 0 {
        0
    } else {
        duplicate_bytes(cs, qualities, (n - 1) as nat) + text_bytes(
            lead_by_best(cs[n - 1], qualities[n - 1]).duplicates,
        )
    }
}

/// Whether the figures belong to a pass over these entries: there is one for
/// every place, a cluster without duplicates keeps its relevance, and a raised
/// relevance was clamped.
pub open spec fn figures_fit(
    entries: Seq<EntryView>,
    config: ConsolidationConfig,
    now: i128,
    f: PassFigures,
) -> bool {
    let h = healthy(entries);
    let cs = pass_clusters(entries, config, now, f);
    &&& config.decay ==> f.faded.len() == h.len()
    &&& config.merge ==> {
        &&& covers(f.similarity, h.len())
        &&& f.qualities.len() == cs.len()
        &&& f.raised.len() == cs.len()
        &&& forall|k: int|
            0 <= k < cs.len() ==> (#[trigger] f.qualities[k]).len() == cs[k].duplicates.len() + 1
        &&& forall|k: int|
            0 <= k < cs.len() ==> relevance_fits(
                lead_by_best(cs[k], f.qualities[k]),
                #[trigger] f.raised[k],
            )
    }
    &&& f.last_qualities.len() == pool(entries, config, now, f).len()
}

/// Whether a cluster may merge with this relevance.
pub open spec fn relevance_fits(c: ClusterView, relevance: Single) -> bool {
    &&& c.duplicates.len() == 0 ==> relevance == c.canonical.relevance
    &&& c.duplicates.len() > 0 ==> relevance.clamped() == relevance
}

/// What a pass leaves, given its figures.
pub open spec fn pass_keeps(
    entries: Seq<EntryView>,
    config: ConsolidationConfig,
    now: i128,
    f: PassFigures,
) -> Seq<EntryView> {
    let list = pool(entries, config, now, f);
    picked(list, keeps(list, f.last_qualities, config.prune_floor))
}

/// What a pass reports, given its figures.
pub open spec fn pass_reports(
    entries: Seq<EntryView>,
    config: ConsolidationConfig,
    now: i128,
    f: PassFigures,
    stats: ConsolidationStats,
) -> bool {
    let list = pool(entries, config, now, f);
    let kept = keeps(list, f.last_qualities, config.prune_floor);
    let cs = pass_clusters(entries, config, now, f);
    &&& stats.entries_before == entries.len()
    &&& stats.entries_after == pass_keeps(entries, config, now, f).len()
    &&& stats.pruned == picked(list, others(kept)).len()
    &&& stats.merged == if config.merge {
        duplicates_in(cs, cs.len())
    } else {
        0
    }
    &&& stats.bytes_saved == tokens::capped(
        text_bytes(picked(list, others(kept))) + if config.merge {
            duplicate_bytes(cs, f.qualities, cs.len())
        } else {
            0
        },
    )
}

/// Whether the host's formula gives this quality to an entry.
pub open spec fn is_quality<A: RelevanceArithmetic>(
    arithmetic: A,
    e: EntryView,
    now: i128,
    quality: Single,
) -> bool {
    call_ensures(A::quality, (&arithmetic, &quality_parts_of(e, now)), quality)
}

/// The composite quality of an entry, as the host's formula gives it.
pub fn quality_score<A: RelevanceArithmetic>(arithmetic: &A, entry: &MemoryEntry, now: i128) -> (
    quality: Single)
    ensures
        is_quality(*arithmetic, entry@, now, quality),
{
    arithmetic.quality(&quality_parts(entry, now))
}

/// Whether the host's formula fades an entry to this relevance. Before its
/// baseline nothing is computed.
pub open spec fn is_faded<A: RelevanceArithmetic>(
    arithmetic: A,
    e: EntryView,
    now: i128,
    half_life: u128,
    faded: Single,
) -> bool {
    if now >= decay_baseline(e) {
        call_ensures(
            A::faded,
            (
                &arithmetic,
                e.relevance,
                (now - decay_baseline(e)) as u128,
                half_life,
                e.category,
            ),
            faded,
        )
    } else {
        faded == e.relevance
    }
}

/// Whether a similarity is that of two texts: the host's ratio of the tokens
/// that they share to those that either has, and one where neither has any.
pub open spec fn is_jaccard<A: RelevanceArithmetic>(
    arithmetic: A,
    a: Seq<char>,
    b: Seq<char>,
    similarity: Single,
) -> bool {
    let x = tokens::tokens(a);
    let y = tokens::tokens(b);
    if x.len() == 0 && y.len() == 0 {
        similarity.bits == 0x3f80_0000
    } else {
        let sides = numeric::ratio_sides(
            x.intersect(y).len() as int,
            tokens::capped(x.union(y).len()),
        );
        call_ensures(A::ratio, (&arithmetic, sides.0 as u16, sides.1 as u16), similarity)
    }
}

/// Whether `similarity` lists, for each entry, its similarity to each earlier
/// one.
pub open spec fn are_jaccards<A: RelevanceArithmetic>(
    arithmetic: A,
    entries: Seq<EntryView>,
    similarity: Seq<Seq<Single>>,
) -> bool {
    &&& covers(similarity, entries.len())
    &&& forall|i: int, k: int|
        0 <= k < i < entries.len() ==> is_jaccard(
            arithmetic,
            entries[i].memory,
            entries[k].memory,
            #[trigger] similarity[i][k],
        )
}

/// Whether the host's formula, applied `n` times and clamped each time, raises
/// one relevance to another.
pub open spec fn is_raised<A: RelevanceArithmetic>(
    arithmetic: A,
    from: Single,
    n: nat,
    to: Single,
) -> bool
    decreases n,
{
    if n == 0 {
        to == from
    } else {
        exists|before: Single, raw: Single|
            {
                &&& is_raised(arithmetic, from, (n - 1) as nat, before)
                &&& #[trigger] call_ensures(A::raised, (&arithmetic, before), raw)
                &&& to == raw.clamped()
            }
    }
}

/// Whether `qualities` are those of the members of a cluster, the canonical one
/// first.
pub open spec fn are_member_qualities<A: RelevanceArithmetic>(
    arithmetic: A,
    c: ClusterView,
    now: i128,
    qualities: Seq<Single>,
) -> bool {
    &&& qualities.len() == c.duplicates.len() + 1
    &&& is_quality(arithmetic, c.canonical, now, qualities[0])
    &&& forall|m: int|
        0 <= m < c.duplicates.len() ==> is_quality(
            arithmetic,
            #[trigger] c.duplicates[m],
            now,
            qualities[m + 1],
        )
}

/// Whether the relevance that a cluster merged with is that of its canonical
/// entry, raised once for each duplicate.
pub open spec fn is_corroborated<A: RelevanceArithmetic>(
    arithmetic: A,
    c: ClusterView,
    relevance: Single,
) -> bool {
    is_raised(arithmetic, c.canonical.relevance, c.duplicates.len(), relevance)
}

/// Whether the figures of a pass are what the host's formulas give.
pub open spec fn figures_given<A: RelevanceArithmetic>(
    arithmetic: A,
    entries: Seq<EntryView>,
    config: ConsolidationConfig,
    now: i128,
    f: PassFigures,
) -> bool {
    let h = healthy(entries);
    let d = after_decay(entries, config, now, f);
    let cs = pass_clusters(entries, config, now, f);
    let list = pool(entries, config, now, f);
    &&& config.decay ==> forall|i: int|
        0 <= i < h.len() ==> is_faded(
            arithmetic,
            h[i],
            now,
            config.half_life,
            #[trigger] f.faded[i],
        )
    &&& config.merge ==> {
        &&& are_jaccards(arithmetic, d, f.similarity)
        &&& forall|k: int|
            0 <= k < cs.len() ==> are_member_qualities(
                arithmetic,
                cs[k],
                now,
                #[trigger] f.qualities[k],
            )
        &&& forall|k: int|
            0 <= k < cs.len() ==> is_corroborated(
                arithmetic,
                lead_by_best(cs[k], f.qualities[k]),
                #[trigger] f.raised[k],
            )
    }
    &&& forall|i: int|
        0 <= i < list.len() ==> is_quality(
            arithmetic,
            list[i],
            now,
            #[trigger] f.last_qualities[i],
        )
}

/// Whether a pass with these figures turns `entries` into `left` and reports
/// `stats`.
pub open spec fn is_pass(
    entries: Seq<EntryView>,
    config: ConsolidationConfig,
    now: i128,
    f: PassFigures,
    left: Seq<EntryView>,
    stats: ConsolidationStats,
) -> bool {
    &&& figures_fit(entries, config, now, f)
    &&& left == pass_keeps(entries, config, now, f)
    &&& pass_reports(entries, config, now, f, stats)
}

/// Whether a pass with the host's formulas turns `entries` into `left` and
/// reports `stats`.
pub open spec fn is_run<A: RelevanceArithmetic>(
    arithmetic: A,
    entries: Seq<EntryView>,
    config: ConsolidationConfig,
    now: i128,
    f: PassFigures,
    left: Seq<EntryView>,
    stats: ConsolidationStats,
) -> bool {
    &&& figures_given(arithmetic, entries, config, now, f)
    &&& is_pass(entries, config, now, f, left, stats)
}

proof fn lemma_picked_step<T>(list: Seq<T>, pick: Seq<bool>, i: int)
    requires
        0 <= i < list.len(),
    ensures
        picked(list.take(i + 1), pick) == if pick[i] {
            picked(list.take(i), pick).push(list[i])
        } else {
            picked(list.take(i), pick)
        },
{
    assert(list.take(i + 1).drop_last() =~= list.take(i));
}

/// What is picked and what is not picked add up to the list.
pub proof fn picked_and_others_add_up<T>(list: Seq<T>, pick: Seq<bool>)
    requires
        pick.len() >= list.len(),
    ensures
        picked(list, pick).len() + picked(list, others(pick)).len() == list.len(),
    decreases list.len(),
{
    if list.len() > 0 {
        picked_and_others_add_up(list.drop_last(), pick);
    }
}

/// Whether `x` stands in the list at a place that is picked.
pub open spec fn is_picked<T>(list: Seq<T>, pick: Seq<bool>, x: T) -> bool {
    exists|i: int| 0 <= i < list.len() && pick[i] && #[trigger] list[i] == x
}

/// Everything that is picked stands in the list, at a place that is picked.
pub proof fn what_is_picked_stands_in_the_list<T>(list: Seq<T>, pick: Seq<bool>)
    ensures
        forall|j: int|
            0 <= j < picked(list, pick).len() ==> is_picked(
                list,
                pick,
                #[trigger] picked(list, pick)[j],
            ),
    decreases list.len(),
{
    if list.len() > 0 {
        let short = list.drop_last();
        what_is_picked_stands_in_the_list(short, pick);
        let out = picked(list, pick);
        let before = picked(short, pick);
        assert forall|j: int| 0 <= j < out.len() implies is_picked(
            list,
            pick,
            #[trigger] out[j],
        ) by {
            if j < before.len() {
                assert(out[j] == before[j]);
                assert(is_picked(short, pick, before[j]));
                let i = choose|i: int|
                    0 <= i < short.len() && pick[i] && #[trigger] short[i] == before[j];
                assert(list[i] == out[j]);
            } else {
                assert(list[list.len() - 1] == out[j]);
            }
        }
    }
}

/// Splits entries by whether their relevance is in range; the others lose it.
pub fn split_by_health(entries: Vec<MemoryEntry>) -> (parts: (Vec<MemoryEntry>, Vec<MemoryEntry>))
    ensures
        entry::entry_views(parts.0@) == healthy(entry::entry_views(entries@)),
        entry::entry_views(parts.1@) == degraded(entry::entry_views(entries@)),
{
    let ghost views = entry::entry_views(entries@);
    let mut good: Vec<MemoryEntry> = Vec::new();
    let mut bad: Vec<MemoryEntry> = Vec::new();
    let mut i: usize = 0;
    assert(views.take(0) =~= Seq::<EntryView>::empty());
    assert(entry::entry_views(good@) =~= Seq::<EntryView>::empty());
    assert(entry::entry_views(bad@) =~= Seq::<EntryView>::empty().map_values(
        |e: EntryView| zeroed(e),
    ));
    while i < entries.len()
        invariant
            i <= entries.len(),
            views == entry::entry_views(entries@),
            entry::entry_views(good@) == picked(views.take(i as int), health(views)),
            entry::entry_views(bad@) == picked(
                views.take(i as int),
                others(health(views)),
            ).map_values(|e: EntryView| zeroed(e)),
        decreases entries.len() - i,
    {
        let copy = entries[i].clone();
        proof {
            lemma_picked_step(views, health(views), i as int);
            lemma_picked_step(views, others(health(views)), i as int);
            assert(views[i as int] == copy@);
        }
        if copy.relevance.in_unit() {
            assert(entry::entry_views(good@.push(copy)) =~= entry::entry_views(good@).push(copy@));
            good.push(copy);
        } else {
            let mut copy = copy;
            let ghost before = copy@;
            copy.relevance = Single { bits: 0 };
            proof {
                assert(entry::entry_views(bad@.push(copy)) =~= entry::entry_views(bad@).push(
                    zeroed(before),
                ));
                let p = picked(views.take(i as int), others(health(views)));
                assert(p.push(before).map_values(|e: EntryView| zeroed(e)) =~= p.map_values(
                    |e: EntryView| zeroed(e),
                ).push(zeroed(before)));
            }
            bad.push(copy);
        }
        i = i + 1;
    }
    assert(views.take(views.len() as int) =~= views);
    (good, bad)
}

/// Drops the entries that fall below the floor, given the quality of each, and
/// says how many text bytes went with them.
pub fn prune_entries(
    list: Vec<MemoryEntry>,
    qualities: &Vec<Single>,
    floor: Single,
) -> (out: (Vec<MemoryEntry>, usize))
    requires
        qualities.len() == list.len(),
    ensures
        ({
            let views = entry::entry_views(list@);
            let kept = keeps(views, qualities@, floor);
            &&& entry::entry_views(out.0@) == picked(views, kept)
            &&& out.1 == tokens::capped(text_bytes(picked(views, others(kept))))
        }),
{
    let ghost views = entry::entry_views(list@);
    let ghost kept_places = keeps(views, qualities@, floor);
    let mut kept: Vec<MemoryEntry> = Vec::new();
    let mut gone: usize = 0;
    let mut i: usize = 0;
    assert(views.take(0) =~= Seq::<EntryView>::empty());
    assert(entry::entry_views(kept@) =~= Seq::<EntryView>::empty());
    while i < list.len()
        invariant
            i <= list.len(),
            qualities.len() == list.len(),
            views == entry::entry_views(list@),
            kept_places == keeps(views, qualities@, floor),
            entry::entry_views(kept@) == picked(views.take(i as int), kept_places),
            gone == tokens::capped(text_bytes(picked(views.take(i as int), others(kept_places)))),
        decreases list.len() - i,
    {
        proof {
            lemma_picked_step(views, kept_places, i as int);
            lemma_picked_step(views, others(kept_places), i as int);
            assert(views[i as int] == list@[i as int]@);
        }
        if list[i].relevance.below(floor) || qualities[i].below(floor) {
            let ghost lost = picked(views.take(i as int), others(kept_places));
            assert(lost.push(views[i as int]).drop_last() =~= lost);
            gone = gone.saturating_add(text::byte_len(list[i].memory.as_str()));
        } else {
            let copy = list[i].clone();
            assert(entry::entry_views(kept@.push(copy)) =~= entry::entry_views(kept@).push(copy@));
            kept.push(copy);
        }
        i = i + 1;
    }
    assert(views.take(views.len() as int) =~= views);
    (kept, gone)
}


/// The similarity of two texts with these tokens: shared tokens over the union,
/// and one where neither has any.
fn jaccard<A: RelevanceArithmetic>(
    arithmetic: &A,
    a: &Vec<String>,
    b: &Vec<String>,
    first: Ghost<Seq<char>>,
    second: Ghost<Seq<char>>,
) -> (r: Single)
    requires
        are_tokens(a@, first@),
        are_tokens(b@, second@),
    ensures
        is_jaccard(*arithmetic, first@, second@, r),
{
    if a.len() == 0 && b.len() == 0 {
        return Single { bits: 0x3f80_0000 };
    }
    let (shared, total) = tokens::overlap(a, b);
    proof {
        let x = tokens::tokens(first@);
        let y = tokens::tokens(second@);
        vstd::set_lib::lemma_len_subset(x, x.union(y));
        vstd::set_lib::lemma_len_subset(y, x.union(y));
        assert(total > 0);
    }
    match numeric::unit_ratio(shared, total) {
        Some((numerator, denominator)) => arithmetic.ratio(numerator, denominator),
        None => Single { bits: 0 },
    }
}

/// Whether a list holds the tokens of a text.
spec fn are_tokens(list: Seq<String>, memory: Seq<char>) -> bool {
    &&& text::texts(list).no_duplicates()
    &&& text::texts(list).to_set() == tokens::tokens(memory)
    &&& list.len() == tokens::tokens(memory).len()
    &&& tokens::tokens(memory).finite()
}

/// The similarity of each entry to each earlier one.
fn similarity_table<A: RelevanceArithmetic>(
    arithmetic: &A,
    entries: &Vec<MemoryEntry>,
) -> (table: Vec<Vec<Single>>)
    ensures
        are_jaccards(*arithmetic, entry::entry_views(entries@), rows(table@)),
{
    let mut sets: Vec<Vec<String>> = Vec::new();
    let mut table: Vec<Vec<Single>> = Vec::new();
    let mut i: usize = 0;
    while i < entries.len()
        invariant
            i <= entries.len(),
            sets.len() == i,
            table.len() == i,
            forall|k: int|
                0 <= k < sets.len() ==> are_tokens((#[trigger] sets@[k])@, entries@[k].memory@),
            forall|k: int| 0 <= k < table.len() ==> (#[trigger] table@[k])@.len() == k,
            forall|k: int, m: int|
                0 <= m < k < table.len() ==> is_jaccard(
                    *arithmetic,
                    entries@[k].memory@,
                    entries@[m].memory@,
                    #[trigger] table@[k]@[m],
                ),
        decreases entries.len() - i,
    {
        let own = tokens::normalized_tokens(entries[i].memory.as_str());
        let mut row: Vec<Single> = Vec::new();
        let mut k: usize = 0;
        while k < i
            invariant
                k <= i < entries.len(),
                sets.len() == i,
                row.len() == k,
                are_tokens(own@, entries@[i as int].memory@),
                forall|m: int|
                    0 <= m < sets.len() ==> are_tokens(
                        (#[trigger] sets@[m])@,
                        entries@[m].memory@,
                    ),
                forall|m: int|
                    0 <= m < k ==> is_jaccard(
                        *arithmetic,
                        entries@[i as int].memory@,
                        entries@[m].memory@,
                        #[trigger] row@[m],
                    ),
            decreases i - k,
        {
            let value: Single = jaccard(
                arithmetic,
                &own,
                &sets[k],
                Ghost(entries@[i as int].memory@),
                Ghost(entries@[k as int].memory@),
            );
            row.push(value);
            k = k + 1;
        }
        sets.push(own);
        table.push(row);
        i = i + 1;
    }
    proof {
        let views = entry::entry_views(entries@);
        let got = rows(table@);
        assert forall|k: int| 0 <= k < entries@.len() implies (#[trigger] got[k]).len() == k by {
            assert(got[k] == table@[k]@);
        }
        assert forall|k: int, m: int| 0 <= m < k < views.len() implies is_jaccard(
            *arithmetic,
            views[k].memory,
            views[m].memory,
            #[trigger] got[k][m],
        ) by {
            assert(got[k][m] == table@[k]@[m]);
        }
    }
    table
}

/// Partitions entries into clusters of near-duplicates, by the similarities
/// that the host's arithmetic gives.
pub fn cluster_duplicates<A: RelevanceArithmetic>(
    arithmetic: &A,
    entries: &Vec<MemoryEntry>,
    similarity_threshold: Single,
) -> (out: Vec<MemoryCluster>)
    ensures
        exists|similarity: Seq<Seq<Single>>|
            {
                &&& are_jaccards(*arithmetic, entry::entry_views(entries@), similarity)
                &&& cluster_views(out@) == #[trigger] clusters(
                    entry::entry_views(entries@),
                    similarity,
                    sound_threshold(similarity_threshold),
                )
            },
{
    let table = similarity_table(arithmetic, entries);
    let out = cluster_by_similarity(entries, &table, similarity_threshold);
    assert(cluster_views(out@) == clusters(
        entry::entry_views(entries@),
        rows(table@),
        sound_threshold(similarity_threshold),
    ));
    out
}

/// Fades every entry of a list.
fn decay_all<A: RelevanceArithmetic>(
    arithmetic: &A,
    list: &mut Vec<MemoryEntry>,
    half_life: u128,
    now: i128,
) -> (faded: Ghost<Seq<Single>>)
    ensures
        faded@.len() == old(list)@.len(),
        final(list)@.len() == old(list)@.len(),
        forall|i: int|
            0 <= i < old(list)@.len() ==> (#[trigger] final(list)@[i])@ == decayed(
                old(list)@[i]@,
                now,
                faded@[i],
            ),
        forall|i: int|
            0 <= i < old(list)@.len() ==> is_faded(
                *arithmetic,
                old(list)@[i]@,
                now,
                half_life,
                #[trigger] faded@[i],
            ),
{
    let ghost before = list@;
    let ghost mut faded: Seq<Single> = Seq::empty();
    let mut i: usize = 0;
    while i < list.len()
        invariant
            i <= list.len(),
            list@.len() == before.len(),
            faded.len() == i,
            forall|k: int|
                0 <= k < i ==> (#[trigger] list@[k])@ == decayed(before[k]@, now, faded[k]),
            forall|k: int|
                0 <= k < i ==> is_faded(
                    *arithmetic,
                    before[k]@,
                    now,
                    half_life,
                    #[trigger] faded[k],
                ),
            forall|k: int| i <= k < before.len() ==> #[trigger] list@[k] == before[k],
        decreases list.len() - i,
    {
        let value: Single = match decay_age(&list[i], now) {
            Some(age) => arithmetic.faded(list[i].relevance, age, half_life, list[i].category),
            None => list[i].relevance,
        };
        assert(is_faded(*arithmetic, before[i as int]@, now, half_life, value));
        decay_relevance(&mut list[i], now, value);
        proof {
            faded = faded.push(value);
        }
        i = i + 1;
    }
    Ghost(faded)
}

/// The qualities of the members of a cluster, without the canonical one.
fn duplicate_qualities<A: RelevanceArithmetic>(
    arithmetic: &A,
    cluster: &MemoryCluster,
    now: i128,
) -> (out: Vec<Single>)
    ensures
        out@.len() == cluster.duplicates@.len(),
        forall|m: int|
            0 <= m < out@.len() ==> is_quality(
                *arithmetic,
                cluster.duplicates@[m]@,
                now,
                #[trigger] out@[m],
            ),
{
    let mut out: Vec<Single> = Vec::new();
    let mut i: usize = 0;
    while i < cluster.duplicates.len()
        invariant
            i <= cluster.duplicates.len(),
            out.len() == i,
            forall|m: int|
                0 <= m < i ==> is_quality(
                    *arithmetic,
                    cluster.duplicates@[m]@,
                    now,
                    #[trigger] out@[m],
                ),
        decreases cluster.duplicates.len() - i,
    {
        let value: Single = quality_score(arithmetic, &cluster.duplicates[i], now);
        out.push(value);
        i = i + 1;
    }
    out
}

/// The relevance of a cluster's canonical entry, raised once for each
/// duplicate and clamped each time.
fn corroborated<A: RelevanceArithmetic>(arithmetic: &A, cluster: &MemoryCluster) -> (r: Single)
    ensures
        relevance_fits(cluster@, r),
        is_corroborated(*arithmetic, cluster@, r),
{
    let mut r: Single = cluster.canonical.relevance;
    let mut i: usize = 0;
    while i < cluster.duplicates.len()
        invariant
            i <= cluster.duplicates.len(),
            i == 0 ==> r == cluster.canonical.relevance,
            i > 0 ==> r.clamped() == r,
            is_raised(*arithmetic, cluster.canonical.relevance, i as nat, r),
        decreases cluster.duplicates.len() - i,
    {
        let raw: Single = arithmetic.raised(r);
        assert(call_ensures(A::raised, (arithmetic, r), raw));
        r = raw.clamp_unit();
        assert(is_raised(*arithmetic, cluster.canonical.relevance, (i + 1) as nat, r));
        i = i + 1;
    }
    assert(cluster@.duplicates.len() == cluster.duplicates@.len());
    r
}

/// The text bytes of a list of entries, held at the largest count.
fn bytes_of(list: &Vec<MemoryEntry>) -> (n: usize)
    ensures
        n == tokens::capped(text_bytes(entry::entry_views(list@))),
{
    let ghost views = entry::entry_views(list@);
    let mut n: usize = 0;
    let mut i: usize = 0;
    assert(views.take(0) =~= Seq::<EntryView>::empty());
    while i < list.len()
        invariant
            i <= list.len(),
            views == entry::entry_views(list@),
            n == tokens::capped(text_bytes(views.take(i as int))),
        decreases list.len() - i,
    {
        assert(views.take(i + 1).drop_last() =~= views.take(i as int));
        assert(views.take(i + 1).last() == list@[i as int]@);
        n = n.saturating_add(text::byte_len(list[i].memory.as_str()));
        i = i + 1;
    }
    assert(views.take(views.len() as int) =~= views);
    n
}

/// What merging a list of clusters gave.
struct Merges {
    list: Vec<MemoryEntry>,
    merged: usize,
    bytes: usize,
    qualities: Ghost<Seq<Seq<Single>>>,
    raised: Ghost<Seq<Single>>,
}

/// Merges every cluster of a list, in order.
fn merge_all<A: RelevanceArithmetic>(
    arithmetic: &A,
    cs: Vec<MemoryCluster>,
    now: i128,
) -> (out: Merges)
    ensures
        out.list@.len() == cs@.len(),
        out.qualities@.len() == cs@.len(),
        out.raised@.len() == cs@.len(),
        forall|k: int|
            0 <= k < cs@.len() ==> (#[trigger] out.qualities@[k]).len() == cs@[k]@.duplicates.len()
                + 1,
        forall|k: int|
            0 <= k < cs@.len() ==> relevance_fits(
                lead_by_best(cs@[k]@, out.qualities@[k]),
                #[trigger] out.raised@[k],
            ),
        forall|k: int|
            0 <= k < cs@.len() ==> (#[trigger] out.list@[k])@ == merged(
                lead_by_best(cs@[k]@, out.qualities@[k]),
                out.raised@[k],
            ),
        forall|k: int|
            0 <= k < cs@.len() ==> are_member_qualities(
                *arithmetic,
                cs@[k]@,
                now,
                #[trigger] out.qualities@[k],
            ),
        forall|k: int|
            0 <= k < cs@.len() ==> is_corroborated(
                *arithmetic,
                lead_by_best(cs@[k]@, out.qualities@[k]),
                #[trigger] out.raised@[k],
            ),
        out.merged == tokens::capped(duplicates_in(cluster_views(cs@), cs@.len())),
        out.bytes == tokens::capped(
            duplicate_bytes(cluster_views(cs@), out.qualities@, cs@.len()),
        ),
{
    let ghost views = cluster_views(cs@);
    let ghost mut qualities: Seq<Seq<Single>> = Seq::empty();
    let ghost mut raised: Seq<Single> = Seq::empty();
    let mut list: Vec<MemoryEntry> = Vec::new();
    let mut count: usize = 0;
    let mut bytes: usize = 0;
    let mut i: usize = 0;
    while i < cs.len()
        invariant
            i <= cs.len(),
            views == cluster_views(cs@),
            list.len() == i,
            qualities.len() == i,
            raised.len() == i,
            forall|k: int|
                0 <= k < i ==> (#[trigger] qualities[k]).len() == cs@[k]@.duplicates.len() + 1,
            forall|k: int|
                0 <= k < i ==> relevance_fits(
                    lead_by_best(cs@[k]@, qualities[k]),
                    #[trigger] raised[k],
                ),
            forall|k: int|
                0 <= k < i ==> (#[trigger] list@[k])@ == merged(
                    lead_by_best(cs@[k]@, qualities[k]),
                    raised[k],
                ),
            forall|k: int|
                0 <= k < i ==> are_member_qualities(
                    *arithmetic,
                    cs@[k]@,
                    now,
                    #[trigger] qualities[k],
                ),
            forall|k: int|
                0 <= k < i ==> is_corroborated(
                    *arithmetic,
                    lead_by_best(cs@[k]@, qualities[k]),
                    #[trigger] raised[k],
                ),
            count == tokens::capped(duplicates_in(views, i as nat)),
            bytes == tokens::capped(duplicate_bytes(views, qualities, i as nat)),
        decreases cs.len() - i,
    {
        let mut cluster = cs[i].clone();
        assert(cluster@ == views[i as int]);
        let front: Single = quality_score(arithmetic, &cluster.canonical, now);
        let rest = duplicate_qualities(arithmetic, &cluster, now);
        let ghost row = seq![front] + rest@;
        proof {
            let c = cluster@;
            assert(is_quality(*arithmetic, c.canonical, now, row[0]));
            assert forall|m: int| 0 <= m < c.duplicates.len() implies is_quality(
                *arithmetic,
                #[trigger] c.duplicates[m],
                now,
                row[m + 1],
            ) by {
                assert(c.duplicates[m] == cluster.duplicates@[m]@);
                assert(row[m + 1] == rest@[m]);
            }
            assert(are_member_qualities(*arithmetic, views[i as int], now, row));
        }
        promote_highest_quality(&mut cluster, front, &rest);
        let ghost old_qualities = qualities;
        proof {
            assert(row.skip(1) =~= rest@);
            assert(cluster@ == lead_by_best(views[i as int], row));
            lemma_promotion_keeps_length(views[i as int], front, rest@);
            qualities = qualities.push(row);
            lemma_duplicate_bytes_frame(views, old_qualities, row, i as nat);
        }
        bytes = bytes.saturating_add(bytes_of(&cluster.duplicates));
        count = count.saturating_add(cluster.duplicates.len());
        let relevance: Single = corroborated(arithmetic, &cluster);
        proof {
            raised = raised.push(relevance);
        }
        let entry = merge_cluster(cluster, relevance);
        list.push(entry);
        i = i + 1;
    }
    Merges { list, merged: count, bytes, qualities: Ghost(qualities), raised: Ghost(raised) }
}

proof fn lemma_promotion_keeps_length(c: ClusterView, canonical: Single, qualities: Seq<Single>)
    requires
        qualities.len() == c.duplicates.len(),
    ensures
        promoted(c, canonical, qualities).duplicates.len() == c.duplicates.len(),
{
    lemma_best_of(canonical, qualities, qualities.len());
}

proof fn lemma_duplicate_bytes_frame(
    cs: Seq<ClusterView>,
    qualities: Seq<Seq<Single>>,
    row: Seq<Single>,
    n: nat,
)
    requires
        n <= qualities.len(),
    ensures
        duplicate_bytes(cs, qualities.push(row), n) == duplicate_bytes(cs, qualities, n),
    decreases n,
{
    if n > 0 {
        lemma_duplicate_bytes_frame(cs, qualities, row, (n - 1) as nat);
    }
}

/// The clusters of a list hold as many duplicates as there are entries beyond
/// the clusters.
pub proof fn clusters_account_for_every_entry(
    entries: Seq<EntryView>,
    similarity: Seq<Seq<Single>>,
    threshold: Single,
)
    ensures
        ({
            let cs = clusters(entries, similarity, threshold);
            &&& cs.len() <= entries.len()
            &&& duplicates_in(cs, cs.len()) + cs.len() == entries.len()
        }),
{
    let n = entries.len();
    lemma_groups_hold_places(entries, similarity, threshold, n);
    lemma_group_sizes(entries, similarity, threshold, n);
    let g = groups(entries, similarity, threshold, n);
    lemma_duplicates_in_groups(entries, g, g.len());
    assert(clusters(entries, similarity, threshold) =~= g.map_values(
        |x: Seq<int>| cluster_of(entries, x),
    ));
}

/// The number of places in the first `n` groups.
spec fn places_in(g: Seq<Seq<int>>, n: nat) -> nat
    decreases n,
{
    if n == 0 {
        0
    } else {
        places_in(g, (n - 1) as nat) + g[n - 1].len()
    }
}

proof fn lemma_places_update(g: Seq<Seq<int>>, k: int, group: Seq<int>, n: nat)
    requires
        0 <= k < g.len(),
        n <= g.len(),
        group.len() == g[k].len() + 1,
    ensures
        places_in(g.update(k, group), n) == places_in(g, n) + if k < n {
            1int
        } else {
            0int
        },
    decreases n,
{
    if n > 0 {
        lemma_places_update(g, k, group, (n - 1) as nat);
    }
}

proof fn lemma_places_frame(g: Seq<Seq<int>>, group: Seq<int>, n: nat)
    requires
        n <= g.len(),
    ensures
        places_in(g.push(group), n) == places_in(g, n),
    decreases n,
{
    if n > 0 {
        lemma_places_frame(g, group, (n - 1) as nat);
    }
}

proof fn lemma_group_sizes(
    entries: Seq<EntryView>,
    similarity: Seq<Seq<Single>>,
    threshold: Single,
    n: nat,
)
    ensures
        places_in(
            groups(entries, similarity, threshold, n),
            groups(entries, similarity, threshold, n).len(),
        ) == n,
    decreases n,
{
    if n > 0 {
        let last = n - 1;
        lemma_group_sizes(entries, similarity, threshold, last as nat);
        let before = groups(entries, similarity, threshold, last as nat);
        lemma_home(entries, similarity, threshold, before, last, 0);
        let k = home(entries, similarity, threshold, before, last, 0);
        if k < before.len() {
            lemma_places_update(before, k, before[k].push(last), before.len());
        } else {
            lemma_places_frame(before, seq![last], before.len());
        }
    }
}

proof fn lemma_duplicates_in_groups(entries: Seq<EntryView>, g: Seq<Seq<int>>, n: nat)
    requires
        n <= g.len(),
        forall|k: int| 0 <= k < g.len() ==> (#[trigger] g[k]).len() > 0,
    ensures
        duplicates_in(g.map_values(|x: Seq<int>| cluster_of(entries, x)), n) + n == places_in(g, n),
    decreases n,
{
    if n > 0 {
        lemma_duplicates_in_groups(entries, g, (n - 1) as nat);
        assert(g[n - 1].len() > 0);
    }
}

/// The quality of every entry of a list.
fn qualities_of<A: RelevanceArithmetic>(
    arithmetic: &A,
    list: &Vec<MemoryEntry>,
    now: i128,
) -> (out: Vec<Single>)
    ensures
        out@.len() == list@.len(),
        forall|k: int|
            0 <= k < out@.len() ==> is_quality(*arithmetic, list@[k]@, now, #[trigger] out@[k]),
{
    let mut out: Vec<Single> = Vec::new();
    let mut i: usize = 0;
    while i < list.len()
        invariant
            i <= list.len(),
            out.len() == i,
            forall|k: int|
                0 <= k < i ==> is_quality(*arithmetic, list@[k]@, now, #[trigger] out@[k]),
        decreases list.len() - i,
    {
        let value: Single = quality_score(arithmetic, &list[i], now);
        out.push(value);
        i = i + 1;
    }
    out
}

/// Runs a full pass: decay, cluster, merge, prune. What is left and what is
/// reported are those of a pass with the figures that the host's arithmetic
/// gives.
pub fn consolidate_entries<A: RelevanceArithmetic>(
    arithmetic: &A,
    entries: &mut Vec<MemoryEntry>,
    config: &ConsolidationConfig,
    now: i128,
) -> (stats: ConsolidationStats)
    ensures
        exists|f: PassFigures| #[trigger]
            is_run(
                *arithmetic,
                entry::entry_views(old(entries)@),
                normal_config(*config),
                now,
                f,
                entry::entry_views(final(entries)@),
                stats,
            ),
{
    let config = config.normalized();
    let ghost input = entry::entry_views(entries@);
    let entries_before: usize = entries.len();
    let mut taken: Vec<MemoryEntry> = Vec::new();
    core::mem::swap(entries, &mut taken);
    let (mut good, mut bad) = split_by_health(taken);
    let ghost h = healthy(input);
    let ghost mut faded: Seq<Single> = Seq::empty();
    let ghost mut similarity: Seq<Seq<Single>> = Seq::empty();
    let ghost mut qualities: Seq<Seq<Single>> = Seq::empty();
    let ghost mut raised: Seq<Single> = Seq::empty();
    if config.decay {
        let ghost before = good@;
        let got = decay_all(arithmetic, &mut good, config.half_life, now);
        proof {
            faded = got@;
            assert(h.len() == before.len());
            assert(entry::entry_views(good@) =~= Seq::new(
                h.len(),
                |i: int| decayed(h[i], now, faded[i]),
            )) by {
                assert forall|i: int| 0 <= i < h.len() implies #[trigger] entry::entry_views(
                    good@,
                )[i] == decayed(h[i], now, faded[i]) by {
                    assert(h[i] == before[i]@);
                    assert(good@[i]@ == decayed(before[i]@, now, faded[i]));
                }
            }
        }
    }
    proof {
        if config.decay {
            assert forall|i: int| 0 <= i < h.len() implies is_faded(
                *arithmetic,
                h[i],
                now,
                config.half_life,
                #[trigger] faded[i],
            ) by {}
        }
    }
    let ghost d = entry::entry_views(good@);
    let mut merged_count: usize = 0;
    let mut merged_bytes: usize = 0;
    if config.merge {
        let table = similarity_table(arithmetic, &good);
        let cs = cluster_by_similarity(&good, &table, config.merge_threshold);
        let ghost cluster_list = cluster_views(cs@);
        proof {
            similarity = rows(table@);
            assert(d.len() == good.len());
            clusters_account_for_every_entry(
                d,
                similarity,
                sound_threshold(config.merge_threshold),
            );
        }
        let done = merge_all(arithmetic, cs, now);
        proof {
            qualities = done.qualities@;
            raised = done.raised@;
            assert(cluster_list == clusters(
                d,
                similarity,
                sound_threshold(config.merge_threshold),
            ));
            assert forall|k: int| 0 <= k < cluster_list.len() implies cs@[k]@
                == #[trigger] cluster_list[k] by {}
        }
        merged_count = done.merged;
        merged_bytes = done.bytes;
        good = done.list;
    }
    let ghost f0 = PassFigures {
        faded,
        similarity,
        qualities,
        raised,
        last_qualities: Seq::empty(),
    };
    proof {
        assert(d == after_decay(input, config, now, f0));
        assert(entry::entry_views(good@) =~= after_merge(input, config, now, f0));
    }
    let ghost merged_views = entry::entry_views(good@);
    let ghost bad_views = entry::entry_views(bad@);
    let ghost good_before = good@;
    let ghost bad_before = bad@;
    good.append(&mut bad);
    proof {
        assert(good@ =~= good_before + bad_before);
        assert(entry::entry_views(good@) =~= merged_views + bad_views);
    }
    let before_prune: usize = good.len();
    let last = qualities_of(arithmetic, &good, now);
    let ghost f = PassFigures { last_qualities: last@, ..f0 };
    let ghost list = entry::entry_views(good@);
    proof {
        assert(after_decay(input, config, now, f) == after_decay(input, config, now, f0));
        assert(after_merge(input, config, now, f) =~= after_merge(input, config, now, f0));
        assert(list == pool(input, config, now, f));
    }
    let (kept, pruned_bytes) = prune_entries(good, &last, config.prune_floor);
    proof {
        let kept_places = keeps(list, f.last_qualities, config.prune_floor);
        picked_and_others_add_up(list, kept_places);
        assert(entry::entry_views(kept@).len() == kept@.len());
    }
    let pruned: usize = before_prune - kept.len();
    let entries_after: usize = kept.len();
    *entries = kept;
    let stats = ConsolidationStats {
        entries_before,
        entries_after,
        pruned,
        merged: merged_count,
        bytes_saved: pruned_bytes.saturating_add(merged_bytes),
    };
    proof {
        let left = entry::entry_views(entries@);
        assert(is_pass(input, config, now, f, left, stats));
        assert(figures_given(*arithmetic, input, config, now, f));
        assert(is_run(*arithmetic, input, config, now, f, left, stats));
    }
    stats
}


// ---------------------------------------------------------------------------
// Laws of the pass
// ---------------------------------------------------------------------------

/// Every entry that a pass began with is left, pruned or merged away, and is
/// counted once.
pub proof fn a_pass_accounts_for_every_entry(
    entries: Seq<EntryView>,
    config: ConsolidationConfig,
    now: i128,
    f: PassFigures,
    left: Seq<EntryView>,
    stats: ConsolidationStats,
)
    requires
        is_pass(entries, config, now, f, left, stats),
    ensures
        stats.entries_before == stats.entries_after + stats.pruned + stats.merged,
        stats.entries_after == left.len(),
{
    let list = pool(entries, config, now, f);
    picked_and_others_add_up(list, keeps(list, f.last_qualities, config.prune_floor));
    picked_and_others_add_up(entries, health(entries));
    clusters_account_for_every_entry(
        after_decay(entries, config, now, f),
        f.similarity,
        sound_threshold(config.merge_threshold),
    );
}

/// Whether the host's formula gives an entry a quality that is not below the
/// floor.
pub open spec fn is_good_enough<A: RelevanceArithmetic>(
    arithmetic: A,
    e: EntryView,
    now: i128,
    floor: Single,
) -> bool {
    exists|quality: Single| #[trigger]
        is_quality(arithmetic, e, now, quality) && !quality.below(floor)
}

/// Nothing below the floor survives a pass, neither by its relevance nor by its
/// quality.
pub proof fn nothing_below_the_floor_survives<A: RelevanceArithmetic>(
    arithmetic: A,
    entries: Seq<EntryView>,
    config: ConsolidationConfig,
    now: i128,
    f: PassFigures,
    left: Seq<EntryView>,
    stats: ConsolidationStats,
)
    requires
        is_run(arithmetic, entries, config, now, f, left, stats),
    ensures
        forall|j: int|
            0 <= j < left.len() ==> !(#[trigger] left[j]).relevance.below(config.prune_floor)
                && is_good_enough(arithmetic, left[j], now, config.prune_floor),
{
    let list = pool(entries, config, now, f);
    let kept = keeps(list, f.last_qualities, config.prune_floor);
    what_is_picked_stands_in_the_list(list, kept);
    assert forall|j: int| 0 <= j < left.len() implies !(#[trigger] left[j]).relevance.below(
        config.prune_floor,
    ) && is_good_enough(arithmetic, left[j], now, config.prune_floor) by {
        assert(is_picked(list, kept, left[j]));
        let i = choose|i: int| 0 <= i < list.len() && kept[i] && #[trigger] list[i] == left[j];
        assert(is_quality(arithmetic, list[i], now, f.last_qualities[i]));
    }
}

/// An entry whose relevance was out of range cannot survive a pass with a floor
/// above zero, neither by itself nor by corroborating another: what is left
/// stems from the merged entries, and those from the entries in range.
pub proof fn a_poisoned_entry_cannot_survive(
    entries: Seq<EntryView>,
    config: ConsolidationConfig,
    now: i128,
    f: PassFigures,
    left: Seq<EntryView>,
    stats: ConsolidationStats,
)
    requires
        is_pass(entries, config, now, f, left, stats),
        config.prune_floor.in_unit(),
        config.prune_floor.key() > 0,
    ensures
        forall|j: int|
            0 <= j < left.len() ==> after_merge(entries, config, now, f).contains(
                #[trigger] left[j],
            ),
        forall|j: int|
            0 <= j < healthy(entries).len() ==> (#[trigger] healthy(
                entries,
            )[j]).relevance.in_unit(),
{
    let list = pool(entries, config, now, f);
    let kept = keeps(list, f.last_qualities, config.prune_floor);
    let ahead = after_merge(entries, config, now, f);
    what_is_picked_stands_in_the_list(list, kept);
    assert forall|j: int| 0 <= j < left.len() implies ahead.contains(#[trigger] left[j]) by {
        assert(is_picked(list, kept, left[j]));
        let i = choose|i: int| 0 <= i < list.len() && kept[i] && #[trigger] list[i] == left[j];
        if i >= ahead.len() {
            assert(list[i] == degraded(entries)[i - ahead.len()]);
            assert(list[i].relevance.bits == 0);
        } else {
            assert(ahead[i] == left[j]);
        }
    }
    what_is_picked_stands_in_the_list(entries, health(entries));
    assert forall|j: int| 0 <= j < healthy(entries).len() implies (#[trigger] healthy(
        entries,
    )[j]).relevance.in_unit() by {
        assert(is_picked(entries, health(entries), healthy(entries)[j]));
    }
}

/// Whether some entry of the list has this id.
pub open spec fn has_id(list: Seq<EntryView>, id: u128) -> bool {
    exists|i: int| 0 <= i < list.len() && #[trigger] list[i].id == id
}

proof fn lemma_promoted_is_a_member(c: ClusterView, canonical: Single, qualities: Seq<Single>)
    requires
        qualities.len() == c.duplicates.len(),
    ensures
        promoted(c, canonical, qualities).canonical == c.canonical || c.duplicates.contains(
            promoted(c, canonical, qualities).canonical,
        ),
{
    lemma_best_of(canonical, qualities, qualities.len());
    if let Some(k) = best_of(canonical, qualities, qualities.len()).0 {
        assert(c.duplicates[k] == promoted(c, canonical, qualities).canonical);
    }
}

proof fn lemma_health_ids(entries: Seq<EntryView>, pick: Seq<bool>)
    ensures
        forall|j: int|
            0 <= j < picked(entries, pick).len() ==> has_id(
                entries,
                (#[trigger] picked(entries, pick)[j]).id,
            ),
{
    what_is_picked_stands_in_the_list(entries, pick);
    assert forall|j: int| 0 <= j < picked(entries, pick).len() implies has_id(
        entries,
        (#[trigger] picked(entries, pick)[j]).id,
    ) by {
        assert(is_picked(entries, pick, picked(entries, pick)[j]));
        let i = choose|i: int|
            0 <= i < entries.len() && pick[i] && #[trigger] entries[i] == picked(entries, pick)[j];
        assert(entries[i].id == picked(entries, pick)[j].id);
    }
}

/// A pass invents no entry: every id that is left was there before.
pub proof fn a_pass_invents_no_entry(
    entries: Seq<EntryView>,
    config: ConsolidationConfig,
    now: i128,
    f: PassFigures,
    left: Seq<EntryView>,
    stats: ConsolidationStats,
)
    requires
        is_pass(entries, config, now, f, left, stats),
    ensures
        forall|j: int| 0 <= j < left.len() ==> has_id(entries, (#[trigger] left[j]).id),
{
    let h = healthy(entries);
    let d = after_decay(entries, config, now, f);
    let cs = pass_clusters(entries, config, now, f);
    let ahead = after_merge(entries, config, now, f);
    let list = pool(entries, config, now, f);
    let kept = keeps(list, f.last_qualities, config.prune_floor);
    lemma_health_ids(entries, health(entries));
    lemma_health_ids(entries, others(health(entries)));
    assert forall|i: int| 0 <= i < d.len() implies has_id(entries, (#[trigger] d[i]).id) by {
        assert(d[i].id == h[i].id);
    }
    assert forall|k: int| 0 <= k < ahead.len() implies has_id(entries, (#[trigger] ahead[k]).id) by {
        if config.merge {
            let threshold = sound_threshold(config.merge_threshold);
            let g = groups(d, f.similarity, threshold, d.len());
            lemma_groups_hold_places(d, f.similarity, threshold, d.len());
            assert(cs[k] == cluster_of(d, g[k]));
            let led = lead_by_best(cs[k], f.qualities[k]);
            assert(f.qualities[k].len() == cs[k].duplicates.len() + 1);
            lemma_promoted_is_a_member(cs[k], f.qualities[k][0], f.qualities[k].skip(1));
            a_merge_keeps_identity_and_corroboration(led, f.raised[k]);
            assert(g[k].len() > 0);
            if led.canonical == cs[k].canonical {
                assert(0 <= g[k][0] < d.len());
            } else {
                let m = choose|m: int|
                    0 <= m < cs[k].duplicates.len() && cs[k].duplicates[m] == led.canonical;
                assert(cs[k].duplicates[m] == d[g[k].skip(1)[m]]);
                assert(g[k].skip(1)[m] == g[k][m + 1]);
            }
        }
    }
    what_is_picked_stands_in_the_list(list, kept);
    assert forall|j: int| 0 <= j < left.len() implies has_id(entries, (#[trigger] left[j]).id) by {
        assert(is_picked(list, kept, left[j]));
        let i = choose|i: int| 0 <= i < list.len() && kept[i] && #[trigger] list[i] == left[j];
        if i >= ahead.len() {
            let bad = picked(entries, others(health(entries)));
            assert(list[i] == degraded(entries)[i - ahead.len()]);
            assert(list[i].id == bad[i - ahead.len()].id);
        } else {
            assert(ahead[i] == left[j]);
        }
    }
}

} // verus!
