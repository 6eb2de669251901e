//! What a pass accounts for: the bytes of its entries, the entry that each
//! survivor stems from, and how near to each other the members of a group are.

use vstd::prelude::*;

use crate::memory::consolidate::{
    after_decay, after_merge, best_of, cluster_of, degraded, duplicate_bytes,
    every_entry_lands_in_one_group, groups, health, healthy, home, is_pass, joins, keeps,
    lead_by_best, lemma_absorbed_all, lemma_best_of, lemma_groups_hold_places, lemma_home, merged,
    others, pass_clusters, picked, pool, promoted, sound_threshold, stands_in, text_bytes,
    ClusterView, ConsolidationConfig, PassFigures,
};
use crate::memory::entry::{ConsolidationStats, EntryView};
use crate::memory::tokens;
use crate::single::Single;
use crate::text;

verus! {

// ---------------------------------------------------------------------------
// Bytes
// ---------------------------------------------------------------------------

proof fn lemma_joined_bytes(a: Seq<EntryView>, b: Seq<EntryView>)
    ensures
        text_bytes(a + b) == text_bytes(a) + text_bytes(b),
    decreases b.len(),
{
    if b.len() == 0 {
        assert(a + b =~= a);
    } else {
        lemma_joined_bytes(a, b.drop_last());
        assert((a + b).drop_last() =~= a + b.drop_last());
        assert((a + b).last() == b.last());
    }
}

proof fn lemma_single_bytes(e: EntryView)
    ensures
        text_bytes(seq![e]) == text::byte_length(e.memory),
{
    assert(seq![e].drop_last() =~= Seq::<EntryView>::empty());
    assert(text_bytes(Seq::<EntryView>::empty()) == 0);
}

proof fn lemma_same_texts(a: Seq<EntryView>, b: Seq<EntryView>)
    requires
        a.len() == b.len(),
        forall|i: int| 0 <= i < a.len() ==> (#[trigger] a[i]).memory == b[i].memory,
    ensures
        text_bytes(a) == text_bytes(b),
    decreases a.len(),
{
    if a.len() > 0 {
        let n = a.len() - 1;
        assert forall|i: int| 0 <= i < n implies (#[trigger] a.drop_last()[i]).memory
            == b.drop_last()[i].memory by {
            assert(a[i].memory == b[i].memory);
        }
        lemma_same_texts(a.drop_last(), b.drop_last());
        assert(a[n].memory == b[n].memory);
    }
}

proof fn lemma_picked_bytes(list: Seq<EntryView>, pick: Seq<bool>)
    requires
        pick.len() >= list.len(),
    ensures
        text_bytes(picked(list, pick)) + text_bytes(picked(list, others(pick))) == text_bytes(list),
    decreases list.len(),
{
    if list.len() > 0 {
        let less = list.drop_last();
        lemma_picked_bytes(less, pick);
        let x = list.last();
        assert(picked(less, pick).push(x).drop_last() =~= picked(less, pick));
        assert(picked(less, others(pick)).push(x).drop_last() =~= picked(less, others(pick)));
    }
}

proof fn lemma_bytes_without(s: Seq<EntryView>, k: int)
    requires
        0 <= k < s.len(),
    ensures
        text_bytes(s.remove(k)) + text::byte_length(s[k].memory) == text_bytes(s),
{
    let front = s.take(k);
    let back = s.skip(k + 1);
    assert(s =~= front + (seq![s[k]] + back));
    assert(s.remove(k) =~= front + back);
    lemma_joined_bytes(front, seq![s[k]] + back);
    lemma_joined_bytes(seq![s[k]], back);
    lemma_joined_bytes(front, back);
    lemma_single_bytes(s[k]);
}

/// The text bytes of the members of a cluster.
spec fn cluster_bytes(c: ClusterView) -> nat {
    text::byte_length(c.canonical.memory) + text_bytes(c.duplicates)
}

proof fn lemma_promotion_keeps_bytes(c: ClusterView, canonical: Single, qualities: Seq<Single>)
    requires
        qualities.len() == c.duplicates.len(),
    ensures
        cluster_bytes(promoted(c, canonical, qualities)) == cluster_bytes(c),
{
    lemma_best_of(canonical, qualities, qualities.len());
    if let Some(k) = best_of(canonical, qualities, qualities.len()).0 {
        let rest = c.duplicates.remove(k);
        lemma_bytes_without(c.duplicates, k);
        assert(rest.push(c.canonical).drop_last() =~= rest);
    }
}

/// The text bytes of the first `n` clusters.
spec fn cluster_bytes_in(cs: Seq<ClusterView>, n: nat) -> nat
    decreases n,
{
    if n == 0 {
        0
    } else {
        cluster_bytes_in(cs, (n - 1) as nat) + cluster_bytes(cs[n - 1])
    }
}

/// The members of a group.
spec fn members(entries: Seq<EntryView>, group: Seq<int>) -> Seq<EntryView> {
    group.map_values(|i: int| entries[i])
}

/// The text bytes of the members of the first `n` groups.
spec fn group_bytes_in(entries: Seq<EntryView>, g: Seq<Seq<int>>, n: nat) -> nat
    decreases n,
{
    if n == 0 {
        0
    } else {
        group_bytes_in(entries, g, (n - 1) as nat) + text_bytes(members(entries, g[n - 1]))
    }
}

proof fn lemma_group_bytes_update(entries: Seq<EntryView>, g: Seq<Seq<int>>, k: int, i: int, n: nat)
    requires
        0 <= k < g.len(),
        n <= g.len(),
    ensures
        group_bytes_in(entries, g.update(k, g[k].push(i)), n) == group_bytes_in(entries, g, n)
            + if k < n {
            text::byte_length(entries[i].memory)
        } else {
            0
        },
    decreases n,
{
    if n > 0 {
        lemma_group_bytes_update(entries, g, k, i, (n - 1) as nat);
        if k == n - 1 {
            let longer = members(entries, g[k].push(i));
            assert(longer.drop_last() =~= members(entries, g[k]));
            assert(longer.last() == entries[i]);
        }
    }
}

proof fn lemma_group_bytes_frame(
    entries: Seq<EntryView>,
    g: Seq<Seq<int>>,
    group: Seq<int>,
    n: nat,
)
    requires
        n <= g.len(),
    ensures
        group_bytes_in(entries, g.push(group), n) == group_bytes_in(entries, g, n),
    decreases n,
{
    if n > 0 {
        lemma_group_bytes_frame(entries, g, group, (n - 1) as nat);
    }
}

proof fn lemma_groups_hold_all_bytes(
    entries: Seq<EntryView>,
    similarity: Seq<Seq<Single>>,
    threshold: Single,
    n: nat,
)
    requires
        n <= entries.len(),
    ensures
        ({
            let g = groups(entries, similarity, threshold, n);
            group_bytes_in(entries, g, g.len()) == text_bytes(entries.take(n as int))
        }),
    decreases n,
{
    if n > 0 {
        let last = n - 1;
        lemma_groups_hold_all_bytes(entries, similarity, threshold, last as nat);
        let before = groups(entries, similarity, threshold, last as nat);
        lemma_home(entries, similarity, threshold, before, last, 0);
        let k = home(entries, similarity, threshold, before, last, 0);
        assert(entries.take(n as int).drop_last() =~= entries.take(last));
        assert(entries.take(n as int).last() == entries[last]);
        if k < before.len() {
            lemma_group_bytes_update(entries, before, k, last, before.len());
        } else {
            lemma_group_bytes_frame(entries, before, seq![last], before.len());
            assert(members(entries, seq![last]) =~= seq![entries[last]]);
            lemma_single_bytes(entries[last]);
        }
    }
}

proof fn lemma_clusters_hold_group_bytes(entries: Seq<EntryView>, g: Seq<Seq<int>>, n: nat)
    requires
        n <= g.len(),
        forall|k: int| 0 <= k < g.len() ==> (#[trigger] g[k]).len() > 0,
    ensures
        cluster_bytes_in(g.map_values(|x: Seq<int>| cluster_of(entries, x)), n) == group_bytes_in(
            entries,
            g,
            n,
        ),
    decreases n,
{
    if n > 0 {
        lemma_clusters_hold_group_bytes(entries, g, (n - 1) as nat);
        let group = g[n - 1];
        assert(group.len() > 0);
        let c = cluster_of(entries, group);
        assert(members(entries, group) =~= seq![c.canonical] + c.duplicates);
        lemma_joined_bytes(seq![c.canonical], c.duplicates);
        lemma_single_bytes(c.canonical);
    }
}

proof fn lemma_merge_bytes(
    cs: Seq<ClusterView>,
    qualities: Seq<Seq<Single>>,
    raised: Seq<Single>,
    n: nat,
)
    requires
        n <= cs.len(),
        qualities.len() == cs.len(),
        forall|k: int|
            0 <= k < cs.len() ==> (#[trigger] qualities[k]).len() == cs[k].duplicates.len() + 1,
    ensures
        ({
            let list = Seq::new(
                n,
                |k: int| merged(lead_by_best(cs[k], qualities[k]), raised[k]),
            );
            text_bytes(list) + duplicate_bytes(cs, qualities, n) == cluster_bytes_in(cs, n)
        }),
    decreases n,
{
    let list = Seq::new(n, |k: int| merged(lead_by_best(cs[k], qualities[k]), raised[k]));
    if n > 0 {
        let last = n - 1;
        lemma_merge_bytes(cs, qualities, raised, last as nat);
        assert(list.drop_last() =~= Seq::new(
            last as nat,
            |k: int| merged(lead_by_best(cs[k], qualities[k]), raised[k]),
        ));
        assert(qualities[last].len() == cs[last].duplicates.len() + 1);
        lemma_promotion_keeps_bytes(cs[last], qualities[last][0], qualities[last].skip(1));
        let led = lead_by_best(cs[last], qualities[last]);
        lemma_merged_keeps_its_lead(led, raised[last]);
        assert(list.last() == merged(led, raised[last]));
    }
}

proof fn lemma_merged_keeps_its_lead(c: ClusterView, relevance: Single)
    ensures
        stems_from(merged(c, relevance), c.canonical),
{
    let first = EntryView {
        relevance,
        last_decayed: Some(
            match c.canonical.last_decayed {
                Some(t) => t,
                None => c.canonical.created_at,
            },
        ),
        ..c.canonical
    };
    lemma_absorbed_all(first, c.duplicates, c.duplicates.len());
}

/// The text bytes before a pass are those that it left and those that it
/// reports as saved, wherever a count can hold them.
pub proof fn a_pass_accounts_for_every_byte(
    entries: Seq<EntryView>,
    config: ConsolidationConfig,
    now: i128,
    f: PassFigures,
    left: Seq<EntryView>,
    stats: ConsolidationStats,
)
    requires
        is_pass(entries, config, now, f, left, stats),
    ensures
        text_bytes(left) <= text_bytes(entries),
        stats.bytes_saved == tokens::capped((text_bytes(entries) - text_bytes(left)) as nat),
        text_bytes(entries) <= usize::MAX ==> text_bytes(entries) == text_bytes(left)
            + stats.bytes_saved,
{
    let h = healthy(entries);
    let d = after_decay(entries, config, now, f);
    let cs = pass_clusters(entries, config, now, f);
    let ahead = after_merge(entries, config, now, f);
    let bad = picked(entries, others(health(entries)));
    let list = pool(entries, config, now, f);
    let kept = keeps(list, f.last_qualities, config.prune_floor);
    lemma_picked_bytes(entries, health(entries));
    lemma_same_texts(d, h);
    lemma_same_texts(degraded(entries), bad);
    lemma_joined_bytes(ahead, degraded(entries));
    lemma_picked_bytes(list, kept);
    if config.merge {
        let threshold = sound_threshold(config.merge_threshold);
        let g = groups(d, f.similarity, threshold, d.len());
        lemma_groups_hold_places(d, f.similarity, threshold, d.len());
        lemma_groups_hold_all_bytes(d, f.similarity, threshold, d.len());
        assert(d.take(d.len() as int) =~= d);
        lemma_clusters_hold_group_bytes(d, g, g.len());
        assert(cs =~= g.map_values(|x: Seq<int>| cluster_of(d, x)));
        lemma_merge_bytes(cs, f.qualities, f.raised, cs.len());
    }
}

// ---------------------------------------------------------------------------
// Origins
// ---------------------------------------------------------------------------

/// Whether one entry has the identity, the category and the text of another.
pub open spec fn stems_from(x: EntryView, e: EntryView) -> bool {
    x.id == e.id && x.category == e.category && x.memory == e.memory
}

/// Whether `origins` names, for each entry of `left`, the place of the entry
/// that it stems from, and no place twice.
pub open spec fn are_origins(
    origins: Seq<int>,
    entries: Seq<EntryView>,
    left: Seq<EntryView>,
) -> bool {
    &&& origins.len() == left.len()
    &&& forall|j: int|
        0 <= j < left.len() ==> 0 <= #[trigger] origins[j] < entries.len() && stems_from(
            left[j],
            entries[origins[j]],
        )
    &&& forall|i: int, j: int|
        0 <= i < j < left.len() ==> #[trigger] origins[i] != #[trigger] origins[j]
}

/// The places below `n` that are picked.
spec fn places(pick: Seq<bool>, n: nat) -> Seq<int>
    decreases n,
{
    if n == 0 {
        Seq::empty()
    } else if pick[n - 1] {
        places(pick, (n - 1) as nat).push(n - 1)
    } else {
        places(pick, (n - 1) as nat)
    }
}

proof fn lemma_places(list: Seq<EntryView>, pick: Seq<bool>)
    ensures
        ({
            let at = places(pick, list.len());
            &&& at.len() == picked(list, pick).len()
            &&& forall|j: int|
                0 <= j < at.len() ==> 0 <= #[trigger] at[j] < list.len() && pick[at[j]]
                    && picked(list, pick)[j] == list[at[j]]
            &&& forall|i: int, j: int|
                0 <= i < j < at.len() ==> #[trigger] at[i] < #[trigger] at[j]
        }),
    decreases list.len(),
{
    if list.len() > 0 {
        let less = list.drop_last();
        lemma_places(less, pick);
        let before = places(pick, less.len());
        let at = places(pick, list.len());
        assert forall|j: int| 0 <= j < at.len() implies 0 <= #[trigger] at[j] < list.len()
            && pick[at[j]] && picked(list, pick)[j] == list[at[j]] by {
            if j < before.len() {
                assert(at[j] == before[j]);
            }
        }
        assert forall|i: int, j: int| 0 <= i < j < at.len() implies #[trigger] at[i]
            < #[trigger] at[j] by {
            assert(at[i] == before[i]);
            if j < before.len() {
                assert(at[j] == before[j]);
            }
        }
    }
}

/// The place of the member of a group that leads it.
spec fn leader(group: Seq<int>, qualities: Seq<Single>) -> int {
    match best_of(qualities[0], qualities.skip(1), qualities.skip(1).len()).0 {
        Some(m) => group[m + 1],
        None => group[0],
    }
}

proof fn lemma_origins_of_merged(
    entries: Seq<EntryView>,
    config: ConsolidationConfig,
    now: i128,
    f: PassFigures,
    left: Seq<EntryView>,
    stats: ConsolidationStats,
) -> (origins: Seq<int>)
    requires
        is_pass(entries, config, now, f, left, stats),
    ensures
        are_origins(origins, healthy(entries), after_merge(entries, config, now, f)),
{
    let h = healthy(entries);
    let d = after_decay(entries, config, now, f);
    let ahead = after_merge(entries, config, now, f);
    if config.merge {
        let threshold = sound_threshold(config.merge_threshold);
        let cs = pass_clusters(entries, config, now, f);
        let g = groups(d, f.similarity, threshold, d.len());
        lemma_groups_hold_places(d, f.similarity, threshold, d.len());
        every_entry_lands_in_one_group(d, f.similarity, threshold, d.len());
        let origins = Seq::new(cs.len(), |k: int| leader(g[k], f.qualities[k]));
        assert forall|k: int| 0 <= k < ahead.len() implies 0 <= #[trigger] origins[k] < h.len()
            && stems_from(ahead[k], h[origins[k]]) && exists|m: int|
            #[trigger] stands_in(g, origins[k], k, m) by {
            let row = f.qualities[k];
            assert(cs[k] == cluster_of(d, g[k]));
            assert(row.len() == cs[k].duplicates.len() + 1);
            lemma_best_of(row[0], row.skip(1), row.skip(1).len());
            let led = lead_by_best(cs[k], row);
            lemma_merged_keeps_its_lead(led, f.raised[k]);
            assert(g[k].len() > 0);
            match best_of(row[0], row.skip(1), row.skip(1).len()).0 {
                Some(m) => {
                    assert(led.canonical == d[g[k].skip(1)[m]]);
                    assert(g[k].skip(1)[m] == g[k][m + 1]);
                    assert(stands_in(g, origins[k], k, m + 1));
                },
                None => {
                    assert(led.canonical == d[g[k][0]]);
                    assert(stands_in(g, origins[k], k, 0));
                },
            }
            assert(d[origins[k]].memory == h[origins[k]].memory);
        }
        assert forall|i: int, j: int| 0 <= i < j < ahead.len() implies #[trigger] origins[i]
            != #[trigger] origins[j] by {
            let a = choose|m: int| #[trigger] stands_in(g, origins[i], i, m);
            let b = choose|m: int| #[trigger] stands_in(g, origins[j], j, m);
            assert(stands_in(g, origins[i], i, a));
            assert(stands_in(g, origins[j], j, b));
        }
        origins
    } else {
        let origins = Seq::new(h.len(), |i: int| i);
        assert(are_origins(origins, h, ahead));
        origins
    }
}

/// No two survivors of a pass stem from one entry: each has the identity, the
/// category and the text of an entry of its own. Where no identifier stood
/// twice before, none does after.
pub proof fn no_two_survivors_stem_from_one_entry(
    entries: Seq<EntryView>,
    config: ConsolidationConfig,
    now: i128,
    f: PassFigures,
    left: Seq<EntryView>,
    stats: ConsolidationStats,
)
    requires
        is_pass(entries, config, now, f, left, stats),
    ensures
        exists|origins: Seq<int>| #[trigger] are_origins(origins, entries, left),
        (forall|i: int, j: int|
            0 <= i < j < entries.len() ==> (#[trigger] entries[i]).id != (
            #[trigger] entries[j]).id) ==> forall|i: int, j: int|
            0 <= i < j < left.len() ==> (#[trigger] left[i]).id != (#[trigger] left[j]).id,
{
    let ahead = after_merge(entries, config, now, f);
    let list = pool(entries, config, now, f);
    let kept = keeps(list, f.last_qualities, config.prune_floor);
    let well = health(entries);
    let from_merge = lemma_origins_of_merged(entries, config, now, f, left, stats);
    lemma_places(entries, well);
    lemma_places(entries, others(well));
    lemma_places(list, kept);
    let good_at = places(well, entries.len());
    let bad_at = places(others(well), entries.len());
    let kept_at = places(kept, list.len());
    let of_pool = Seq::new(
        list.len(),
        |i: int|
            if i < ahead.len() {
                good_at[from_merge[i]]
            } else {
                bad_at[i - ahead.len()]
            },
    );
    assert(are_origins(of_pool, entries, list)) by {
        assert forall|i: int| 0 <= i < list.len() implies 0 <= #[trigger] of_pool[i]
            < entries.len() && stems_from(list[i], entries[of_pool[i]]) && (well[of_pool[i]] <==> i
            < ahead.len()) by {
            if i < ahead.len() {
                let at = from_merge[i];
                assert(good_at[at] == of_pool[i]);
            } else {
                assert(bad_at[i - ahead.len()] == of_pool[i]);
                assert(list[i] == degraded(entries)[i - ahead.len()]);
            }
        }
        assert forall|i: int, j: int| 0 <= i < j < list.len() implies #[trigger] of_pool[i]
            != #[trigger] of_pool[j] by {
            if j < ahead.len() {
                let a = from_merge[i];
                let b = from_merge[j];
                assert(a != b);
                assert(good_at[a] != good_at[b]);
            } else if i >= ahead.len() {
                assert(bad_at[i - ahead.len()] < bad_at[j - ahead.len()]);
            }
        }
    }
    let origins = Seq::new(left.len(), |j: int| of_pool[kept_at[j]]);
    assert(are_origins(origins, entries, left)) by {
        assert forall|j: int| 0 <= j < left.len() implies 0 <= #[trigger] origins[j]
            < entries.len() && stems_from(left[j], entries[origins[j]]) by {
            assert(of_pool[kept_at[j]] == origins[j]);
        }
        assert forall|i: int, j: int| 0 <= i < j < left.len() implies #[trigger] origins[i]
            != #[trigger] origins[j] by {
            assert(kept_at[i] < kept_at[j]);
            assert(of_pool[kept_at[i]] != of_pool[kept_at[j]]);
        }
    }
    if forall|i: int, j: int|
        0 <= i < j < entries.len() ==> (#[trigger] entries[i]).id != (#[trigger] entries[j]).id {
        assert forall|i: int, j: int| 0 <= i < j < left.len() implies (#[trigger] left[i]).id != (
        #[trigger] left[j]).id by {
            let a = origins[i];
            let b = origins[j];
            assert(a != b);
            if a < b {
                assert(entries[a].id != entries[b].id);
            } else {
                assert(entries[b].id != entries[a].id);
            }
        }
    }
}

// ---------------------------------------------------------------------------
// Nearness
// ---------------------------------------------------------------------------

/// Every duplicate reaches the threshold with the first of its group, and the
/// first of a group does not reach it with the first of an earlier group of its
/// category, where it has tokens at all.
pub proof fn groups_part_at_the_threshold(
    entries: Seq<EntryView>,
    similarity: Seq<Seq<Single>>,
    threshold: Single,
    n: nat,
)
    requires
        n <= entries.len(),
    ensures
        ({
            let g = groups(entries, similarity, threshold, n);
            &&& forall|k: int, m: int|
                0 <= k < g.len() && 0 < m < g[k].len() ==> similarity[#[trigger] g[k][m]][g[k][0]].reaches(
                    threshold,
                )
            &&& forall|a: int, b: int|
                0 <= a < b < g.len() && entries[(#[trigger] g[a])[0]].category == entries[(
                #[trigger] g[b])[0]].category && tokens::tokens(entries[g[b][0]].memory).len() > 0
                    ==> !similarity[g[b][0]][g[a][0]].reaches(threshold)
        }),
    decreases n,
{
    if n > 0 {
        let last = n - 1;
        groups_part_at_the_threshold(entries, similarity, threshold, last as nat);
        lemma_groups_hold_places(entries, similarity, threshold, last as nat);
        let before = groups(entries, similarity, threshold, last as nat);
        let g = groups(entries, similarity, threshold, n);
        lemma_home(entries, similarity, threshold, before, last, 0);
        assert forall|k: int| 0 <= k < before.len() implies (#[trigger] g[k])[0]
            == before[k][0] by {
            assert(before[k].len() > 0);
        }
        assert forall|k: int, m: int| 0 <= k < g.len() && 0 < m < g[k].len() implies similarity[
            #[trigger] g[k][m]
        ][g[k][0]].reaches(threshold) by {
            if k < before.len() && m < before[k].len() {
                assert(before[k][m] == g[k][m]);
            } else {
                assert(joins(entries, similarity, threshold, last, before[k][0]));
            }
        }
        assert forall|a: int, b: int|
            0 <= a < b < g.len() && entries[(#[trigger] g[a])[0]].category == entries[(
            #[trigger] g[b])[0]].category && tokens::tokens(entries[g[b][0]].memory).len()
                > 0 implies !similarity[g[b][0]][g[a][0]].reaches(threshold) by {
            if b < before.len() {
                assert(before[a][0] == g[a][0]);
                assert(before[b][0] == g[b][0]);
            } else {
                assert(!joins(entries, similarity, threshold, last, before[a][0]));
            }
        }
    }
}

} // verus!
