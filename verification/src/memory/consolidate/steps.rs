//! What each step of a pass comes to.

use vstd::prelude::*;

use crate::memory::consolidate::{
    absorbed_all, after_decay, after_merge, best_of, category_decay_weight, cluster_of,
    clusters_account_for_every_entry, decay_baseline, decayed, default_config, degraded, groups,
    health, healthy, home, is_corroborated, is_faded, is_jaccard, is_pass, is_raised, is_run, joins,
    keeps, lemma_best_of, lemma_groups_hold_places, lemma_home, merged, normal_config, others,
    pass_clusters, picked, picked_and_others_add_up, pool, promoted, quality_parts_of,
    sound_threshold, tags_joined, text_bytes, ClusterView, ConsolidationConfig, PassFigures,
    RelevanceArithmetic,
};
use crate::memory::entry::{ConsolidationStats, EntryView, MemoryCategory};
use crate::memory::tokens;
use crate::numeric;
use crate::selection;
use crate::single::Single;
use crate::text;

verus! {

// ---------------------------------------------------------------------------
// The configuration
// ---------------------------------------------------------------------------

/// What is in range is used as it was configured: a half-life from one second
/// on, a merge threshold above zero up to one, and a prune floor from zero to
/// one. A configuration that is in range throughout is left as it is. Only what
/// is out of range gives way to its default, by itself.
pub proof fn a_sound_configuration_is_kept(c: ConsolidationConfig)
    ensures
        c.half_life >= 1_000_000_000 ==> normal_config(c).half_life == c.half_life,
        c.half_life < 1_000_000_000 ==> normal_config(c).half_life == 1_209_600_000_000_000,
        0 < c.merge_threshold.bits <= 0x3f80_0000 ==> normal_config(c).merge_threshold
            == c.merge_threshold,
        c.merge_threshold.bits == 0 || c.merge_threshold.bits > 0x3f80_0000 ==> normal_config(
            c,
        ).merge_threshold.bits == 0x3f19_999a,
        c.prune_floor.bits <= 0x3f80_0000 || c.prune_floor.bits == 0x8000_0000 ==> normal_config(
            c,
        ).prune_floor == c.prune_floor,
        !(c.prune_floor.bits <= 0x3f80_0000 || c.prune_floor.bits == 0x8000_0000) ==> normal_config(
            c,
        ).prune_floor.bits == 0x3d4c_cccd,
        normal_config(c).decay == c.decay,
        normal_config(c).merge == c.merge,
        c.half_life >= 1_000_000_000 && 0 < c.merge_threshold.bits <= 0x3f80_0000
            && c.prune_floor.bits <= 0x3f80_0000 ==> normal_config(c) == c,
{
}

/// What nobody configured: fading over fourteen days, merging from 0.6 on,
/// pruning below 0.05.
pub proof fn the_defaults_run_the_whole_pass()
    ensures
        default_config().decay && default_config().merge,
        default_config().half_life == 14 * 24 * 60 * 60 * 1_000_000_000,
        default_config().merge_threshold.bits == 0x3f19_999a,
        default_config().prune_floor.bits == 0x3d4c_cccd,
        normal_config(default_config()) == default_config(),
{
}

// ---------------------------------------------------------------------------
// Fading
// ---------------------------------------------------------------------------

/// An entry fades from the later of its last decay and its last access, each
/// counted from its creation where it never happened.
pub proof fn fading_starts_at_the_latest_touch(e: EntryView)
    ensures
        e.last_decayed is None && e.last_accessed is None ==> decay_baseline(e) == e.created_at,
        e.last_decayed matches Some(d) ==> decay_baseline(e) >= d,
        e.last_accessed matches Some(a) ==> decay_baseline(e) >= a,
        e.last_decayed is None || e.last_accessed is None ==> decay_baseline(e) >= e.created_at,
        ({
            ||| e.last_decayed == Some(decay_baseline(e))
            ||| e.last_accessed == Some(decay_baseline(e))
            ||| (e.last_decayed is None || e.last_accessed is None) && decay_baseline(e)
                == e.created_at
        }),
{
}

/// A decay at or after the baseline sets the relevance to what the host's
/// formula came to, held in the unit interval, one before it leaves the
/// relevance alone; either way the decay stamp is at `now` or where it was, if
/// that is later, and nothing else changes.
pub proof fn a_decay_changes_relevance_and_stamp_only(e: EntryView, now: i128, faded: Single)
    ensures
        decayed(e, now, faded) == (EntryView {
            relevance: decayed(e, now, faded).relevance,
            last_decayed: decayed(e, now, faded).last_decayed,
            ..e
        }),
        now >= decay_baseline(e) && faded.bits <= 0x3f80_0000 ==> decayed(e, now, faded).relevance
            == faded,
        now >= decay_baseline(e) && 0x3f80_0000 < faded.bits <= 0x7f80_0000 ==> decayed(
            e,
            now,
            faded,
        ).relevance.bits == 0x3f80_0000,
        now >= decay_baseline(e) && 0x8000_0000 < faded.bits <= 0xff80_0000 ==> decayed(
            e,
            now,
            faded,
        ).relevance.bits == 0,
        now < decay_baseline(e) ==> decayed(e, now, faded).relevance == e.relevance,
        decayed(e, now, faded).last_decayed is Some,
        decayed(e, now, faded).last_decayed->0 >= now,
        e.last_decayed is None ==> decayed(e, now, faded).last_decayed == Some(now),
        e.last_decayed matches Some(d) ==> decayed(e, now, faded).last_decayed->0 >= d && (decayed(
            e,
            now,
            faded,
        ).last_decayed == Some(d) || decayed(e, now, faded).last_decayed == Some(now)),
{
}

/// What the host is asked to fade an entry by: its relevance, the time since its
/// baseline, the half-life that was configured, and its category.
pub proof fn an_entry_fades_by_its_own_age<A: RelevanceArithmetic>(
    arithmetic: A,
    e: EntryView,
    age: u128,
    now: i128,
    half_life: u128,
    faded: Single,
)
    requires
        now - decay_baseline(e) == age,
    ensures
        is_faded(arithmetic, e, now, half_life, faded) <==> call_ensures(
            A::faded,
            (&arithmetic, e.relevance, age, half_life, e.category),
            faded,
        ),
{
}

// ---------------------------------------------------------------------------
// Quality and similarity
// ---------------------------------------------------------------------------

/// What the quality of an entry is made of: its relevance held in the unit
/// interval, its accesses up to 65535, the time since its last access or, where
/// there was none, since its creation, and whether it was validated.
pub proof fn quality_is_made_of_the_entry_s_own_figures(e: EntryView, now: i128)
    ensures
        ({
            let parts = quality_parts_of(e, now);
            &&& e.relevance.bits <= 0x3f80_0000 ==> parts.relevance == e.relevance
            &&& 0x3f80_0000 < e.relevance.bits <= 0x7f80_0000 ==> parts.relevance.bits
                == 0x3f80_0000
            &&& 0x8000_0000 < e.relevance.bits <= 0xff80_0000 ==> parts.relevance.bits == 0
            &&& e.access_count <= 65_535 ==> parts.access_count == e.access_count
            &&& e.access_count > 65_535 ==> parts.access_count == 65_535
            &&& parts.validated == e.validated
            &&& e.last_accessed matches Some(t) ==> {
                &&& now < t ==> parts.idle is None
                &&& now >= t ==> parts.idle is Some && parts.idle->0 == now - t
            }
            &&& e.last_accessed is None ==> {
                &&& now < e.created_at ==> parts.idle is None
                &&& now >= e.created_at ==> parts.idle is Some && parts.idle->0 == now
                    - e.created_at
            }
        }),
{
}

/// The similarity of two texts is the host's ratio of the number of tokens that
/// they share to the number that either has.
pub proof fn similarity_is_shared_tokens_over_all<A: RelevanceArithmetic>(
    arithmetic: A,
    a: Seq<char>,
    b: Seq<char>,
    shared: u16,
    all: u16,
    similarity: Single,
)
    requires
        shared == tokens::tokens(a).intersect(tokens::tokens(b)).len(),
        all == tokens::tokens(a).union(tokens::tokens(b)).len(),
        shared <= all,
        0 < all,
        tokens::tokens(a).len() > 0 || tokens::tokens(b).len() > 0,
    ensures
        is_jaccard(arithmetic, a, b, similarity) <==> call_ensures(
            A::ratio,
            (&arithmetic, shared, all),
            similarity,
        ),
{
    numeric::a_narrowed_ratio_stays_in_the_unit_interval(shared as int, all as int);
}

// ---------------------------------------------------------------------------
// Groups
// ---------------------------------------------------------------------------

/// Every entry is in the first group that it can join: a member other than the
/// first has tokens, the category of the first, and reaches the threshold with
/// it; and no member could join an earlier group. Members stand in the order of
/// the list, and so do the firsts of the groups.
pub proof fn an_entry_joins_the_first_group_it_can(
    entries: Seq<EntryView>,
    similarity: Seq<Seq<Single>>,
    threshold: Single,
    n: nat,
)
    requires
        n <= entries.len(),
    ensures
        ({
            let g = groups(entries, similarity, threshold, n);
            &&& forall|k: int, m: int|
                0 <= k < g.len() && 0 < m < g[k].len() ==> {
                    &&& g[k][m - 1] < #[trigger] g[k][m]
                    &&& tokens::tokens(entries[g[k][m]].memory).len() > 0
                    &&& entries[g[k][m]].category == entries[g[k][0]].category
                    &&& similarity[g[k][m]][g[k][0]].reaches(threshold)
                }
            &&& forall|q: int, k: int, m: int|
                0 <= q < k < g.len() && 0 <= m < g[k].len() ==> !({
                    &&& tokens::tokens(entries[#[trigger] g[k][m]].memory).len() > 0
                    &&& entries[g[k][m]].category == entries[(#[trigger] g[q])[0]].category
                    &&& similarity[g[k][m]][g[q][0]].reaches(threshold)
                })
            &&& forall|q: int, k: int|
                0 <= q < k < g.len() ==> (#[trigger] g[q])[0] < (#[trigger] g[k])[0]
        }),
    decreases n,
{
    if n > 0 {
        let last = n - 1;
        an_entry_joins_the_first_group_it_can(entries, similarity, threshold, last as nat);
        lemma_groups_hold_places(entries, similarity, threshold, last as nat);
        let before = groups(entries, similarity, threshold, last as nat);
        let g = groups(entries, similarity, threshold, n);
        lemma_home(entries, similarity, threshold, before, last, 0);
        let h = home(entries, similarity, threshold, before, last, 0);
        assert forall|k: int| 0 <= k < before.len() implies (#[trigger] g[k])[0]
            == before[k][0] by {
            assert(before[k].len() > 0);
        }
        assert forall|k: int, m: int| 0 <= k < g.len() && 0 < m < g[k].len() implies {
            &&& g[k][m - 1] < #[trigger] g[k][m]
            &&& tokens::tokens(entries[g[k][m]].memory).len() > 0
            &&& entries[g[k][m]].category == entries[g[k][0]].category
            &&& similarity[g[k][m]][g[k][0]].reaches(threshold)
        } by {
            if m < before[k].len() {
                assert(before[k][m] == g[k][m]);
                assert(before[k][m - 1] == g[k][m - 1]);
            } else {
                assert(joins(entries, similarity, threshold, last, before[k][0]));
                assert(before[k][m - 1] == g[k][m - 1]);
            }
        }
        assert forall|q: int, k: int, m: int|
            0 <= q < k < g.len() && 0 <= m < g[k].len() implies !({
            &&& tokens::tokens(entries[#[trigger] g[k][m]].memory).len() > 0
            &&& entries[g[k][m]].category == entries[(#[trigger] g[q])[0]].category
            &&& similarity[g[k][m]][g[q][0]].reaches(threshold)
        }) by {
            assert(g[q][0] == before[q][0]);
            if k < before.len() && m < before[k].len() {
                assert(before[k][m] == g[k][m]);
            } else {
                assert(g[k][m] == last);
                assert(!joins(entries, similarity, threshold, last, before[q][0]));
            }
        }
        assert forall|q: int, k: int| 0 <= q < k < g.len() implies (#[trigger] g[q])[0] < (
        #[trigger] g[k])[0] by {
            assert(g[q][0] == before[q][0]);
            if k < before.len() {
                assert(g[k][0] == before[k][0]);
            } else {
                assert(before[q][0] < last);
            }
        }
    }
}

// ---------------------------------------------------------------------------
// Promotion and merging
// ---------------------------------------------------------------------------

/// A promotion only changes places: the members stay the same ones.
pub proof fn a_promotion_only_changes_places(
    c: ClusterView,
    canonical: Single,
    qualities: Seq<Single>,
)
    requires
        qualities.len() == c.duplicates.len(),
    ensures
        ({
            let p = promoted(c, canonical, qualities);
            p.duplicates.push(p.canonical).to_multiset() == c.duplicates.push(
                c.canonical,
            ).to_multiset()
        }),
{
    lemma_best_of(canonical, qualities, qualities.len());
    let p = promoted(c, canonical, qualities);
    broadcast use vstd::seq_lib::group_to_multiset_ensures;
    if let Some(k) = best_of(canonical, qualities, qualities.len()).0 {
        let rest = c.duplicates.remove(k);
        vstd::seq_lib::to_multiset_remove(c.duplicates, k);
        vstd::seq_lib::to_multiset_build(rest, c.canonical);
        vstd::seq_lib::to_multiset_build(rest.push(c.canonical), c.duplicates[k]);
        vstd::seq_lib::to_multiset_build(c.duplicates, c.canonical);
        assert(c.duplicates.contains(c.duplicates[k]));
        assert(p.duplicates.push(p.canonical).to_multiset() =~= c.duplicates.push(
            c.canonical,
        ).to_multiset());
    }
}

/// The canonical member gives way only to a better one, and then to the first
/// of the best: it is better than the canonical one and than every one before
/// it, and none behind it is better.
pub proof fn only_a_better_member_is_promoted(canonical: Single, qualities: Seq<Single>, n: nat)
    requires
        n <= qualities.len(),
        !canonical.is_nan(),
        forall|i: int| 0 <= i < n ==> !(#[trigger] qualities[i]).is_nan(),
    ensures
        match best_of(canonical, qualities, n).0 {
            Some(k) => {
                &&& 0 <= k < n
                &&& canonical.below(qualities[k])
                &&& forall|i: int| 0 <= i < k ==> (#[trigger] qualities[i]).below(qualities[k])
                &&& forall|i: int| k < i < n ==> !qualities[k].below(#[trigger] qualities[i])
            },
            None => forall|i: int| 0 <= i < n ==> !canonical.below(#[trigger] qualities[i]),
        },
    decreases n,
{
    if n > 0 {
        only_a_better_member_is_promoted(canonical, qualities, (n - 1) as nat);
        lemma_best_of(canonical, qualities, (n - 1) as nat);
    }
}

/// The accesses of all entries of a list.
pub open spec fn accesses_of(list: Seq<EntryView>) -> nat
    decreases list.len(),
{
    if list.len() == 0 {
        0
    } else {
        list[0].access_count as nat + accesses_of(list.skip(1))
    }
}

/// Whether an entry of the list is validated.
pub open spec fn any_validated(list: Seq<EntryView>) -> bool {
    exists|i: int| 0 <= i < list.len() && (#[trigger] list[i]).validated
}

/// What a merge takes from the members: the accesses of all of them, as far as
/// a count can hold them; the earliest creation; the latest access; a
/// validation where any has one; the tags of all of them, each once beyond the
/// canonical ones, which stay in front; and the decay stamp of the canonical
/// one, or its own creation.
pub proof fn a_merge_draws_on_every_member(c: ClusterView, relevance: Single)
    ensures
        ({
            let m = merged(c, relevance);
            let all = seq![c.canonical] + c.duplicates;
            &&& m.access_count == if accesses_of(all) <= usize::MAX {
                accesses_of(all)
            } else {
                usize::MAX as nat
            }
            &&& forall|i: int| 0 <= i < all.len() ==> m.created_at <= (#[trigger] all[i]).created_at
            &&& exists|i: int| 0 <= i < all.len() && (#[trigger] all[i]).created_at == m.created_at
            &&& forall|i: int|
                0 <= i < all.len() ==> ((#[trigger] all[i]).last_accessed matches Some(t)
                    ==> m.last_accessed is Some && m.last_accessed->0 >= t)
            &&& exists|i: int|
                0 <= i < all.len() && (#[trigger] all[i]).last_accessed == m.last_accessed
            &&& m.validated == any_validated(all)
            &&& m.last_decayed == Some(
                match c.canonical.last_decayed {
                    Some(t) => t,
                    None => c.canonical.created_at,
                },
            )
            &&& m.tags.len() >= c.canonical.tags.len()
            &&& m.tags.take(c.canonical.tags.len() as int) == c.canonical.tags
            &&& forall|i: int, j: int|
                0 <= i < j < m.tags.len() && j >= c.canonical.tags.len() ==> #[trigger] m.tags[i]
                    != #[trigger] m.tags[j]
            &&& forall|t: Seq<char>| #[trigger]
                m.tags.contains(t) ==> exists|i: int|
                    0 <= i < all.len() && (#[trigger] all[i]).tags.contains(t)
        }),
{
    let start = EntryView {
        relevance,
        last_decayed: Some(
            match c.canonical.last_decayed {
                Some(t) => t,
                None => c.canonical.created_at,
            },
        ),
        ..c.canonical
    };
    let all = seq![c.canonical] + c.duplicates;
    let from = seq![start] + c.duplicates;
    lemma_absorbs(start, c.duplicates, c.duplicates.len());
    let m = merged(c, relevance);
    assert(c.duplicates.take(c.duplicates.len() as int) =~= c.duplicates);
    assert(accesses_of(all) == accesses_of(from)) by {
        assert(all.skip(1) =~= c.duplicates);
        assert(from.skip(1) =~= c.duplicates);
    }
    assert forall|i: int| 0 <= i < all.len() implies m.created_at <= (
    #[trigger] all[i]).created_at by {
        assert(m.created_at <= from[i].created_at);
    }
    let i = choose|i: int| 0 <= i < from.len() && (#[trigger] from[i]).created_at == m.created_at;
    assert(all[i].created_at == m.created_at);
    assert forall|i: int| 0 <= i < all.len() implies ((#[trigger] all[i]).last_accessed matches Some(
        t,
    ) ==> m.last_accessed is Some && m.last_accessed->0 >= t) by {
        assert(from[i].last_accessed == all[i].last_accessed);
    }
    let i = choose|i: int|
        0 <= i < from.len() && (#[trigger] from[i]).last_accessed == m.last_accessed;
    assert(all[i].last_accessed == m.last_accessed);
    assert(any_validated(all) == any_validated(from)) by {
        if any_validated(all) {
            let i = choose|i: int| 0 <= i < all.len() && (#[trigger] all[i]).validated;
            assert(from[i].validated);
        }
        if any_validated(from) {
            let i = choose|i: int| 0 <= i < from.len() && (#[trigger] from[i]).validated;
            assert(all[i].validated);
        }
    }
    assert forall|t: Seq<char>| #[trigger] m.tags.contains(t) implies exists|i: int|
        0 <= i < all.len() && (#[trigger] all[i]).tags.contains(t) by {
        let i = choose|i: int| 0 <= i < from.len() && (#[trigger] from[i]).tags.contains(t);
        assert(all[i].tags.contains(t));
    }
}

proof fn lemma_accesses_push(list: Seq<EntryView>, e: EntryView)
    ensures
        accesses_of(list.push(e)) == accesses_of(list) + e.access_count,
    decreases list.len(),
{
    let longer = list.push(e);
    if list.len() == 0 {
        assert(longer.skip(1) =~= Seq::<EntryView>::empty());
        assert(accesses_of(longer.skip(1)) == 0);
    } else {
        assert(longer.skip(1) =~= list.skip(1).push(e));
        lemma_accesses_push(list.skip(1), e);
    }
}

proof fn lemma_joined_tags(have: Seq<Seq<char>>, more: Seq<Seq<char>>, n: nat)
    requires
        n <= more.len(),
    ensures
        ({
            let out = tags_joined(have, more, n);
            &&& out.len() >= have.len()
            &&& out.take(have.len() as int) == have
            &&& forall|i: int, j: int|
                0 <= i < j < out.len() && j >= have.len() ==> #[trigger] out[i] != #[trigger] out[j]
            &&& forall|t: Seq<char>| #[trigger]
                out.contains(t) ==> have.contains(t) || more.contains(t)
        }),
    decreases n,
{
    if n == 0 {
        assert(have.take(have.len() as int) =~= have);
    } else {
        lemma_joined_tags(have, more, (n - 1) as nat);
        let before = tags_joined(have, more, (n - 1) as nat);
        let out = tags_joined(have, more, n);
        if !before.contains(more[n - 1]) {
            assert(out.take(have.len() as int) =~= before.take(have.len() as int));
            assert forall|i: int, j: int|
                0 <= i < j < out.len() && j >= have.len() implies #[trigger] out[i]
                != #[trigger] out[j] by {
                if j < before.len() {
                    assert(before[i] != before[j]);
                } else {
                    assert(before.contains(before[i]));
                }
            }
            assert forall|t: Seq<char>| #[trigger] out.contains(t) implies have.contains(t)
                || more.contains(t) by {
                let i = choose|i: int| 0 <= i < out.len() && out[i] == t;
                if i < before.len() {
                    assert(before.contains(before[i]));
                } else {
                    assert(more.contains(more[n - 1]));
                }
            }
        }
    }
}

proof fn lemma_absorbs(e: EntryView, duplicates: Seq<EntryView>, n: nat)
    requires
        n <= duplicates.len(),
    ensures
        ({
            let r = absorbed_all(e, duplicates, n);
            let all = seq![e] + duplicates.take(n as int);
            &&& r.access_count == if accesses_of(all) <= usize::MAX {
                accesses_of(all)
            } else {
                usize::MAX as nat
            }
            &&& forall|i: int| 0 <= i < all.len() ==> r.created_at <= (#[trigger] all[i]).created_at
            &&& exists|i: int| 0 <= i < all.len() && (#[trigger] all[i]).created_at == r.created_at
            &&& forall|i: int|
                0 <= i < all.len() ==> ((#[trigger] all[i]).last_accessed matches Some(t)
                    ==> r.last_accessed is Some && r.last_accessed->0 >= t)
            &&& exists|i: int|
                0 <= i < all.len() && (#[trigger] all[i]).last_accessed == r.last_accessed
            &&& r.validated == any_validated(all)
            &&& r.last_decayed == e.last_decayed
            &&& r.tags.len() >= e.tags.len()
            &&& r.tags.take(e.tags.len() as int) == e.tags
            &&& forall|i: int, j: int|
                0 <= i < j < r.tags.len() && j >= e.tags.len() ==> #[trigger] r.tags[i]
                    != #[trigger] r.tags[j]
            &&& forall|t: Seq<char>| #[trigger]
                r.tags.contains(t) ==> exists|i: int|
                    0 <= i < all.len() && (#[trigger] all[i]).tags.contains(t)
        }),
    decreases n,
{
    let r = absorbed_all(e, duplicates, n);
    let all = seq![e] + duplicates.take(n as int);
    if n == 0 {
        assert(all =~= seq![e]);
        assert(all.skip(1) =~= Seq::<EntryView>::empty());
        assert(accesses_of(all.skip(1)) == 0);
        assert(all[0] == e);
        assert(r.tags.take(e.tags.len() as int) =~= e.tags);
    } else {
        lemma_absorbs(e, duplicates, (n - 1) as nat);
        let before = absorbed_all(e, duplicates, (n - 1) as nat);
        let fewer = seq![e] + duplicates.take(n - 1);
        let d = duplicates[n - 1];
        assert(all =~= fewer.push(d));
        lemma_accesses_push(fewer, d);
        lemma_joined_tags(before.tags, d.tags, d.tags.len());
        assert forall|i: int| 0 <= i < all.len() implies r.created_at <= (
        #[trigger] all[i]).created_at by {
            if i < fewer.len() {
                assert(fewer[i] == all[i]);
            }
        }
        let o = choose|o: int|
            0 <= o < fewer.len() && (#[trigger] fewer[o]).created_at == before.created_at;
        assert(all[o] == fewer[o]);
        assert(all[fewer.len() as int] == d);
        assert(exists|i: int| 0 <= i < all.len() && (#[trigger] all[i]).created_at
            == r.created_at) by {
            if before.created_at <= d.created_at {
                assert(all[o].created_at == r.created_at);
            } else {
                assert(all[fewer.len() as int].created_at == r.created_at);
            }
        }
        assert forall|i: int| 0 <= i < all.len() implies ((
        #[trigger] all[i]).last_accessed matches Some(t) ==> r.last_accessed is Some
            && r.last_accessed->0 >= t) by {
            if i < fewer.len() {
                assert(fewer[i] == all[i]);
            }
        }
        let a = choose|a: int|
            0 <= a < fewer.len() && (#[trigger] fewer[a]).last_accessed == before.last_accessed;
        assert(all[a] == fewer[a]);
        assert(exists|i: int| 0 <= i < all.len() && (#[trigger] all[i]).last_accessed
            == r.last_accessed) by {
            if r.last_accessed == before.last_accessed {
                assert(all[a].last_accessed == r.last_accessed);
            } else {
                assert(all[fewer.len() as int].last_accessed == r.last_accessed);
            }
        }
        assert(any_validated(all) == (any_validated(fewer) || d.validated)) by {
            if any_validated(fewer) {
                let i = choose|i: int| 0 <= i < fewer.len() && (#[trigger] fewer[i]).validated;
                assert(all[i].validated);
            }
            if any_validated(all) {
                let i = choose|i: int| 0 <= i < all.len() && (#[trigger] all[i]).validated;
                if i < fewer.len() {
                    assert(fewer[i].validated);
                }
            }
        }
        assert(r.tags.take(e.tags.len() as int) =~= e.tags) by {
            assert forall|i: int| 0 <= i < e.tags.len() implies r.tags[i] == e.tags[i] by {
                assert(r.tags.take(before.tags.len() as int)[i] == before.tags[i]);
                assert(before.tags.take(e.tags.len() as int)[i] == e.tags[i]);
            }
        }
        assert forall|i: int, j: int|
            0 <= i < j < r.tags.len() && j >= e.tags.len() implies #[trigger] r.tags[i]
            != #[trigger] r.tags[j] by {
            if j < before.tags.len() {
                assert(r.tags.take(before.tags.len() as int)[i] == before.tags[i]);
                assert(r.tags.take(before.tags.len() as int)[j] == before.tags[j]);
                assert(before.tags[i] != before.tags[j]);
            }
        }
        assert forall|t: Seq<char>| #[trigger] r.tags.contains(t) implies exists|i: int|
            0 <= i < all.len() && (#[trigger] all[i]).tags.contains(t) by {
            if before.tags.contains(t) {
                let i = choose|i: int| 0 <= i < fewer.len() && (#[trigger] fewer[i]).tags.contains(t);
                assert(all[i].tags.contains(t));
            } else {
                assert(all[fewer.len() as int].tags.contains(t));
            }
        }
    }
}

/// The relevance of a merge is that of the canonical member, raised by the
/// host's formula and clamped once for each duplicate.
pub proof fn each_duplicate_raises_once<A: RelevanceArithmetic>(
    arithmetic: A,
    c: ClusterView,
    more: EntryView,
    to: Single,
)
    ensures
        c.duplicates.len() == 0 ==> (is_corroborated(arithmetic, c, to) <==> to
            == c.canonical.relevance),
        is_corroborated(
            arithmetic,
            ClusterView { duplicates: c.duplicates.push(more), ..c },
            to,
        ) <==> exists|before: Single, raw: Single|
            {
                &&& is_corroborated(arithmetic, c, before)
                &&& #[trigger] call_ensures(A::raised, (&arithmetic, before), raw)
                &&& to == raw.clamped()
            },
{
    let longer = ClusterView { duplicates: c.duplicates.push(more), ..c };
    let n = c.duplicates.len();
    assert(longer.duplicates.len() == n + 1);
    if is_corroborated(arithmetic, longer, to) {
        let (before, raw) = choose|before: Single, raw: Single|
            {
                &&& is_raised(arithmetic, c.canonical.relevance, n, before)
                &&& #[trigger] call_ensures(A::raised, (&arithmetic, before), raw)
                &&& to == raw.clamped()
            };
        assert(is_corroborated(arithmetic, c, before));
        assert(call_ensures(A::raised, (&arithmetic, before), raw));
    }
    if exists|before: Single, raw: Single|
        {
            &&& is_corroborated(arithmetic, c, before)
            &&& #[trigger] call_ensures(A::raised, (&arithmetic, before), raw)
            &&& to == raw.clamped()
        } {
        let (before, raw) = choose|before: Single, raw: Single|
            {
                &&& is_corroborated(arithmetic, c, before)
                &&& #[trigger] call_ensures(A::raised, (&arithmetic, before), raw)
                &&& to == raw.clamped()
            };
        assert(is_raised(arithmetic, c.canonical.relevance, n, before));
        assert(call_ensures(A::raised, (&arithmetic, before), raw));
        assert(is_raised(arithmetic, c.canonical.relevance, n + 1, to));
    }
}

// ---------------------------------------------------------------------------
// Picking and pruning
// ---------------------------------------------------------------------------

/// What is picked is what stands at the picked places, in order: the result
/// names them.
pub proof fn the_picked_keep_their_order<T>(list: Seq<T>, pick: Seq<bool>) -> (places: Seq<int>)
    ensures
        selection::selects(places, list.len(), |i: int| pick[i]),
        picked(list, pick) == places.map_values(|i: int| list[i]),
    decreases list.len(),
{
    let rule = |i: int| pick[i];
    if list.len() == 0 {
        selection::lemma_none(rule);
        let none = Seq::<int>::empty();
        assert(picked(list, pick) =~= none.map_values(|i: int| list[i]));
        none
    } else {
        let less = list.drop_last();
        let before = the_picked_keep_their_order(less, pick);
        selection::lemma_next(before, less.len(), rule);
        let places = if rule(less.len() as int) {
            before.push(less.len() as int)
        } else {
            before
        };
        assert(picked(list, pick) =~= places.map_values(|i: int| list[i]));
        places
    }
}

/// An entry takes part in fading and merging where its relevance lies in the
/// unit interval. The others lose their relevance, and nothing else.
pub proof fn entries_out_of_range_lose_their_relevance(entries: Seq<EntryView>) -> (places: Seq<
    int,
>)
    ensures
        selection::selects(
            places,
            entries.len(),
            |i: int|
                !(entries[i].relevance.bits <= 0x3f80_0000 || entries[i].relevance.bits
                    == 0x8000_0000),
        ),
        degraded(entries) == places.map_values(
            |i: int| EntryView { relevance: Single { bits: 0 }, ..entries[i] },
        ),
        forall|i: int|
            0 <= i < entries.len() ==> #[trigger] health(entries)[i] == (entries[i].relevance.bits
                <= 0x3f80_0000 || entries[i].relevance.bits == 0x8000_0000),
{
    let out = others(health(entries));
    let places = the_picked_keep_their_order(entries, out);
    let rule = |i: int| out[i];
    let wanted = |i: int|
        !(entries[i].relevance.bits <= 0x3f80_0000 || entries[i].relevance.bits == 0x8000_0000);
    assert forall|i: int| 0 <= i < entries.len() implies #[trigger] rule(i) == wanted(i) by {
        assert(health(entries)[i] == entries[i].relevance.in_unit());
    }
    assert forall|j: int| 0 <= j < places.len() implies 0 <= #[trigger] places[j] < entries.len()
        && wanted(places[j]) by {
        assert(rule(places[j]));
    }
    assert forall|p: int| 0 <= p < entries.len() && #[trigger] wanted(p) implies places.contains(
        p,
    ) by {
        assert(rule(p));
    }
    assert(degraded(entries) =~= places.map_values(
        |i: int| EntryView { relevance: Single { bits: 0 }, ..entries[i] },
    ));
    places
}

/// A step that is switched off changes nothing, and one that is switched on is
/// taken for every entry: each healthy one fades, and each group becomes one.
pub proof fn steps_are_taken_as_configured(
    entries: Seq<EntryView>,
    config: ConsolidationConfig,
    now: i128,
    f: PassFigures,
)
    ensures
        !config.decay ==> after_decay(entries, config, now, f) == healthy(entries),
        config.decay ==> after_decay(entries, config, now, f).len() == healthy(entries).len()
            && forall|i: int|
            0 <= i < healthy(entries).len() ==> #[trigger] after_decay(entries, config, now, f)[i]
                == decayed(healthy(entries)[i], now, f.faded[i]),
        !config.merge ==> after_merge(entries, config, now, f) == after_decay(
            entries,
            config,
            now,
            f,
        ),
        config.merge ==> after_merge(entries, config, now, f).len() == groups(
            after_decay(entries, config, now, f),
            f.similarity,
            sound_threshold(config.merge_threshold),
            healthy(entries).len(),
        ).len(),
        pool(entries, config, now, f).len() == after_merge(entries, config, now, f).len()
            + degraded(entries).len(),
{
    assert(after_decay(entries, config, now, f).len() == healthy(entries).len());
}

/// What survives a pass is exactly what is looked at for pruning and is below
/// the floor neither by its relevance nor by its quality, in order: the result
/// names the places of those.
pub proof fn what_reaches_the_floor_stays(
    entries: Seq<EntryView>,
    config: ConsolidationConfig,
    now: i128,
    f: PassFigures,
    left: Seq<EntryView>,
    stats: ConsolidationStats,
) -> (places: Seq<int>)
    requires
        is_pass(entries, config, now, f, left, stats),
    ensures
        selection::selects(
            places,
            pool(entries, config, now, f).len(),
            |i: int|
                !pool(entries, config, now, f)[i].relevance.below(config.prune_floor)
                    && !f.last_qualities[i].below(config.prune_floor),
        ),
        left == places.map_values(|i: int| pool(entries, config, now, f)[i]),
{
    let list = pool(entries, config, now, f);
    let kept = keeps(list, f.last_qualities, config.prune_floor);
    let places = the_picked_keep_their_order(list, kept);
    let rule = |i: int| kept[i];
    let wanted = |i: int|
        !pool(entries, config, now, f)[i].relevance.below(config.prune_floor)
            && !f.last_qualities[i].below(config.prune_floor);
    assert forall|i: int| 0 <= i < list.len() implies #[trigger] rule(i) == wanted(i) by {}
    assert forall|j: int| 0 <= j < places.len() implies 0 <= #[trigger] places[j] < list.len()
        && wanted(places[j]) by {
        assert(rule(places[j]));
    }
    assert forall|p: int| 0 <= p < list.len() && #[trigger] wanted(p) implies places.contains(
        p,
    ) by {
        assert(rule(p));
    }
    places
}

/// A pass reports how many entries it began with, how many it left, how many of
/// those that it looked at for pruning it did not leave, and how many healthy
/// ones were merged away.
pub proof fn a_pass_reports_its_own_counts(
    entries: Seq<EntryView>,
    config: ConsolidationConfig,
    now: i128,
    f: PassFigures,
    left: Seq<EntryView>,
    stats: ConsolidationStats,
)
    requires
        is_pass(entries, config, now, f, left, stats),
    ensures
        stats.entries_before == entries.len(),
        stats.entries_after == left.len(),
        stats.pruned == pool(entries, config, now, f).len() - left.len(),
        stats.merged == healthy(entries).len() - after_merge(entries, config, now, f).len(),
{
    let list = pool(entries, config, now, f);
    picked_and_others_add_up(list, keeps(list, f.last_qualities, config.prune_floor));
    clusters_account_for_every_entry(
        after_decay(entries, config, now, f),
        f.similarity,
        sound_threshold(config.merge_threshold),
    );
    assert(pass_clusters(entries, config, now, f).len() <= healthy(entries).len());
}

/// A threshold above zero and up to one is used as it is, any other gives way
/// to the default.
pub proof fn a_sound_threshold_is_used(threshold: Single)
    ensures
        0 < threshold.bits <= 0x3f80_0000 ==> sound_threshold(threshold) == threshold,
        threshold.bits == 0 || threshold.bits > 0x3f80_0000 ==> sound_threshold(threshold).bits
            == 0x3f19_999a,
{
}

/// A member that is promoted leads its cluster. The others keep their order,
/// and the one that led goes behind them. Where none is better than the
/// canonical member, it leads on.
pub proof fn the_promoted_member_leads(c: ClusterView, canonical: Single, qualities: Seq<Single>)
    requires
        qualities.len() == c.duplicates.len(),
        !canonical.is_nan(),
        forall|i: int| 0 <= i < qualities.len() ==> !(#[trigger] qualities[i]).is_nan(),
    ensures
        forall|k: int|
            0 <= k < qualities.len() && canonical.below(#[trigger] qualities[k]) && (forall|i: int|
                0 <= i < k ==> (#[trigger] qualities[i]).below(qualities[k])) && (forall|i: int|
                k < i < qualities.len() ==> !qualities[k].below(#[trigger] qualities[i]))
                ==> promoted(c, canonical, qualities) == (ClusterView {
                canonical: c.duplicates[k],
                duplicates: c.duplicates.take(k) + c.duplicates.skip(k + 1) + seq![c.canonical],
            }),
        (forall|i: int| 0 <= i < qualities.len() ==> !canonical.below(#[trigger] qualities[i]))
            ==> promoted(c, canonical, qualities) == c,
{
    only_a_better_member_is_promoted(canonical, qualities, qualities.len());
    match best_of(canonical, qualities, qualities.len()).0 {
        Some(b) => {
            assert(c.duplicates.remove(b).push(c.canonical) =~= c.duplicates.take(b)
                + c.duplicates.skip(b + 1) + seq![c.canonical]);
            assert forall|k: int|
                0 <= k < qualities.len() && canonical.below(#[trigger] qualities[k]) && (forall|
                    i: int,
                |
                    0 <= i < k ==> (#[trigger] qualities[i]).below(qualities[k])) && (forall|
                    i: int,
                |
                    k < i < qualities.len() ==> !qualities[k].below(
                        #[trigger] qualities[i],
                    )) implies k == b by {
                if k < b {
                    assert(qualities[k].below(qualities[b]));
                } else if b < k {
                    assert(qualities[b].below(qualities[k]));
                }
            }
        },
        None => {},
    }
}

/// Where a pass merges, the k-th entry that comes of it is the merge of the
/// k-th group: of its members as they are after fading, the best of them in
/// front, with the relevance that it was raised to.
pub proof fn each_group_becomes_one_entry(
    entries: Seq<EntryView>,
    config: ConsolidationConfig,
    now: i128,
    f: PassFigures,
    k: int,
)
    requires
        config.merge,
        0 <= k < groups(
            after_decay(entries, config, now, f),
            f.similarity,
            sound_threshold(config.merge_threshold),
            healthy(entries).len(),
        ).len(),
    ensures
        ({
            let faded = after_decay(entries, config, now, f);
            let group = groups(
                faded,
                f.similarity,
                sound_threshold(config.merge_threshold),
                healthy(entries).len(),
            )[k];
            let cluster = ClusterView {
                canonical: faded[group[0]],
                duplicates: Seq::new((group.len() - 1) as nat, |m: int| faded[group[m + 1]]),
            };
            after_merge(entries, config, now, f)[k] == merged(
                promoted(cluster, f.qualities[k][0], f.qualities[k].skip(1)),
                f.raised[k],
            )
        }),
{
    let faded = after_decay(entries, config, now, f);
    let g = groups(
        faded,
        f.similarity,
        sound_threshold(config.merge_threshold),
        healthy(entries).len(),
    );
    let group = g[k];
    assert(faded.len() == healthy(entries).len());
    lemma_groups_hold_places(
        faded,
        f.similarity,
        sound_threshold(config.merge_threshold),
        healthy(entries).len(),
    );
    assert(group.len() > 0);
    assert(cluster_of(faded, group).duplicates =~= Seq::new(
        (group.len() - 1) as nat,
        |m: int| faded[group[m + 1]],
    ));
}

/// Every figure of a run is what the host gives for the entry that it is used
/// for: each healthy entry fades by the configured half-life, each pair of
/// texts is compared as it stands, each member of a group and each entry that
/// is looked at for pruning is rated at `now`, and each merge is raised from the
/// relevance of the member that leads it.
pub proof fn every_figure_is_the_host_s<A: RelevanceArithmetic>(
    arithmetic: A,
    entries: Seq<EntryView>,
    config: ConsolidationConfig,
    now: i128,
    f: PassFigures,
    left: Seq<EntryView>,
    stats: ConsolidationStats,
    i: int,
    k: int,
)
    requires
        is_run(arithmetic, entries, config, now, f, left, stats),
    ensures
        is_pass(entries, config, now, f, left, stats),
        config.decay && 0 <= i < healthy(entries).len() ==> is_faded(
            arithmetic,
            healthy(entries)[i],
            now,
            config.half_life,
            f.faded[i],
        ),
        config.merge && 0 <= k < i < healthy(entries).len() ==> is_jaccard(
            arithmetic,
            after_decay(entries, config, now, f)[i].memory,
            after_decay(entries, config, now, f)[k].memory,
            f.similarity[i][k],
        ),
        config.merge && 0 <= k < pass_clusters(entries, config, now, f).len() ==> {
            let c = pass_clusters(entries, config, now, f)[k];
            &&& call_ensures(
                A::quality,
                (&arithmetic, &quality_parts_of(c.canonical, now)),
                f.qualities[k][0],
            )
            &&& 0 <= i < c.duplicates.len() ==> call_ensures(
                A::quality,
                (&arithmetic, &quality_parts_of(c.duplicates[i], now)),
                f.qualities[k][i + 1],
            )
            &&& is_corroborated(
                arithmetic,
                promoted(c, f.qualities[k][0], f.qualities[k].skip(1)),
                f.raised[k],
            )
        },
        0 <= i < pool(entries, config, now, f).len() ==> call_ensures(
            A::quality,
            (&arithmetic, &quality_parts_of(pool(entries, config, now, f)[i], now)),
            f.last_qualities[i],
        ),
{
    if config.decay && 0 <= i < healthy(entries).len() {
        let faded = f.faded[i];
        assert(is_faded(arithmetic, healthy(entries)[i], now, config.half_life, faded));
    }
    if config.merge && 0 <= k < i < healthy(entries).len() {
        let d = after_decay(entries, config, now, f);
        assert(d.len() == healthy(entries).len());
        let s = f.similarity[i][k];
        assert(is_jaccard(arithmetic, d[i].memory, d[k].memory, s));
    }
    if config.merge && 0 <= k < pass_clusters(entries, config, now, f).len() {
        let q = f.qualities[k];
        let r = f.raised[k];
        let c = pass_clusters(entries, config, now, f)[k];
        if 0 <= i < c.duplicates.len() {
            let d = c.duplicates[i];
        }
    }
    if 0 <= i < pool(entries, config, now, f).len() {
        let q = f.last_qualities[i];
    }
}

/// The bytes of a list are those of its texts.
pub proof fn every_text_counts_its_bytes(list: Seq<EntryView>, e: EntryView)
    ensures
        text_bytes(list.push(e)) == text_bytes(list) + text::byte_length(e.memory),
        text_bytes(Seq::empty()) == 0,
{
    assert(list.push(e).drop_last() =~= list);
}

/// Two texts without tokens are the same, and else their similarity is the
/// host's ratio, narrowed as every ratio is, of the tokens that both have to
/// those that either has.
pub proof fn texts_without_tokens_are_alike<A: RelevanceArithmetic>(
    arithmetic: A,
    a: Seq<char>,
    b: Seq<char>,
    similarity: Single,
)
    requires
        tokens::tokens(a).union(tokens::tokens(b)).len() <= usize::MAX,
    ensures
        tokens::tokens(a).len() == 0 && tokens::tokens(b).len() == 0 ==> (is_jaccard(
            arithmetic,
            a,
            b,
            similarity,
        ) <==> similarity.bits == 0x3f80_0000),
        tokens::tokens(a).len() > 0 || tokens::tokens(b).len() > 0 ==> ({
            let shared = tokens::tokens(a).intersect(tokens::tokens(b)).len() as int;
            let all = tokens::tokens(a).union(tokens::tokens(b)).len() as int;
            is_jaccard(arithmetic, a, b, similarity) <==> call_ensures(
                A::ratio,
                (
                    &arithmetic,
                    numeric::ratio_sides(shared, all).0 as u16,
                    numeric::ratio_sides(shared, all).1 as u16,
                ),
                similarity,
            )
        }),
{
}

/// What is looked at for pruning are the merged entries and, behind them, those
/// that lost their relevance.
pub proof fn degraded_entries_come_last(
    entries: Seq<EntryView>,
    config: ConsolidationConfig,
    now: i128,
    f: PassFigures,
)
    ensures
        ({
            let all = pool(entries, config, now, f);
            let first = after_merge(entries, config, now, f);
            &&& all.take(first.len() as int) == first
            &&& all.skip(first.len() as int) == degraded(entries)
        }),
{
    let all = pool(entries, config, now, f);
    let first = after_merge(entries, config, now, f);
    assert(all.take(first.len() as int) =~= first);
    assert(all.skip(first.len() as int) =~= degraded(entries));
}

/// Facts and strategies fade at half the neutral rate, insights and error
/// patterns at three quarters of it, runs at the rate itself, and working
/// memory at twice the rate.
pub proof fn each_category_fades_at_its_own_rate(category: MemoryCategory, weight: Single)
    requires
        call_ensures(category_decay_weight, (category,), weight),
    ensures
        weight.bits == 0x3f00_0000 <==> category == MemoryCategory::Fact || category
            == MemoryCategory::Strategy,
        weight.bits == 0x3f40_0000 <==> category == MemoryCategory::Insight || category
            == MemoryCategory::ErrorPattern,
        weight.bits == 0x3f80_0000 <==> category == MemoryCategory::Trajectory,
        weight.bits == 0x4000_0000 <==> category == MemoryCategory::Working,
{
}

} // verus!
