//! Decay, merging and pruning.

use std::time::Duration;

use loopctl::memory::consolidate::{
    category_decay_weight, cluster_duplicates, consolidate_entries, decay_age, decay_relevance,
    merge_cluster, promote_highest_quality, prune_entries, quality_parts, quality_score,
    split_by_health, ConsolidationConfig, MemoryCluster, QualityParts, RelevanceArithmetic,
};
use loopctl::memory::entry::{ConsolidationStats, MemoryCategory, MemoryEntry};
use loopctl::single::Single;

/// The formulas in single precision.
struct Host;

fn single(x: f32) -> Single {
    Single::from_bits(x.to_bits())
}

fn number(x: Single) -> f32 {
    f32::from_bits(x.bits)
}

fn seconds(nanos: u128) -> f32 {
    let whole = u64::try_from(nanos / 1_000_000_000).unwrap_or(u64::MAX);
    Duration::new(whole, (nanos % 1_000_000_000) as u32).as_secs_f32()
}

impl RelevanceArithmetic for Host {
    fn ratio(&self, numerator: u16, denominator: u16) -> Single {
        single(f32::from(numerator) / f32::from(denominator))
    }

    fn raised(&self, relevance: Single) -> Single {
        single(number(relevance) + 0.1)
    }

    fn faded(
        &self,
        relevance: Single,
        age: u128,
        half_life: u128,
        category: MemoryCategory,
    ) -> Single {
        let half_lives =
            seconds(age) / seconds(half_life).max(1.0) * number(category_decay_weight(category));
        single(number(relevance) * 0.5_f32.powf(half_lives.max(0.0)))
    }

    fn quality(&self, parts: &QualityParts) -> Single {
        let access =
            ((1.0 + f32::from(parts.access_count)).ln() / (1.0_f32 + 50.0).ln()).clamp(0.0, 1.0);
        let recency = parts
            .idle
            .map_or(1.0, |idle| (-seconds(idle) / (60.0 * 60.0 * 24.0 * 30.0)).exp());
        let validated = if parts.validated { 1.0 } else { 0.0 };
        single(number(parts.relevance) * 0.45 + access * 0.30 + recency * 0.15 + validated * 0.10)
    }

    fn rank(&self, base: Single, overlap: Option<(u16, u16)>, tag_match: bool) -> Single {
        let share = overlap.map_or(0.0, |(n, d)| f32::from(n) / f32::from(d));
        let tag = if tag_match { 0.3 } else { 0.0 };
        single(number(base) * 0.5 + share * 0.4 + tag + 0.1)
    }
}

const SECOND: i128 = 1_000_000_000;
const HOUR: i128 = 3_600 * SECOND;
const NOW: i128 = 1_700_000_000 * SECOND;

fn entry(category: MemoryCategory, text: &str) -> MemoryEntry {
    MemoryEntry::new(category, text.to_string(), NOW)
}

fn quality(entry: &MemoryEntry, now: i128) -> f32 {
    number(quality_score(&Host, entry, now))
}

fn decay(entry: &mut MemoryEntry, now: i128, half_life: i128) {
    let faded = match decay_age(entry, now) {
        Some(age) => Host.faded(entry.relevance, age, half_life as u128, entry.category),
        None => entry.relevance,
    };
    decay_relevance(entry, now, faded);
}

fn merge(cluster: MemoryCluster) -> MemoryEntry {
    let mut relevance = cluster.canonical.relevance;
    for _ in 0..cluster.duplicates.len() {
        relevance = Host.raised(relevance).clamp_unit();
    }
    merge_cluster(cluster, relevance)
}

fn relevance_of(entry: &MemoryEntry) -> f32 {
    number(entry.relevance)
}

#[test]
fn quality_score_weights_relevance_access_recency_and_validation() {
    let mut relevance_heavy = entry(MemoryCategory::Insight, "high relevance, never touched");
    relevance_heavy.relevance = single(1.0);
    let mut access_heavy = entry(MemoryCategory::Insight, "low relevance, often retrieved");
    access_heavy.relevance = single(0.2);
    access_heavy.access_count = 50;
    assert!(
        quality(&relevance_heavy, NOW) > quality(&access_heavy, NOW),
        "relevance dominates the composite: {} vs {}",
        quality(&relevance_heavy, NOW),
        quality(&access_heavy, NOW)
    );
    let mut plain = entry(MemoryCategory::Insight, "baseline");
    plain.relevance = single(0.5);
    let mut out_of_range = entry(MemoryCategory::Insight, "deserialized above the range");
    out_of_range.relevance = single(1.5);
    assert!(
        quality(&out_of_range, NOW) <= 1.0,
        "the relevance term is clamped, so an out-of-range value cannot push the \
        composite past its documented ceiling"
    );
    let mut validated = plain.clone();
    validated.validated = true;
    assert!(
        quality(&validated, NOW) > quality(&plain, NOW),
        "validation is a strict bonus"
    );
}

#[test]
fn quality_parts_are_exact() {
    let mut e = entry(MemoryCategory::Fact, "parts");
    e.relevance = single(2.0);
    e.access_count = 70_000;
    e.last_accessed = Some(NOW - 5);
    let parts = quality_parts(&e, NOW);
    assert_eq!(parts.relevance, single(1.0));
    assert_eq!(parts.access_count, u16::MAX);
    assert_eq!(parts.idle, Some(5));
    assert!(!parts.validated);
    assert_eq!(quality_parts(&e, NOW - 6).idle, None);
    e.last_accessed = None;
    assert_eq!(quality_parts(&e, NOW + 7).idle, Some(7));
}

#[test]
fn decay_relevance_halves_per_half_life_and_weights_categories() {
    let half_life = HOUR;
    let mut one_half = entry(MemoryCategory::Trajectory, "aged one half-life");
    one_half.relevance = single(0.8);
    one_half.created_at = NOW - half_life;
    decay(&mut one_half, NOW, half_life);
    assert!(
        (relevance_of(&one_half) - 0.4).abs() < 1e-4,
        "one half-life should halve relevance, got {}",
        relevance_of(&one_half)
    );
    let mut two_halves = entry(MemoryCategory::Trajectory, "aged two half-lives");
    two_halves.relevance = single(0.8);
    two_halves.created_at = NOW - half_life * 2;
    decay(&mut two_halves, NOW, half_life);
    assert!(
        (relevance_of(&two_halves) - 0.2).abs() < 1e-4,
        "two half-lives should quarter relevance, got {}",
        relevance_of(&two_halves)
    );
    let mut fact = entry(MemoryCategory::Fact, "durable");
    fact.relevance = single(0.8);
    fact.created_at = NOW - half_life;
    let mut working = entry(MemoryCategory::Working, "ephemeral");
    working.relevance = single(0.8);
    working.created_at = NOW - half_life;
    decay(&mut fact, NOW, half_life);
    decay(&mut working, NOW, half_life);
    assert!(
        relevance_of(&fact) > relevance_of(&working),
        "facts decay slower than working memory at the same age"
    );
}

#[test]
fn decay_relevance_is_idempotent_across_consolidation_cadences() {
    let start = NOW;
    let half_life = HOUR;
    let total_age = 10 * HOUR;
    let mut single_pass = entry(MemoryCategory::Trajectory, "decayed once");
    single_pass.relevance = single(1.0);
    single_pass.created_at = start;
    decay(&mut single_pass, start + total_age, half_life);
    let mut incremental = entry(MemoryCategory::Trajectory, "decayed in ten passes");
    incremental.relevance = single(1.0);
    incremental.created_at = start;
    for step in 1..=10 {
        decay(&mut incremental, start + step * HOUR, half_life);
    }
    assert!(
        (relevance_of(&single_pass) - relevance_of(&incremental)).abs() < 1e-5,
        "ten hourly passes must equal one pass over the same total age: {} vs {}",
        relevance_of(&single_pass),
        relevance_of(&incremental)
    );
    assert!(
        (relevance_of(&incremental) - 0.5_f32.powf(10.0)).abs() < 1e-5,
        "ten half-lives at neutral weight decay to 2^-10 exactly — no more, no less: {}",
        relevance_of(&incremental)
    );
    let mut durable = entry(MemoryCategory::Fact, "decayed as a durable fact");
    durable.relevance = single(1.0);
    durable.created_at = start;
    for step in 1..=10 {
        decay(&mut durable, start + step * HOUR, half_life);
    }
    assert!(
        relevance_of(&durable) > relevance_of(&incremental),
        "the category weight applies per elapsed time, not per pass — a fact \
        outlives a trajectory at the same age"
    );
}

#[test]
fn decay_relevance_never_redecays_time_across_a_backwards_clock() {
    let start = NOW;
    let half_life = HOUR;
    let mut stepped = entry(MemoryCategory::Trajectory, "passed across a clock step");
    stepped.relevance = single(1.0);
    stepped.created_at = start;
    decay(&mut stepped, start + 3600 * SECOND, half_life);
    let after_first_pass = relevance_of(&stepped);
    decay(&mut stepped, start + 3599 * SECOND, half_life);
    decay(&mut stepped, start + 3600 * SECOND, half_life);
    assert!(
        (relevance_of(&stepped) - after_first_pass).abs() < 1e-6,
        "a pass behind the stamp must neither decay nor rewind it — otherwise the \
        next pass re-decays already-decayed time: {} vs {}",
        relevance_of(&stepped),
        after_first_pass
    );
    assert_eq!(
        stepped.last_decayed,
        Some(start + 3600 * SECOND),
        "the stamp stays at the latest pass, never steps back"
    );
}

#[test]
fn decay_resists_for_recently_accessed_entries() {
    let half_life = HOUR;
    let old = NOW - 24 * HOUR;
    let mut untouched = entry(MemoryCategory::Trajectory, "old and untouched");
    untouched.relevance = single(0.8);
    untouched.created_at = old;
    let mut touched = entry(MemoryCategory::Trajectory, "old but recently retrieved");
    touched.relevance = single(0.8);
    touched.created_at = old;
    touched.last_accessed = Some(NOW);
    decay(&mut untouched, NOW, half_life);
    decay(&mut touched, NOW, half_life);
    assert!(
        relevance_of(&touched) > relevance_of(&untouched),
        "a recent access must shield an entry from decay"
    );
}

#[test]
fn category_weights_are_the_documented_ones() {
    assert_eq!(number(category_decay_weight(MemoryCategory::Fact)), 0.5);
    assert_eq!(number(category_decay_weight(MemoryCategory::Strategy)), 0.5);
    assert_eq!(number(category_decay_weight(MemoryCategory::Insight)), 0.75);
    assert_eq!(number(category_decay_weight(MemoryCategory::ErrorPattern)), 0.75);
    assert_eq!(number(category_decay_weight(MemoryCategory::Trajectory)), 1.0);
    assert_eq!(number(category_decay_weight(MemoryCategory::Working)), 2.0);
}

#[test]
fn cluster_duplicates_threshold_and_category_partition() {
    let near = "run cargo check after multi-file edits before declaring done";
    let first = entry(MemoryCategory::Strategy, near);
    let mut second = entry(MemoryCategory::Strategy, near);
    second.tags.push("alpha".to_string());
    let paraphrase = entry(
        MemoryCategory::Strategy,
        "verify the build once several files have changed",
    );
    let other_category = entry(MemoryCategory::Insight, near);
    let clusters = cluster_duplicates(
        &Host,
        &vec![first, second, paraphrase, other_category],
        single(0.6),
    );
    assert_eq!(
        clusters.len(),
        3,
        "identical wording in another category never joins the strategy pair"
    );
    let clustered = clusters
        .iter()
        .find(|cluster| !cluster.duplicates.is_empty())
        .expect("the identical strategy pair must cluster");
    assert_eq!(
        clustered.duplicates.len(),
        1,
        "the paraphrase stays a singleton, not a duplicate"
    );
    assert_eq!(
        clustered.canonical.category,
        MemoryCategory::Strategy,
        "the cluster is the strategy pair"
    );
}

#[test]
fn merge_cluster_unions_tags_sums_access_and_caps_relevance() {
    let long_ago = NOW - 720 * HOUR;
    let mut canonical = entry(MemoryCategory::Insight, "canonical text");
    canonical.relevance = single(0.9);
    canonical.access_count = 3;
    canonical.tags.push("core".to_string());
    canonical.created_at = NOW;
    let mut first = entry(MemoryCategory::Insight, "canonical text variant");
    first.relevance = single(0.7);
    first.access_count = 2;
    first.tags.push("core".to_string());
    first.tags.push("extra".to_string());
    first.validated = true;
    first.created_at = long_ago;
    let mut second = entry(MemoryCategory::Insight, "canonical text variant two");
    second.relevance = single(0.7);
    second.access_count = 4;
    second.created_at = long_ago;
    let accessed_late = NOW - HOUR;
    second.last_accessed = Some(accessed_late);
    let merged = merge(MemoryCluster {
        canonical,
        duplicates: vec![first, second],
    });
    assert_eq!(
        merged.last_accessed,
        Some(accessed_late),
        "the merge keeps the freshest access stamp"
    );
    assert_eq!(
        merged.tags,
        vec!["core", "extra"],
        "tags union without duplicates"
    );
    assert_eq!(merged.access_count, 9, "access counts sum across the cluster");
    assert!(merged.validated, "any validated member validates the merge");
    assert!(
        (relevance_of(&merged) - 1.0).abs() < f32::EPSILON,
        "corroboration raises relevance but caps at 1.0"
    );
    assert_eq!(
        merged.created_at, long_ago,
        "provenance keeps the earliest creation time"
    );
}

#[test]
fn consolidate_entries_prunes_merges_and_keeps_the_valuable() {
    let stale_age = NOW - 8760 * HOUR;
    let mut stale = entry(MemoryCategory::Working, "stale and hollow");
    stale.relevance = single(0.3);
    stale.created_at = stale_age;
    let mut duplicate_a = entry(
        MemoryCategory::Strategy,
        "run cargo check after multi-file edits before declaring done",
    );
    duplicate_a.relevance = single(0.6);
    let mut duplicate_b = entry(
        MemoryCategory::Strategy,
        "run cargo check after multi-file edits before declaring done",
    );
    duplicate_b.relevance = single(0.6);
    let mut valuable = entry(MemoryCategory::Fact, "durable, accessed, validated");
    valuable.relevance = single(0.8);
    valuable.validated = true;
    valuable.access_count = 40;
    valuable.last_accessed = Some(NOW);
    let mut entries = vec![stale, duplicate_a, duplicate_b, valuable];
    let config = ConsolidationConfig::default();
    let stats = consolidate_entries(&Host, &mut entries, &config, NOW);
    assert_eq!(stats.entries_before, 4, "four entries entered the pass");
    assert_eq!(stats.merged, 1, "the near-duplicate pair folds into one");
    assert_eq!(stats.pruned, 1, "the stale hollow entry ages out");
    assert_eq!(
        stats.entries_after, 2,
        "the merged strategy and the valuable fact survive"
    );
    assert!(
        entries
            .iter()
            .any(|entry| entry.category == MemoryCategory::Strategy),
        "the merged strategy survives"
    );
    assert!(
        entries
            .iter()
            .any(|entry| entry.memory == "durable, accessed, validated"),
        "the valuable fact survives"
    );
}

#[test]
fn garbage_thresholds_degrade_to_conservative_behaviour() {
    let mut alpha = entry(MemoryCategory::Strategy, "run the build before committing");
    alpha.relevance = single(0.9);
    let mut beta = entry(
        MemoryCategory::Strategy,
        "totally different advice about tests",
    );
    beta.relevance = single(0.9);
    let mut keeper = entry(MemoryCategory::Fact, "durable and validated");
    keeper.relevance = single(0.9);
    keeper.validated = true;

    let mut entries = vec![alpha.clone(), beta.clone(), keeper.clone()];
    let mut config = ConsolidationConfig::default();
    config.merge_threshold = single(-1.0);
    let stats = consolidate_entries(&Host, &mut entries, &config, NOW);
    assert_eq!(
        stats.merged, 0,
        "a negative threshold falls back to the default, so distinct same-category \
        texts stay separate"
    );
    assert_eq!(entries.len(), 3, "nothing merged, nothing pruned");

    let mut entries = vec![alpha.clone(), beta.clone(), keeper.clone()];
    let mut config = ConsolidationConfig::default();
    config.merge_threshold = single(0.0);
    let stats = consolidate_entries(&Host, &mut entries, &config, NOW);
    assert_eq!(
        stats.merged, 0,
        "a zero threshold also falls back: disjoint sets score Jaccard 0.0, so \
        keeping it would collapse every same-category entry into one"
    );
    assert_eq!(entries.len(), 3, "nothing merged, nothing pruned");

    let mut entries = vec![alpha.clone(), beta.clone(), keeper.clone()];
    let mut config = ConsolidationConfig::default();
    config.prune_floor = single(0.0);
    let stats = consolidate_entries(&Host, &mut entries, &config, NOW);
    assert_eq!(
        stats.pruned, 0,
        "a zero prune floor is valid, not garbage — nothing sits below it"
    );
    assert_eq!(entries.len(), 3, "a zero floor prunes nothing");

    let mut entries = vec![alpha.clone(), beta, keeper.clone()];
    let mut config = ConsolidationConfig::default();
    config.prune_floor = single(2.0);
    let stats = consolidate_entries(&Host, &mut entries, &config, NOW);
    assert_eq!(
        stats.entries_after,
        entries.len(),
        "stats describe the same store the mutation produced"
    );
    assert_eq!(
        entries.len(),
        3,
        "a floor above 1.0 falls back to the default and must not prune anything"
    );
    assert!(
        entries
            .iter()
            .any(|entry| entry.memory == "durable and validated"),
        "the validated high-relevance entry survives the clamped floor"
    );

    let mut entries = vec![alpha, keeper];
    let mut config = ConsolidationConfig::default();
    config.merge_threshold = single(f32::NAN);
    config.prune_floor = single(f32::NAN);
    let stats = consolidate_entries(&Host, &mut entries, &config, NOW);
    assert_eq!(
        stats.pruned, 0,
        "NaN thresholds fall back to the defaults, and healthy entries are above \
        the default floor"
    );
    assert_eq!(entries.len(), 2, "NaN thresholds behave like the defaults");
}

#[test]
fn a_non_finite_relevance_prunes_instead_of_poisoning_the_pass() {
    let mut healthy = entry(
        MemoryCategory::Strategy,
        "commit only after the build passes",
    );
    healthy.relevance = single(0.9);
    let mut nan = entry(MemoryCategory::Strategy, "poisoned by a NaN relevance");
    nan.relevance = single(f32::NAN);
    let mut infinite = entry(MemoryCategory::Strategy, "poisoned by an infinite one");
    infinite.relevance = single(f32::INFINITY);

    let mut entries = vec![healthy, nan, infinite];
    let stats = consolidate_entries(&Host, &mut entries, &ConsolidationConfig::default(), NOW);
    assert_eq!(
        stats.pruned, 2,
        "a hand-constructed non-finite relevance degrades to zero and prunes, \
        instead of failing every comparison and surviving"
    );
    assert_eq!(entries.len(), 1, "only the healthy entry remains");
    assert!(
        (relevance_of(&entries[0]) - 0.9).abs() < 1e-6,
        "the healthy entry's relevance is untouched by its neighbours' sanitization"
    );
}

#[test]
fn a_zero_half_life_falls_back_to_the_default_instead_of_total_decay() {
    let mut fresh = entry(MemoryCategory::Trajectory, "fresh knowledge");
    fresh.relevance = single(1.0);
    fresh.created_at = NOW - 5 * SECOND;
    let mut entries = vec![fresh];
    let mut config = ConsolidationConfig::default();
    config.half_life = 0;
    consolidate_entries(&Host, &mut entries, &config, NOW);
    assert!(
        relevance_of(&entries[0]) > 0.99,
        "a zero half-life must fall back to the 14-day default, so an entry \
        aged five seconds barely moves — not decay to ~zero: {}",
        relevance_of(&entries[0])
    );
}

#[test]
fn an_out_of_range_relevance_degrades_like_a_non_finite_one() {
    let mut healthy = entry(MemoryCategory::Fact, "in range and durable");
    healthy.relevance = single(0.9);
    healthy.validated = true;
    let mut above = entry(
        MemoryCategory::Strategy,
        "relevance above the documented range",
    );
    above.relevance = single(3.0);
    let mut below = entry(
        MemoryCategory::Working,
        "relevance below the documented range",
    );
    below.relevance = single(-0.5);

    let mut entries = vec![healthy, above, below];
    let stats = consolidate_entries(&Host, &mut entries, &ConsolidationConfig::default(), NOW);
    assert_eq!(
        stats.pruned, 2,
        "a finite but out-of-range relevance degrades to zero and prunes, keeping \
        quality_score inside its documented 0.0..=1.0 composite range"
    );
    assert_eq!(entries.len(), 1, "only the healthy entry remains");
    assert!(
        (relevance_of(&entries[0]) - 0.9).abs() < 1e-6,
        "the healthy entry's relevance is untouched"
    );
}

#[test]
fn a_zero_threshold_falls_back_instead_of_collapsing_categories() {
    let first = entry(MemoryCategory::Strategy, "run the build before committing");
    let second = entry(
        MemoryCategory::Strategy,
        "totally different advice about tests",
    );
    let clusters = cluster_duplicates(&Host, &vec![first, second], single(0.0));
    assert_eq!(
        clusters.len(),
        2,
        "a zero threshold falls back to the default — disjoint same-category \
        entries must stay separate even when a caller bypasses the config path"
    );
}

#[test]
fn tokenless_entries_never_corroborate_each_other() {
    let mut empty_text = entry(MemoryCategory::Insight, "");
    empty_text.relevance = single(0.04);
    let mut emoji_only = entry(MemoryCategory::Insight, "😅 … !");
    emoji_only.relevance = single(0.04);

    let mut entries = vec![empty_text, emoji_only];
    let config = ConsolidationConfig::default();
    let stats = consolidate_entries(&Host, &mut entries, &config, NOW);
    assert_eq!(
        stats.merged, 0,
        "entries sharing zero tokens must not cluster — corroboration manufactured \
        from nothing would lift them over the prune floor"
    );
    assert_eq!(
        stats.pruned, 2,
        "degenerate entries prune on their own weak relevance"
    );
    assert!(entries.is_empty());
}

#[test]
fn degraded_entries_never_corroborate_a_survivor() {
    let mut healthy_entry = entry(MemoryCategory::Insight, "run the build before committing");
    healthy_entry.relevance = single(0.9);
    let mut corrupted = entry(MemoryCategory::Insight, "run the build before committing");
    corrupted.relevance = single(f32::NAN);
    corrupted.validated = true;
    corrupted.access_count = 900_000;
    let mut entries = vec![healthy_entry, corrupted];
    let stats = consolidate_entries(&Host, &mut entries, &ConsolidationConfig::default(), NOW);
    assert_eq!(
        stats.merged, 0,
        "a degraded entry must not corroborate the healthy one — no cluster forms"
    );
    assert_eq!(entries.len(), 1, "the corrupted entry prunes");
    assert!(
        !entries[0].validated && entries[0].access_count == 0,
        "the garbage validated flag and access count die with it"
    );
}

#[test]
fn degraded_entries_do_not_cluster_into_an_unprunable_survivor() {
    let mut first = entry(MemoryCategory::Fact, "identical corrupted text");
    first.relevance = single(f32::INFINITY);
    let mut second = entry(MemoryCategory::Fact, "identical corrupted text");
    second.relevance = single(-2.0);
    let mut entries = vec![first, second];
    consolidate_entries(&Host, &mut entries, &ConsolidationConfig::default(), NOW);
    assert!(
        entries.is_empty(),
        "two degraded near-duplicates must not merge into a corroborated \
        survivor that clears the prune floor"
    );
}

#[test]
fn a_zero_prune_floor_retains_a_degraded_entry_at_zero_relevance() {
    let mut healthy_entry = entry(MemoryCategory::Insight, "cache the build outputs");
    healthy_entry.relevance = single(0.9);
    let mut corrupted = entry(MemoryCategory::Insight, "cache the build outputs");
    corrupted.relevance = single(f32::NAN);
    let mut entries = vec![healthy_entry, corrupted];
    let mut config = ConsolidationConfig::default();
    config.prune_floor = single(0.0);
    let stats = consolidate_entries(&Host, &mut entries, &config, NOW);
    assert_eq!(
        stats.merged, 0,
        "the degraded entry stays out of clustering on the pass that sees it"
    );
    let corrupted = entries
        .iter()
        .find(|entry| relevance_of(entry) == 0.0)
        .expect("the zero floor retains the degraded entry");
    assert_eq!(
        corrupted.memory, "cache the build outputs",
        "retained at degraded relevance, exactly as the floor-0.0 doc promises"
    );
    assert_eq!(entries.len(), 2, "nothing prunes under a zero floor");
}

#[test]
fn consolidate_entries_promotes_the_strongest_member_into_canonical() {
    let mut weak = entry(MemoryCategory::Insight, "run the build before committing");
    weak.relevance = single(0.3);
    weak.created_at = NOW - 24 * 30 * HOUR;
    let mut strong = entry(MemoryCategory::Insight, "run the build before committing");
    strong.relevance = single(0.9);
    strong.validated = true;
    strong.access_count = 20;
    strong.last_accessed = Some(NOW);
    let strong_id = strong.id;
    let mut entries = vec![weak, strong];
    let stats = consolidate_entries(&Host, &mut entries, &ConsolidationConfig::default(), NOW);
    assert_eq!(
        stats.merged, 1,
        "the weak canonical counts as the one merged-away duplicate"
    );
    assert_eq!(entries.len(), 1, "the cluster folds into one survivor");
    assert_eq!(
        entries[0].id, strong_id,
        "promotion swaps the strongest member into the canonical slot — \
        the survivor carries its identity, not the first-seen canonical's"
    );
    assert!(
        entries[0].validated,
        "the promoted member's validated flag survives the merge"
    );
}

#[test]
fn a_merged_survivor_decays_only_the_canonicals_window() {
    let mut canonical = entry(MemoryCategory::Trajectory, "fresh canonical");
    canonical.relevance = single(0.9);
    canonical.created_at = NOW - 24 * HOUR;
    let mut stale = entry(MemoryCategory::Trajectory, "fresh canonical");
    stale.relevance = single(0.1);
    stale.created_at = NOW - 24 * 60 * HOUR;
    stale.last_decayed = Some(NOW - 24 * 29 * HOUR);
    let mut merged = merge(MemoryCluster {
        canonical,
        duplicates: vec![stale],
    });
    assert_eq!(
        merged.created_at,
        NOW - 24 * 60 * HOUR,
        "provenance still adopts the cluster's earliest creation"
    );
    decay(&mut merged, NOW, 336 * HOUR);
    assert!(
        relevance_of(&merged) > 0.9 && relevance_of(&merged) < 1.0,
        "the first post-merge pass decays one day — the canonical's unaccounted \
        window — not the adopted 60-day provenance: {}",
        relevance_of(&merged)
    );
}

#[test]
fn a_nan_relevance_survives_a_merge_visibly_broken() {
    let mut canonical = entry(MemoryCategory::Insight, "poisoned canonical");
    canonical.relevance = single(f32::NAN);
    let duplicate = entry(MemoryCategory::Insight, "poisoned canonical");
    let merged = merge(MemoryCluster {
        canonical,
        duplicates: vec![duplicate],
    });
    assert!(
        relevance_of(&merged).is_nan(),
        "the clamp propagates NaN instead of f32::min's ignore-NaN cementing it \
        at exactly 1.0 — the next sanitizing pass prunes it"
    );
}

#[test]
fn bytes_saved_is_nonzero_when_entries_are_removed() {
    let mut below_floor = entry(MemoryCategory::Working, "drop me");
    below_floor.relevance = single(0.01);
    let mut keeper = entry(MemoryCategory::Fact, "keep me around");
    keeper.relevance = single(0.9);
    keeper.validated = true;
    let mut entries = vec![below_floor, keeper];
    let stats = consolidate_entries(&Host, &mut entries, &ConsolidationConfig::default(), NOW);
    assert_eq!(stats.pruned, 1, "the below-floor entry is dropped");
    assert!(
        stats.bytes_saved > 0,
        "pruning reclaims the entry's text bytes"
    );
}

#[test]
fn every_byte_of_a_pass_is_accounted_for_and_no_survivor_is_doubled() {
    let mut entries: Vec<MemoryEntry> = Vec::new();
    for i in 0..12 {
        let mut e = entry(MemoryCategory::Fact, &format!("l\u{e9}sson {} about builds", i % 4));
        e.relevance = single(if i % 3 == 0 { 0.02 } else { 0.5 });
        entries.push(e);
    }
    let mut poisoned = entry(MemoryCategory::Fact, "out of range");
    poisoned.relevance = single(f32::NAN);
    entries.push(poisoned);
    let bytes = |list: &[MemoryEntry]| list.iter().map(|e| e.memory.len()).sum::<usize>();
    let before = bytes(&entries);
    let ids: Vec<u128> = entries.iter().map(|e| e.id).collect();
    let stats = consolidate_entries(&Host, &mut entries, &ConsolidationConfig::default(), NOW);
    assert!(stats.merged > 0 && stats.pruned > 0);
    assert_eq!(before, bytes(&entries) + stats.bytes_saved);
    for (i, survivor) in entries.iter().enumerate() {
        assert!(ids.contains(&survivor.id));
        assert!(entries[..i].iter().all(|other| other.id != survivor.id));
        assert!(quality(survivor, NOW) >= 0.05 && number(survivor.relevance) >= 0.05);
    }
}

#[test]
fn every_entry_of_a_pass_is_accounted_for() {
    let mut entries: Vec<MemoryEntry> = Vec::new();
    for i in 0..12 {
        let mut e = entry(MemoryCategory::Fact, &format!("lesson {} about builds", i % 4));
        e.relevance = single(if i % 3 == 0 { 0.02 } else { 0.8 });
        entries.push(e);
    }
    let stats = consolidate_entries(&Host, &mut entries, &ConsolidationConfig::default(), NOW);
    assert_eq!(stats.entries_before, 12);
    assert_eq!(stats.entries_after, entries.len());
    assert_eq!(
        stats.entries_before,
        stats.entries_after + stats.merged + stats.pruned
    );
}

#[test]
fn a_merge_that_is_switched_off_leaves_duplicates_alone() {
    let a = entry(MemoryCategory::Fact, "the same words here");
    let b = entry(MemoryCategory::Fact, "the same words here");
    let mut entries = vec![a, b];
    let mut config = ConsolidationConfig::default();
    config.merge = false;
    let stats = consolidate_entries(&Host, &mut entries, &config, NOW);
    assert_eq!(stats.merged, 0);
    assert_eq!(entries.len(), 2);
}

#[test]
fn a_decay_that_is_switched_off_fades_nothing() {
    let mut old = entry(MemoryCategory::Working, "old");
    old.created_at = NOW - 1_000 * HOUR;
    let mut entries = vec![old];
    let mut config = ConsolidationConfig::default();
    config.decay = false;
    config.merge = false;
    consolidate_entries(&Host, &mut entries, &config, NOW);
    assert_eq!(relevance_of(&entries[0]), 1.0);
    assert_eq!(entries[0].last_decayed, None);
}

#[test]
fn normalizing_twice_is_normalizing_once() {
    let config = ConsolidationConfig {
        decay: true,
        half_life: 0,
        merge: true,
        merge_threshold: single(f32::NAN),
        prune_floor: single(-3.0),
    };
    let once = config.normalized();
    let twice = once.normalized();
    let expected = ConsolidationConfig::default();
    assert_eq!(once.half_life, expected.half_life);
    assert_eq!(once.merge_threshold, expected.merge_threshold);
    assert_eq!(twice.half_life, once.half_life);
    assert_eq!(twice.merge_threshold, once.merge_threshold);
    assert_eq!(twice.prune_floor, once.prune_floor);
}

#[test]
fn the_best_member_is_promoted_and_ties_keep_the_first() {
    let first = entry(MemoryCategory::Fact, "first");
    let second = entry(MemoryCategory::Fact, "second");
    let third = entry(MemoryCategory::Fact, "third");
    let mut cluster = MemoryCluster {
        canonical: first.clone(),
        duplicates: vec![second.clone(), third.clone()],
    };
    promote_highest_quality(&mut cluster, single(0.5), &vec![single(0.5), single(0.9)]);
    assert_eq!(cluster.canonical.memory, "third");
    assert_eq!(cluster.duplicates.len(), 2);
    let mut level = MemoryCluster {
        canonical: first,
        duplicates: vec![second, third],
    };
    promote_highest_quality(&mut level, single(0.5), &vec![single(0.5), single(0.5)]);
    assert_eq!(level.canonical.memory, "first");
}

#[test]
fn health_splits_off_what_is_out_of_range() {
    let good = entry(MemoryCategory::Fact, "good");
    let mut bad = entry(MemoryCategory::Fact, "bad");
    bad.relevance = single(f32::NEG_INFINITY);
    let (healthy, degraded) = split_by_health(vec![good, bad]);
    assert_eq!(healthy.len(), 1);
    assert_eq!(degraded.len(), 1);
    assert_eq!(degraded[0].memory, "bad");
    assert_eq!(relevance_of(&degraded[0]), 0.0);
}

#[test]
fn pruning_goes_by_quality_and_floor() {
    let a = entry(MemoryCategory::Fact, "keep");
    let b = entry(MemoryCategory::Fact, "drop");
    let (kept, bytes) = prune_entries(vec![a, b], &vec![single(0.5), single(0.1)], single(0.3));
    assert_eq!(kept.len(), 1);
    assert_eq!(kept[0].memory, "keep");
    assert_eq!(bytes, 4);
}

#[test]
fn a_pass_over_nothing_reports_nothing() {
    let mut entries: Vec<MemoryEntry> = Vec::new();
    let stats = consolidate_entries(&Host, &mut entries, &ConsolidationConfig::default(), NOW);
    assert_eq!(stats, ConsolidationStats::default());
}
