//! Scores, the store in memory and the mirror of a file.

use std::time::Duration;

use loopctl::error::LoopError;
use loopctl::memory::builtin::InMemoryStore;
use loopctl::memory::consolidate::{
    category_decay_weight, ConsolidationConfig, QualityParts, RelevanceArithmetic,
};
use loopctl::memory::entry::{MemoryCategory, MemoryEntry};
use loopctl::memory::file::{reorder_merged_entries, AppendOutcome, FileMirror, UNUSABLE};
use loopctl::memory::rewrite::RewriteError;
use loopctl::memory::score::score_entry;
use loopctl::single::Single;

/// The formulas in single precision.
struct Host;

fn single(x: f32) -> Single {
    Single::from_bits(x.to_bits())
}

fn number(x: Single) -> f32 {
    f32::from_bits(x.bits)
}

fn seconds(nanos: u128) -> f32 {
    let whole = u64::try_from(nanos / 1_000_000_000).unwrap_or(u64::MAX);
    Duration::new(whole, (nanos % 1_000_000_000) as u32).as_secs_f32()
}

impl RelevanceArithmetic for Host {
    fn ratio(&self, numerator: u16, denominator: u16) -> Single {
        single(f32::from(numerator) / f32::from(denominator))
    }

    fn raised(&self, relevance: Single) -> Single {
        single(number(relevance) + 0.1)
    }

    fn faded(
        &self,
        relevance: Single,
        age: u128,
        half_life: u128,
        category: MemoryCategory,
    ) -> Single {
        let half_lives =
            seconds(age) / seconds(half_life).max(1.0) * number(category_decay_weight(category));
        single(number(relevance) * 0.5_f32.powf(half_lives.max(0.0)))
    }

    fn quality(&self, parts: &QualityParts) -> Single {
        let access =
            ((1.0 + f32::from(parts.access_count)).ln() / (1.0_f32 + 50.0).ln()).clamp(0.0, 1.0);
        let recency = parts
            .idle
            .map_or(1.0, |idle| (-seconds(idle) / (60.0 * 60.0 * 24.0 * 30.0)).exp());
        let validated = if parts.validated { 1.0 } else { 0.0 };
        single(number(parts.relevance) * 0.45 + access * 0.30 + recency * 0.15 + validated * 0.10)
    }

    fn rank(&self, base: Single, overlap: Option<(u16, u16)>, tag_match: bool) -> Single {
        let share = overlap.map_or(0.0, |(n, d)| f32::from(n) / f32::from(d));
        let tag = if tag_match { 0.3 } else { 0.0 };
        single(number(base) * 0.5 + share * 0.4 + tag + 0.1)
    }
}

const NOW: i128 = 1_700_000_000_000_000_000;

fn fresh(category: MemoryCategory, text: &str) -> MemoryEntry {
    MemoryEntry::new(category, text.to_string(), NOW)
}

fn entry(text: &str, relevance: f32) -> MemoryEntry {
    let mut entry = fresh(MemoryCategory::Fact, text);
    entry.relevance = single(relevance);
    entry
}

fn score(entry: &MemoryEntry, query: &str, words: &[&str]) -> (f32, bool) {
    let words: Vec<String> = words.iter().map(|w| w.to_string()).collect();
    let (rank, matched) = score_entry(&Host, entry, query, &words);
    (number(rank), matched)
}

#[test]
fn an_unmatched_entry_scores_half_its_relevance_plus_the_baseline() {
    let (score, matched) = score(&entry("unrelated text", 0.8), "deploy", &["deploy"]);
    assert!(
        (score - 0.5).abs() < 1e-6,
        "0.8 relevance with no match: {score}"
    );
    assert!(!matched, "no word overlap and no tag hit means unmatched");
}

#[test]
fn word_overlap_scales_the_query_bonus() {
    let (score, matched) = score(&entry("rust traits", 1.0), "rust async", &["rust", "async"]);
    assert!(
        (score - 0.8).abs() < 1e-6,
        "half of one matched word out of two: {score}"
    );
    assert!(matched);
}

#[test]
fn a_tag_hit_adds_the_bonus_and_marks_the_entry_matched() {
    let mut tagged = entry("scripts live in ops", 0.9);
    tagged.tags.push("deploy".to_string());
    let (score, matched) = score(&tagged, "deploy", &["deploy"]);
    assert!(
        (score - (0.9 * 0.5 + 0.3 + 0.1)).abs() < 1e-6,
        "relevance half plus tag bonus plus baseline: {score}"
    );
    assert!(matched, "a tag hit matches even without word overlap");
}

#[test]
fn an_empty_query_ranks_every_entry_by_baseline_only() {
    let (score, matched) = score(&entry("anything", 0.6), "", &[]);
    assert!(
        (score - 0.4).abs() < 1e-6,
        "0.6 relevance baseline: {score}"
    );
    assert!(!matched, "an empty query can never match");
}

#[test]
fn out_of_range_relevance_scores_as_zero() {
    for poisoned in [1.5, -0.1, f32::NAN, f32::INFINITY] {
        let (score, _) = score(&entry("rust traits", poisoned), "rust", &["rust"]);
        assert!(
            (score - (0.4 + 0.1)).abs() < 1e-6,
            "poisoned relevance {poisoned} contributes nothing: {score}"
        );
    }
}

#[test]
fn test_store_and_retrieve() {
    let mut store = InMemoryStore::new();
    store.store(fresh(
        MemoryCategory::Insight,
        "Prefer Glob over manual file search",
    ));
    store.store(fresh(
        MemoryCategory::ErrorPattern,
        "Edit failures often caused by stale file content",
    ));
    let results = store.retrieve(&Host, "Glob manual file search", 5, NOW);
    assert!(!results.is_empty());
    assert_eq!(results[0].category, MemoryCategory::Insight);
}

#[test]
fn test_retrieve_respects_limit() {
    let mut store = InMemoryStore::new();
    for i in 0..10 {
        store.store(fresh(
            MemoryCategory::Fact,
            &format!("Fact number {i} about testing"),
        ));
    }
    let results = store.retrieve(&Host, "testing", 3, NOW);
    assert_eq!(results.len(), 3);
}

#[test]
fn test_retrieve_empty_store() {
    let mut store = InMemoryStore::new();
    let results = store.retrieve(&Host, "anything", 5, NOW);
    assert!(results.is_empty());
}

#[test]
fn test_len_and_is_empty() {
    let store = InMemoryStore::new();
    assert!(store.is_empty());
    assert_eq!(store.len(), 0);
}

#[test]
fn test_consolidate_prunes_low_relevance() {
    let mut store = InMemoryStore::new();

    let mut good_entry = fresh(MemoryCategory::Insight, "useful insight");
    good_entry.relevance = single(0.9);
    store.store(good_entry);

    let mut bad_entry = fresh(MemoryCategory::Working, "temporary data");
    bad_entry.relevance = single(0.01);
    store.store(bad_entry);

    assert_eq!(store.len(), 2);

    let stats = store.consolidate(&Host, NOW);

    assert_eq!(stats.entries_before, 2);
    assert_eq!(stats.pruned, 1);
    assert_eq!(store.len(), 1);
}

#[test]
fn test_with_entries() {
    let entries = vec![
        fresh(MemoryCategory::Fact, "fact 1"),
        fresh(MemoryCategory::Fact, "fact 2"),
    ];
    let store = InMemoryStore::new().with_entries(entries);
    assert_eq!(store.len(), 2);
}

#[test]
fn test_tag_matching_boosts_relevance() {
    let mut store = InMemoryStore::new();
    let tagged = fresh(MemoryCategory::Strategy, "use iterators for loops")
        .with_tag("rust".to_string());
    store.store(tagged);
    store.store(fresh(
        MemoryCategory::Strategy,
        "use caching for performance",
    ));
    let results = store.retrieve(&Host, "rust iterators", 2, NOW);
    assert!(!results.is_empty());
    assert!(results[0].memory.contains("iterators"));
}

#[test]
fn test_default_is_empty() {
    let store = InMemoryStore::default();
    assert!(store.is_empty());
}

#[test]
fn test_retrieve_ranking_preserved() {
    let mut store = InMemoryStore::new();

    let mut high = fresh(MemoryCategory::Insight, "rust rust rust rust");
    high.relevance = single(0.95);

    let mut mid = fresh(MemoryCategory::Fact, "rust rust rust");
    mid.relevance = single(0.5);

    let mut low = fresh(MemoryCategory::Working, "rust rust");
    low.relevance = single(0.1);

    store.store(low.clone());
    store.store(high.clone());
    store.store(mid.clone());

    let results = store.retrieve(&Host, "rust", 3, NOW);
    assert_eq!(results.len(), 3);
    assert!((number(results[0].relevance) - 0.95).abs() < 1e-6);
    assert!((number(results[1].relevance) - 0.5).abs() < 1e-6);
    assert!((number(results[2].relevance) - 0.1).abs() < 1e-6);
}

#[test]
fn retrieve_ranks_more_word_matches_higher_at_equal_relevance() {
    let mut store = InMemoryStore::new();
    store.store(entry("alpha only", 0.5));
    store.store(entry("alpha beta gamma", 0.5));
    let results = store.retrieve(&Host, "alpha beta gamma", 2, NOW);
    assert_eq!(results.len(), 2);
    assert!(
        results[0].memory.contains("alpha beta gamma"),
        "the entry matching more query words must rank higher at equal relevance"
    );
}

#[test]
fn loop_memory_round_trips() {
    let mut store = InMemoryStore::new();
    store.store(fresh(MemoryCategory::Trajectory, "tool result"));
    assert_eq!(store.len(), 1);
    let results = store.retrieve(&Host, "tool", 5, NOW);
    assert_eq!(results.len(), 1);
    assert!(results[0].memory.contains("tool result"));
    let stats = store.consolidate(&Host, NOW);
    assert_eq!(stats.entries_after, 1);
    assert!(!store.is_empty());
}

#[test]
fn only_matched_entries_are_stamped() {
    let mut store = InMemoryStore::new();
    store.store(entry("alpha", 0.9));
    store.store(entry("beta", 0.9));
    let handed_out = store.retrieve(&Host, "alpha", 2, NOW + 10);
    assert_eq!(handed_out.len(), 2);
    store.consolidate(&Host, NOW + 20);
    let after = store.retrieve(&Host, "", 2, NOW + 30);
    for e in after {
        if e.memory == "alpha" {
            assert_eq!(e.last_accessed, Some(NOW + 10));
            assert_eq!(e.access_count, 1);
        } else {
            assert_eq!(e.last_accessed, None);
            assert_eq!(e.access_count, 0);
        }
    }
}

#[test]
fn equal_ranks_keep_the_order_of_arrival() {
    let mut store = InMemoryStore::new();
    store.store(entry("same one", 0.5));
    store.store(entry("same two", 0.5));
    store.store(entry("same three", 0.5));
    let found = store.retrieve(&Host, "same", 3, NOW);
    let order: Vec<&str> = found.iter().map(|e| e.memory.as_str()).collect();
    assert_eq!(order, vec!["same one", "same two", "same three"]);
}

#[test]
fn a_query_is_compared_in_lower_case() {
    let mut store = InMemoryStore::new();
    store.store(entry("Prefer GLOB", 0.9));
    store.retrieve(&Host, "glob", 1, NOW + 1);
    store.consolidate(&Host, NOW + 2);
    let again = store.retrieve(&Host, "", 1, NOW + 3);
    assert_eq!(again[0].access_count, 1, "an upper-case word still matched");
}

// ---------------------------------------------------------------------------
// The mirror of a file
// ---------------------------------------------------------------------------

fn mirror_with(entries: Vec<MemoryEntry>) -> FileMirror {
    FileMirror::new(entries, false)
}

fn texts(mirror: &FileMirror) -> Vec<String> {
    mirror.entries().iter().map(|e| e.memory.clone()).collect()
}

#[test]
fn a_store_mirrors_only_what_was_written() {
    let mut mirror = mirror_with(Vec::new());
    assert!(mirror.begin_append().is_ok());
    assert!(mirror
        .finish_store(entry("kept", 0.5), AppendOutcome::Written)
        .is_ok());
    let missing = mirror.finish_store(
        entry("not opened", 0.5),
        AppendOutcome::NotOpened("no such directory".to_string()),
    );
    match missing {
        Err(LoopError::Memory(m)) => {
            assert_eq!(m, "cannot open memory file for append: no such directory")
        }
        other => panic!("unexpected {other:?}"),
    }
    assert!(mirror.begin_append().is_ok(), "a failed open leaves the tail alone");
    assert_eq!(texts(&mirror), vec!["kept"]);
}

#[test]
fn a_failed_append_latches_until_a_rewrite() {
    let mut mirror = mirror_with(vec![entry("one", 0.5)]);
    let failed = mirror.finish_store(
        entry("two", 0.5),
        AppendOutcome::NotWritten("disk full".to_string()),
    );
    match failed {
        Err(LoopError::Memory(m)) => assert_eq!(m, "cannot append to memory file: disk full"),
        other => panic!("unexpected {other:?}"),
    }
    match mirror.begin_append() {
        Err(LoopError::Memory(m)) => assert_eq!(m, UNUSABLE),
        other => panic!("unexpected {other:?}"),
    }
    assert_eq!(mirror.len(), 1);
    let unconfirmed = Err(RewriteError::NotDurable(LoopError::Memory("sync".to_string())));
    assert!(mirror.finish_flush(unconfirmed).is_err());
    assert!(mirror.begin_append().is_err(), "an unconfirmed flush does not re-arm");
    assert!(mirror.finish_flush(Ok(())).is_ok());
    assert!(mirror.begin_append().is_ok());
}

#[test]
fn a_failed_consolidation_keeps_everything() {
    let mut mirror = mirror_with(vec![entry("alpha", 0.9), entry("faint", 0.01)]);
    mirror.retrieve(&Host, "alpha", 1, NOW + 5);
    let config = ConsolidationConfig::default();
    let (next, stats) = mirror.plan_consolidation(&Host, &config, &None, NOW + 10);
    assert_eq!(stats.pruned, 1);
    assert_eq!(mirror.len(), 2, "a plan changes nothing yet");
    let refused = Err(RewriteError::PreCommit(LoopError::Memory("no room".to_string())));
    assert!(mirror.finish_consolidation(next, stats, refused).is_err());
    assert_eq!(mirror.len(), 2);
    let (next, stats) = mirror.plan_consolidation(&Host, &config, &None, NOW + 10);
    assert_eq!(next[0].access_count, 1, "the stamp is still there to be folded in");
    let settled = mirror.finish_consolidation(next, stats, Ok(())).unwrap();
    assert_eq!(settled.pruned, 1);
    assert_eq!(texts(&mirror), vec!["alpha"]);
    let (again, _) = mirror.plan_consolidation(&Host, &config, &None, NOW + 20);
    assert_eq!(again[0].access_count, 1, "a committed stamp is not folded in twice");
}

#[test]
fn an_unconfirmed_consolidation_still_counts() {
    let mut mirror = mirror_with(vec![entry("alpha", 0.9), entry("faint", 0.01)]);
    let config = ConsolidationConfig::default();
    let (next, stats) = mirror.plan_consolidation(&Host, &config, &None, NOW);
    let outcome = Err(RewriteError::NotDurable(LoopError::Memory("sync".to_string())));
    match mirror.finish_consolidation(next, stats, outcome) {
        Err(LoopError::Memory(m)) => assert_eq!(m, "sync"),
        other => panic!("unexpected {other:?}"),
    }
    assert_eq!(texts(&mirror), vec!["alpha"]);
}

#[test]
fn a_stamp_of_the_mirror_never_goes_back() {
    let mut mirror = mirror_with(vec![entry("alpha", 0.9)]);
    mirror.retrieve(&Host, "alpha", 1, NOW + 50);
    mirror.retrieve(&Host, "alpha", 1, NOW + 10);
    let (next, _) =
        mirror.plan_consolidation(&Host, &ConsolidationConfig::default(), &None, NOW + 60);
    assert_eq!(next[0].last_accessed, Some(NOW + 50));
}

#[test]
fn the_order_of_the_file_wins_and_nothing_is_lost() {
    let a = entry("a", 0.5);
    let mut a_in_mirror = a.clone();
    a_in_mirror.access_count = 7;
    let b = entry("b", 0.5);
    let c = entry("c", 0.5);
    let merged = vec![c.clone(), a_in_mirror];
    let file = vec![a, b];
    let out = reorder_merged_entries(&merged, &file);
    let order: Vec<&str> = out.iter().map(|e| e.memory.as_str()).collect();
    assert_eq!(order, vec!["a", "b", "c"]);
    assert_eq!(out[0].access_count, 7, "the mirror's copy is the fresher one");
    assert_eq!(out[2].id, c.id);
}

#[test]
fn a_line_that_stands_twice_takes_the_mirror_copy_once() {
    let a = entry("a", 0.5);
    let mut fresher = a.clone();
    fresher.access_count = 3;
    let out = reorder_merged_entries(&vec![fresher], &vec![a.clone(), a]);
    let counts: Vec<usize> = out.iter().map(|e| e.access_count).collect();
    assert_eq!(counts, vec![3, 0]);
}

#[test]
fn two_mirrors_of_one_file_unite() {
    let shared = entry("shared", 0.9);
    let mine = entry("mine", 0.9);
    let theirs = entry("theirs", 0.9);
    let mut target = mirror_with(vec![shared.clone(), mine.clone()]);
    let mut stale = FileMirror::new(vec![shared.clone(), theirs.clone()], true);
    target.retrieve(&Host, "shared", 1, NOW + 5);
    stale.retrieve(&Host, "shared", 1, NOW + 9);
    stale.retrieve(&Host, "theirs", 1, NOW + 7);
    let file = Some(vec![theirs, shared, mine]);
    target.merge_mirror(&stale, &file);
    assert_eq!(texts(&target), vec!["theirs", "shared", "mine"]);
    let (next, _) =
        target.plan_consolidation(&Host, &ConsolidationConfig::default(), &None, NOW + 20);
    let stamp = |name: &str| {
        next.iter()
            .find(|e| e.memory == name)
            .and_then(|e| e.last_accessed)
    };
    assert_eq!(stamp("shared"), Some(NOW + 9), "the later stamp stays");
    assert_eq!(stamp("theirs"), Some(NOW + 7));
    assert_eq!(stamp("mine"), None);
}

#[test]
fn only_a_provisional_mirror_goes_by_the_file() {
    let on_disk = entry("on disk", 0.9);
    let mut canonical = FileMirror::new(Vec::new(), false);
    canonical.resync(&Some(vec![on_disk.clone()]));
    assert!(canonical.is_empty());
    let mut provisional = FileMirror::new(Vec::new(), true);
    assert!(provisional.is_fallback());
    provisional.resync(&Some(vec![on_disk]));
    assert_eq!(texts(&provisional), vec!["on disk"]);
    provisional.resync(&None);
    assert_eq!(provisional.len(), 1, "a file that cannot be read changes nothing");
}
