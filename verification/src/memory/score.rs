//! How well an entry answers a query.

use vstd::prelude::*;

use crate::memory::consolidate::RelevanceArithmetic;
use crate::memory::entry::{EntryView, MemoryEntry};
use crate::numeric;
use crate::selection;
use crate::single::Single;
use crate::text;

verus! {

/// The number of the first `n` words that occur in a text.
pub open spec fn words_found(memory: Seq<char>, words: Seq<Seq<char>>, n: nat) -> nat
    decreases n,
{
    if n == 0 {
        0
    } else {
        words_found(memory, words, (n - 1) as nat) + if text::occurs(memory, words[n - 1]) {
            1nat
        } else {
            0nat
        }
    }
}

/// The number of query words that occur in an entry, both in lower case.
pub open spec fn word_matches(e: EntryView, words: Seq<Seq<char>>) -> nat {
    words_found(text::lowercase(e.memory), words, words.len())
}

/// Whether the whole query occurs in a tag. An empty query never does.
pub open spec fn tag_match(e: EntryView, query: Seq<char>) -> bool {
    query.len() > 0 && exists|i: int|
        0 <= i < e.tags.len() && text::occurs(text::lowercase(#[trigger] e.tags[i]), query)
}

/// Whether a query matched an entry at all.
pub open spec fn is_match(e: EntryView, query: Seq<char>, words: Seq<Seq<char>>) -> bool {
    word_matches(e, words) > 0 || tag_match(e, query)
}

/// The relevance that an entry is ranked by: none where it is out of range.
pub open spec fn base_relevance(e: EntryView) -> Single {
    if e.relevance.in_unit() {
        e.relevance
    } else {
        Single { bits: 0 }
    }
}

/// The share of query words that occur in an entry, where any does.
pub open spec fn word_overlap(e: EntryView, words: Seq<Seq<char>>) -> Option<(int, int)> {
    if word_matches(e, words) > 0 {
        Some(numeric::ratio_sides(word_matches(e, words) as int, words.len() as int))
    } else {
        None
    }
}

/// What an entry is ranked by.
#[derive(Debug, Clone, Copy)]
pub struct EntryMatch {
    /// The relevance, or nothing where it is out of range.
    pub base: Single,
    /// The share of query words found, where any was.
    pub overlap: Option<(u16, u16)>,
    /// Whether a tag holds the whole query.
    pub tag_match: bool,
    /// Whether a word or a tag matched.
    pub matched: bool,
}

/// Compares an entry with a query in lower case: the whole of it, trimmed, and
/// its words.
pub fn match_entry(entry: &MemoryEntry, query_trimmed: &str, query_words: &Vec<String>) -> (m:
    EntryMatch)
    ensures
        m.base == base_relevance(entry@),
        m.tag_match == tag_match(entry@, query_trimmed@),
        m.matched == is_match(entry@, query_trimmed@, text::texts(query_words@)),
        match m.overlap {
            Some(o) => word_overlap(entry@, text::texts(query_words@)) == Some(
                (o.0 as int, o.1 as int),
            ),
            None => word_overlap(entry@, text::texts(query_words@)) is None,
        },
{
    let lower = text::to_lowercase(entry.memory.as_str());
    let memory = text::chars_of(lower.as_str());
    let query = text::chars_of(query_trimmed);
    let ghost words = text::texts(query_words@);
    let mut hit = false;
    if query.len() > 0 {
        let mut i: usize = 0;
        while i < entry.tags.len() && !hit
            invariant
                i <= entry.tags.len(),
                query@ == query_trimmed@,
                query.len() > 0,
                hit ==> tag_match(entry@, query@),
                !hit ==> forall|k: int|
                    0 <= k < i ==> !text::occurs(
                        text::lowercase(#[trigger] entry@.tags[k]),
                        query@,
                    ),
            decreases (entry.tags.len() - i) + (if hit {
                0int
            } else {
                1int
            }),
        {
            let tag_lower = text::to_lowercase(entry.tags[i].as_str());
            let tag = text::chars_of(tag_lower.as_str());
            assert(entry@.tags[i as int] == entry.tags@[i as int]@);
            if text::contains_chars(&tag, &query) {
                hit = true;
            } else {
                i = i + 1;
            }
        }
    }
    let mut found: usize = 0;
    let mut i: usize = 0;
    while i < query_words.len()
        invariant
            i <= query_words.len(),
            found <= i,
            words == text::texts(query_words@),
            memory@ == text::lowercase(entry@.memory),
            found == words_found(text::lowercase(entry@.memory), words, i as nat),
        decreases query_words.len() - i,
    {
        let word = text::chars_of(query_words[i].as_str());
        assert(words[i as int] == word@);
        if text::contains_chars(&memory, &word) {
            found = found + 1;
        }
        i = i + 1;
    }
    let overlap = if found > 0 {
        numeric::unit_ratio(found, query_words.len())
    } else {
        None
    };
    EntryMatch {
        base: if entry.relevance.in_unit() {
            entry.relevance
        } else {
            Single { bits: 0 }
        },
        overlap,
        tag_match: hit,
        matched: found > 0 || hit,
    }
}

/// The same share in the numbers that a host computes with.
pub open spec fn sides(overlap: Option<(int, int)>) -> Option<(u16, u16)> {
    match overlap {
        Some(o) => Some((o.0 as u16, o.1 as u16)),
        None => None,
    }
}

/// Whether a score is what the host's formula gives for an entry and a query.
pub open spec fn is_score<A: RelevanceArithmetic>(
    arithmetic: A,
    e: EntryView,
    query: Seq<char>,
    words: Seq<Seq<char>>,
    score: Single,
) -> bool {
    call_ensures(
        A::rank,
        (&arithmetic, base_relevance(e), sides(word_overlap(e, words)), tag_match(e, query)),
        score,
    )
}

/// The rank of an entry, as the host's arithmetic gives it, and whether the
/// query matched at all.
pub fn score_entry<A: RelevanceArithmetic>(
    arithmetic: &A,
    entry: &MemoryEntry,
    query_trimmed: &str,
    query_words: &Vec<String>,
) -> (score: (Single, bool))
    ensures
        is_score(*arithmetic, entry@, query_trimmed@, text::texts(query_words@), score.0),
        score.1 == is_match(entry@, query_trimmed@, text::texts(query_words@)),
{
    let m = match_entry(entry, query_trimmed, query_words);
    (arithmetic.rank(m.base, m.overlap, m.tag_match), m.matched)
}

/// An empty query matches nothing: every entry is ranked by its relevance
/// alone and none counts as accessed.
pub proof fn an_empty_query_matches_nothing(e: EntryView)
    ensures
        !is_match(e, Seq::empty(), Seq::empty()),
        word_overlap(e, Seq::empty()) is None,
{
}

/// Every query word that occurs in an entry counts, wherever it stands in the
/// query and whatever the others do, and no other counts: the result names the
/// places of those that do.
pub proof fn every_word_that_occurs_counts(e: EntryView, words: Seq<Seq<char>>) -> (places: Seq<int>)
    ensures
        selection::selects(
            places,
            words.len(),
            |i: int| text::occurs(text::lowercase(e.memory), words[i]),
        ),
        word_matches(e, words) == places.len(),
{
    let rule = |i: int| text::occurs(text::lowercase(e.memory), words[i]);
    lemma_words_found(text::lowercase(e.memory), words, words.len(), rule)
}

proof fn lemma_words_found(
    memory: Seq<char>,
    words: Seq<Seq<char>>,
    n: nat,
    rule: spec_fn(int) -> bool,
) -> (places: Seq<int>)
    requires
        n <= words.len(),
        forall|i: int| #[trigger] rule(i) == text::occurs(memory, words[i]),
    ensures
        selection::selects(places, n, rule),
        words_found(memory, words, n) == places.len(),
    decreases n,
{
    if n == 0 {
        selection::lemma_none(rule);
        Seq::empty()
    } else {
        let before = lemma_words_found(memory, words, (n - 1) as nat, rule);
        selection::lemma_next(before, (n - 1) as nat, rule);
        assert(rule(n - 1) == text::occurs(memory, words[n - 1]));
        if rule(n - 1) {
            before.push(n - 1)
        } else {
            before
        }
    }
}

/// An entry matches exactly where some query word occurs in its text or a query
/// that is not empty occurs in one of its tags, all in lower case.
pub proof fn any_word_or_tag_makes_a_match(e: EntryView, query: Seq<char>, words: Seq<Seq<char>>)
    ensures
        is_match(e, query, words) <==> {
            ||| exists|i: int|
                0 <= i < words.len() && text::occurs(text::lowercase(e.memory), #[trigger] words[i])
            ||| query.len() > 0 && exists|i: int|
                0 <= i < e.tags.len() && text::occurs(text::lowercase(#[trigger] e.tags[i]), query)
        },
        tag_match(e, query) <==> query.len() > 0 && exists|i: int|
            0 <= i < e.tags.len() && text::occurs(text::lowercase(#[trigger] e.tags[i]), query),
{
    let places = every_word_that_occurs_counts(e, words);
    let rule = |i: int| text::occurs(text::lowercase(e.memory), words[i]);
    if places.len() > 0 {
        let i = places[0];
        assert(rule(i));
        assert(text::occurs(text::lowercase(e.memory), words[i]));
    }
    if exists|i: int|
        0 <= i < words.len() && text::occurs(text::lowercase(e.memory), #[trigger] words[i]) {
        let i = choose|i: int|
            0 <= i < words.len() && text::occurs(text::lowercase(e.memory), #[trigger] words[i]);
        assert(rule(i));
        assert(places.contains(i));
    }
}

/// What the host ranks an entry by: its relevance where that lies in the unit
/// interval and zero otherwise, how many of how many words were found where any
/// was, and whether a tag matched.
pub proof fn an_entry_is_ranked_by_its_own_figures<A: RelevanceArithmetic>(
    arithmetic: A,
    e: EntryView,
    query: Seq<char>,
    words: Seq<Seq<char>>,
    score: Single,
)
    requires
        words.len() <= 65_535,
    ensures
        is_score(arithmetic, e, query, words, score) <==> call_ensures(
            A::rank,
            (
                &arithmetic,
                if e.relevance.bits <= 0x3f80_0000 || e.relevance.bits == 0x8000_0000 {
                    e.relevance
                } else {
                    (Single { bits: 0 })
                },
                if word_matches(e, words) > 0 {
                    Some((word_matches(e, words) as u16, words.len() as u16))
                } else {
                    None
                },
                tag_match(e, query),
            ),
            score,
        ),
{
    lemma_found_at_most(text::lowercase(e.memory), words, words.len());
    if word_matches(e, words) > 0 {
        numeric::a_narrowed_ratio_stays_in_the_unit_interval(
            word_matches(e, words) as int,
            words.len() as int,
        );
    }
}

proof fn lemma_found_at_most(memory: Seq<char>, words: Seq<Seq<char>>, n: nat)
    ensures
        words_found(memory, words, n) <= n,
    decreases n,
{
    if n > 0 {
        lemma_found_at_most(memory, words, (n - 1) as nat);
    }
}

/// However many words a query has, the host is told the share of those that
/// were found, narrowed as every ratio is.
pub proof fn a_share_of_words_is_a_ratio<A: RelevanceArithmetic>(
    arithmetic: A,
    e: EntryView,
    query: Seq<char>,
    words: Seq<Seq<char>>,
    score: Single,
)
    requires
        word_matches(e, words) > 0,
        is_score(arithmetic, e, query, words, score),
    ensures
        call_ensures(
            A::rank,
            (
                &arithmetic,
                if e.relevance.bits <= 0x3f80_0000 || e.relevance.bits == 0x8000_0000 {
                    e.relevance
                } else {
                    (Single { bits: 0 })
                },
                Some(
                    (
                        numeric::ratio_sides(
                            word_matches(e, words) as int,
                            words.len() as int,
                        ).0 as u16,
                        numeric::ratio_sides(
                            word_matches(e, words) as int,
                            words.len() as int,
                        ).1 as u16,
                    ),
                ),
                tag_match(e, query),
            ),
            score,
        ),
{
}

} // verus!
