//! The token sets that near-duplicates are found by.

use vstd::prelude::*;

use crate::text;

verus! {

/// Which characters of a word are alphanumeric.
pub open spec fn alphanumeric_places(word: Seq<char>) -> Seq<bool> {
    word.map_values(|c: char| text::alphanumeric(c))
}

/// A word without the punctuation at its ends.
pub open spec fn bare_word(word: Seq<char>) -> Seq<char> {
    text::trimmed(word, alphanumeric_places(word))
}

/// The bare words of a lower-cased text, in order.
pub open spec fn bare_words(memory: Seq<char>) -> Seq<Seq<char>> {
    text::words(text::lowercase(memory)).map_values(|w: Seq<char>| bare_word(w))
}

/// The tokens of a text: its lower-cased words without the punctuation at
/// their ends, as far as anything is left of them.
pub open spec fn tokens(memory: Seq<char>) -> Set<Seq<char>> {
    bare_words(memory).to_set().remove(Seq::empty())
}

fn trim_punctuation(word: &str) -> (out: String)
    ensures
        out@ == bare_word(word@),
{
    let chars = text::chars_of(word);
    let mut keep: Vec<bool> = Vec::new();
    let mut i: usize = 0;
    while i < chars.len()
        invariant
            i <= chars.len(),
            chars@ == word@,
            keep@ == alphanumeric_places(word@).take(i as int),
        decreases chars.len() - i,
    {
        proof {
            assert(alphanumeric_places(word@).take(i + 1) =~= alphanumeric_places(word@).take(
                i as int,
            ).push(text::alphanumeric(word@[i as int])));
        }
        keep.push(text::is_alphanumeric(chars[i]));
        i = i + 1;
    }
    assert(keep@ =~= alphanumeric_places(word@));
    text::trim_text(&chars, &keep)
}

/// The tokens of a text, each once, in order of first occurrence.
pub fn normalized_tokens(memory: &str) -> (out: Vec<String>)
    ensures
        text::texts(out@).no_duplicates(),
        text::texts(out@).to_set() == tokens(memory@),
        out.len() == tokens(memory@).len(),
        tokens(memory@).finite(),
{
    let lower = text::to_lowercase(memory);
    let words = text::split_whitespace(lower.as_str());
    let ghost bare = bare_words(memory@);
    let mut out: Vec<String> = Vec::new();
    let mut i: usize = 0;
    while i < words.len()
        invariant
            i <= words.len(),
            text::texts(words@) == text::words(text::lowercase(memory@)),
            bare == bare_words(memory@),
            text::texts(out@).no_duplicates(),
            forall|t: Seq<char>| #[trigger]
                text::texts(out@).contains(t) <==> t.len() > 0 && bare.take(i as int).contains(t),
        decreases words.len() - i,
    {
        let token = trim_punctuation(words[i].as_str());
        let ghost before = text::texts(out@);
        proof {
            assert(token@ == bare[i as int]) by {
                assert(text::texts(words@)[i as int] == words@[i as int]@);
            }
            assert(bare.take(i + 1) =~= bare.take(i as int).push(token@));
            assert forall|t: Seq<char>| bare.take(i + 1).contains(t) <==> bare.take(
                i as int,
            ).contains(t) || t == token@ by {
                if bare.take(i as int).contains(t) {
                    let k = choose|k: int|
                        0 <= k < bare.take(i as int).len() && bare.take(i as int)[k] == t;
                    assert(bare.take(i + 1)[k] == t);
                }
                if t == token@ {
                    assert(bare.take(i + 1)[i as int] == t);
                }
                if bare.take(i + 1).contains(t) && t != token@ {
                    let longer = bare.take(i + 1);
                    let k = choose|k: int| 0 <= k < longer.len() && longer[k] == t;
                    assert(bare.take(i as int)[k] == t);
                }
            }
            assert(text::texts(out@.push(token)) =~= before.push(token@));
        }
        if !token.as_str().is_empty() && !text::list_contains(&out, token.as_str()) {
            out.push(token);
            proof {
                assert forall|t: Seq<char>| #[trigger]
                    text::texts(out@).contains(t) <==> t.len() > 0 && bare.take(i + 1).contains(
                        t,
                    ) by {
                    if before.contains(t) {
                        let k = choose|k: int| 0 <= k < before.len() && before[k] == t;
                        assert(text::texts(out@)[k] == t);
                    }
                    if t == token@ {
                        assert(text::texts(out@)[before.len() as int] == t);
                    }
                    if text::texts(out@).contains(t) {
                        let k = choose|k: int|
                            0 <= k < text::texts(out@).len() && text::texts(out@)[k] == t;
                        if k < before.len() {
                            assert(before[k] == t);
                        }
                    }
                }
            }
        }
        i = i + 1;
    }
    proof {
        assert(bare.take(i as int) =~= bare);
        let got = text::texts(out@).to_set();
        assert forall|t: Seq<char>| got.contains(t) <==> tokens(memory@).contains(t) by {
            assert(text::texts(out@).contains(t) <==> t.len() > 0 && bare.contains(t));
            assert(t.len() == 0 ==> t =~= Seq::<char>::empty());
        }
        assert(got =~= tokens(memory@));
        text::texts(out@).unique_seq_to_set();
        vstd::seq_lib::seq_to_set_is_finite(text::texts(out@));
    }
    out
}

/// The number of shared tokens and the number of tokens of the union, the
/// second held at the largest count.
pub fn overlap(a: &Vec<String>, b: &Vec<String>) -> (counts: (usize, usize))
    requires
        text::texts(a@).no_duplicates(),
        text::texts(b@).no_duplicates(),
    ensures
        counts.0 == text::texts(a@).to_set().intersect(text::texts(b@).to_set()).len(),
        counts.1 == capped(text::texts(a@).to_set().union(text::texts(b@).to_set()).len()),
{
    let ghost left = text::texts(a@);
    let ghost right = text::texts(b@).to_set();
    let mut shared: usize = 0;
    let mut i: usize = 0;
    proof {
        vstd::seq_lib::seq_to_set_is_finite(left);
        vstd::seq_lib::seq_to_set_is_finite(text::texts(b@));
        assert(left.take(0).to_set().intersect(right) =~= Set::<Seq<char>>::empty());
    }
    while i < a.len()
        invariant
            i <= a.len(),
            left == text::texts(a@),
            left.no_duplicates(),
            right == text::texts(b@).to_set(),
            shared == left.take(i as int).to_set().intersect(right).len(),
            shared <= i,
        decreases a.len() - i,
    {
        let ghost seen = left.take(i as int);
        let ghost x = left[i as int];
        proof {
            assert(left.take(i + 1) =~= seen.push(x));
            seen.lemma_push_to_set_commute(x);
            vstd::seq_lib::seq_to_set_is_finite(seen);
            assert(!seen.to_set().contains(x)) by {
                if seen.contains(x) {
                    let k = choose|k: int| 0 <= k < seen.len() && seen[k] == x;
                    assert(left[k] == left[i as int]);
                }
            }
            if right.contains(x) {
                assert(left.take(i + 1).to_set().intersect(right) =~= seen.to_set().intersect(
                    right,
                ).insert(x));
            } else {
                assert(left.take(i + 1).to_set().intersect(right) =~= seen.to_set().intersect(
                    right,
                ));
            }
        }
        if text::list_contains(b, a[i].as_str()) {
            shared = shared + 1;
        }
        i = i + 1;
    }
    proof {
        assert(left.take(i as int) =~= left);
        left.unique_seq_to_set();
        text::texts(b@).unique_seq_to_set();
        vstd::set_lib::lemma_set_intersect_union_lens(left.to_set(), right);
    }
    let only_a: usize = a.len() - shared;
    (shared, only_a.saturating_add(b.len()))
}

/// A count held at the largest count that a machine word has.
pub open spec fn capped(n: nat) -> int {
    if n <= usize::MAX {
        n as int
    } else {
        usize::MAX as int
    }
}

/// A token is what is left of a lower-cased word without what is not
/// alphanumeric at its ends, where anything is left.
pub proof fn tokens_are_bare_words(memory: Seq<char>, token: Seq<char>)
    ensures
        tokens(memory).contains(token) <==> token.len() > 0 && exists|i: int|
            0 <= i < text::words(text::lowercase(memory)).len() && token == bare_word(
                #[trigger] text::words(text::lowercase(memory))[i],
            ),
{
    let words = text::words(text::lowercase(memory));
    let bare = bare_words(memory);
    if tokens(memory).contains(token) {
        assert(bare.contains(token));
        let i = choose|i: int| 0 <= i < bare.len() && bare[i] == token;
        assert(token == bare_word(words[i]));
        if token.len() == 0 {
            assert(token =~= Seq::<char>::empty());
        }
    }
    if token.len() > 0 && exists|i: int|
        0 <= i < words.len() && token == bare_word(#[trigger] words[i]) {
        let i = choose|i: int| 0 <= i < words.len() && token == bare_word(#[trigger] words[i]);
        assert(bare[i] == token);
        assert(bare.contains(token));
    }
}

/// A bare word begins and ends with an alphanumeric character, and only other
/// characters were taken from its ends.
pub proof fn only_punctuation_is_trimmed(word: Seq<char>) -> (bounds: (int, int))
    ensures
        0 <= bounds.0 <= bounds.1 <= word.len(),
        bare_word(word) == word.subrange(bounds.0, bounds.1),
        forall|i: int|
            0 <= i < bounds.0 || bounds.1 <= i < word.len() ==> !text::alphanumeric(
                #[trigger] word[i],
            ),
        bare_word(word).len() > 0 ==> text::alphanumeric(bare_word(word)[0]) && text::alphanumeric(
            bare_word(word).last(),
        ),
{
    let keep = alphanumeric_places(word);
    text::lemma_first_kept(keep);
    text::lemma_kept_end(keep);
    let from = text::first_kept(keep) as int;
    let to = text::kept_end(keep) as int;
    if from < to {
        assert forall|i: int| 0 <= i < from || to <= i < word.len() implies !text::alphanumeric(
            #[trigger] word[i],
        ) by {
            assert(!keep[i]);
        }
        assert(keep[from]);
        assert(keep[to - 1]);
        (from, to)
    } else {
        assert forall|i: int| 0 <= i < word.len() implies !text::alphanumeric(
            #[trigger] word[i],
        ) by {
            assert(!keep[i]);
        }
        assert(word.subrange(0, 0) =~= Seq::<char>::empty());
        (0, 0)
    }
}

/// A count that fits is left as it is.
pub proof fn a_count_is_held_at_the_largest(n: nat)
    ensures
        n <= usize::MAX ==> capped(n) == n,
        n > usize::MAX ==> capped(n) == usize::MAX,
{
}

} // verus!
