//! Text cut to a number of bytes.

use vstd::prelude::*;

use crate::text;

verus! {

/// The number of characters at the start of a text that fit into `limit`
/// bytes.
pub open spec fn fitting(text: Seq<char>, limit: nat) -> nat
    decreases text.len(),
{
    if text::byte_length(text) <= limit {
        text.len()
    } else {
        fitting(text.drop_last(), limit)
    }
}

/// A text of at most `limit` bytes stays; a longer one is cut to the
/// characters that fit, and an ellipsis marks the cut.
pub open spec fn clipped(text: Seq<char>, limit: nat) -> Seq<char> {
    if text::byte_length(text) <= limit {
        text
    } else {
        text.take(fitting(text, limit) as int).push('\u{2026}')
    }
}


/// What fits, fits; and one character more does not.
pub proof fn lemma_fitting(text: Seq<char>, limit: nat)
    ensures
        fitting(text, limit) <= text.len(),
        text::byte_length(text.take(fitting(text, limit) as int)) <= limit,
        forall|k: int|
            fitting(text, limit) < k <= text.len() ==> text::byte_length(
                #[trigger] text.take(k),
            ) > limit,
    decreases text.len(),
{
    assert(text.take(text.len() as int) =~= text);
    if text::byte_length(text) > limit {
        text::lemma_byte_length_bounds(text);
        let short = text.drop_last();
        lemma_fitting(short, limit);
        let n = fitting(text, limit);
        assert(short.take(n as int) =~= text.take(n as int));
        assert forall|k: int| n < k <= text.len() implies text::byte_length(#[trigger] text.take(k))
            > limit by {
            if k < text.len() {
                assert(short.take(k) =~= text.take(k));
            }
        }
    }
}

/// Cuts a text to at most `limit` bytes between two characters, marking the
/// cut by an ellipsis.
pub fn truncate(text: &str, limit: usize) -> (out: String)
    ensures
        out@ == clipped(text@, limit as nat),
{
    if text::byte_len(text) <= limit {
        return String::from_str(text);
    }
    let chars = text::chars_of(text);
    let mut used: usize = 0;
    let mut n: usize = 0;
    proof {
        lemma_fitting(text@, limit as nat);
        assert(text@.take(0) =~= Seq::<char>::empty());
        assert(text@.take(text@.len() as int) =~= text@);
    }
    while n < chars.len() && text::width_of(chars[n]) <= limit - used
        invariant
            n <= chars.len(),
            chars@ == text@,
            used <= limit,
            used == text::byte_length(text@.take(n as int)),
        decreases chars.len() - n,
    {
        proof {
            assert(text@.take(n + 1) =~= text@.take(n as int).push(chars@[n as int]));
            text::lemma_byte_length_push(text@.take(n as int), chars@[n as int]);
        }
        used = used + text::width_of(chars[n]);
        n = n + 1;
    }
    proof {
        let f = fitting(text@, limit as nat);
        assert(n < chars.len());
        assert(text@.take(n + 1) =~= text@.take(n as int).push(chars@[n as int]));
        text::lemma_byte_length_push(text@.take(n as int), chars@[n as int]);
        if f > n {
            lemma_prefix_is_shorter(text@, n + 1, f as int);
        }
        assert(f == n);
    }
    let mut out = text::slice_text(&chars, 0, n);
    assert(out@ =~= text@.take(n as int));
    out.push('\u{2026}');
    out
}

proof fn lemma_prefix_is_shorter(text: Seq<char>, a: int, b: int)
    requires
        0 <= a <= b <= text.len(),
    ensures
        text::byte_length(text.take(a)) <= text::byte_length(text.take(b)),
{
    assert(text.take(b) =~= text.take(a) + text.subrange(a, b));
    text::lemma_encoding_of_parts(text.take(a), text.subrange(a, b));
}

/// What is kept of a text takes no more than `limit` bytes, besides the
/// ellipsis of three bytes that marks a cut.
pub proof fn a_clipped_text_is_bounded(text: Seq<char>, limit: nat)
    ensures
        text::byte_length(clipped(text, limit)) <= limit + 3,
        text::byte_length(text) <= limit ==> clipped(text, limit) == text,
{
    if text::byte_length(text) > limit {
        lemma_fitting(text, limit);
        text::lemma_byte_length_push(text.take(fitting(text, limit) as int), '\u{2026}');
    }
}

/// A text that is too long is cut at the last character that still fits: what
/// is kept fits, one character more does not, and only the ellipsis follows.
pub proof fn a_cut_keeps_all_that_fits(text: Seq<char>, limit: nat) -> (k: int)
    ensures
        0 <= k <= text.len(),
        text::byte_length(text) <= limit ==> clipped(text, limit) == text,
        text::byte_length(text) > limit ==> {
            &&& k < text.len()
            &&& clipped(text, limit) == text.take(k) + seq!['\u{2026}']
            &&& text::byte_length(text.take(k)) <= limit
            &&& text::byte_length(text.take(k + 1)) > limit
        },
{
    lemma_fitting(text, limit);
    let k = fitting(text, limit) as int;
    assert(text.take(k).push('\u{2026}') =~= text.take(k) + seq!['\u{2026}']);
    assert(text.take(text.len() as int) =~= text);
    if k < text.len() {
        assert(text::byte_length(text.take(k + 1)) > limit);
    }
    k
}

} // verus!
