//! Text as a sequence of characters.
//!
//! Every contract of this crate that speaks of text speaks of `Seq<char>`, the
//! view of a `String`. The functions here are the steps that the other modules
//! build their texts from.

use vstd::prelude::*;

verus! {

/// `String::push` appends one character.
pub assume_specification[ String::push ](s: &mut String, c: char)
    ensures
        final(s)@ == old(s)@.push(c),
;

/// The characters of a text, in order.
pub fn chars_of(text: &str) -> (out: Vec<char>)
    ensures
        out@ == text@,
{
    let mut out: Vec<char> = Vec::new();
    for c in it: text.chars()
        invariant
            out@ == text@.take(it.index()),
            it.seq() == text@,
    {
        proof {
            assert(text@.take(it.index() + 1) =~= text@.take(it.index()).push(c));
        }
        out.push(c);
    }
    assert(text@.take(text@.len() as int) =~= text@);
    out
}

/// Appends every character of `tail` to `text`.
pub fn push_chars(text: &mut String, tail: &[char])
    ensures
        final(text)@ == old(text)@ + tail@,
{
    let mut i: usize = 0;
    while i < tail.len()
        invariant
            i <= tail.len(),
            text@ == old(text)@ + tail@.take(i as int),
        decreases tail.len() - i,
    {
        proof {
            assert(tail@.take(i + 1) =~= tail@.take(i as int).push(tail@[i as int]));
        }
        text.push(tail[i]);
        i = i + 1;
    }
    assert(tail@.take(tail@.len() as int) =~= tail@);
}

/// The text made of the given characters.
pub fn string_of(chars: &[char]) -> (out: String)
    ensures
        out@ == chars@,
{
    let mut out = String::new();
    push_chars(&mut out, chars);
    assert(Seq::<char>::empty() + chars@ =~= chars@);
    out
}

/// Appends a text to a text.
pub fn push_text(text: &mut String, tail: &str)
    ensures
        final(text)@ == old(text)@ + tail@,
{
    text.append(tail);
}

/// Whether two texts hold the same characters.
pub fn same_text(a: &str, b: &str) -> (same: bool)
    ensures
        same == (a@ == b@),
{
    let a_bytes = a.as_bytes();
    let b_bytes = b.as_bytes();
    proof {
        vstd::utf8::encode_utf8_decode_utf8(a@);
        vstd::utf8::encode_utf8_decode_utf8(b@);
    }
    if a_bytes.len() != b_bytes.len() {
        return false;
    }
    let mut i: usize = 0;
    while i < a_bytes.len()
        invariant
            i <= a_bytes.len(),
            a_bytes.len() == b_bytes.len(),
            a_bytes@ == vstd::utf8::encode_utf8(a@),
            b_bytes@ == vstd::utf8::encode_utf8(b@),
            forall|k: int| 0 <= k < i ==> a_bytes@[k] == b_bytes@[k],
        decreases a_bytes.len() - i,
    {
        if a_bytes[i] != b_bytes[i] {
            return false;
        }
        i = i + 1;
    }
    assert(a_bytes@ =~= b_bytes@);
    true
}

/// The decimal digit of a number below ten.
pub open spec fn digit_char(d: int) -> char {
    (48 + d) as char
}

/// The decimal digits of a number, most significant first, without leading
/// zeros.
pub open spec fn decimal(n: nat) -> Seq<char>
    decreases n,
{
    if n < 10 {
        seq![digit_char(n as int)]
    } else {
        decimal(n / 10).push(digit_char((n % 10) as int))
    }
}

fn digit_of(d: u8) -> (c: char)
    requires
        d < 10,
    ensures
        c == digit_char(d as int),
{
    (48 + d) as char
}

/// Appends the decimal digits of `n`.
pub fn push_decimal(text: &mut String, n: u128)
    ensures
        final(text)@ == old(text)@ + decimal(n as nat),
    decreases n,
{
    if n >= 10 {
        push_decimal(text, n / 10);
    }
    text.push(digit_of((n % 10) as u8));
    proof {
        if n >= 10 {
            assert(old(text)@ + decimal(n as nat) =~= (old(text)@ + decimal((n / 10) as nat)).push(digit_char((n % 10) as int)));
        } else {
            assert(old(text)@ + decimal(n as nat) =~= old(text)@.push(digit_char(n as int)));
        }
    }
}


/// The number of bytes that a text takes in UTF-8.
pub open spec fn byte_length(text: Seq<char>) -> nat {
    vstd::utf8::encode_utf8(text).len()
}

/// The number of bytes of a text.
pub fn byte_len(text: &str) -> (len: usize)
    ensures
        len == byte_length(text@),
{
    text.as_bytes().len()
}

/// The texts of a list of strings.
pub open spec fn texts(list: Seq<String>) -> Seq<Seq<char>> {
    list.map_values(|s: String| s@)
}

/// Copies a list of strings.
pub fn copy_texts(list: &Vec<String>) -> (out: Vec<String>)
    ensures
        texts(out@) == texts(list@),
        out@ == list@,
{
    let mut out: Vec<String> = Vec::new();
    let mut i: usize = 0;
    while i < list.len()
        invariant
            i <= list.len(),
            out@ == list@.take(i as int),
        decreases list.len() - i,
    {
        proof {
            assert(list@.take(i + 1) =~= list@.take(i as int).push(list@[i as int]));
        }
        out.push(list[i].clone());
        i = i + 1;
    }
    assert(list@.take(list@.len() as int) =~= list@);
    out
}

/// Adds a text at the end of a list.
pub fn push_to_list(list: &mut Vec<String>, text: &str)
    ensures
        texts(final(list)@) == texts(old(list)@).push(text@),
{
    let ghost before = list@;
    list.push(String::from_str(text));
    assert(texts(list@) =~= texts(before).push(text@));
}

/// Whether `text` occurs in the list.
pub fn list_contains(list: &Vec<String>, text: &str) -> (found: bool)
    ensures
        found == texts(list@).contains(text@),
{
    let mut i: usize = 0;
    while i < list.len()
        invariant
            i <= list.len(),
            forall|k: int| 0 <= k < i ==> texts(list@)[k] != text@,
        decreases list.len() - i,
    {
        if same_text(list[i].as_str(), text) {
            assert(texts(list@)[i as int] == text@);
            return true;
        }
        i = i + 1;
    }
    false
}

/// The characters `from` to `to` as a text.
pub fn slice_text(chars: &[char], from: usize, to: usize) -> (out: String)
    requires
        from <= to <= chars.len(),
    ensures
        out@ == chars@.subrange(from as int, to as int),
{
    let mut out = String::new();
    let mut i: usize = from;
    while i < to
        invariant
            from <= i <= to <= chars.len(),
            out@ == chars@.subrange(from as int, i as int),
        decreases to - i,
    {
        proof {
            assert(chars@.subrange(from as int, i + 1) =~= chars@.subrange(
                from as int,
                i as int,
            ).push(chars@[i as int]));
        }
        out.push(chars[i]);
        i = i + 1;
    }
    out
}

/// The characters of the Unicode property `White_Space`.
pub open spec fn white(c: char) -> bool {
    ||| '\u{9}' <= c <= '\u{d}'
    ||| c == '\u{20}'
    ||| c == '\u{85}'
    ||| c == '\u{a0}'
    ||| c == '\u{1680}'
    ||| '\u{2000}' <= c <= '\u{200a}'
    ||| c == '\u{2028}'
    ||| c == '\u{2029}'
    ||| c == '\u{202f}'
    ||| c == '\u{205f}'
    ||| c == '\u{3000}'
}

/// Whether a character is white space.
pub fn is_white(c: char) -> (r: bool)
    ensures
        r == white(c),
{
    ('\u{9}' <= c && c <= '\u{d}') || c == '\u{20}' || c == '\u{85}' || c == '\u{a0}' || c
        == '\u{1680}' || ('\u{2000}' <= c && c <= '\u{200a}') || c == '\u{2028}' || c == '\u{2029}'
        || c == '\u{202f}' || c == '\u{205f}' || c == '\u{3000}'
}

/// The length of the run of other characters that `text` starts with.
pub open spec fn word_length(text: Seq<char>) -> nat
    decreases text.len(),
{
    if text.len() == 0 || white(text[0]) {
        0
    } else {
        1 + word_length(text.skip(1))
    }
}

pub proof fn lemma_word_length(text: Seq<char>)
    ensures
        word_length(text) <= text.len(),
        forall|i: int| 0 <= i < word_length(text) ==> !white(text[i]),
        word_length(text) < text.len() ==> white(text[word_length(text) as int]),
    decreases text.len(),
{
    if text.len() == 0 || white(text[0]) {
    } else {
        lemma_word_length(text.skip(1));
        assert forall|i: int| 0 <= i < word_length(text) implies !white(text[i]) by {
            if i > 0 {
                assert(text.skip(1)[i - 1] == text[i]);
            }
        }
    }
}

/// The words of a text: its maximal runs of characters other than white space,
/// in order.
pub open spec fn words(text: Seq<char>) -> Seq<Seq<char>>
    decreases text.len(),
{
    if text.len() == 0 {
        Seq::empty()
    } else if white(text[0]) {
        words(text.skip(1))
    } else {
        proof {
            lemma_word_length(text);
        }
        let k = word_length(text) as int;
        seq![text.take(k)] + words(text.skip(k))
    }
}

/// The words of a text.
pub fn split_whitespace(text: &str) -> (out: Vec<String>)
    ensures
        texts(out@) == words(text@),
{
    let chars = chars_of(text);
    let mut out: Vec<String> = Vec::new();
    let mut i: usize = 0;
    assert(chars@.skip(0) =~= chars@);
    assert(texts(out@) + words(chars@) =~= words(chars@));
    while i < chars.len()
        invariant
            i <= chars.len(),
            chars@ == text@,
            texts(out@) + words(chars@.skip(i as int)) == words(text@),
        decreases chars.len() - i,
    {
        let ghost rest = chars@.skip(i as int);
        if is_white(chars[i]) {
            assert(rest.skip(1) =~= chars@.skip(i + 1));
            i = i + 1;
        } else {
            let start: usize = i;
            let ghost k = word_length(rest);
            proof {
                lemma_word_length(rest);
            }
            i = i + 1;
            while i < chars.len() && !is_white(chars[i])
                invariant
                    start < i <= chars.len(),
                    rest == chars@.skip(start as int),
                    k == word_length(rest),
                    k <= rest.len(),
                    forall|j: int| 0 <= j < k ==> !white(rest[j]),
                    k < rest.len() ==> white(rest[k as int]),
                    i - start <= k,
                decreases chars.len() - i,
            {
                assert(rest[i - start] == chars@[i as int]);
                i = i + 1;
            }
            assert(i < chars.len() ==> rest[i - start] == chars@[i as int]);
            assert(i - start == k);
            let word = slice_text(&chars, start, i);
            let ghost before = texts(out@);
            proof {
                assert(rest.take(k as int) =~= word@);
                assert(rest.skip(k as int) =~= chars@.skip(i as int));
                assert(texts(out@.push(word)) =~= before.push(word@));
                assert(before.push(word@) + words(chars@.skip(i as int)) =~= before + (seq![
                    word@,
                ] + words(chars@.skip(i as int))));
            }
            out.push(word);
        }
    }
    assert(words(chars@.skip(i as int)) =~= Seq::<Seq<char>>::empty());
    assert(texts(out@) + Seq::<Seq<char>>::empty() =~= texts(out@));
    out
}

/// The parts joined by a separator.
pub open spec fn joined(parts: Seq<Seq<char>>, separator: Seq<char>) -> Seq<char>
    decreases parts.len(),
{
    if parts.len() == 0 {
        Seq::empty()
    } else if parts.len() == 1 {
        parts[0]
    } else {
        joined(parts.drop_last(), separator) + separator + parts.last()
    }
}

/// Joins the parts by a separator.
pub fn join(parts: &Vec<String>, separator: &str) -> (out: String)
    ensures
        out@ == joined(texts(parts@), separator@),
{
    let mut out = String::new();
    let mut i: usize = 0;
    assert(texts(parts@).take(0) =~= Seq::<Seq<char>>::empty());
    while i < parts.len()
        invariant
            i <= parts.len(),
            out@ == joined(texts(parts@).take(i as int), separator@),
        decreases parts.len() - i,
    {
        let ghost before = texts(parts@).take(i as int);
        let ghost after = texts(parts@).take(i + 1);
        assert(after.drop_last() =~= before);
        assert(after.last() == parts@[i as int]@);
        if i > 0 {
            push_text(&mut out, separator);
        } else {
            assert(before =~= Seq::<Seq<char>>::empty());
            assert(out@ + after.last() =~= after[0]);
        }
        push_text(&mut out, parts[i].as_str());
        i = i + 1;
    }
    assert(texts(parts@).take(parts@.len() as int) =~= texts(parts@));
    out
}


/// Whether `needle` stands in `text` from position `at` on.
pub open spec fn occurs_at(text: Seq<char>, needle: Seq<char>, at: int) -> bool {
    &&& 0 <= at
    &&& at + needle.len() <= text.len()
    &&& text.subrange(at, at + needle.len()) == needle
}

/// Whether `needle` occurs in `text`.
pub open spec fn occurs(text: Seq<char>, needle: Seq<char>) -> bool {
    exists|at: int| occurs_at(text, needle, at)
}

/// Whether `needle` stands in `text` from position `at` on.
pub fn stands_at(text: &[char], needle: &[char], at: usize) -> (r: bool)
    ensures
        r == occurs_at(text@, needle@, at as int),
{
    if at > text.len() || needle.len() > text.len() - at {
        return false;
    }
    let mut i: usize = 0;
    while i < needle.len()
        invariant
            at <= text.len(),
            needle.len() <= text.len() - at,
            i <= needle.len(),
            forall|k: int| 0 <= k < i ==> text@[at + k] == needle@[k],
        decreases needle.len() - i,
    {
        if text[at + i] != needle[i] {
            assert(text@.subrange(at as int, at + needle.len())[i as int] != needle@[i as int]);
            return false;
        }
        i = i + 1;
    }
    assert(text@.subrange(at as int, at + needle@.len()) =~= needle@);
    true
}

/// Whether `needle` occurs in `text`.
pub fn contains_chars(text: &[char], needle: &[char]) -> (r: bool)
    ensures
        r == occurs(text@, needle@),
{
    let mut at: usize = 0;
    while at < text.len()
        invariant
            at <= text.len(),
            forall|k: int| 0 <= k < at ==> !occurs_at(text@, needle@, k),
        decreases text.len() - at,
    {
        if stands_at(text, needle, at) {
            return true;
        }
        at = at + 1;
    }
    stands_at(text, needle, at)
}

/// Whether `needle` occurs in `text`.
pub fn contains(text: &str, needle: &str) -> (r: bool)
    ensures
        r == occurs(text@, needle@),
{
    let text_chars = chars_of(text);
    let needle_chars = chars_of(needle);
    contains_chars(&text_chars, &needle_chars)
}

/// Whether `text` begins with `prefix`.
pub open spec fn begins_with(text: Seq<char>, prefix: Seq<char>) -> bool {
    prefix.len() <= text.len() && text.take(prefix.len() as int) == prefix
}

/// What follows `prefix` in `text`, where `text` begins with it.
pub fn strip_prefix(text: &str, prefix: &str) -> (rest: Option<String>)
    ensures
        rest is Some <==> begins_with(text@, prefix@),
        rest matches Some(r) ==> r@ == text@.skip(prefix@.len() as int),
{
    let text_chars = chars_of(text);
    let prefix_chars = chars_of(prefix);
    if stands_at(&text_chars, &prefix_chars, 0) {
        assert(text@.take(prefix@.len() as int) =~= text@.subrange(0, prefix@.len() as int));
        let rest = slice_text(&text_chars, prefix_chars.len(), text_chars.len());
        assert(rest@ =~= text@.skip(prefix@.len() as int));
        Some(rest)
    } else {
        assert(prefix@.len() <= text@.len() ==> text@.take(prefix@.len() as int) =~= text@.subrange(
            0,
            prefix@.len() as int,
        ));
        None
    }
}

/// The position of the first `mark` in `text`, or its length.
pub open spec fn first_mark(text: Seq<char>, mark: char) -> nat
    decreases text.len(),
{
    if text.len() == 0 || text[0] == mark {
        0
    } else {
        1 + first_mark(text.skip(1), mark)
    }
}

pub proof fn lemma_first_mark(text: Seq<char>, mark: char)
    ensures
        first_mark(text, mark) <= text.len(),
        forall|i: int| 0 <= i < first_mark(text, mark) ==> text[i] != mark,
        first_mark(text, mark) < text.len() ==> text[first_mark(text, mark) as int] == mark,
    decreases text.len(),
{
    if text.len() == 0 || text[0] == mark {
    } else {
        lemma_first_mark(text.skip(1), mark);
        assert forall|i: int| 0 <= i < first_mark(text, mark) implies text[i] != mark by {
            if i > 0 {
                assert(text.skip(1)[i - 1] == text[i]);
            }
        }
    }
}

/// The pieces of `text` between its marks: one more than there are marks.
pub open spec fn pieces(text: Seq<char>, mark: char) -> Seq<Seq<char>>
    decreases text.len(),
{
    let k = first_mark(text, mark) as int;
    proof {
        lemma_first_mark(text, mark);
    }
    if k >= text.len() {
        seq![text]
    } else {
        seq![text.take(k)] + pieces(text.skip(k + 1), mark)
    }
}

/// Splits a text at every `mark`.
pub fn split_at_mark(text: &str, mark: char) -> (out: Vec<String>)
    ensures
        texts(out@) == pieces(text@, mark),
{
    let chars = chars_of(text);
    let mut out: Vec<String> = Vec::new();
    let mut start: usize = 0;
    let mut i: usize = 0;
    assert(chars@.skip(0) =~= chars@);
    assert(texts(out@) + pieces(chars@, mark) =~= pieces(chars@, mark));
    while i < chars.len()
        invariant
            start <= i <= chars.len(),
            chars@ == text@,
            forall|j: int| start <= j < i ==> chars@[j] != mark,
            texts(out@) + pieces(chars@.skip(start as int), mark) == pieces(text@, mark),
        decreases chars.len() - i,
    {
        if chars[i] == mark {
            let ghost rest = chars@.skip(start as int);
            let piece = slice_text(&chars, start, i);
            let ghost before = texts(out@);
            proof {
                lemma_first_mark(rest, mark);
                assert(rest[i - start] == mark);
                let k = first_mark(rest, mark);
                assert(k == i - start) by {
                    if k < i - start {
                        assert(rest[k as int] == chars@[start + k]);
                    }
                }
                assert(rest.take(k as int) =~= piece@);
                assert(rest.skip(k as int + 1) =~= chars@.skip(i + 1));
                assert(texts(out@.push(piece)) =~= before.push(piece@));
                assert(before.push(piece@) + pieces(chars@.skip(i + 1), mark) =~= before + (seq![
                    piece@,
                ] + pieces(chars@.skip(i + 1), mark)));
            }
            out.push(piece);
            start = i + 1;
        }
        i = i + 1;
    }
    let ghost rest = chars@.skip(start as int);
    let piece = slice_text(&chars, start, chars.len());
    let ghost before = texts(out@);
    proof {
        lemma_first_mark(rest, mark);
        let k = first_mark(rest, mark);
        assert(k == rest.len()) by {
            if k < rest.len() {
                assert(rest[k as int] == chars@[start + k]);
            }
        }
        assert(rest =~= piece@);
        assert(texts(out@.push(piece)) =~= before.push(piece@));
        assert(before + seq![piece@] =~= before.push(piece@));
    }
    out.push(piece);
    out
}

/// The lower-case form of a text, as `str::to_lowercase` gives it.
pub uninterp spec fn lowercase(text: Seq<char>) -> Seq<char>;

/// Whether all characters of a text are ASCII characters.
pub open spec fn is_ascii_text(text: Seq<char>) -> bool {
    forall|i: int| 0 <= i < text.len() ==> (#[trigger] text[i] as u32) < 128
}

/// The lower-case form of an ASCII character.
pub open spec fn ascii_lower(c: char) -> char {
    if 'A' <= c && c <= 'Z' {
        ((c as u8 + 32) as u8) as char
    } else {
        c
    }
}

/// `str::to_lowercase`: the result is a function of the text alone. ASCII
/// letters become their small forms and other ASCII characters stay. A
/// character becomes one or more, never none. What the Unicode case tables hold
/// of other characters is left unsaid.
#[verifier::external_body]
pub(crate) fn to_lowercase(text: &str) -> (out: String)
    ensures
        out@ == lowercase(text@),
        is_ascii_text(text@) ==> out@ == text@.map_values(|c: char| ascii_lower(c)),
        text@.len() > 0 ==> out@.len() > 0,
{
    text.to_lowercase()
}

/// Whether `char::is_alphanumeric` holds of a character.
pub uninterp spec fn alphanumeric(c: char) -> bool;

/// `char::is_alphanumeric`: the answer is a function of the character alone.
/// What the Unicode tables hold is left unsaid.
#[verifier::external_body]
pub(crate) fn is_alphanumeric(c: char) -> (r: bool)
    ensures
        r == alphanumeric(c),
{
    c.is_alphanumeric()
}

/// A number below one hundred in two decimal digits.
pub open spec fn two_digits(n: int) -> Seq<char> {
    seq![digit_char(n / 10), digit_char(n % 10)]
}

/// Appends a number below one hundred in two decimal digits.
pub fn push_two_digits(text: &mut String, n: u64)
    requires
        n < 100,
    ensures
        final(text)@ == old(text)@ + two_digits(n as int),
{
    text.push(digit_of((n / 10) as u8));
    text.push(digit_of((n % 10) as u8));
    assert(text@ =~= old(text)@ + two_digits(n as int));
}

/// A number in decimal, filled up with leading zeros to four digits.
pub open spec fn four_digits(n: nat) -> Seq<char> {
    if n < 10 {
        seq!['0', '0', '0'] + decimal(n)
    } else if n < 100 {
        seq!['0', '0'] + decimal(n)
    } else if n < 1000 {
        seq!['0'] + decimal(n)
    } else {
        decimal(n)
    }
}

/// Appends a number in decimal, filled up with leading zeros to four digits.
pub fn push_four_digits(text: &mut String, n: u64)
    ensures
        final(text)@ == old(text)@ + four_digits(n as nat),
{
    if n < 1000 {
        text.push('0');
    }
    if n < 100 {
        text.push('0');
    }
    if n < 10 {
        text.push('0');
    }
    push_decimal(text, n as u128);
    assert(text@ =~= old(text)@ + four_digits(n as nat));
}


/// The place of the first kept element, or the length.
pub open spec fn first_kept(keep: Seq<bool>) -> nat
    decreases keep.len(),
{
    if keep.len() == 0 || keep[0] {
        0
    } else {
        1 + first_kept(keep.skip(1))
    }
}

/// The place after the last kept element, or zero.
pub open spec fn kept_end(keep: Seq<bool>) -> nat
    decreases keep.len(),
{
    if keep.len() == 0 || keep.last() {
        keep.len()
    } else {
        kept_end(keep.drop_last())
    }
}

pub proof fn lemma_first_kept(keep: Seq<bool>)
    ensures
        first_kept(keep) <= keep.len(),
        forall|i: int| 0 <= i < first_kept(keep) ==> !keep[i],
        first_kept(keep) < keep.len() ==> keep[first_kept(keep) as int],
    decreases keep.len(),
{
    if keep.len() == 0 || keep[0] {
    } else {
        lemma_first_kept(keep.skip(1));
        assert forall|i: int| 0 <= i < first_kept(keep) implies !keep[i] by {
            if i > 0 {
                assert(keep.skip(1)[i - 1] == keep[i]);
            }
        }
    }
}

pub proof fn lemma_kept_end(keep: Seq<bool>)
    ensures
        kept_end(keep) <= keep.len(),
        forall|i: int| kept_end(keep) <= i < keep.len() ==> !keep[i],
        kept_end(keep) > 0 ==> keep[kept_end(keep) - 1],
    decreases keep.len(),
{
    if keep.len() == 0 || keep.last() {
    } else {
        lemma_kept_end(keep.drop_last());
        assert forall|i: int| kept_end(keep) <= i < keep.len() implies !keep[i] by {
            if i < keep.len() - 1 {
                assert(keep.drop_last()[i] == keep[i]);
            }
        }
    }
}

/// What is left of a text when the characters at both ends that are not kept
/// are taken away.
pub open spec fn trimmed(text: Seq<char>, keep: Seq<bool>) -> Seq<char> {
    if first_kept(keep) < kept_end(keep) {
        text.subrange(first_kept(keep) as int, kept_end(keep) as int)
    } else {
        Seq::empty()
    }
}

/// The bounds of what is kept when the ends are trimmed; equal where nothing
/// is kept.
pub fn trim_bounds(keep: &Vec<bool>) -> (bounds: (usize, usize))
    ensures
        first_kept(keep@) < kept_end(keep@) ==> bounds.0 == first_kept(keep@) && bounds.1
            == kept_end(keep@),
        first_kept(keep@) >= kept_end(keep@) ==> bounds.0 == bounds.1,
        bounds.0 <= bounds.1 <= keep.len(),
{
    let mut start: usize = 0;
    while start < keep.len() && !keep[start]
        invariant
            start <= keep.len(),
            forall|i: int| 0 <= i < start ==> !keep@[i],
        decreases keep.len() - start,
    {
        start = start + 1;
    }
    let mut end: usize = keep.len();
    while end > start && !keep[end - 1]
        invariant
            start <= end <= keep.len(),
            forall|i: int| end <= i < keep.len() ==> !keep@[i],
        decreases end,
    {
        end = end - 1;
    }
    proof {
        lemma_first_kept(keep@);
        lemma_kept_end(keep@);
        if start < keep@.len() {
            assert(keep@[start as int]);
            assert(first_kept(keep@) == start);
            assert(end > start);
            assert(kept_end(keep@) == end);
        } else {
            assert(first_kept(keep@) == keep@.len());
        }
    }
    (start, end)
}

/// Trims a text.
pub fn trim_text(chars: &[char], keep: &Vec<bool>) -> (out: String)
    requires
        keep.len() == chars.len(),
    ensures
        out@ == trimmed(chars@, keep@),
{
    let (start, end) = trim_bounds(keep);
    let out = slice_text(chars, start, end);
    assert(start == end ==> out@ =~= Seq::<char>::empty());
    out
}


/// Which characters of a text are not white space.
pub open spec fn solid_places(text: Seq<char>) -> Seq<bool> {
    text.map_values(|c: char| !white(c))
}

/// A text without the white space at its ends.
pub open spec fn stripped(text: Seq<char>) -> Seq<char> {
    trimmed(text, solid_places(text))
}

/// Takes the white space at both ends away.
pub fn trim_white(text: &str) -> (out: String)
    ensures
        out@ == stripped(text@),
{
    let chars = chars_of(text);
    let mut keep: Vec<bool> = Vec::new();
    let mut i: usize = 0;
    while i < chars.len()
        invariant
            i <= chars.len(),
            chars@ == text@,
            keep@ == solid_places(text@).take(i as int),
        decreases chars.len() - i,
    {
        proof {
            assert(solid_places(text@).take(i + 1) =~= solid_places(text@).take(i as int).push(
                !white(text@[i as int]),
            ));
        }
        keep.push(!is_white(chars[i]));
        i = i + 1;
    }
    assert(keep@ =~= solid_places(text@));
    trim_text(&chars, &keep)
}


/// The number of bytes that a character takes in UTF-8.
pub open spec fn char_width(c: char) -> nat {
    if c <= '\u{7f}' {
        1
    } else if c <= '\u{7ff}' {
        2
    } else if c <= '\u{ffff}' {
        3
    } else {
        4
    }
}

/// The number of bytes of a character.
pub fn width_of(c: char) -> (n: usize)
    ensures
        n == char_width(c),
{
    if c <= '\u{7f}' {
        1
    } else if c <= '\u{7ff}' {
        2
    } else if c <= '\u{ffff}' {
        3
    } else {
        4
    }
}

/// The bytes of a text are those of its parts.
pub proof fn lemma_encoding_of_parts(a: Seq<char>, b: Seq<char>)
    ensures
        vstd::utf8::encode_utf8(a + b) == vstd::utf8::encode_utf8(a) + vstd::utf8::encode_utf8(b),
        byte_length(a + b) == byte_length(a) + byte_length(b),
    decreases a.len(),
{
    if a.len() == 0 {
        assert(a + b =~= b);
        assert(vstd::utf8::encode_utf8(a) + vstd::utf8::encode_utf8(b) =~= vstd::utf8::encode_utf8(
            b,
        ));
    } else {
        lemma_encoding_of_parts(a.drop_first(), b);
        assert((a + b).drop_first() =~= a.drop_first() + b);
        assert((a + b)[0] == a[0]);
        assert(vstd::utf8::encode_utf8(a + b) =~= vstd::utf8::encode_utf8(a)
            + vstd::utf8::encode_utf8(b));
    }
}

/// One more character adds its width.
pub proof fn lemma_byte_length_push(text: Seq<char>, c: char)
    ensures
        byte_length(text.push(c)) == byte_length(text) + char_width(c),
{
    let one = seq![c];
    assert(text.push(c) =~= text + one);
    lemma_encoding_of_parts(text, one);
    vstd::utf8::char_is_scalar(c);
    assert(one.drop_first() =~= Seq::<char>::empty());
    assert(vstd::utf8::encode_utf8(one.drop_first()).len() == 0);
    assert(vstd::utf8::encode_utf8(one) == vstd::utf8::encode_scalar(one[0] as u32)
        + vstd::utf8::encode_utf8(one.drop_first()));
}

/// A text has at least as many bytes as characters, and none without a
/// character.
pub proof fn lemma_byte_length_bounds(text: Seq<char>)
    ensures
        text.len() <= byte_length(text),
        text.len() == 0 <==> byte_length(text) == 0,
    decreases text.len(),
{
    if text.len() > 0 {
        lemma_byte_length_bounds(text.drop_last());
        lemma_byte_length_push(text.drop_last(), text.last());
        assert(text.drop_last().push(text.last()) =~= text);
    }
}

// ---------------------------------------------------------------------------
// What the words above mean
// ---------------------------------------------------------------------------

/// A text holds what stands between two parts of it, and what it holds stands
/// between two parts of it.
pub proof fn a_text_holds_what_stands_in_it(
    text: Seq<char>,
    before: Seq<char>,
    needle: Seq<char>,
    after: Seq<char>,
)
    ensures
        occurs_at(before + needle + after, needle, before.len() as int),
        occurs(before + needle + after, needle),
        occurs(text, needle) ==> exists|at: int|
            #![trigger text.take(at)]
            0 <= at <= text.len() - needle.len() && text == text.take(at) + needle + text.skip(
                at + needle.len(),
            ),
{
    let whole = before + needle + after;
    let at = before.len() as int;
    assert(whole.subrange(at, at + needle.len()) =~= needle);
    assert(occurs_at(whole, needle, at));
    if occurs(text, needle) {
        let at = choose|at: int| occurs_at(text, needle, at);
        assert(text =~= text.take(at) + text.subrange(at, at + needle.len()) + text.skip(
            at + needle.len(),
        ));
        assert(text.take(at).len() == at);
    }
}

/// A text begins with what it is made of first.
pub proof fn a_text_begins_with_its_first_part(head: Seq<char>, tail: Seq<char>, other: Seq<char>)
    ensures
        begins_with(head + tail, head),
        begins_with(head + tail, other) && other.len() == head.len() ==> other == head,
        !begins_with(head, head + tail) || tail.len() == 0,
{
    assert((head + tail).take(head.len() as int) =~= head);
}

/// White space parts words: the words of two texts with white space between
/// them are the words of the one and then those of the other, a text without
/// white space is one word, and no text has no word.
pub proof fn white_space_parts_words(a: Seq<char>, gap: char, b: Seq<char>)
    ensures
        white(gap) ==> words(a.push(gap) + b) == words(a) + words(b),
        a.len() > 0 && (forall|i: int| 0 <= i < a.len() ==> !white(#[trigger] a[i])) ==> words(a)
            == seq![a],
        words(Seq::empty()) == Seq::<Seq<char>>::empty(),
    decreases a.len(),
{
    if a.len() > 0 && (forall|i: int| 0 <= i < a.len() ==> !white(#[trigger] a[i])) {
        lemma_word_length(a);
        assert(!white(a[0]));
        assert(word_length(a) == a.len()) by {
            if word_length(a) < a.len() {
                assert(white(a[word_length(a) as int]));
            }
        }
        assert(a.take(a.len() as int) =~= a);
        assert(a.skip(a.len() as int) =~= Seq::<char>::empty());
        assert(words(a.skip(a.len() as int)) =~= Seq::<Seq<char>>::empty());
        assert(words(a) =~= seq![a]);
    }
    if white(gap) {
        let whole = a.push(gap) + b;
        if a.len() == 0 {
            assert(whole.skip(1) =~= b);
            assert(words(whole) == words(b));
            assert(words(a) + words(b) =~= words(b));
        } else if white(a[0]) {
            assert(whole.skip(1) =~= a.skip(1).push(gap) + b);
            white_space_parts_words(a.skip(1), gap, b);
        } else {
            lemma_word_length(a);
            lemma_word_length(whole);
            let k = word_length(a) as int;
            assert(word_length(whole) == k) by {
                let w = word_length(whole) as int;
                if w < k {
                    assert(white(whole[w]));
                    assert(whole[w] == a[w]);
                } else if w > k {
                    assert(!white(whole[k]));
                    if k < a.len() {
                        assert(whole[k] == a[k]);
                    } else {
                        assert(whole[k] == gap);
                    }
                }
            }
            assert(k > 0);
            assert(whole.take(k) =~= a.take(k));
            assert(whole.skip(k) =~= a.skip(k).push(gap) + b);
            white_space_parts_words(a.skip(k), gap, b);
            assert(words(whole) =~= words(a) + words(b));
        }
    }
}

/// Every word is a run of characters without white space, and none is empty.
pub proof fn words_are_solid(text: Seq<char>)
    ensures
        forall|k: int, i: int|
            0 <= k < words(text).len() && 0 <= i < words(text)[k].len() ==> !white(
                #[trigger] words(text)[k][i],
            ),
        forall|k: int| 0 <= k < words(text).len() ==> (#[trigger] words(text)[k]).len() > 0,
    decreases text.len(),
{
    if text.len() == 0 {
        assert(words(text).len() == 0);
    } else {
        if white(text[0]) {
            words_are_solid(text.skip(1));
            assert(words(text) == words(text.skip(1)));
        } else {
            lemma_word_length(text);
            let n = word_length(text) as int;
            let rest = text.skip(n);
            words_are_solid(rest);
            let all = words(text);
            assert(all == seq![text.take(n)] + words(rest));
            assert(n > 0);
            assert forall|k: int, i: int|
                0 <= k < all.len() && 0 <= i < all[k].len() implies !white(
                #[trigger] all[k][i],
            ) by {
                if k == 0 {
                    assert(all[0] == text.take(n));
                } else {
                    assert(all[k] == words(rest)[k - 1]);
                }
            }
            assert forall|k: int| 0 <= k < all.len() implies (#[trigger] all[k]).len() > 0 by {
                if k > 0 {
                    assert(all[k] == words(rest)[k - 1]);
                }
            }
        }
    }
}

/// What white space is, and what it is not: none of the printed ASCII
/// characters.
pub proof fn printed_characters_are_not_white(c: char)
    ensures
        white(' ') && white('\t') && white('\n') && white('\r') && white('\u{a0}') && white(
            '\u{3000}',
        ),
        '!' <= c <= '~' ==> !white(c),
{
}

/// A text that is split at a mark and joined by it again is the same text, no
/// piece holds the mark, and two texts with the mark between them have the
/// pieces of both.
pub proof fn splitting_and_joining_undo_each_other(text: Seq<char>, mark: char)
    ensures
        joined(pieces(text, mark), seq![mark]) == text,
        pieces(text, mark).len() > 0,
        forall|k: int, i: int|
            0 <= k < pieces(text, mark).len() && 0 <= i < pieces(text, mark)[k].len()
                ==> #[trigger] pieces(text, mark)[k][i] != mark,
    decreases text.len(),
{
    lemma_first_mark(text, mark);
    let n = first_mark(text, mark) as int;
    let all = pieces(text, mark);
    if n >= text.len() {
        assert(all =~= seq![text]);
    } else {
        let rest = text.skip(n + 1);
        splitting_and_joining_undo_each_other(rest, mark);
        let more = pieces(rest, mark);
        assert(all =~= seq![text.take(n)] + more);
        joining_goes_piece_by_piece(seq![text.take(n)], more, seq![mark]);
        assert(joined(seq![text.take(n)], seq![mark]) == text.take(n));
        assert(text =~= text.take(n) + seq![mark] + rest);
        assert forall|k: int, i: int| 0 <= k < all.len() && 0 <= i < all[k].len() implies
            #[trigger] all[k][i] != mark by {
            if k > 0 {
                assert(all[k] == more[k - 1]);
            }
        }
    }
}

/// What is joined in two parts is joined as a whole.
pub proof fn joining_goes_piece_by_piece(a: Seq<Seq<char>>, b: Seq<Seq<char>>, separator: Seq<char>)
    requires
        a.len() > 0,
        b.len() > 0,
    ensures
        joined(a + b, separator) == joined(a, separator) + separator + joined(b, separator),
        joined(seq![a[0]], separator) == a[0],
        joined(Seq::empty(), separator) == Seq::<char>::empty(),
    decreases b.len(),
{
    let whole = a + b;
    assert(whole.last() == b.last());
    if b.len() == 1 {
        assert(whole.drop_last() =~= a);
        assert(b =~= seq![b[0]]);
    } else {
        assert(whole.drop_last() =~= a + b.drop_last());
        joining_goes_piece_by_piece(a, b.drop_last(), separator);
        assert(joined(whole, separator) =~= joined(a, separator) + separator + joined(b, separator));
    }
}

/// What is left of a text when the white space at its ends is taken away begins
/// and ends with something else, and only white space was taken away.
pub proof fn only_white_space_is_stripped(text: Seq<char>) -> (bounds: (int, int))
    ensures
        0 <= bounds.0 <= bounds.1 <= text.len(),
        stripped(text) == text.subrange(bounds.0, bounds.1),
        forall|i: int| 0 <= i < bounds.0 || bounds.1 <= i < text.len() ==> white(#[trigger] text[i]),
        stripped(text).len() > 0 ==> !white(stripped(text)[0]) && !white(stripped(text).last()),
{
    let keep = solid_places(text);
    lemma_first_kept(keep);
    lemma_kept_end(keep);
    let from = first_kept(keep) as int;
    let to = kept_end(keep) as int;
    if from < to {
        assert forall|i: int| 0 <= i < from || to <= i < text.len() implies white(
            #[trigger] text[i],
        ) by {
            assert(!keep[i]);
        }
        assert(keep[from]);
        assert(keep[to - 1]);
        (from, to)
    } else {
        assert forall|i: int| 0 <= i < text.len() implies white(#[trigger] text[i]) by {
            assert(!keep[i]);
        }
        assert(text.subrange(0, 0) =~= Seq::<char>::empty());
        (0, 0)
    }
}

/// The number that decimal digits stand for.
pub open spec fn number_of(digits: Seq<char>) -> int
    decreases digits.len(),
{
    if digits.len() == 0 {
        0
    } else {
        number_of(digits.drop_last()) * 10 + (digits.last() as u32 - 48)
    }
}

/// The digits of a number stand for it, are digits, and do not begin with a
/// zero unless the number is zero.
pub proof fn digits_stand_for_their_number(n: nat)
    ensures
        number_of(decimal(n)) == n,
        decimal(n).len() > 0,
        forall|i: int| 0 <= i < decimal(n).len() ==> '0' <= #[trigger] decimal(n)[i] <= '9',
        n > 0 ==> decimal(n)[0] != '0',
        n == 0 ==> decimal(n) == seq!['0'],
    decreases n,
{
    if n < 10 {
        assert(decimal(n).drop_last() =~= Seq::<char>::empty());
        assert(number_of(decimal(n).drop_last()) == 0);
        if n == 0 {
            assert(decimal(n) =~= seq!['0']);
        }
    } else {
        digits_stand_for_their_number(n / 10);
        assert(decimal(n).drop_last() =~= decimal(n / 10));
        assert(decimal(n)[0] == decimal(n / 10)[0]);
    }
}

/// A number below one hundred has two digits, and one below ten thousand four
/// with its leading zeros; either way they stand for it.
pub proof fn leading_zeros_change_nothing(n: nat)
    ensures
        n < 100 ==> two_digits(n as int).len() == 2 && number_of(two_digits(n as int)) == n,
        number_of(four_digits(n)) == n,
        n < 10_000 ==> four_digits(n).len() == 4,
        n >= 1000 ==> four_digits(n) == decimal(n),
{
    digits_stand_for_their_number(n);
    lemma_leading_zeros(decimal(n), 1);
    lemma_leading_zeros(decimal(n), 2);
    lemma_leading_zeros(decimal(n), 3);
    assert(seq!['0', '0', '0'] =~= Seq::new(3, |i: int| '0'));
    assert(seq!['0', '0'] =~= Seq::new(2, |i: int| '0'));
    assert(seq!['0'] =~= Seq::new(1, |i: int| '0'));
    if n < 10 {
        assert(decimal(n).len() == 1);
    } else if n < 100 {
        assert(decimal(n / 10).len() == 1);
        assert(decimal(n).len() == 2);
    } else if n < 1000 {
        assert(decimal(n / 10 / 10).len() == 1);
        assert(decimal(n / 10).len() == 2);
        assert(decimal(n).len() == 3);
    } else if n < 10_000 {
        assert(decimal(n / 10 / 10 / 10).len() == 1);
        assert(decimal(n / 10 / 10).len() == 2);
        assert(decimal(n / 10).len() == 3);
        assert(decimal(n).len() == 4);
    }
    if n < 100 {
        let two = two_digits(n as int);
        let one = seq![digit_char(n as int / 10)];
        assert(two.drop_last() =~= one);
        assert(one.drop_last() =~= Seq::<char>::empty());
        assert(number_of(one.drop_last()) == 0);
        assert(number_of(one) == n as int / 10);
    }
}

proof fn lemma_leading_zeros(digits: Seq<char>, k: nat)
    ensures
        number_of(Seq::new(k, |i: int| '0') + digits) == number_of(digits),
    decreases k + digits.len(),
{
    let zeros = Seq::new(k, |i: int| '0');
    let all = zeros + digits;
    if digits.len() > 0 {
        lemma_leading_zeros(digits.drop_last(), k);
        assert(all.drop_last() =~= zeros + digits.drop_last());
    } else if k > 0 {
        lemma_leading_zeros(digits, (k - 1) as nat);
        assert(all.drop_last() =~= Seq::new((k - 1) as nat, |i: int| '0') + digits);
    } else {
        assert(all =~= digits);
    }
}

/// The twenty-five characters that are white space.
pub proof fn white_space_is_what_unicode_says(c: char)
    ensures
        white(c) <==> (0x09 <= c as u32 <= 0x0D || c as u32 == 0x20 || c as u32 == 0x85 || c as u32
            == 0xA0 || c as u32 == 0x1680 || 0x2000 <= c as u32 <= 0x200A || c as u32 == 0x2028
            || c as u32 == 0x2029 || c as u32 == 0x202F || c as u32 == 0x205F || c as u32
            == 0x3000),
{
}

/// A capital letter of ASCII becomes the small one, 32 places on; every other
/// character stays.
pub proof fn only_capital_letters_become_small(c: char)
    ensures
        0x41 <= c as u32 <= 0x5A ==> ascii_lower(c) as u32 == c as u32 + 32,
        !(0x41 <= c as u32 <= 0x5A) ==> ascii_lower(c) == c,
{
}

} // verus!
