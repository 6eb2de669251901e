//! Secrets that are taken out of the text that tools return.

use vstd::prelude::*;

use crate::double::Double;
use crate::message;
use crate::message::{ResultPartView, ResultView, ToolResult, ToolResultPart};
use crate::middleware::dispatch::{DispatchView, ToolDispatchResult};
use crate::selection;
use crate::text;

verus! {

// ---------------------------------------------------------------------------
// Patterns
// ---------------------------------------------------------------------------

/// The header of a bearer token.
pub const BEARER: &'static str = r#"(?i)authorization:\s*bearer\s+[A-Za-z0-9\-._~+/=]+"#;

/// A key, token or secret with its value.
pub const API_KEY_KV: &'static str =
    r#"(?i)(?:api[_-]?key|token|secret)\s*[=:]\s*["']?[A-Za-z0-9]{16,}["']?"#;

/// The id of an AWS access key.
pub const AWS_ACCESS_KEY: &'static str = r"A(?:KIA|SIA|GPA)[0-9A-Z]{16}";

/// A PEM block with a private key.
pub const PEM_PRIVATE_KEY: &'static str =
    r"-----BEGIN [A-Z ]*PRIVATE KEY-----[\s\S]*?-----END [A-Z ]*PRIVATE KEY-----";

/// A personal access token of GitHub.
pub const GITHUB_PAT: &'static str = r"gh[pousr]_[A-Za-z0-9]{36,}";

/// A personal access token of GitLab.
pub const GITLAB_PAT: &'static str = r"glpat-[A-Za-z0-9_\-]{20}";

/// Whether `regex::Regex::new` accepts a pattern.
pub uninterp spec fn is_regex(pattern: Seq<char>) -> bool;

/// The number of matches that `regex::Regex::find_iter` finds.
pub uninterp spec fn matches_in(pattern: Seq<char>, text: Seq<char>) -> nat;

/// What `regex::Regex::replace_all` gives.
pub uninterp spec fn replacement(
    pattern: Seq<char>,
    text: Seq<char>,
    placeholder: Seq<char>,
) -> Seq<char>;

/// Asks `regex::Regex::new` whether a pattern is one. The answer depends on
/// the pattern alone; which patterns there are is left unsaid.
#[verifier::external_body]
fn compiles(pattern: &str) -> (r: bool)
    ensures
        r == is_regex(pattern@),
{
    regex::Regex::new(pattern).is_ok()
}

/// Counts the matches that `regex::Regex::find_iter` finds. Their number
/// depends on the pattern and the text alone; what a pattern matches is left
/// unsaid.
#[verifier::external_body]
fn count_matches(pattern: &str, text: &str) -> (n: usize)
    requires
        is_regex(pattern@),
    ensures
        n == matches_in(pattern@, text@),
{
    regex::Regex::new(pattern).map_or(0, |re| re.find_iter(text).count())
}

/// Replaces the matches with `regex::Regex::replace_all`. The result depends on
/// the pattern, the text and the placeholder alone; what a pattern matches is
/// left unsaid.
#[verifier::external_body]
fn replace_matches(pattern: &str, text: &str, placeholder: &str) -> (out: String)
    requires
        is_regex(pattern@),
    ensures
        out@ == replacement(pattern@, text@, placeholder@),
{
    match regex::Regex::new(pattern) {
        Ok(re) => re.replace_all(text, placeholder).into_owned(),
        Err(_) => String::from(text),
    }
}

/// A pattern of secrets and the name of what it finds.
#[derive(Debug)]
pub struct SecretPattern {
    kind: String,
    pattern: String,
}

/// What a pattern of secrets says.
pub struct PatternView {
    pub kind: Seq<char>,
    pub pattern: Seq<char>,
}

impl View for SecretPattern {
    type V = PatternView;

    closed spec fn view(&self) -> PatternView {
        PatternView { kind: self.kind@, pattern: self.pattern@ }
    }
}

impl SecretPattern {
    #[verifier::type_invariant]
    spec fn well_formed(&self) -> bool {
        is_regex(self.pattern@)
    }

    /// A pattern under a name; nothing where it is no regular expression.
    pub fn new(kind: &str, pattern: &str) -> (r: Option<Self>)
        ensures
            match r {
                Some(p) => is_regex(pattern@) && p@ == (PatternView {
                    kind: kind@,
                    pattern: pattern@,
                }),
                None => !is_regex(pattern@),
            },
    {
        if compiles(pattern) {
            Some(
                SecretPattern {
                    kind: String::from_str(kind),
                    pattern: String::from_str(pattern),
                },
            )
        } else {
            None
        }
    }
}

/// What patterns of secrets say.
pub open spec fn pattern_views(list: Seq<SecretPattern>) -> Seq<PatternView> {
    list.map_values(|p: SecretPattern| p@)
}

/// What stands in place of a secret.
pub open spec fn placeholder(kind: Seq<char>) -> Seq<char> {
    "[REDACTED:"@ + kind + "]"@
}

/// A sum held at the largest count.
pub open spec fn counted(a: nat, b: nat) -> nat {
    if a + b <= usize::MAX {
        a + b
    } else {
        usize::MAX as nat
    }
}

/// A text and the number of secrets found so far, after the first `n` patterns.
pub open spec fn replaced(patterns: Seq<PatternView>, text: Seq<char>, n: nat) -> (Seq<char>, nat)
    decreases n,
{
    if n == 0 {
        (text, 0)
    } else {
        let before = replaced(patterns, text, (n - 1) as nat);
        let p = patterns[n - 1];
        let hits = matches_in(p.pattern, before.0);
        (
            if hits > 0 {
                replacement(p.pattern, before.0, placeholder(p.kind))
            } else {
                before.0
            },
            counted(before.1, hits),
        )
    }
}

// ---------------------------------------------------------------------------
// Tokens that look random
// ---------------------------------------------------------------------------

/// The number of characters from which a token is looked at.
pub const MIN_ENTROPY_TOKEN_LEN: usize = 32;

/// The bits of the entropy from which a token counts as random: 4.5.
pub const ENTROPY_THRESHOLD: u64 = 0x4012_0000_0000_0000;

/// The arithmetic of double-precision numbers that entropies need.
pub trait EntropyArithmetic {
    /// The Shannon entropy, in bits, of bytes that occur `counts` times out of
    /// `total`.
    fn entropy(&self, counts: &Vec<u64>, total: u64) -> (r: Double);
}

/// Whether a character can stand in a token.
pub open spec fn in_token(c: char) -> bool {
    ||| 'a' <= c <= 'z'
    ||| 'A' <= c <= 'Z'
    ||| '0' <= c <= '9'
    ||| c == '+'
    ||| c == '/'
    ||| c == '='
    ||| c == '-'
    ||| c == '_'
}

/// Whether a character can stand in a token.
pub fn is_token_char(c: char) -> (r: bool)
    ensures
        r == in_token(c),
{
    ('a' <= c && c <= 'z') || ('A' <= c && c <= 'Z') || ('0' <= c && c <= '9') || c == '+' || c
        == '/' || c == '=' || c == '-' || c == '_'
}

/// Which characters of a piece can stand in a token.
pub open spec fn token_places(piece: Seq<char>) -> Seq<bool> {
    piece.map_values(|c: char| in_token(c))
}

/// The token in a piece: what is left when the ends are trimmed.
pub open spec fn token(piece: Seq<char>) -> Seq<char> {
    text::trimmed(piece, token_places(piece))
}

/// Whether a piece with this entropy in its token is redacted.
pub open spec fn qualifies(piece: Seq<char>, entropy: Double) -> bool {
    &&& token(piece).len() >= MIN_ENTROPY_TOKEN_LEN
    &&& !entropy.under(Double { bits: ENTROPY_THRESHOLD })
}

/// A piece, with its token redacted where it qualifies.
pub open spec fn piece_redacted(piece: Seq<char>, entropy: Double) -> Seq<char> {
    if qualifies(piece, entropy) {
        let keep = token_places(piece);
        piece.take(text::first_kept(keep) as int) + placeholder("high_entropy"@) + piece.skip(
            text::kept_end(keep) as int,
        )
    } else {
        piece
    }
}

/// The pieces with their tokens redacted where they qualify.
pub open spec fn pieces_redacted(pieces: Seq<Seq<char>>, entropies: Seq<Double>) -> Seq<Seq<char>> {
    Seq::new(pieces.len(), |i: int| piece_redacted(pieces[i], entropies[i]))
}

/// The number of the first `n` pieces that qualify.
pub open spec fn redactions(pieces: Seq<Seq<char>>, entropies: Seq<Double>, n: nat) -> nat
    decreases n,
{
    if n == 0 {
        0
    } else {
        redactions(pieces, entropies, (n - 1) as nat) + if qualifies(
            pieces[n - 1],
            entropies[n - 1],
        ) {
            1nat
        } else {
            0
        }
    }
}

/// A text without the tokens that look random, and how many there were.
pub open spec fn calmed(text: Seq<char>, entropies: Seq<Double>) -> (Seq<char>, nat) {
    let pieces = text::pieces(text, ' ');
    (
        text::joined(pieces_redacted(pieces, entropies), " "@),
        redactions(pieces, entropies, pieces.len()),
    )
}

/// How often a byte occurs.
pub open spec fn occurrences(bytes: Seq<u8>, b: u8) -> nat
    decreases bytes.len(),
{
    if bytes.len() == 0 {
        0
    } else {
        occurrences(bytes.drop_last(), b) + if bytes.last() == b {
            1nat
        } else {
            0
        }
    }
}

proof fn lemma_occurrences(bytes: Seq<u8>, b: u8)
    ensures
        occurrences(bytes, b) <= bytes.len(),
    decreases bytes.len(),
{
    if bytes.len() > 0 {
        lemma_occurrences(bytes.drop_last(), b);
    }
}

/// How often each byte occurs.
pub fn byte_counts(bytes: &[u8]) -> (counts: Vec<u64>)
    ensures
        counts@.len() == 256,
        forall|b: u8| #[trigger] counts@[b as int] == occurrences(bytes@, b),
{
    let mut counts: Vec<u64> = Vec::new();
    let mut k: usize = 0;
    while k < 256
        invariant
            k <= 256,
            counts.len() == k,
            forall|j: int| 0 <= j < k ==> #[trigger] counts@[j] == 0,
        decreases 256 - k,
    {
        counts.push(0);
        k = k + 1;
    }
    let mut i: usize = 0;
    assert(bytes@.take(0) =~= Seq::<u8>::empty());
    while i < bytes.len()
        invariant
            i <= bytes.len(),
            counts.len() == 256,
            forall|b: u8| #[trigger] counts@[b as int] == occurrences(bytes@.take(i as int), b),
        decreases bytes.len() - i,
    {
        let byte: u8 = bytes[i];
        proof {
            assert(bytes@.take(i + 1).drop_last() =~= bytes@.take(i as int));
            assert(bytes@.take(i + 1).last() == byte);
            lemma_occurrences(bytes@.take(i as int), byte);
            assert(counts@[byte as int] <= i);
        }
        let count: u64 = counts[byte as usize];
        counts.set(byte as usize, count + 1);
        i = i + 1;
    }
    assert(bytes@.take(i as int) =~= bytes@);
    counts
}

fn token_mask(chars: &[char]) -> (keep: Vec<bool>)
    ensures
        keep@ == token_places(chars@),
{
    let mut keep: Vec<bool> = Vec::new();
    let mut i: usize = 0;
    while i < chars.len()
        invariant
            i <= chars.len(),
            keep@ == token_places(chars@).take(i as int),
        decreases chars.len() - i,
    {
        assert(token_places(chars@).take(i + 1) =~= token_places(chars@).take(i as int).push(
            in_token(chars@[i as int]),
        ));
        keep.push(is_token_char(chars[i]));
        i = i + 1;
    }
    assert(keep@ =~= token_places(chars@));
    keep
}

/// The token in a piece.
pub fn token_core(piece: &str) -> (out: String)
    ensures
        out@ == token(piece@),
{
    let chars = text::chars_of(piece);
    let keep = token_mask(&chars);
    text::trim_text(&chars, &keep)
}

/// The piece, with its token redacted where it qualifies, and whether it did.
pub fn redact_piece(piece: &str, entropy: Double) -> (out: (String, bool))
    ensures
        out.0@ == piece_redacted(piece@, entropy),
        out.1 == qualifies(piece@, entropy),
{
    let chars = text::chars_of(piece);
    let keep = token_mask(&chars);
    let found = text::trim_text(&chars, &keep);
    let length: usize = text::chars_of(found.as_str()).len();
    if length < MIN_ENTROPY_TOKEN_LEN || entropy.below(Double::from_bits(ENTROPY_THRESHOLD)) {
        return (String::from_str(piece), false);
    }
    proof {
        text::lemma_first_kept(keep@);
        text::lemma_kept_end(keep@);
    }
    let (start, end) = text::trim_bounds(&keep);
    let mut out = text::slice_text(&chars, 0, start);
    let tail = text::slice_text(&chars, end, chars.len());
    assert(chars@.subrange(0, start as int) =~= piece@.take(start as int));
    assert(chars@.subrange(end as int, chars@.len() as int) =~= piece@.skip(end as int));
    let mark = placeholder_text("high_entropy");
    text::push_text(&mut out, mark.as_str());
    text::push_text(&mut out, tail.as_str());
    (out, true)
}

fn placeholder_text(kind: &str) -> (out: String)
    ensures
        out@ == placeholder(kind@),
{
    let mut out = String::from_str("[REDACTED:");
    text::push_text(&mut out, kind);
    text::push_text(&mut out, "]");
    out
}

/// The token of a piece stands in it once only: nothing else in the piece is
/// taken for it.
pub proof fn a_token_stands_once(piece: Seq<char>, at: int)
    requires
        token(piece).len() > 0,
        text::occurs_at(piece, token(piece), at),
    ensures
        at == text::first_kept(token_places(piece)),
{
    let keep = token_places(piece);
    let c = token(piece);
    text::lemma_first_kept(keep);
    text::lemma_kept_end(keep);
    let from = text::first_kept(keep) as int;
    let to = text::kept_end(keep) as int;
    assert(from < to);
    let here = piece.subrange(at, at + c.len());
    if at < from {
        assert(!keep[at]);
        assert(here[0] == c[0]);
        assert(c[0] == piece[from]);
        assert(keep[from]);
    } else if at > from {
        let last = at + c.len() - 1;
        assert(!keep[last]);
        assert(here[c.len() - 1] == c[c.len() - 1]);
        assert(c[c.len() - 1] == piece[to - 1]);
        assert(keep[to - 1]);
    }
}

/// Redacts a text, given the entropy of the token in each of its pieces.
pub fn calm(text: &str, entropies: &Vec<Double>) -> (out: (String, usize))
    requires
        entropies@.len() == text::pieces(text@, ' ').len(),
    ensures
        (out.0@, out.1 as nat) == calmed(text@, entropies@),
{
    let pieces = text::split_at_mark(text, ' ');
    let ghost all = text::pieces(text@, ' ');
    let ghost want = pieces_redacted(all, entropies@);
    let mut parts: Vec<String> = Vec::new();
    let mut count: usize = 0;
    let mut i: usize = 0;
    assert(text::texts(parts@) =~= want.take(0));
    while i < pieces.len()
        invariant
            i <= pieces.len(),
            count <= i,
            all == text::texts(pieces@),
            entropies@.len() == all.len(),
            want == pieces_redacted(all, entropies@),
            text::texts(parts@) == want.take(i as int),
            count == redactions(all, entropies@, i as nat),
        decreases pieces.len() - i,
    {
        assert(all[i as int] == pieces@[i as int]@);
        let (part, hit) = redact_piece(pieces[i].as_str(), entropies[i]);
        assert(want.take(i + 1) =~= want.take(i as int).push(part@));
        text::push_to_list(&mut parts, part.as_str());
        if hit {
            count = count + 1;
        }
        i = i + 1;
    }
    assert(want.take(i as int) =~= want);
    (text::join(&parts, " "), count)
}

/// Whether an entropy is what the host's formula gives for the bytes of a token.
pub open spec fn is_entropy<A: EntropyArithmetic>(
    arithmetic: A,
    token: Seq<char>,
    entropy: Double,
) -> bool {
    let bytes = vstd::utf8::encode_utf8(token);
    exists|counts: &Vec<u64>, total: u64|
        {
            &&& counts@.len() == 256
            &&& forall|b: u8| #[trigger] counts@[b as int] == occurrences(bytes, b)
            &&& total == bytes.len()
            &&& #[trigger] call_ensures(A::entropy, (&arithmetic, counts, total), entropy)
        }
}

/// Whether `entropies` are those of the tokens in the pieces of a text.
pub open spec fn are_entropies<A: EntropyArithmetic>(
    arithmetic: A,
    text: Seq<char>,
    entropies: Seq<Double>,
) -> bool {
    let pieces = text::pieces(text, ' ');
    &&& entropies.len() == pieces.len()
    &&& forall|i: int|
        0 <= i < pieces.len() ==> is_entropy(arithmetic, token(pieces[i]), #[trigger] entropies[i])
}

/// Redacts the tokens that look random.
pub fn scrub_high_entropy<A: EntropyArithmetic>(arithmetic: &A, text: &str) -> (out: (
    String,
    usize,
))
    ensures
        exists|entropies: Seq<Double>|
            {
                &&& are_entropies(*arithmetic, text@, entropies)
                &&& (out.0@, out.1 as nat) == #[trigger] calmed(text@, entropies)
            },
{
    let pieces = text::split_at_mark(text, ' ');
    let ghost all = text::pieces(text@, ' ');
    let mut entropies: Vec<Double> = Vec::new();
    let mut i: usize = 0;
    while i < pieces.len()
        invariant
            i <= pieces.len(),
            entropies.len() == i,
            all == text::texts(pieces@),
            forall|k: int|
                0 <= k < i ==> is_entropy(*arithmetic, token(all[k]), #[trigger] entropies@[k]),
        decreases pieces.len() - i,
    {
        assert(all[i as int] == pieces@[i as int]@);
        let found = token_core(pieces[i].as_str());
        let counts = byte_counts(found.as_str().as_bytes());
        let total: u64 = text::byte_len(found.as_str()) as u64;
        let entropy = arithmetic.entropy(&counts, total);
        assert(is_entropy(*arithmetic, token(all[i as int]), entropy));
        entropies.push(entropy);
        i = i + 1;
    }
    assert(are_entropies(*arithmetic, text@, entropies@));
    assert(text::texts(pieces@).len() == pieces@.len());
    let out = calm(text, &entropies);
    assert((out.0@, out.1 as nat) == calmed(text@, entropies@));
    out
}

// ---------------------------------------------------------------------------
// Sets of patterns
// ---------------------------------------------------------------------------

/// The patterns that are looked for, and whether tokens that look random are
/// redacted too.
#[derive(Debug)]
pub struct SecretPatternSet {
    patterns: Vec<SecretPattern>,
    entropy_heuristic: bool,
}

/// What a set goes by.
pub struct SetView {
    pub patterns: Seq<PatternView>,
    pub entropy_heuristic: bool,
}

impl View for SecretPatternSet {
    type V = SetView;

    closed spec fn view(&self) -> SetView {
        SetView {
            patterns: pattern_views(self.patterns@),
            entropy_heuristic: self.entropy_heuristic,
        }
    }
}

/// The patterns of a list that are regular expressions.
pub open spec fn usable(list: Seq<PatternView>) -> Seq<PatternView>
    decreases list.len(),
{
    if list.len() == 0 {
        list
    } else {
        let before = usable(list.drop_last());
        if is_regex(list.last().pattern) {
            before.push(list.last())
        } else {
            before
        }
    }
}

/// The patterns of a set that nobody changed.
pub open spec fn common_patterns() -> Seq<PatternView> {
    seq![
        PatternView { kind: "bearer"@, pattern: BEARER@ },
        PatternView { kind: "api_key_kv"@, pattern: API_KEY_KV@ },
        PatternView { kind: "aws_access_key"@, pattern: AWS_ACCESS_KEY@ },
        PatternView { kind: "pem_private_key"@, pattern: PEM_PRIVATE_KEY@ },
        PatternView { kind: "github_pat"@, pattern: GITHUB_PAT@ },
        PatternView { kind: "gitlab_pat"@, pattern: GITLAB_PAT@ },
    ]
}

/// A text without its secrets, and how many there were.
pub open spec fn scrubbed(set: SetView, text: Seq<char>, entropies: Seq<Double>) -> (
    Seq<char>,
    nat,
) {
    let first = replaced(set.patterns, text, set.patterns.len());
    if set.entropy_heuristic {
        let second = calmed(first.0, entropies);
        (second.0, counted(first.1, second.1))
    } else {
        first
    }
}

/// The text that is looked at for tokens that look random.
pub open spec fn without_patterns(set: SetView, text: Seq<char>) -> Seq<char> {
    replaced(set.patterns, text, set.patterns.len()).0
}

/// Whether `after` and `count` are what scrubbing a text comes to.
pub open spec fn is_scrub<A: EntropyArithmetic>(
    arithmetic: A,
    set: SetView,
    before: Seq<char>,
    after: Seq<char>,
    count: nat,
) -> bool {
    exists|entropies: Seq<Double>|
        {
            &&& set.entropy_heuristic ==> are_entropies(
                arithmetic,
                without_patterns(set, before),
                entropies,
            )
            &&& #[trigger] scrubbed(set, before, entropies) == (after, count)
        }
}

fn add_curated(patterns: &mut Vec<SecretPattern>, kind: &str, literal: &str)
    ensures
        ({
            let p = PatternView { kind: kind@, pattern: literal@ };
            pattern_views(final(patterns)@) == if is_regex(literal@) {
                pattern_views(old(patterns)@).push(p)
            } else {
                pattern_views(old(patterns)@)
            }
        }),
{
    if let Some(p) = SecretPattern::new(kind, literal) {
        let ghost before = patterns@;
        patterns.push(p);
        assert(pattern_views(patterns@) =~= pattern_views(before).push(p@));
    }
}

impl SecretPatternSet {
    /// The patterns that are common everywhere, and tokens that look random.
    pub fn default_common() -> (r: Self)
        ensures
            r@ == (SetView { patterns: usable(common_patterns()), entropy_heuristic: true }),
    {
        let mut patterns: Vec<SecretPattern> = Vec::new();
        let ghost all = common_patterns();
        assert(pattern_views(patterns@) =~= usable(all.take(0)));
        add_curated(&mut patterns, "bearer", BEARER);
        assert(all.take(1).drop_last() =~= all.take(0));
        assert(pattern_views(patterns@) == usable(all.take(1)));
        add_curated(&mut patterns, "api_key_kv", API_KEY_KV);
        assert(all.take(2).drop_last() =~= all.take(1));
        assert(pattern_views(patterns@) == usable(all.take(2)));
        add_curated(&mut patterns, "aws_access_key", AWS_ACCESS_KEY);
        assert(all.take(3).drop_last() =~= all.take(2));
        assert(pattern_views(patterns@) == usable(all.take(3)));
        add_curated(&mut patterns, "pem_private_key", PEM_PRIVATE_KEY);
        assert(all.take(4).drop_last() =~= all.take(3));
        assert(pattern_views(patterns@) == usable(all.take(4)));
        add_curated(&mut patterns, "github_pat", GITHUB_PAT);
        assert(all.take(5).drop_last() =~= all.take(4));
        assert(pattern_views(patterns@) == usable(all.take(5)));
        add_curated(&mut patterns, "gitlab_pat", GITLAB_PAT);
        assert(all.take(6).drop_last() =~= all.take(5));
        assert(pattern_views(patterns@) == usable(all.take(6)));
        assert(all.take(6) =~= all);
        SecretPatternSet { patterns, entropy_heuristic: true }
    }

    /// The set with one more pattern.
    pub fn with_pattern(self, pattern: SecretPattern) -> (r: Self)
        ensures
            r@ == (SetView { patterns: self@.patterns.push(pattern@), ..self@ }),
    {
        let mut r = self;
        let ghost before = r.patterns@;
        r.patterns.push(pattern);
        assert(pattern_views(r.patterns@) =~= pattern_views(before).push(pattern@));
        r
    }

    /// The set with tokens that look random redacted, or not.
    pub fn with_entropy_heuristic(self, enabled: bool) -> (r: Self)
        ensures
            r@ == (SetView { entropy_heuristic: enabled, ..self@ }),
    {
        let mut r = self;
        r.entropy_heuristic = enabled;
        r
    }

    /// A text without what the patterns find, and how much that was.
    pub fn apply_patterns(&self, text: &str) -> (out: (String, usize))
        ensures
            (out.0@, out.1 as nat) == replaced(self@.patterns, text@, self@.patterns.len()),
    {
        let ghost all = self@.patterns;
        let mut now = String::from_str(text);
        let mut count: usize = 0;
        let mut i: usize = 0;
        while i < self.patterns.len()
            invariant
                i <= self.patterns.len(),
                all == pattern_views(self.patterns@),
                (now@, count as nat) == replaced(all, text@, i as nat),
            decreases self.patterns.len() - i,
        {
            let p = &self.patterns[i];
            proof {
                use_type_invariant(p);
                assert(all[i as int] == p@);
            }
            let hits: usize = count_matches(p.pattern.as_str(), now.as_str());
            if hits > 0 {
                let mark = placeholder_text(p.kind.as_str());
                now = replace_matches(p.pattern.as_str(), now.as_str(), mark.as_str());
            }
            count = count.saturating_add(hits);
            i = i + 1;
        }
        (now, count)
    }

    /// Takes the secrets out of a text, and says how many there were.
    pub fn scrub<A: EntropyArithmetic>(&self, arithmetic: &A, text: &mut String) -> (count: usize)
        ensures
            is_scrub(*arithmetic, self@, old(text)@, final(text)@, count as nat),
    {
        let ghost before = text@;
        let (replaced_text, hits) = self.apply_patterns(text.as_str());
        if self.entropy_heuristic {
            let (calm_text, more) = scrub_high_entropy(arithmetic, replaced_text.as_str());
            proof {
                let e = choose|e: Seq<Double>|
                    {
                        &&& are_entropies(*arithmetic, replaced_text@, e)
                        &&& (calm_text@, more as nat) == #[trigger] calmed(replaced_text@, e)
                    };
                let total = counted(hits as nat, more as nat);
                assert(scrubbed(self@, before, e) == (calm_text@, total));
            }
            *text = calm_text;
            hits.saturating_add(more)
        } else {
            proof {
                let e = Seq::<Double>::empty();
                assert(scrubbed(self@, before, e) == (replaced_text@, hits as nat));
            }
            *text = replaced_text;
            hits
        }
    }
}

// ---------------------------------------------------------------------------
// The layer
// ---------------------------------------------------------------------------

/// Takes secrets out of what tools return.
#[derive(Debug)]
pub struct RedactingMiddleware {
    patterns: SecretPatternSet,
}

/// Whether a text is what scrubbing another leaves.
pub open spec fn is_scrubbed<A: EntropyArithmetic>(
    arithmetic: A,
    set: SetView,
    before: Seq<char>,
    after: Seq<char>,
) -> bool {
    exists|count: nat| #[trigger] is_scrub(arithmetic, set, before, after, count)
}

/// Whether a part is what scrubbing another leaves; an image stays.
pub open spec fn part_is_scrubbed<A: EntropyArithmetic>(
    arithmetic: A,
    set: SetView,
    before: ResultPartView,
    after: ResultPartView,
) -> bool {
    match before {
        ResultPartView::Text { text } => after matches ResultPartView::Text { text: cleaned }
            && is_scrubbed(arithmetic, set, text, cleaned),
        ResultPartView::Image { .. } => after == before,
    }
}

/// Whether a result is what scrubbing another leaves: each of its texts is.
pub open spec fn output_is_scrubbed<A: EntropyArithmetic>(
    arithmetic: A,
    set: SetView,
    before: ResultView,
    after: ResultView,
) -> bool {
    match before {
        ResultView::Text(text) => after matches ResultView::Text(cleaned) && is_scrubbed(
            arithmetic,
            set,
            text,
            cleaned,
        ),
        ResultView::Multipart(parts) => after matches ResultView::Multipart(cleaned)
            && cleaned.len() == parts.len() && (forall|i: int|
            0 <= i < parts.len() ==> part_is_scrubbed(
            arithmetic,
            set,
            parts[i],
            #[trigger] cleaned[i],
        )),
    }
}

fn scrub_part<A: EntropyArithmetic>(
    arithmetic: &A,
    set: &SecretPatternSet,
    part: &ToolResultPart,
) -> (out: ToolResultPart)
    ensures
        part_is_scrubbed(*arithmetic, set@, part@, out@),
{
    match part {
        ToolResultPart::Image { source } => ToolResultPart::Image { source: source.clone() },
        ToolResultPart::Text { text } => {
            let mut cleaned = String::from_str(text.as_str());
            let count: usize = set.scrub(arithmetic, &mut cleaned);
            assert(is_scrub(*arithmetic, set@, text@, cleaned@, count as nat));
            ToolResultPart::Text { text: cleaned }
        },
    }
}

/// Takes the secrets out of the texts of a result.
pub fn rewrite_text_parts<A: EntropyArithmetic>(
    arithmetic: &A,
    output: &ToolResult,
    set: &SecretPatternSet,
) -> (out: ToolResult)
    ensures
        output_is_scrubbed(*arithmetic, set@, output@, out@),
{
    match output {
        ToolResult::Text(text) => {
            let mut cleaned = String::from_str(text.as_str());
            let count: usize = set.scrub(arithmetic, &mut cleaned);
            assert(is_scrub(*arithmetic, set@, text@, cleaned@, count as nat));
            ToolResult::Text(cleaned)
        },
        ToolResult::Multipart(parts) => {
            let ghost all = message::result_parts(parts@);
            let mut cleaned: Vec<ToolResultPart> = Vec::new();
            let mut i: usize = 0;
            while i < parts.len()
                invariant
                    i <= parts.len(),
                    cleaned.len() == i,
                    all == message::result_parts(parts@),
                    forall|k: int|
                        0 <= k < i ==> part_is_scrubbed(
                            *arithmetic,
                            set@,
                            all[k],
                            (#[trigger] cleaned@[k])@,
                        ),
                decreases parts.len() - i,
            {
                assert(all[i as int] == parts@[i as int]@);
                cleaned.push(scrub_part(arithmetic, set, &parts[i]));
                i = i + 1;
            }
            proof {
                let got = message::result_parts(cleaned@);
                assert forall|k: int| 0 <= k < all.len() implies part_is_scrubbed(
                    *arithmetic,
                    set@,
                    all[k],
                    #[trigger] got[k],
                ) by {
                    assert(got[k] == cleaned@[k]@);
                }
            }
            ToolResult::Multipart(cleaned)
        },
    }
}

impl RedactingMiddleware {
    /// The set that the layer goes by.
    pub closed spec fn set_view(&self) -> SetView {
        self.patterns@
    }

    /// A layer with these patterns.
    pub fn new(patterns: SecretPatternSet) -> (r: Self)
        ensures
            r.set_view() == patterns@,
    {
        RedactingMiddleware { patterns }
    }

    /// The name of the layer.
    pub fn name(&self) -> (r: &'static str)
        ensures
            r@ == "redaction"@,
    {
        "redaction"
    }

    /// What the layer makes of a result. Only its texts change.
    pub fn after_dispatch<A: EntropyArithmetic>(
        &self,
        arithmetic: &A,
        result: ToolDispatchResult,
    ) -> (out: ToolDispatchResult)
        ensures
            output_is_scrubbed(*arithmetic, self.set_view(), result@.output, out@.output),
            out@ == (DispatchView { output: out@.output, ..result@ }),
    {
        let mut out = result;
        out.output = rewrite_text_parts(arithmetic, &out.output, &self.patterns);
        out
    }
}

/// With nothing to look for, a text stays as it is.
pub proof fn without_patterns_nothing_changes(text: Seq<char>, entropies: Seq<Double>)
    ensures
        scrubbed(
            SetView { patterns: Seq::empty(), entropy_heuristic: false },
            text,
            entropies,
        ) == (text, 0nat),
{
}

/// A piece too short to hold such a token is never taken for a random one.
pub proof fn short_pieces_stay(piece: Seq<char>, entropy: Double)
    requires
        token(piece).len() < MIN_ENTROPY_TOKEN_LEN,
    ensures
        piece_redacted(piece, entropy) == piece,
{
}

/// Each pattern is applied to what the ones before it left, whatever they
/// found: where it matches, its matches are replaced by the mark of its kind;
/// where it does not, the text stays. Its matches are added to the count.
pub proof fn every_pattern_is_applied(patterns: Seq<PatternView>, text: Seq<char>, n: nat)
    requires
        0 < n <= patterns.len(),
    ensures
        ({
            let p = patterns[n - 1];
            let left = replaced(patterns, text, (n - 1) as nat);
            let now = replaced(patterns, text, n);
            &&& matches_in(p.pattern, left.0) > 0 ==> now.0 == replacement(
                p.pattern,
                left.0,
                "[REDACTED:"@ + p.kind + "]"@,
            )
            &&& matches_in(p.pattern, left.0) == 0 ==> now == left
            &&& left.1 + matches_in(p.pattern, left.0) <= usize::MAX ==> now.1 == left.1
                + matches_in(p.pattern, left.0)
            &&& left.1 + matches_in(p.pattern, left.0) > usize::MAX ==> now.1 == usize::MAX
        }),
{
    lemma_count_bounded(patterns, text, (n - 1) as nat);
}

proof fn lemma_count_bounded(patterns: Seq<PatternView>, text: Seq<char>, n: nat)
    ensures
        replaced(patterns, text, n).1 <= usize::MAX,
    decreases n,
{
    if n > 0 {
        lemma_count_bounded(patterns, text, (n - 1) as nat);
    }
}

/// One list of patterns after another does what the second does to what the
/// first leaves, and finds what both find.
pub proof fn lists_of_patterns_apply_in_turn(
    first: Seq<PatternView>,
    second: Seq<PatternView>,
    text: Seq<char>,
    n: nat,
)
    requires
        n <= second.len(),
    ensures
        ({
            let left = replaced(first, text, first.len());
            let rest = replaced(second, left.0, n);
            let both = replaced(first + second, text, first.len() + n);
            &&& both.0 == rest.0
            &&& left.1 + rest.1 <= usize::MAX ==> both.1 == left.1 + rest.1
            &&& left.1 + rest.1 > usize::MAX ==> both.1 == usize::MAX
        }),
    decreases n,
{
    let all = first + second;
    if n == 0 {
        lemma_same_patterns(first, all, text, first.len());
        lemma_count_bounded(first, text, first.len());
    } else {
        lists_of_patterns_apply_in_turn(first, second, text, (n - 1) as nat);
        assert(all[first.len() + n - 1] == second[n - 1]);
        let left = replaced(first, text, first.len());
        lemma_count_bounded(second, left.0, n);
        lemma_count_bounded(first, text, first.len());
    }
}

proof fn lemma_same_patterns(a: Seq<PatternView>, b: Seq<PatternView>, text: Seq<char>, n: nat)
    requires
        n <= a.len(),
        n <= b.len(),
        forall|i: int| 0 <= i < n ==> a[i] == b[i],
    ensures
        replaced(a, text, n) == replaced(b, text, n),
    decreases n,
{
    if n > 0 {
        lemma_same_patterns(a, b, text, (n - 1) as nat);
        assert(a[n - 1] == b[n - 1]);
    }
}

/// A single pattern replaces its matches in the text itself.
pub proof fn a_single_pattern_replaces_its_matches(p: PatternView, text: Seq<char>)
    ensures
        replaced(seq![p], text, 1).0 == if matches_in(p.pattern, text) > 0 {
            replacement(p.pattern, text, "[REDACTED:"@ + p.kind + "]"@)
        } else {
            text
        },
        matches_in(p.pattern, text) <= usize::MAX ==> replaced(seq![p], text, 1).1 == matches_in(
            p.pattern,
            text,
        ),
{
    assert(replaced(seq![p], text, 0) == (text, 0nat));
    every_pattern_is_applied(seq![p], text, 1);
}

/// A token reaches from the first character of a piece that can stand in one to
/// the last. From 32 characters and an entropy of 4.5 bits on it is replaced by
/// the mark, and what stands round it stays; otherwise the piece stays whole.
pub proof fn a_random_token_is_replaced(piece: Seq<char>, entropy: Double) -> (ends: (int, int))
    ensures
        0 <= ends.0 <= ends.1 <= piece.len(),
        token(piece) == piece.subrange(ends.0, ends.1),
        forall|i: int| 0 <= i < ends.0 || ends.1 <= i < piece.len() ==> !in_token(#[trigger] piece[i]),
        ends.0 < ends.1 ==> in_token(piece[ends.0]) && in_token(piece[ends.1 - 1]),
        ends.1 - ends.0 >= 32 && !entropy.under(Double { bits: 0x4012_0000_0000_0000 })
            ==> qualifies(piece, entropy) && piece_redacted(piece, entropy) == piece.take(ends.0)
            + "[REDACTED:high_entropy]"@ + piece.skip(ends.1),
        ends.1 - ends.0 < 32 || entropy.under(Double { bits: 0x4012_0000_0000_0000 })
            ==> !qualifies(piece, entropy) && piece_redacted(piece, entropy) == piece,
{
    let keep = token_places(piece);
    text::lemma_first_kept(keep);
    text::lemma_kept_end(keep);
    let from = text::first_kept(keep) as int;
    let to = text::kept_end(keep) as int;
    reveal_strlit("[REDACTED:");
    reveal_strlit("]");
    reveal_strlit("high_entropy");
    reveal_strlit("[REDACTED:high_entropy]");
    assert(placeholder("high_entropy"@) =~= "[REDACTED:high_entropy]"@);
    assert forall|i: int| 0 <= i < from || to <= i < piece.len() implies !in_token(
        #[trigger] piece[i],
    ) by {
        assert(!keep[i]);
    }
    if from < to {
        assert(keep[from]);
        assert(keep[to - 1]);
        (from, to)
    } else {
        if from < piece.len() {
            assert(keep[from]);
            assert(!keep[from]);
        }
        assert(token(piece) =~= piece.subrange(from, from));
        (from, from)
    }
}

/// Letters and digits of ASCII and `+ / = - _` can stand in a token.
pub proof fn tokens_are_spelled_in_base64(c: char)
    ensures
        in_token(c) <==> (0x41 <= c as u32 <= 0x5A || 0x61 <= c as u32 <= 0x7A || 0x30 <= c as u32
            <= 0x39 || c as u32 == 0x2B || c as u32 == 0x2F || c as u32 == 0x3D || c as u32 == 0x2D
            || c as u32 == 0x5F),
{
}

/// Every piece between spaces is looked at by itself, and the spaces stay: the
/// result names the places of the pieces that were redacted, and as many are
/// counted.
pub proof fn every_piece_is_looked_at(text: Seq<char>, entropies: Seq<Double>) -> (places: Seq<int>)
    requires
        entropies.len() == text::pieces(text, ' ').len(),
    ensures
        ({
            let pieces = text::pieces(text, ' ');
            let after = Seq::new(
                pieces.len(),
                |i: int| piece_redacted(pieces[i], entropies[i]),
            );
            &&& calmed(text, entropies).0 == text::joined(after, seq![' '])
            &&& selection::selects(
                places,
                pieces.len(),
                |i: int| qualifies(pieces[i], entropies[i]),
            )
            &&& calmed(text, entropies).1 == places.len()
        }),
{
    let pieces = text::pieces(text, ' ');
    reveal_strlit(" ");
    assert(" "@ =~= seq![' ']);
    assert(pieces_redacted(pieces, entropies) =~= Seq::new(
        pieces.len(),
        |i: int| piece_redacted(pieces[i], entropies[i]),
    ));
    lemma_redactions(pieces, entropies, pieces.len())
}

proof fn lemma_redactions(pieces: Seq<Seq<char>>, entropies: Seq<Double>, n: nat) -> (places: Seq<
    int,
>)
    requires
        n <= pieces.len(),
    ensures
        selection::selects(places, n, |i: int| qualifies(pieces[i], entropies[i])),
        redactions(pieces, entropies, n) == places.len(),
    decreases n,
{
    let rule = |i: int| qualifies(pieces[i], entropies[i]);
    if n == 0 {
        selection::lemma_none(rule);
        Seq::empty()
    } else {
        let before = lemma_redactions(pieces, entropies, (n - 1) as nat);
        selection::lemma_next(before, (n - 1) as nat, rule);
        if rule(n - 1) {
            before.push(n - 1)
        } else {
            before
        }
    }
}

/// A byte occurs as often as there are places at which it stands: the result
/// names them.
pub proof fn every_place_of_a_byte_counts(bytes: Seq<u8>, b: u8) -> (places: Seq<int>)
    ensures
        selection::selects(places, bytes.len(), |i: int| bytes[i] == b),
        occurrences(bytes, b) == places.len(),
    decreases bytes.len(),
{
    let rule = |i: int| bytes[i] == b;
    if bytes.len() == 0 {
        selection::lemma_none(rule);
        Seq::empty()
    } else {
        let fewer = bytes.drop_last();
        let n = fewer.len();
        let before = every_place_of_a_byte_counts(fewer, b);
        let shorter = |i: int| fewer[i] == b;
        assert(selection::selects(before, n, rule)) by {
            assert forall|p: int| 0 <= p < n && #[trigger] rule(p) implies before.contains(p) by {
                assert(shorter(p));
            }
            assert forall|j: int| 0 <= j < before.len() implies 0 <= #[trigger] before[j] < n
                && rule(before[j]) by {
                assert(shorter(before[j]));
            }
        }
        selection::lemma_next(before, n, rule);
        if rule(n as int) {
            before.push(n as int)
        } else {
            before
        }
    }
}

/// The patterns are applied to the text and tokens that look random are looked
/// for in what they leave, where that is asked for; what both find is counted.
pub proof fn patterns_come_before_random_tokens(
    set: SetView,
    text: Seq<char>,
    entropies: Seq<Double>,
)
    ensures
        ({
            let first = replaced(set.patterns, text, set.patterns.len());
            let second = calmed(first.0, entropies);
            &&& without_patterns(set, text) == first.0
            &&& !set.entropy_heuristic ==> scrubbed(set, text, entropies) == first
            &&& set.entropy_heuristic ==> scrubbed(set, text, entropies).0 == second.0
            &&& set.entropy_heuristic && first.1 + second.1 <= usize::MAX ==> scrubbed(
                set,
                text,
                entropies,
            ).1 == first.1 + second.1
            &&& set.entropy_heuristic && first.1 + second.1 > usize::MAX ==> scrubbed(
                set,
                text,
                entropies,
            ).1 == usize::MAX
        }),
{
}

/// Of a list of patterns those are used that are regular expressions, all of
/// them and in order: the result names their places.
pub proof fn every_regular_expression_is_used(list: Seq<PatternView>) -> (places: Seq<int>)
    ensures
        selection::selects(places, list.len(), |i: int| is_regex(list[i].pattern)),
        usable(list) == places.map_values(|i: int| list[i]),
    decreases list.len(),
{
    let rule = |i: int| is_regex(list[i].pattern);
    if list.len() == 0 {
        selection::lemma_none(rule);
        let none = Seq::<int>::empty();
        assert(usable(list) =~= none.map_values(|i: int| list[i]));
        none
    } else {
        let fewer = list.drop_last();
        let n = fewer.len();
        let before = every_regular_expression_is_used(fewer);
        let shorter = |i: int| is_regex(fewer[i].pattern);
        assert(selection::selects(before, n, rule)) by {
            assert forall|p: int| 0 <= p < n && #[trigger] rule(p) implies before.contains(p) by {
                assert(shorter(p));
            }
            assert forall|j: int| 0 <= j < before.len() implies 0 <= #[trigger] before[j] < n
                && rule(before[j]) by {
                assert(shorter(before[j]));
            }
        }
        selection::lemma_next(before, n, rule);
        let places = if rule(n as int) {
            before.push(n as int)
        } else {
            before
        };
        assert(usable(list) =~= places.map_values(|i: int| list[i]));
        places
    }
}

/// The common patterns are six, in this order, and each is known by the name of
/// what it finds.
pub proof fn the_common_patterns_are_six()
    ensures
        common_patterns().len() == 6,
        common_patterns()[0] == (PatternView {
            kind: "bearer"@,
            pattern: r#"(?i)authorization:\s*bearer\s+[A-Za-z0-9\-._~+/=]+"#@,
        }),
        common_patterns()[1] == (PatternView {
            kind: "api_key_kv"@,
            pattern: r#"(?i)(?:api[_-]?key|token|secret)\s*[=:]\s*["']?[A-Za-z0-9]{16,}["']?"#@,
        }),
        common_patterns()[2] == (PatternView {
            kind: "aws_access_key"@,
            pattern: r"A(?:KIA|SIA|GPA)[0-9A-Z]{16}"@,
        }),
        common_patterns()[3] == (PatternView {
            kind: "pem_private_key"@,
            pattern: r"-----BEGIN [A-Z ]*PRIVATE KEY-----[\s\S]*?-----END [A-Z ]*PRIVATE KEY-----"@,
        }),
        common_patterns()[4] == (PatternView {
            kind: "github_pat"@,
            pattern: r"gh[pousr]_[A-Za-z0-9]{36,}"@,
        }),
        common_patterns()[5] == (PatternView {
            kind: "gitlab_pat"@,
            pattern: r"glpat-[A-Za-z0-9_\-]{20}"@,
        }),
{
}

/// A text is scrubbed by the patterns and, where that is asked for, then of the
/// tokens that the host's formula calls random, each judged by the bytes of the
/// token itself: the result names the entropies.
pub proof fn a_text_is_scrubbed_by_both_rules<A: EntropyArithmetic>(
    arithmetic: A,
    set: SetView,
    before: Seq<char>,
    after: Seq<char>,
    count: nat,
) -> (entropies: Seq<Double>)
    requires
        is_scrub(arithmetic, set, before, after, count),
    ensures
        ({
            let left = replaced(set.patterns, before, set.patterns.len());
            let pieces = text::pieces(left.0, ' ');
            &&& !set.entropy_heuristic ==> after == left.0 && count == left.1
            &&& set.entropy_heuristic ==> {
                &&& entropies.len() == pieces.len()
                &&& forall|i: int|
                    0 <= i < pieces.len() ==> is_entropy(
                        arithmetic,
                        token(pieces[i]),
                        #[trigger] entropies[i],
                    )
                &&& after == text::joined(
                    Seq::new(pieces.len(), |i: int| piece_redacted(pieces[i], entropies[i])),
                    seq![' '],
                )
                &&& count >= left.1 || count == usize::MAX
            }
        }),
{
    let entropies = choose|entropies: Seq<Double>|
        {
            &&& set.entropy_heuristic ==> are_entropies(
                arithmetic,
                without_patterns(set, before),
                entropies,
            )
            &&& #[trigger] scrubbed(set, before, entropies) == (after, count)
        };
    if set.entropy_heuristic {
        let left = replaced(set.patterns, before, set.patterns.len());
        let places = every_piece_is_looked_at(left.0, entropies);
    }
    entropies
}

/// An entropy is the host's for how often each byte of the token occurs, out of
/// as many bytes as it has.
pub proof fn an_entropy_is_of_all_bytes<A: EntropyArithmetic>(
    arithmetic: A,
    word: Seq<char>,
    counts: &Vec<u64>,
    total: u64,
    entropy: Double,
)
    requires
        counts@.len() == 256,
        total == vstd::utf8::encode_utf8(word).len(),
        forall|b: u8|
            #![trigger counts@[b as int]]
            counts@[b as int] == occurrences(vstd::utf8::encode_utf8(word), b),
        call_ensures(A::entropy, (&arithmetic, counts, total), entropy),
    ensures
        is_entropy(arithmetic, word, entropy),
{
}

/// Every text of a result is scrubbed, wherever it stands; images and the
/// number and order of the parts stay.
pub proof fn every_text_of_a_result_is_scrubbed<A: EntropyArithmetic>(
    arithmetic: A,
    set: SetView,
    before: ResultView,
    after: ResultView,
    i: int,
)
    requires
        output_is_scrubbed(arithmetic, set, before, after),
    ensures
        before matches ResultView::Text(a) ==> (after matches ResultView::Text(b)
            && exists|count: nat| #[trigger] is_scrub(arithmetic, set, a, b, count)),
        before matches ResultView::Multipart(a) ==> (after matches ResultView::Multipart(b)
            && a.len() == b.len() && (0 <= i < a.len() ==> {
            &&& a[i] is Image ==> b[i] == a[i]
            &&& a[i] is Text ==> b[i] is Text && exists|count: nat| #[trigger]
                is_scrub(arithmetic, set, a[i]->text, b[i]->text, count)
        })),
{
    if let ResultView::Multipart(a) = before {
        if let ResultView::Multipart(b) = after {
            if 0 <= i < a.len() {
                assert(part_is_scrubbed(arithmetic, set, a[i], b[i]));
            }
        }
    }
}

/// The other way round, the host is asked with how often each byte of the token
/// occurs and how many there are, and with nothing else.
pub proof fn an_entropy_is_asked_for_the_token<A: EntropyArithmetic>(
    arithmetic: A,
    word: Seq<char>,
    entropy: Double,
)
    requires
        is_entropy(arithmetic, word, entropy),
    ensures
        exists|counts: &Vec<u64>, total: u64|
            {
                &&& counts@.len() == 256
                &&& forall|b: u8|
                    #![trigger counts@[b as int]]
                    counts@[b as int] == occurrences(vstd::utf8::encode_utf8(word), b)
                &&& total == vstd::utf8::encode_utf8(word).len()
                &&& #[trigger] call_ensures(A::entropy, (&arithmetic, counts, total), entropy)
            },
{
}

} // verus!
