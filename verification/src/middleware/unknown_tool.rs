//! Suggestions for the names of tools that do not exist.

use vstd::prelude::*;

use crate::double::{Double, ONE_BITS};
use crate::error;
use crate::error::ErrorView;
use crate::message::{ResultView, ToolResult};
use crate::middleware::dispatch::{DispatchView, ToolDispatchResult};
use crate::text;

verus! {

/// The bits of the threshold that a layer starts with: two fifths.
pub const DEFAULT_THRESHOLD: u64 = 0x3fd9_9999_9999_999a;

/// The arithmetic of double-precision numbers that similarities need.
pub trait SimilarityArithmetic {
    /// The share that `common` characters are of the `longest` name, and a
    /// tenth of the share that the `prefix` is.
    fn blend(&self, common: u32, prefix: u32, longest: u32) -> (r: Double);
}

// ---------------------------------------------------------------------------
// Longest common subsequences
// ---------------------------------------------------------------------------

/// The length of the longest common subsequence of the first `i` of `a` and the
/// first `j` of `b`.
pub open spec fn lcs(a: Seq<char>, b: Seq<char>, i: nat, j: nat) -> nat
    decreases i, j,
{
    if i == 0 || j == 0 {
        0
    } else if a[i - 1] == b[j - 1] {
        lcs(a, b, (i - 1) as nat, (j - 1) as nat) + 1
    } else {
        let up = lcs(a, b, (i - 1) as nat, j);
        let left = lcs(a, b, i, (j - 1) as nat);
        if up >= left {
            up
        } else {
            left
        }
    }
}

/// The length of the longest common subsequence of two texts.
pub open spec fn common(a: Seq<char>, b: Seq<char>) -> nat {
    lcs(a, b, a.len(), b.len())
}

/// Whether `s` can be had from `t` by leaving characters out.
pub open spec fn is_subsequence(s: Seq<char>, t: Seq<char>) -> bool
    decreases t.len(),
{
    if s.len() == 0 {
        true
    } else if t.len() == 0 {
        false
    } else if s.last() == t.last() && is_subsequence(s.drop_last(), t.drop_last()) {
        true
    } else {
        is_subsequence(s, t.drop_last())
    }
}

proof fn lemma_bounds(a: Seq<char>, b: Seq<char>, i: nat, j: nat)
    ensures
        lcs(a, b, i, j) <= i,
        lcs(a, b, i, j) <= j,
    decreases i, j,
{
    if i > 0 && j > 0 {
        lemma_bounds(a, b, (i - 1) as nat, (j - 1) as nat);
        lemma_bounds(a, b, (i - 1) as nat, j);
        lemma_bounds(a, b, i, (j - 1) as nat);
    }
}

proof fn lemma_subsequence_grows(s: Seq<char>, t: Seq<char>, c: char)
    requires
        is_subsequence(s, t),
    ensures
        is_subsequence(s, t.push(c)),
        is_subsequence(s.push(c), t.push(c)),
{
    assert(t.push(c).drop_last() =~= t);
    assert(s.push(c).drop_last() =~= s);
}

proof fn lemma_shorter_start(s: Seq<char>, t: Seq<char>)
    requires
        is_subsequence(s, t),
        s.len() > 0,
    ensures
        is_subsequence(s.drop_last(), t.drop_last()),
    decreases t.len(),
{
    if s.last() == t.last() && is_subsequence(s.drop_last(), t.drop_last()) {
    } else {
        lemma_shorter_start(s, t.drop_last());
        let less = t.drop_last();
        assert(is_subsequence(s, less));
        assert(less.len() > 0);
        lemma_subsequence_grows(s.drop_last(), less.drop_last(), less.last());
        assert(less.drop_last().push(less.last()) =~= less);
    }
}

/// A common subsequence of the first `i` of `a` and the first `j` of `b` that
/// is as long as they come.
spec fn witness(a: Seq<char>, b: Seq<char>, i: nat, j: nat) -> Seq<char>
    decreases i, j,
{
    if i == 0 || j == 0 {
        Seq::empty()
    } else if a[i - 1] == b[j - 1] {
        witness(a, b, (i - 1) as nat, (j - 1) as nat).push(a[i - 1])
    } else if lcs(a, b, (i - 1) as nat, j) >= lcs(a, b, i, (j - 1) as nat) {
        witness(a, b, (i - 1) as nat, j)
    } else {
        witness(a, b, i, (j - 1) as nat)
    }
}

proof fn lemma_witness(a: Seq<char>, b: Seq<char>, i: nat, j: nat)
    requires
        i <= a.len(),
        j <= b.len(),
    ensures
        witness(a, b, i, j).len() == lcs(a, b, i, j),
        is_subsequence(witness(a, b, i, j), a.take(i as int)),
        is_subsequence(witness(a, b, i, j), b.take(j as int)),
    decreases i, j,
{
    if i > 0 && j > 0 {
        let c = a[i - 1];
        let d = b[j - 1];
        assert(a.take(i as int) =~= a.take(i - 1).push(c));
        assert(b.take(j as int) =~= b.take(j - 1).push(d));
        if c == d {
            lemma_witness(a, b, (i - 1) as nat, (j - 1) as nat);
            let w = witness(a, b, (i - 1) as nat, (j - 1) as nat);
            lemma_subsequence_grows(w, a.take(i - 1), c);
            lemma_subsequence_grows(w, b.take(j - 1), c);
        } else {
            lemma_witness(a, b, (i - 1) as nat, j);
            lemma_witness(a, b, i, (j - 1) as nat);
            lemma_subsequence_grows_if(witness(a, b, (i - 1) as nat, j), a.take(i - 1), c);
            lemma_subsequence_grows_if(witness(a, b, i, (j - 1) as nat), b.take(j - 1), d);
        }
    }
}

proof fn lemma_subsequence_grows_if(s: Seq<char>, t: Seq<char>, c: char)
    ensures
        is_subsequence(s, t) ==> is_subsequence(s, t.push(c)),
{
    if is_subsequence(s, t) {
        lemma_subsequence_grows(s, t, c);
    }
}

proof fn lemma_none_longer(a: Seq<char>, b: Seq<char>, i: nat, j: nat, s: Seq<char>)
    requires
        i <= a.len(),
        j <= b.len(),
        is_subsequence(s, a.take(i as int)),
        is_subsequence(s, b.take(j as int)),
    ensures
        s.len() <= lcs(a, b, i, j),
    decreases i, j,
{
    let first = a.take(i as int);
    let second = b.take(j as int);
    if s.len() > 0 {
        assert(i > 0 && j > 0);
        assert(first.drop_last() =~= a.take(i - 1));
        assert(second.drop_last() =~= b.take(j - 1));
        if a[i - 1] == b[j - 1] {
            lemma_shorter_start(s, first);
            lemma_shorter_start(s, second);
            lemma_none_longer(a, b, (i - 1) as nat, (j - 1) as nat, s.drop_last());
        } else if s.last() == first.last() {
            assert(s.last() != second.last());
            lemma_none_longer(a, b, i, (j - 1) as nat, s);
        } else {
            lemma_none_longer(a, b, (i - 1) as nat, j, s);
        }
    }
}

/// There is a common subsequence of the length that is computed, and none is
/// longer.
pub proof fn the_common_length_is_the_longest(a: Seq<char>, b: Seq<char>)
    ensures
        exists|s: Seq<char>| #[trigger]
            is_subsequence(s, a) && is_subsequence(s, b) && s.len() == common(a, b),
        forall|s: Seq<char>| #[trigger]
            is_subsequence(s, a) && is_subsequence(s, b) ==> s.len() <= common(a, b),
{
    assert(a.take(a.len() as int) =~= a);
    assert(b.take(b.len() as int) =~= b);
    lemma_witness(a, b, a.len(), b.len());
    assert(is_subsequence(witness(a, b, a.len(), b.len()), a));
    assert forall|s: Seq<char>| #[trigger]
        is_subsequence(s, a) && is_subsequence(s, b) implies s.len() <= common(a, b) by {
        lemma_none_longer(a, b, a.len(), b.len(), s);
    }
}

proof fn lemma_symmetric(a: Seq<char>, b: Seq<char>, i: nat, j: nat)
    ensures
        lcs(a, b, i, j) == lcs(b, a, j, i),
    decreases i, j,
{
    if i > 0 && j > 0 {
        lemma_symmetric(a, b, (i - 1) as nat, (j - 1) as nat);
        lemma_symmetric(a, b, (i - 1) as nat, j);
        lemma_symmetric(a, b, i, (j - 1) as nat);
    }
}

/// Which of two texts comes first makes no difference.
pub proof fn the_common_length_is_symmetric(a: Seq<char>, b: Seq<char>)
    ensures
        common(a, b) == common(b, a),
{
    lemma_symmetric(a, b, a.len(), b.len());
}

impl UnknownToolMiddleware {
    /// The length of the longest common subsequence of two texts.
    pub fn lcs_length(a: &[char], b: &[char]) -> (n: usize)
        ensures
            n == common(a@, b@),
            n <= a@.len(),
            n <= b@.len(),
    {
        let mut row: Vec<usize> = Vec::new();
        let mut fill: usize = 0;
        row.push(0);
        while fill < b.len()
            invariant
                fill <= b.len(),
                row.len() == fill + 1,
                forall|j: int| 0 <= j <= fill ==> #[trigger] row@[j] == 0,
            decreases b.len() - fill,
        {
            row.push(0);
            fill = fill + 1;
        }
        let mut i: usize = 0;
        while i < a.len()
            invariant
                i <= a.len(),
                row.len() == b.len() + 1,
                forall|j: int| 0 <= j <= b.len() ==> #[trigger] row@[j] == lcs(a@, b@, i as nat, j as nat),
            decreases a.len() - i,
        {
            let mut next: Vec<usize> = Vec::new();
            next.push(0);
            let mut j: usize = 0;
            while j < b.len()
                invariant
                    i < a.len(),
                    j <= b.len(),
                    row.len() == b.len() + 1,
                    next.len() == j + 1,
                    forall|k: int|
                        0 <= k <= b.len() ==> #[trigger] row@[k] == lcs(a@, b@, i as nat, k as nat),
                    forall|k: int|
                        0 <= k <= j ==> #[trigger] next@[k] == lcs(a@, b@, (i + 1) as nat, k as nat),
                decreases b.len() - j,
            {
                proof {
                    lemma_bounds(a@, b@, i as nat, j as nat);
                    assert(row@[j as int] == lcs(a@, b@, i as nat, j as nat));
                    assert(row@[j + 1] == lcs(a@, b@, i as nat, (j + 1) as nat));
                    assert(next@[j as int] == lcs(a@, b@, (i + 1) as nat, j as nat));
                }
                let value: usize = if a[i] == b[j] {
                    row[j] + 1
                } else if row[j + 1] >= next[j] {
                    row[j + 1]
                } else {
                    next[j]
                };
                next.push(value);
                j = j + 1;
            }
            row = next;
            i = i + 1;
        }
        proof {
            lemma_bounds(a@, b@, a@.len(), b@.len());
            assert(row@[b@.len() as int] == lcs(a@, b@, a@.len(), b@.len()));
        }
        row[b.len()]
    }
}

/// The number of characters at which two texts begin alike.
pub open spec fn common_start(a: Seq<char>, b: Seq<char>) -> nat
    decreases a.len(),
{
    if a.len() == 0 || b.len() == 0 || a[0] != b[0] {
        0
    } else {
        1 + common_start(a.skip(1), b.skip(1))
    }
}

fn prefix_length(a: &[char], b: &[char]) -> (n: usize)
    ensures
        n == common_start(a@, b@),
{
    let mut i: usize = 0;
    assert(a@.skip(0) =~= a@);
    assert(b@.skip(0) =~= b@);
    while i < a.len() && i < b.len() && a[i] == b[i]
        invariant
            i <= a.len(),
            i <= b.len(),
            common_start(a@, b@) == i + common_start(a@.skip(i as int), b@.skip(i as int)),
        decreases a.len() - i,
    {
        assert(a@.skip(i as int).skip(1) =~= a@.skip(i + 1));
        assert(b@.skip(i as int).skip(1) =~= b@.skip(i + 1));
        i = i + 1;
    }
    i
}

// ---------------------------------------------------------------------------
// Similarity
// ---------------------------------------------------------------------------

/// What the similarity of two names is made of.
#[derive(Debug, Clone, Copy, PartialEq, Eq, Structural)]
pub enum SimilarityParts {
    /// They are the same, letter case aside.
    Same,
    /// One of them is empty.
    Disjoint,
    /// They share `common` characters and begin alike for `prefix`; the longer
    /// has `longest`.
    Blend { common: u32, prefix: u32, longest: u32 },
}

/// A count held at the largest.
pub open spec fn narrow(n: nat) -> u32 {
    if n <= u32::MAX {
        n as u32
    } else {
        u32::MAX
    }
}

/// What the similarity of two names is made of.
pub open spec fn parts_of(a: Seq<char>, b: Seq<char>) -> SimilarityParts {
    if a.len() == 0 && b.len() == 0 {
        SimilarityParts::Same
    } else if a.len() == 0 || b.len() == 0 {
        SimilarityParts::Disjoint
    } else {
        let x = text::lowercase(a);
        let y = text::lowercase(b);
        if x == y {
            SimilarityParts::Same
        } else {
            SimilarityParts::Blend {
                common: narrow(common(x, y)),
                prefix: narrow(common_start(x, y)),
                longest: narrow(
                    if x.len() >= y.len() {
                        x.len()
                    } else {
                        y.len()
                    },
                ),
            }
        }
    }
}

fn narrowed(n: usize) -> (r: u32)
    ensures
        r == narrow(n as nat),
{
    if n as u128 <= u32::MAX as u128 {
        n as u32
    } else {
        u32::MAX
    }
}

/// What the similarity of two names is made of.
pub fn similarity_parts(a: &str, b: &str) -> (parts: SimilarityParts)
    ensures
        parts == parts_of(a@, b@),
        parts == SimilarityParts::Same <==> text::lowercase(a@) == text::lowercase(b@),
{
    let no_a = a.is_empty();
    let no_b = b.is_empty();
    let lower_a = text::to_lowercase(a);
    let lower_b = text::to_lowercase(b);
    if no_a && no_b {
        assert(a@ =~= b@);
        return SimilarityParts::Same;
    }
    if no_a || no_b {
        return SimilarityParts::Disjoint;
    }
    if text::same_text(lower_a.as_str(), lower_b.as_str()) {
        return SimilarityParts::Same;
    }
    let x = text::chars_of(lower_a.as_str());
    let y = text::chars_of(lower_b.as_str());
    let longest: usize = if x.len() >= y.len() {
        x.len()
    } else {
        y.len()
    };
    SimilarityParts::Blend {
        common: narrowed(UnknownToolMiddleware::lcs_length(&x, &y)),
        prefix: narrowed(prefix_length(&x, &y)),
        longest: narrowed(longest),
    }
}

/// The largest number below one.
pub const BELOW_ONE_BITS: u64 = 0x3fef_ffff_ffff_ffff;

/// What the host's formula counts as for two names that differ: at least zero,
/// and below one. What is not a number counts as zero.
pub open spec fn held_apart(raw: Double) -> Double {
    if !raw.at_least(Double { bits: 0 }) {
        Double { bits: 0 }
    } else if raw.at_least(Double { bits: ONE_BITS }) {
        Double { bits: BELOW_ONE_BITS }
    } else {
        raw
    }
}

/// Whether a score is that of two names: one where they are the same, zero
/// where one is empty, and else what the host's formula gives, held at zero or
/// above and below one.
pub open spec fn is_score<A: SimilarityArithmetic>(
    arithmetic: A,
    a: Seq<char>,
    b: Seq<char>,
    score: Double,
) -> bool {
    match parts_of(a, b) {
        SimilarityParts::Same => score == (Double { bits: ONE_BITS }),
        SimilarityParts::Disjoint => score == (Double { bits: 0 }),
        SimilarityParts::Blend { common, prefix, longest } => exists|raw: Double|
            {
                &&& #[trigger] call_ensures(A::blend, (&arithmetic, common, prefix, longest), raw)
                &&& score == held_apart(raw)
            },
    }
}

impl UnknownToolMiddleware {
    /// How similar two names are, between zero and one. One means that they
    /// are the same, letter case aside.
    pub fn similarity<A: SimilarityArithmetic>(arithmetic: &A, a: &str, b: &str) -> (score: Double)
        ensures
            is_score(*arithmetic, a@, b@, score),
            score.at_least(Double { bits: 0 }),
            (Double { bits: ONE_BITS }).at_least(score),
            score.at_least(Double { bits: ONE_BITS }) <==> text::lowercase(a@) == text::lowercase(
                b@,
            ),
    {
        match similarity_parts(a, b) {
            SimilarityParts::Same => Double::from_bits(ONE_BITS),
            SimilarityParts::Disjoint => Double::from_bits(0),
            SimilarityParts::Blend { common, prefix, longest } => {
                let raw = arithmetic.blend(common, prefix, longest);
                if !raw.reaches(Double::from_bits(0)) {
                    Double::from_bits(0)
                } else if raw.reaches(Double::from_bits(ONE_BITS)) {
                    Double::from_bits(BELOW_ONE_BITS)
                } else {
                    raw
                }
            },
        }
    }
}

// ---------------------------------------------------------------------------
// The best match
// ---------------------------------------------------------------------------

/// The place of the best of the first `n` scores that reach a threshold: the
/// first of the highest.
pub open spec fn best(scores: Seq<Double>, threshold: Double, n: nat) -> Option<int>
    decreases n,
{
    if n == 0 {
        None
    } else {
        let before = best(scores, threshold, (n - 1) as nat);
        let here = scores[n - 1];
        if !here.at_least(threshold) {
            before
        } else {
            match before {
                Some(b) => if scores[b].at_least(here) {
                    Some(b)
                } else {
                    Some(n - 1)
                },
                None => Some(n - 1),
            }
        }
    }
}

/// The place of the best score that reaches a threshold.
pub fn best_score(scores: &Vec<Double>, threshold: Double) -> (place: Option<usize>)
    ensures
        match place {
            Some(p) => p < scores@.len() && best(scores@, threshold, scores@.len()) == Some(
                p as int,
            ),
            None => best(scores@, threshold, scores@.len()) is None,
        },
{
    let mut place: Option<usize> = None;
    let mut i: usize = 0;
    while i < scores.len()
        invariant
            i <= scores.len(),
            match place {
                Some(p) => p < i && best(scores@, threshold, i as nat) == Some(p as int),
                None => best(scores@, threshold, i as nat) is None,
            },
        decreases scores.len() - i,
    {
        let here = scores[i];
        if here.reaches(threshold) {
            match place {
                Some(p) => {
                    if !scores[p].reaches(here) {
                        place = Some(i);
                    }
                },
                None => {
                    place = Some(i);
                },
            }
        }
        i = i + 1;
    }
    place
}

/// What is suggested reaches the threshold, and nothing scores higher; and
/// nothing is suggested only where nothing reaches it.
pub proof fn the_best_is_suggested(scores: Seq<Double>, threshold: Double, n: nat)
    requires
        n <= scores.len(),
    ensures
        match best(scores, threshold, n) {
            Some(p) => {
                &&& 0 <= p < n
                &&& scores[p].at_least(threshold)
                &&& forall|i: int|
                    0 <= i < n && (#[trigger] scores[i]).at_least(threshold)
                        ==> scores[p].at_least(scores[i])
            },
            None => forall|i: int|
                0 <= i < n ==> !(#[trigger] scores[i]).at_least(threshold),
        },
    decreases n,
{
    if n > 0 {
        the_best_is_suggested(scores, threshold, (n - 1) as nat);
    }
}

/// Suggests the names of tools.
#[derive(Debug)]
pub struct UnknownToolMiddleware {
    names: Vec<String>,
    suggestion_threshold: Double,
}

/// Whether a result says that a tool was not found.
pub open spec fn says_not_found(result: DispatchView) -> bool {
    &&& result.is_error
    &&& result.output is Text
    &&& text::occurs(text::lowercase(result.output->Text_0), "not found"@)
    &&& text::occurs(text::lowercase(result.output->Text_0), "tool"@)
}

/// Whether an ASCII message, in small letters, speaks of a tool that was not
/// found.
pub open spec fn says_in_small_letters(message: Seq<char>) -> bool {
    let small = message.map_values(|c: char| text::ascii_lower(c));
    text::occurs(small, "not found"@) && text::occurs(small, "tool"@)
}

/// What is said of a missing tool speaks of a tool that was not found. Where
/// its name is ASCII, so is what is said, and the result of such a call is
/// recognized.
pub proof fn a_missing_tool_is_recognized(name: Seq<char>)
    ensures
        says_in_small_letters(error::error_text(ErrorView::ToolNotFound { name })),
        text::is_ascii_text(name) ==> text::is_ascii_text(
            error::error_text(ErrorView::ToolNotFound { name }),
        ),
{
    let message = error::error_text(ErrorView::ToolNotFound { name });
    let small = message.map_values(|c: char| text::ascii_lower(c));
    reveal_strlit("Tool '");
    reveal_strlit("' not found");
    reveal_strlit("not found");
    reveal_strlit("tool");
    assert(small.subrange(0, 4) =~= "tool"@);
    assert(text::occurs_at(small, "tool"@, 0));
    let at = name.len() + 8;
    assert(small.subrange(at as int, at as int + 9) =~= "not found"@);
    assert(text::occurs_at(small, "not found"@, at as int));
}

impl UnknownToolMiddleware {
    /// Whether a result says that a tool was not found.
    pub fn is_tool_not_found(result: &ToolDispatchResult) -> (r: bool)
        ensures
            r == says_not_found(result@),
            result@.is_error && result@.output is Text && text::is_ascii_text(
                result@.output->Text_0,
            ) ==> r == says_in_small_letters(result@.output->Text_0),
    {
        if !result.is_error {
            return false;
        }
        match &result.output {
            ToolResult::Text(t) => {
                let lower = text::to_lowercase(t.as_str());
                text::contains(lower.as_str(), "not found") && text::contains(lower.as_str(), "tool")
            },
            ToolResult::Multipart(_) => false,
        }
    }
}

/// The result with a suggestion.
pub open spec fn with_suggestion(result: DispatchView, name: Seq<char>) -> DispatchView {
    match result.output {
        ResultView::Text(message) => DispatchView {
            output: ResultView::Text(message + ". Did you mean '"@ + name + "'?"@),
            ..result
        },
        ResultView::Multipart(_) => result,
    }
}

/// Whether `scores` are the scores of the names.
pub open spec fn are_scores<A: SimilarityArithmetic>(
    arithmetic: A,
    requested: Seq<char>,
    names: Seq<Seq<char>>,
    scores: Seq<Double>,
) -> bool {
    &&& scores.len() == names.len()
    &&& forall|i: int|
        0 <= i < names.len() ==> is_score(arithmetic, requested, names[i], #[trigger] scores[i])
}

/// The result, with a suggestion where it says that a tool was not found and a
/// name comes near enough.
pub open spec fn suggested(
    result: DispatchView,
    names: Seq<Seq<char>>,
    scores: Seq<Double>,
    threshold: Double,
) -> DispatchView {
    if !says_not_found(result) {
        result
    } else {
        match best(scores, threshold, scores.len()) {
            Some(p) => with_suggestion(result, names[p]),
            None => result,
        }
    }
}

impl UnknownToolMiddleware {
    /// The name that comes nearest to what was asked for, with its score.
    pub fn find_best_match_inner<A: SimilarityArithmetic>(
        arithmetic: &A,
        requested: &str,
        available: &Vec<String>,
        threshold: Double,
    ) -> (found: Option<(String, Double)>)
        ensures
            exists|scores: Seq<Double>|
                {
                    &&& #[trigger] are_scores(*arithmetic, requested@, text::texts(available@), scores)
                    &&& match found {
                        Some((name, score)) => {
                            let p = best(scores, threshold, scores.len());
                            &&& p is Some
                            &&& name@ == text::texts(available@)[p->0]
                            &&& score == scores[p->0]
                        },
                        None => best(scores, threshold, scores.len()) is None,
                    }
                },
    {
        let scores = score_names(arithmetic, requested, available);
        assert(are_scores(*arithmetic, requested@, text::texts(available@), scores@));
        match best_score(&scores, threshold) {
            Some(p) => {
                assert(text::texts(available@)[p as int] == available@[p as int]@);
                Some((String::from_str(available[p].as_str()), scores[p]))
            },
            None => None,
        }
    }
}

fn score_names<A: SimilarityArithmetic>(
    arithmetic: &A,
    requested: &str,
    available: &Vec<String>,
) -> (scores: Vec<Double>)
    ensures
        are_scores(*arithmetic, requested@, text::texts(available@), scores@),
{
    let ghost names = text::texts(available@);
    let mut scores: Vec<Double> = Vec::new();
    let mut i: usize = 0;
    while i < available.len()
        invariant
            i <= available.len(),
            names == text::texts(available@),
            scores.len() == i,
            forall|k: int|
                0 <= k < i ==> is_score(*arithmetic, requested@, names[k], #[trigger] scores@[k]),
        decreases available.len() - i,
    {
        assert(names[i as int] == available@[i as int]@);
        scores.push(UnknownToolMiddleware::similarity(arithmetic, requested, available[i].as_str()));
        i = i + 1;
    }
    scores
}

impl UnknownToolMiddleware {
    /// The names that are suggested.
    pub closed spec fn known(&self) -> Seq<Seq<char>> {
        text::texts(self.names@)
    }

    /// How similar a name must be.
    pub closed spec fn threshold(&self) -> Double {
        self.suggestion_threshold
    }

    /// A layer that suggests these names.
    pub fn new(names: Vec<String>) -> (r: Self)
        ensures
            r.known() == text::texts(names@),
            r.threshold() == (Double { bits: DEFAULT_THRESHOLD }),
    {
        UnknownToolMiddleware {
            names,
            suggestion_threshold: Double::from_bits(DEFAULT_THRESHOLD),
        }
    }

    /// The layer with another threshold, held between zero and one.
    pub fn with_threshold(self, threshold: Double) -> (r: Self)
        ensures
            r.known() == self.known(),
            r.threshold() == threshold.clamped(),
    {
        let mut r = self;
        r.suggestion_threshold = threshold.clamp_unit();
        r
    }

    /// The name of the layer.
    pub fn name(&self) -> (r: &'static str)
        ensures
            r@ == "unknown_tool"@,
    {
        "unknown_tool"
    }

    /// What the layer makes of a result, given how similar each name is to the
    /// one that the call came to ask for.
    pub fn suggest(&self, result: ToolDispatchResult, scores: &Vec<Double>) -> (out:
        ToolDispatchResult)
        requires
            scores@.len() == self.known().len(),
        ensures
            out@ == suggested(result@, self.known(), scores@, self.threshold()),
    {
        if !UnknownToolMiddleware::is_tool_not_found(&result) {
            return result;
        }
        match best_score(scores, self.suggestion_threshold) {
            Some(p) => {
                let mut out = result;
                assert(self.known()[p as int] == self.names@[p as int]@);
                if let ToolResult::Text(message) = &mut out.output {
                    text::push_text(message, ". Did you mean '");
                    text::push_text(message, self.names[p].as_str());
                    text::push_text(message, "'?");
                }
                out
            },
            None => result,
        }
    }

    /// What the layer makes of a result.
    pub fn after_dispatch<A: SimilarityArithmetic>(
        &self,
        arithmetic: &A,
        tool_name: &str,
        result: ToolDispatchResult,
    ) -> (out: ToolDispatchResult)
        ensures
            exists|scores: Seq<Double>|
                {
                    &&& #[trigger] are_scores(*arithmetic, tool_name@, self.known(), scores)
                    &&& out@ == suggested(result@, self.known(), scores, self.threshold())
                },
    {
        let scores = score_names(arithmetic, tool_name, &self.names);
        let ghost got = scores@;
        let out = self.suggest(result, &scores);
        assert(are_scores(*arithmetic, tool_name@, self.known(), got));
        out
    }
}

/// A score lies between zero and one, and one is the score of the same names
/// and of no others: a name that is asked for under any letter case scores
/// higher than every other.
pub proof fn the_same_name_scores_one<A: SimilarityArithmetic>(
    arithmetic: A,
    a: Seq<char>,
    b: Seq<char>,
    score: Double,
)
    requires
        is_score(arithmetic, a, b, score),
    ensures
        score.at_least(Double { bits: 0 }),
        (Double { bits: ONE_BITS }).at_least(score),
        score.at_least(Double { bits: ONE_BITS }) <==> parts_of(a, b) == SimilarityParts::Same,
        a.len() > 0 && b.len() > 0 ==> (score.at_least(Double { bits: ONE_BITS })
            <==> text::lowercase(a) == text::lowercase(b)),
{
}

/// A subsequence names places of the other text, each behind the one before,
/// at which its characters stand: the result names them.
pub proof fn a_subsequence_leaves_characters_out(s: Seq<char>, t: Seq<char>) -> (places: Seq<int>)
    requires
        is_subsequence(s, t),
    ensures
        places.len() == s.len(),
        forall|i: int|
            0 <= i < s.len() ==> 0 <= #[trigger] places[i] < t.len() && t[places[i]] == s[i],
        forall|i: int, j: int|
            0 <= i < j < s.len() ==> #[trigger] places[i] < #[trigger] places[j],
    decreases t.len(),
{
    if s.len() == 0 {
        Seq::empty()
    } else if s.last() == t.last() && is_subsequence(s.drop_last(), t.drop_last()) {
        let before = a_subsequence_leaves_characters_out(s.drop_last(), t.drop_last());
        before.push(t.len() - 1)
    } else {
        let same = a_subsequence_leaves_characters_out(s, t.drop_last());
        assert forall|i: int| 0 <= i < s.len() implies 0 <= #[trigger] same[i] < t.len()
            && t[same[i]] == s[i] by {
            assert(t.drop_last()[same[i]] == s[i]);
        }
        same
    }
}

/// Characters that stand at places of a text, each behind the one before, are a
/// subsequence of it.
pub proof fn characters_in_order_are_a_subsequence(s: Seq<char>, t: Seq<char>, places: Seq<int>)
    requires
        places.len() == s.len(),
        forall|i: int|
            0 <= i < s.len() ==> 0 <= #[trigger] places[i] < t.len() && t[places[i]] == s[i],
        forall|i: int, j: int|
            0 <= i < j < s.len() ==> #[trigger] places[i] < #[trigger] places[j],
    ensures
        is_subsequence(s, t),
    decreases t.len(),
{
    if s.len() > 0 {
        let last = places[s.len() - 1];
        let shorter = t.drop_last();
        if last == t.len() - 1 {
            let head = s.drop_last();
            let rest = places.drop_last();
            assert forall|i: int| 0 <= i < head.len() implies 0 <= #[trigger] rest[i]
                < shorter.len() && shorter[rest[i]] == head[i] by {
                assert(places[i] < places[s.len() - 1]);
                assert(t[places[i]] == s[i]);
            }
            assert forall|i: int, j: int| 0 <= i < j < head.len() implies #[trigger] rest[i]
                < #[trigger] rest[j] by {
                assert(places[i] < places[j]);
            }
            characters_in_order_are_a_subsequence(head, shorter, rest);
            assert(t[places[s.len() - 1]] == s[s.len() - 1]);
        } else {
            assert forall|i: int| 0 <= i < s.len() implies 0 <= #[trigger] places[i]
                < shorter.len() && shorter[places[i]] == s[i] by {
                if i < s.len() - 1 {
                    assert(places[i] < places[s.len() - 1]);
                }
                assert(t[places[i]] == s[i]);
            }
            characters_in_order_are_a_subsequence(s, shorter, places);
        }
    }
}

/// Two texts begin alike for as many characters as agree one by one, up to the
/// first that differs or the end of one of them.
pub proof fn the_common_start_ends_at_the_first_difference(a: Seq<char>, b: Seq<char>)
    ensures
        ({
            let n = common_start(a, b) as int;
            &&& n <= a.len()
            &&& n <= b.len()
            &&& forall|i: int| 0 <= i < n ==> #[trigger] a[i] == b[i]
            &&& n < a.len() && n < b.len() ==> a[n] != b[n]
        }),
    decreases a.len(),
{
    if a.len() > 0 && b.len() > 0 && a[0] == b[0] {
        let x = a.skip(1);
        let y = b.skip(1);
        the_common_start_ends_at_the_first_difference(x, y);
        let n = common_start(a, b) as int;
        assert forall|i: int| 0 <= i < n implies #[trigger] a[i] == b[i] by {
            if i > 0 {
                assert(x[i - 1] == y[i - 1]);
            }
        }
        if n < a.len() && n < b.len() {
            assert(x[n - 1] == a[n] && y[n - 1] == b[n]);
        }
    }
}

/// Names are compared in small letters: by the longest subsequence that they
/// have in common, by their common start and by the longer of them.
pub proof fn names_are_compared_in_small_letters(a: Seq<char>, b: Seq<char>)
    ensures
        a.len() == 0 && b.len() == 0 ==> parts_of(a, b) == SimilarityParts::Same,
        a.len() == 0 && b.len() > 0 || a.len() > 0 && b.len() == 0 ==> parts_of(a, b)
            == SimilarityParts::Disjoint,
        a.len() > 0 && b.len() > 0 ==> {
            let x = text::lowercase(a);
            let y = text::lowercase(b);
            &&& parts_of(a, b) == SimilarityParts::Same <==> x == y
            &&& x != y ==> parts_of(a, b) is Blend
            &&& x != y && x.len() <= u32::MAX && y.len() <= u32::MAX ==> {
                &&& parts_of(a, b)->common == common(x, y)
                &&& parts_of(a, b)->prefix == common_start(x, y)
                &&& parts_of(a, b)->longest >= x.len()
                &&& parts_of(a, b)->longest >= y.len()
                &&& parts_of(a, b)->longest == x.len() || parts_of(a, b)->longest == y.len()
            }
        },
{
    let x = text::lowercase(a);
    let y = text::lowercase(b);
    the_common_start_ends_at_the_first_difference(x, y);
    lemma_common_bounded(x, y, x.len(), y.len());
}

proof fn lemma_common_bounded(a: Seq<char>, b: Seq<char>, i: nat, j: nat)
    ensures
        lcs(a, b, i, j) <= i,
    decreases i, j,
{
    if i > 0 && j > 0 {
        lemma_common_bounded(a, b, (i - 1) as nat, (j - 1) as nat);
        lemma_common_bounded(a, b, (i - 1) as nat, j);
        lemma_common_bounded(a, b, i, (j - 1) as nat);
    }
}

/// A formula's result counts as it is from zero on and under one. What is below
/// zero, or not a number, counts as zero, and what reaches one as the largest
/// number under it.
pub proof fn a_blend_stays_under_one(raw: Double)
    ensures
        raw.at_least(Double { bits: 0 }) && !raw.at_least(Double { bits: 0x3ff0_0000_0000_0000 })
            ==> held_apart(raw) == raw,
        !raw.at_least(Double { bits: 0 }) ==> held_apart(raw) == (Double { bits: 0 }),
        raw.at_least(Double { bits: 0 }) && raw.at_least(Double { bits: 0x3ff0_0000_0000_0000 })
            ==> held_apart(raw) == (Double { bits: 0x3fef_ffff_ffff_ffff }),
{
}

/// Of several names that score highest the first is suggested.
pub proof fn the_first_of_the_best_is_suggested(
    scores: Seq<Double>,
    threshold: Double,
    n: nat,
    i: int,
)
    requires
        n <= scores.len(),
        best(scores, threshold, n) is Some,
        0 <= i < best(scores, threshold, n)->0,
    ensures
        !scores[i].at_least(scores[best(scores, threshold, n)->0]),
    decreases n,
{
    the_best_is_suggested(scores, threshold, n);
    the_best_is_suggested(scores, threshold, (n - 1) as nat);
    let here = best(scores, threshold, n)->0;
    let before = best(scores, threshold, (n - 1) as nat);
    if before == Some(here) {
        the_first_of_the_best_is_suggested(scores, threshold, (n - 1) as nat, i);
    } else if scores[i].at_least(threshold) {
        assert(scores[before->0].at_least(scores[i]));
    }
}

/// Only a failed call whose message speaks of a tool that was not found gets a
/// suggestion, behind its message, and only where a name comes near enough; all
/// else of the result stays.
pub proof fn a_suggestion_follows_the_message(
    result: DispatchView,
    names: Seq<Seq<char>>,
    scores: Seq<Double>,
    threshold: Double,
)
    ensures
        ({
            let after = suggested(result, names, scores, threshold);
            let found = best(scores, threshold, scores.len());
            &&& !result.is_error ==> after == result
            &&& result.output is Multipart ==> after == result
            &&& found is None ==> after == result
            &&& result.output matches ResultView::Text(message) ==> {
                let small = text::lowercase(message);
                let missing = result.is_error && text::occurs(small, "not found"@) && text::occurs(
                    small,
                    "tool"@,
                );
                &&& !missing ==> after == result
                &&& missing && found is Some ==> after == (DispatchView {
                    output: ResultView::Text(
                        message + ". Did you mean '"@ + names[found->0] + "'?"@,
                    ),
                    ..result
                })
            }
        }),
{
}

/// Every name is scored against the one that was asked for, by itself: one
/// where they are the same, zero where one is empty, and else by the host's
/// formula over what they have in common, held as every score is.
pub proof fn every_name_is_scored_by_itself<A: SimilarityArithmetic>(
    arithmetic: A,
    requested: Seq<char>,
    names: Seq<Seq<char>>,
    scores: Seq<Double>,
    i: int,
) -> (raw: Double)
    requires
        are_scores(arithmetic, requested, names, scores),
        0 <= i < names.len(),
    ensures
        scores.len() == names.len(),
        parts_of(requested, names[i]) is Same ==> scores[i].bits == 0x3ff0_0000_0000_0000,
        parts_of(requested, names[i]) is Disjoint ==> scores[i].bits == 0,
        parts_of(requested, names[i]) matches SimilarityParts::Blend { common, prefix, longest }
            ==> call_ensures(A::blend, (&arithmetic, common, prefix, longest), raw) && scores[i]
            == held_apart(raw),
{
    assert(is_score(arithmetic, requested, names[i], scores[i]));
    if let SimilarityParts::Blend { common, prefix, longest } = parts_of(requested, names[i]) {
        choose|raw: Double|
            {
                &&& #[trigger] call_ensures(A::blend, (&arithmetic, common, prefix, longest), raw)
                &&& scores[i] == held_apart(raw)
            }
    } else {
        scores[i]
    }
}

/// Unless told otherwise, a name is suggested from a score of 0.4 on.
pub proof fn names_are_suggested_from_two_fifths_on()
    ensures
        DEFAULT_THRESHOLD == 0x3fd9_9999_9999_999a,
{
}

} // verus!
