//! What a provider answered when it was asked for lessons.
//!
//! An answer is free text around a JSON array. The spans that may be that array
//! are found here; reading one as JSON is the host's part, and what is made of
//! its elements is decided here again.

use vstd::prelude::*;

use crate::error;
use crate::error::LoopError;
use crate::memory::entry::MemoryCategory;
use crate::memory::mining;
use crate::memory::mining::{ExtractedMemory, MinedView};
use crate::single::Single;
use crate::selection;
use crate::text;

verus! {

/// The bytes beyond which an answer is not looked at.
pub const MAX_RESPONSE_BYTES: usize = 65_536;

// ---------------------------------------------------------------------------
// Spans
// ---------------------------------------------------------------------------

/// How far an answer was scanned.
pub struct Scan {
    /// The places of the brackets that are open.
    pub open: Seq<int>,
    /// The places of the bracket pairs that were closed, in that order.
    pub pairs: Seq<(int, int)>,
    /// Whether a JSON string is open.
    pub in_string: bool,
    /// Whether the last character was an escape in a string.
    pub escaped: bool,
}

/// The scan of the first `n` characters. Brackets in strings do not count.
pub open spec fn scan(answer: Seq<char>, n: nat) -> Scan
    decreases n,
{
    if n == 0 {
        Scan { open: Seq::empty(), pairs: Seq::empty(), in_string: false, escaped: false }
    } else {
        let s = scan(answer, (n - 1) as nat);
        let c = answer[n - 1];
        if s.escaped {
            Scan { escaped: false, ..s }
        } else if c == '\\' && s.in_string {
            Scan { escaped: true, ..s }
        } else if c == '"' {
            Scan { in_string: !s.in_string, ..s }
        } else if c == '[' && !s.in_string {
            Scan { open: s.open.push(n - 1), ..s }
        } else if c == ']' && !s.in_string && s.open.len() > 0 {
            Scan {
                open: s.open.drop_last(),
                pairs: s.pairs.push((s.open.last(), n - 1)),
                ..s
            }
        } else {
            s
        }
    }
}

/// The bracket pairs of an answer.
pub open spec fn bracket_pairs(answer: Seq<char>) -> Seq<(int, int)> {
    scan(answer, answer.len()).pairs
}

/// The end of the first pair that starts at `start`.
pub open spec fn partner(pairs: Seq<(int, int)>, start: int) -> Option<int>
    decreases pairs.len(),
{
    if pairs.len() == 0 {
        None
    } else if pairs.last().0 == start {
        Some(pairs.last().1)
    } else {
        partner(pairs.drop_last(), start)
    }
}

/// The pairs that start before `n`, by their start.
pub open spec fn by_start(pairs: Seq<(int, int)>, n: nat) -> Seq<(int, int)>
    decreases n,
{
    if n == 0 {
        Seq::empty()
    } else {
        let before = by_start(pairs, (n - 1) as nat);
        match partner(pairs, n - 1) {
            Some(end) => before.push((n - 1, end)),
            None => before,
        }
    }
}

/// The spans of an answer that may be the array: what stands between the
/// brackets of a pair, the earliest start first.
pub open spec fn spans(answer: Seq<char>) -> Seq<Seq<char>> {
    by_start(bracket_pairs(answer), answer.len()).map_values(
        |p: (int, int)| answer.subrange(p.0, p.1 + 1),
    )
}

/// Where open brackets and pairs stand: open brackets in ascending order, pairs
/// each from a bracket to a later one, and no place opens two of them.
spec fn places_fit(answer: Seq<char>, s: Scan, n: int) -> bool {
    &&& forall|k: int|
        0 <= k < s.open.len() ==> 0 <= #[trigger] s.open[k] < n && answer[s.open[k]] == '['
    &&& forall|k: int, m: int|
        0 <= k < m < s.open.len() ==> #[trigger] s.open[k] < #[trigger] s.open[m]
    &&& forall|k: int| 0 <= k < s.pairs.len() ==> pair_fits(answer, #[trigger] s.pairs[k], n)
    &&& forall|k: int, m: int|
        0 <= k < s.open.len() && 0 <= m < s.pairs.len() ==> #[trigger] s.open[k] != (
        #[trigger] s.pairs[m]).0
    &&& forall|k: int, m: int|
        0 <= k < m < s.pairs.len() ==> (#[trigger] s.pairs[k]).0 != (#[trigger] s.pairs[m]).0
}

spec fn pair_fits(answer: Seq<char>, p: (int, int), n: int) -> bool {
    0 <= p.0 < p.1 < n && answer[p.0] == '[' && answer[p.1] == ']'
}

proof fn lemma_scan_places(answer: Seq<char>, n: nat)
    requires
        n <= answer.len(),
    ensures
        places_fit(answer, scan(answer, n), n as int),
    decreases n,
{
    if n > 0 {
        lemma_scan_places(answer, (n - 1) as nat);
        let b = scan(answer, (n - 1) as nat);
        let a = scan(answer, n);
        if a.pairs.len() > b.pairs.len() {
            let last = b.open.len() - 1;
            assert(a.open =~= b.open.drop_last());
            assert forall|k: int| 0 <= k < a.pairs.len() implies pair_fits(
                answer,
                #[trigger] a.pairs[k],
                n as int,
            ) by {
                if k < b.pairs.len() {
                    assert(a.pairs[k] == b.pairs[k]);
                    assert(pair_fits(answer, b.pairs[k], n - 1));
                } else {
                    assert(a.pairs[k] == (b.open[last], n - 1));
                }
            }
            assert forall|k: int, m: int| 0 <= k < a.open.len() && 0 <= m < a.pairs.len() implies
                #[trigger] a.open[k] != (#[trigger] a.pairs[m]).0 by {
                assert(a.open[k] == b.open[k]);
                if m < b.pairs.len() {
                    assert(a.pairs[m] == b.pairs[m]);
                } else {
                    assert(b.open[k] < b.open[last]);
                }
            }
            assert forall|k: int, m: int| 0 <= k < m < a.pairs.len() implies (
            #[trigger] a.pairs[k]).0 != (#[trigger] a.pairs[m]).0 by {
                assert(a.pairs[k] == b.pairs[k]);
                if m < b.pairs.len() {
                    assert(a.pairs[m] == b.pairs[m]);
                } else {
                    assert(b.open[last] != b.pairs[k].0);
                }
            }
            assert forall|k: int| 0 <= k < a.open.len() implies 0 <= #[trigger] a.open[k] < n
                && answer[a.open[k]] == '[' by {
                assert(a.open[k] == b.open[k]);
            }
            assert forall|k: int, m: int| 0 <= k < m < a.open.len() implies #[trigger] a.open[k]
                < #[trigger] a.open[m] by {
                assert(a.open[k] == b.open[k] && a.open[m] == b.open[m]);
            }
        } else {
            assert(a.pairs =~= b.pairs);
            assert forall|k: int| 0 <= k < a.pairs.len() implies pair_fits(
                answer,
                #[trigger] a.pairs[k],
                n as int,
            ) by {
                assert(pair_fits(answer, b.pairs[k], n - 1));
            }
            if a.open.len() > b.open.len() {
                assert forall|k: int, m: int|
                    0 <= k < a.open.len() && 0 <= m < a.pairs.len() implies #[trigger] a.open[k]
                    != (#[trigger] a.pairs[m]).0 by {
                    assert(pair_fits(answer, b.pairs[m], n - 1));
                    if k < b.open.len() {
                        assert(a.open[k] == b.open[k]);
                    }
                }
            } else {
                assert(a.open =~= b.open);
            }
        }
    }
}

proof fn lemma_partner(pairs: Seq<(int, int)>, start: int)
    ensures
        partner(pairs, start) matches Some(end) ==> pairs.contains((start, end)),
        partner(pairs, start) is None ==> forall|k: int|
            0 <= k < pairs.len() ==> (#[trigger] pairs[k]).0 != start,
    decreases pairs.len(),
{
    if pairs.len() > 0 {
        lemma_partner(pairs.drop_last(), start);
        if pairs.last().0 == start {
            assert(pairs[pairs.len() - 1] == (start, pairs.last().1));
        } else {
            if let Some(end) = partner(pairs.drop_last(), start) {
                let k = choose|k: int|
                    0 <= k < pairs.drop_last().len() && pairs.drop_last()[k] == (start, end);
                assert(pairs[k] == (start, end));
            } else {
                assert forall|k: int| 0 <= k < pairs.len() implies (#[trigger] pairs[k]).0
                    != start by {
                    if k < pairs.len() - 1 {
                        assert(pairs.drop_last()[k] == pairs[k]);
                    }
                }
            }
        }
    }
}

/// The places of bracket pairs, by their start.
fn partners(answer: &Vec<char>) -> (out: Vec<Option<usize>>)
    ensures
        out@.len() == answer@.len(),
        forall|i: int|
            0 <= i < out@.len() ==> match #[trigger] out@[i] {
                Some(end) => partner(bracket_pairs(answer@), i) == Some(end as int) && end
                    < answer@.len(),
                None => partner(bracket_pairs(answer@), i) is None,
            },
{
    let mut out: Vec<Option<usize>> = Vec::new();
    let mut open: Vec<usize> = Vec::new();
    let mut in_string = false;
    let mut escaped = false;
    let mut n: usize = 0;
    while n < answer.len()
        invariant
            n <= answer.len(),
            out.len() == n,
            open@.len() == scan(answer@, n as nat).open.len(),
            forall|k: int|
                0 <= k < open@.len() ==> (#[trigger] open@[k]) == scan(answer@, n as nat).open[k],
            in_string == scan(answer@, n as nat).in_string,
            escaped == scan(answer@, n as nat).escaped,
            forall|i: int|
                0 <= i < out@.len() ==> match #[trigger] out@[i] {
                    Some(end) => partner(scan(answer@, n as nat).pairs, i) == Some(end as int)
                        && end < answer@.len(),
                    None => partner(scan(answer@, n as nat).pairs, i) is None,
                },
        decreases answer.len() - n,
    {
        let c = answer[n];
        let ghost before = scan(answer@, n as nat);
        let ghost after = scan(answer@, (n + 1) as nat);
        proof {
            lemma_scan_places(answer@, n as nat);
            lemma_partner(before.pairs, n as int);
        }
        out.push(None);
        if escaped {
            escaped = false;
        } else if c == '\\' && in_string {
            escaped = true;
        } else if c == '"' {
            in_string = !in_string;
        } else if c == '[' && !in_string {
            open.push(n);
        } else if c == ']' && !in_string && open.len() > 0 {
            let start: usize = open[open.len() - 1];
            open.pop();
            proof {
                assert(start == before.open.last());
                assert(after.pairs.drop_last() =~= before.pairs);
            }
            out.set(start, Some(n));
        }
        n = n + 1;
    }
    out
}

/// The spans of an answer that may hold the array, or nothing where the answer
/// is too long to be looked at.
pub fn candidate_spans(answer: &str) -> (out: Option<Vec<String>>)
    ensures
        out is None <==> text::byte_length(answer@) > MAX_RESPONSE_BYTES,
        out matches Some(list) ==> text::texts(list@) == spans(answer@),
{
    if text::byte_len(answer) > MAX_RESPONSE_BYTES {
        return None;
    }
    let chars = text::chars_of(answer);
    let ends = partners(&chars);
    let ghost pairs = bracket_pairs(answer@);
    let mut out: Vec<String> = Vec::new();
    let mut i: usize = 0;
    assert(text::texts(out@) =~= by_start(pairs, 0).map_values(
        |p: (int, int)| answer@.subrange(p.0, p.1 + 1),
    ));
    while i < chars.len()
        invariant
            i <= chars.len(),
            chars@ == answer@,
            ends.len() == chars.len(),
            pairs == bracket_pairs(answer@),
            forall|k: int|
                0 <= k < ends@.len() ==> match #[trigger] ends@[k] {
                    Some(end) => partner(pairs, k) == Some(end as int) && end < answer@.len(),
                    None => partner(pairs, k) is None,
                },
            text::texts(out@) == by_start(pairs, i as nat).map_values(
                |p: (int, int)| answer@.subrange(p.0, p.1 + 1),
            ),
        decreases chars.len() - i,
    {
        if let Some(end) = ends[i] {
            proof {
                lemma_partner(pairs, i as int);
                lemma_scan_places(answer@, answer@.len());
                let k = choose|k: int| 0 <= k < pairs.len() && pairs[k] == (i as int, end as int);
                assert(pair_fits(answer@, pairs[k], answer@.len() as int));
                assert(i < end);
            }
            let span = text::slice_text(&chars, i, end + 1);
            proof {
                let sofar = by_start(pairs, i as nat);
                assert(sofar.push((i as int, end as int)).map_values(
                    |p: (int, int)| answer@.subrange(p.0, p.1 + 1),
                ) =~= sofar.map_values(|p: (int, int)| answer@.subrange(p.0, p.1 + 1)).push(
                    answer@.subrange(i as int, end + 1),
                ));
                assert(text::texts(out@.push(span)) =~= text::texts(out@).push(span@));
            }
            out.push(span);
        }
        i = i + 1;
    }
    Some(out)
}

proof fn lemma_by_start(pairs: Seq<(int, int)>, n: nat)
    ensures
        forall|k: int| 0 <= k < by_start(pairs, n).len() ==> 0 <= (#[trigger] by_start(
            pairs,
            n,
        )[k]).0 < n && pairs.contains(by_start(pairs, n)[k]),
        forall|k: int, m: int|
            0 <= k < m < by_start(pairs, n).len() ==> (#[trigger] by_start(pairs, n)[k]).0 < (
            #[trigger] by_start(pairs, n)[m]).0,
    decreases n,
{
    if n > 0 {
        lemma_by_start(pairs, (n - 1) as nat);
        lemma_partner(pairs, n - 1);
        let before = by_start(pairs, (n - 1) as nat);
        let after = by_start(pairs, n);
        assert forall|k: int| 0 <= k < after.len() implies 0 <= (#[trigger] after[k]).0 < n
            && pairs.contains(after[k]) by {
            if k < before.len() {
                assert(after[k] == before[k]);
            }
        }
        assert forall|k: int, m: int| 0 <= k < m < after.len() implies (#[trigger] after[k]).0 < (
        #[trigger] after[m]).0 by {
            assert(after[k] == before[k]);
            if m < before.len() {
                assert(after[m] == before[m]);
            }
        }
    }
}

/// Every span opens with a bracket and closes with one.
pub proof fn spans_are_bracketed(answer: Seq<char>)
    ensures
        forall|k: int|
            0 <= k < spans(answer).len() ==> {
                &&& (#[trigger] spans(answer)[k]).len() >= 2
                &&& spans(answer)[k][0] == '['
                &&& spans(answer)[k].last() == ']'
            },
{
    let pairs = bracket_pairs(answer);
    lemma_by_start(pairs, answer.len());
    lemma_scan_places(answer, answer.len());
    let listed = by_start(pairs, answer.len());
    assert forall|k: int| 0 <= k < spans(answer).len() implies {
        &&& (#[trigger] spans(answer)[k]).len() >= 2
        &&& spans(answer)[k][0] == '['
        &&& spans(answer)[k].last() == ']'
    } by {
        assert(pairs.contains(listed[k]));
        let m = choose|m: int| 0 <= m < pairs.len() && pairs[m] == listed[k];
        assert(pair_fits(answer, pairs[m], answer.len() as int));
        assert(spans(answer)[k] == answer.subrange(listed[k].0, listed[k].1 + 1));
    }
}

// ---------------------------------------------------------------------------
// Elements
// ---------------------------------------------------------------------------

/// One element of the array, as the provider gave it.
#[derive(Debug)]
pub struct LlmMemoryWire {
    pub category: String,
    pub content: String,
    pub tags: Option<Vec<String>>,
    pub quality: Option<Single>,
}

/// What an element holds.
pub struct WireView {
    pub category: Seq<char>,
    pub content: Seq<char>,
    pub tags: Seq<Seq<char>>,
    pub quality: Option<Single>,
}

impl View for LlmMemoryWire {
    type V = WireView;

    open spec fn view(&self) -> WireView {
        WireView {
            category: self.category@,
            content: self.content@,
            tags: match self.tags {
                Some(list) => text::texts(list@),
                None => Seq::empty(),
            },
            quality: self.quality,
        }
    }
}

/// What a list of elements holds.
pub open spec fn wire_views(list: Seq<LlmMemoryWire>) -> Seq<WireView> {
    list.map_values(|w: LlmMemoryWire| w@)
}

/// The bytes that a lesson may have.
pub const MAX_WIRE_CONTENT_BYTES: usize = 2_000;

/// The bytes that a tag may have.
pub const MAX_WIRE_TAG_BYTES: usize = 64;

/// The tags that a lesson may have.
pub const MAX_WIRE_TAGS: usize = 8;

/// The quality of a lesson that came without one, 0.5.
pub const UNRATED_QUALITY: u32 = 0x3f00_0000;

/// The most that a provider's own rating counts, 0.85.
pub const MAX_WIRE_QUALITY: u32 = 0x3f59_999a;

/// The category of a name that the prompt defines, and the tag that its kind is
/// selected by.
pub open spec fn kind_of(name: Seq<char>) -> Option<(MemoryCategory, Option<Seq<char>>)> {
    if name == "strategy"@ {
        Some((MemoryCategory::Strategy, None))
    } else if name == "error_pattern"@ {
        Some((MemoryCategory::ErrorPattern, Some("recovery"@)))
    } else if name == "insight"@ {
        Some((MemoryCategory::Insight, None))
    } else if name == "optimization"@ {
        Some((MemoryCategory::Insight, Some("optimization"@)))
    } else {
        None
    }
}

/// The first `room` of the first `n` tags that are short enough.
pub open spec fn short_tags(tags: Seq<Seq<char>>, room: nat, n: nat) -> Seq<Seq<char>>
    decreases n,
{
    if n == 0 {
        Seq::empty()
    } else {
        let before = short_tags(tags, room, (n - 1) as nat);
        if before.len() < room && text::byte_length(tags[n - 1]) <= MAX_WIRE_TAG_BYTES {
            before.push(tags[n - 1])
        } else {
            before
        }
    }
}

/// The tags of a lesson: those of the provider that are short enough, as far as
/// there is room, the selecting one where it is missing, and the mark of where
/// the lesson comes from.
pub open spec fn lesson_tags(tags: Seq<Seq<char>>, selecting: Option<Seq<char>>) -> Seq<Seq<char>> {
    let room = if selecting is Some {
        (MAX_WIRE_TAGS - 2) as nat
    } else {
        (MAX_WIRE_TAGS - 1) as nat
    };
    let own = short_tags(tags, room, tags.len());
    let selected = match selecting {
        Some(t) => if own.contains(t) {
            own
        } else {
            own.push(t)
        },
        None => own,
    };
    selected.push("provider-derived"@)
}

/// The quality that a provider's rating counts as.
pub open spec fn rating(quality: Option<Single>) -> Single {
    let q = (match quality {
        Some(x) => if x.magnitude() < crate::single::INFINITY_BITS {
            x
        } else {
            Single { bits: UNRATED_QUALITY }
        },
        None => Single { bits: UNRATED_QUALITY },
    }).clamped();
    if q.key() > MAX_WIRE_QUALITY {
        Single { bits: MAX_WIRE_QUALITY }
    } else {
        q
    }
}

/// The lesson of an element. A category that is not spelled as the prompt
/// spells it, an empty content and one that is too long are dropped.
pub open spec fn lesson_of(wire: WireView) -> Option<MinedView> {
    match kind_of(wire.category) {
        Some((category, selecting)) => if text::stripped(wire.content).len() == 0
            || text::byte_length(wire.content) > MAX_WIRE_CONTENT_BYTES {
            None
        } else {
            Some(
                MinedView {
                    category,
                    content: wire.content,
                    tags: lesson_tags(wire.tags, selecting),
                    quality: rating(wire.quality),
                },
            )
        },
        None => None,
    }
}

/// The lessons of the first `n` elements.
pub open spec fn lessons(wires: Seq<WireView>, n: nat) -> Seq<MinedView>
    decreases n,
{
    if n == 0 {
        Seq::empty()
    } else {
        let before = lessons(wires, (n - 1) as nat);
        match lesson_of(wires[n - 1]) {
            Some(m) => before.push(m),
            None => before,
        }
    }
}

fn rated(quality: Option<Single>) -> (r: Single)
    ensures
        r == rating(quality),
{
    let given: Single = match quality {
        Some(x) => if x.is_finite() {
            x
        } else {
            Single { bits: UNRATED_QUALITY }
        },
        None => Single { bits: UNRATED_QUALITY },
    };
    let q = given.clamp_unit();
    if q.place() > MAX_WIRE_QUALITY as i64 {
        Single { bits: MAX_WIRE_QUALITY }
    } else {
        q
    }
}

fn pick_tags(tags: &Option<Vec<String>>, room: usize) -> (out: Vec<String>)
    ensures
        text::texts(out@) == short_tags(
            match *tags {
                Some(list) => text::texts(list@),
                None => Seq::empty(),
            },
            room as nat,
            match *tags {
                Some(list) => list@.len(),
                None => 0,
            },
        ),
{
    let mut out: Vec<String> = Vec::new();
    assert(text::texts(out@) =~= Seq::<Seq<char>>::empty());
    if let Some(list) = tags {
        let ghost all = text::texts(list@);
        let mut i: usize = 0;
        while i < list.len()
            invariant
                i <= list.len(),
                all == text::texts(list@),
                text::texts(out@) == short_tags(all, room as nat, i as nat),
            decreases list.len() - i,
        {
            assert(all[i as int] == list@[i as int]@);
            if out.len() < room && text::byte_len(list[i].as_str()) <= MAX_WIRE_TAG_BYTES {
                text::push_to_list(&mut out, list[i].as_str());
            }
            i = i + 1;
        }
    }
    out
}

/// Makes a lesson of an element, or drops it.
pub fn wire_to_extracted(wire: &LlmMemoryWire) -> (out: Option<ExtractedMemory>)
    ensures
        match out {
            Some(m) => lesson_of(wire@) == Some(m@),
            None => lesson_of(wire@) is None,
        },
{
    let name = wire.category.as_str();
    let (category, selecting): (MemoryCategory, Option<&str>) = if text::same_text(name, "strategy") {
        (MemoryCategory::Strategy, None)
    } else if text::same_text(name, "error_pattern") {
        (MemoryCategory::ErrorPattern, Some("recovery"))
    } else if text::same_text(name, "insight") {
        (MemoryCategory::Insight, None)
    } else if text::same_text(name, "optimization") {
        (MemoryCategory::Insight, Some("optimization"))
    } else {
        return None;
    };
    let bare = text::trim_white(wire.content.as_str());
    if bare.as_str().is_empty() || text::byte_len(wire.content.as_str()) > MAX_WIRE_CONTENT_BYTES {
        return None;
    }
    let room: usize = if selecting.is_some() {
        MAX_WIRE_TAGS - 2
    } else {
        MAX_WIRE_TAGS - 1
    };
    let mut tags = pick_tags(&wire.tags, room);
    if let Some(t) = selecting {
        if !text::list_contains(&tags, t) {
            text::push_to_list(&mut tags, t);
        }
    }
    text::push_to_list(&mut tags, "provider-derived");
    Some(
        ExtractedMemory {
            category,
            content: wire.content.clone(),
            tags,
            quality: rated(wire.quality),
        },
    )
}

/// Makes lessons of the elements of an array.
pub fn extracted_from(wires: &Vec<LlmMemoryWire>) -> (out: Vec<ExtractedMemory>)
    ensures
        mining::mined_views(out@) == lessons(wire_views(wires@), wires@.len()),
{
    let ghost views = wire_views(wires@);
    let mut out: Vec<ExtractedMemory> = Vec::new();
    let mut i: usize = 0;
    assert(mining::mined_views(out@) =~= Seq::<MinedView>::empty());
    while i < wires.len()
        invariant
            i <= wires.len(),
            views == wire_views(wires@),
            mining::mined_views(out@) == lessons(views, i as nat),
        decreases wires.len() - i,
    {
        assert(views[i as int] == wires@[i as int]@);
        if let Some(m) = wire_to_extracted(&wires[i]) {
            assert(mining::mined_views(out@.push(m)) =~= mining::mined_views(out@).push(m@));
            out.push(m);
        }
        i = i + 1;
    }
    out
}

/// The place of the first span that could be read, or the number of spans.
pub open spec fn first_read(parsed: Seq<Option<Vec<LlmMemoryWire>>>) -> int
    decreases parsed.len(),
{
    if parsed.len() == 0 || parsed[0] is Some {
        0
    } else {
        1 + first_read(parsed.skip(1))
    }
}

/// The error of an answer without an array that can be read.
pub fn unparseable_response() -> (e: LoopError)
    ensures
        e@ == (error::ErrorView::Api("extraction response contained no parseable JSON array"@)),
{
    LoopError::Api(String::from_str("extraction response contained no parseable JSON array"))
}

/// Settles an answer, given what came of reading its spans as arrays, in their
/// order: the first that could be read counts.
pub fn settle_spans(parsed: &Vec<Option<Vec<LlmMemoryWire>>>) -> (out: Result<
    Vec<ExtractedMemory>,
    LoopError,
>)
    ensures
        match out {
            Ok(list) => {
                let k = first_read(parsed@);
                &&& 0 <= k < parsed@.len()
                &&& parsed@[k] is Some
                &&& mining::mined_views(list@) == lessons(
                    wire_views(parsed@[k]->0@),
                    parsed@[k]->0@.len(),
                )
            },
            Err(e) => {
                &&& first_read(parsed@) == parsed@.len()
                &&& e@ == (error::ErrorView::Api(
                    "extraction response contained no parseable JSON array"@,
                ))
            },
        },
{
    let mut i: usize = 0;
    assert(parsed@.skip(0) =~= parsed@);
    while i < parsed.len()
        invariant
            i <= parsed.len(),
            first_read(parsed@) == i + first_read(parsed@.skip(i as int)),
        decreases parsed.len() - i,
    {
        assert(parsed@.skip(i as int)[0] == parsed@[i as int]);
        if let Some(wires) = &parsed[i] {
            return Ok(extracted_from(wires));
        }
        assert(parsed@.skip(i as int).skip(1) =~= parsed@.skip(i + 1));
        i = i + 1;
    }
    Err(unparseable_response())
}

// ---------------------------------------------------------------------------
// Laws
// ---------------------------------------------------------------------------

proof fn lemma_short_tags(tags: Seq<Seq<char>>, room: nat, n: nat)
    requires
        n <= tags.len(),
    ensures
        short_tags(tags, room, n).len() <= room,
        forall|k: int|
            0 <= k < short_tags(tags, room, n).len() ==> text::byte_length(
                #[trigger] short_tags(tags, room, n)[k],
            ) <= MAX_WIRE_TAG_BYTES,
    decreases n,
{
    if n > 0 {
        lemma_short_tags(tags, room, (n - 1) as nat);
    }
}

/// Every lesson of a provider is bounded, is marked as its own, carries the tag
/// that its kind is selected by, and is never good enough to be stored as
/// validated.
pub proof fn provider_lessons_are_bounded_and_marked(wire: WireView)
    requires
        lesson_of(wire) is Some,
    ensures
        ({
            let m = lesson_of(wire)->0;
            &&& text::byte_length(m.content) <= MAX_WIRE_CONTENT_BYTES
            &&& m.tags.len() <= MAX_WIRE_TAGS
            &&& m.tags.last() == "provider-derived"@
            &&& wire.category == "error_pattern"@ ==> m.tags.contains("recovery"@)
            &&& m.quality.in_unit()
            &&& !m.quality.reaches(Single { bits: mining::VALIDATED_QUALITY })
        }),
{
    let (category, selecting) = kind_of(wire.category)->0;
    let room = if selecting is Some {
        (MAX_WIRE_TAGS - 2) as nat
    } else {
        (MAX_WIRE_TAGS - 1) as nat
    };
    lemma_short_tags(wire.tags, room, wire.tags.len());
    let own = short_tags(wire.tags, room, wire.tags.len());
    let m = lesson_of(wire)->0;
    if let Some(t) = selecting {
        if own.contains(t) {
            let k = choose|k: int| 0 <= k < own.len() && own[k] == t;
            assert(m.tags[k] == t);
        } else {
            assert(m.tags[own.len() as int] == t);
        }
        assert(m.tags.contains(t));
    }
    reveal_strlit("strategy");
    reveal_strlit("error_pattern");
    assert("strategy"@.len() != "error_pattern"@.len());
    let q = match wire.quality {
        Some(x) => if x.magnitude() < crate::single::INFINITY_BITS {
            x
        } else {
            Single { bits: UNRATED_QUALITY }
        },
        None => Single { bits: UNRATED_QUALITY },
    };
    crate::single::clamping_lands_in_the_unit_interval(q);
}

/// Outside of strings an opening bracket waits for its partner, and a closing
/// one is paired with the bracket that was opened last and still waits. Every
/// other character leaves brackets alone, and in a string all of them do.
pub proof fn a_bracket_closes_the_last_one_opened(answer: Seq<char>, n: nat)
    requires
        n < answer.len(),
    ensures
        ({
            let before = scan(answer, n);
            let after = scan(answer, n + 1);
            let c = answer[n as int];
            &&& scan(answer, 0) == (Scan {
                open: Seq::empty(),
                pairs: Seq::empty(),
                in_string: false,
                escaped: false,
            })
            &&& before.in_string || before.escaped || (c != '[' && c != ']') ==> after.open
                == before.open && after.pairs == before.pairs
            &&& !before.in_string && !before.escaped && c == '[' ==> after == (Scan {
                open: before.open + seq![n as int],
                ..before
            })
            &&& !before.in_string && !before.escaped && c == ']' && before.open.len() > 0
                ==> after == (Scan {
                open: before.open.take(before.open.len() - 1),
                pairs: before.pairs + seq![(before.open[before.open.len() - 1], n as int)],
                ..before
            })
            &&& !before.in_string && !before.escaped && c == ']' && before.open.len() == 0
                ==> after == before
            &&& !before.escaped && c == '"' ==> after.in_string == !before.in_string
            &&& before.escaped || c != '"' ==> after.in_string == before.in_string
            &&& after.escaped <==> !before.escaped && before.in_string && c == '\\'
        }),
{
    let before = scan(answer, n);
    assert(before.open.push(n as int) =~= before.open + seq![n as int]);
    if before.open.len() > 0 {
        assert(before.open.drop_last() =~= before.open.take(before.open.len() - 1));
        let pair = (before.open.last(), n as int);
        assert(before.pairs.push(pair) =~= before.pairs + seq![pair]);
    }
}

/// Every pair of brackets makes a span, and there is no other; the earlier its
/// opening bracket, the earlier the span.
pub proof fn every_pair_makes_a_span(answer: Seq<char>) -> (starts: Seq<(int, int)>)
    ensures
        starts.len() == spans(answer).len(),
        forall|k: int|
            0 <= k < starts.len() ==> bracket_pairs(answer).contains(#[trigger] starts[k])
                && spans(answer)[k] == answer.subrange(starts[k].0, starts[k].1 + 1),
        forall|j: int, k: int|
            0 <= j < k < starts.len() ==> (#[trigger] starts[j]).0 < (#[trigger] starts[k]).0,
        forall|m: int|
            0 <= m < bracket_pairs(answer).len() ==> starts.contains(
                #[trigger] bracket_pairs(answer)[m],
            ),
{
    let n = answer.len();
    let s = scan(answer, n);
    let pairs = bracket_pairs(answer);
    lemma_scan_places(answer, n);
    let starts = by_start(pairs, n);
    lemma_every_start(pairs, n);
    assert forall|m: int| 0 <= m < pairs.len() implies starts.contains(#[trigger] pairs[m]) by {
        assert(pair_fits(answer, pairs[m], n as int));
        let k = choose|k: int| 0 <= k < starts.len() && (#[trigger] starts[k]).0 == pairs[m].0;
        let q = choose|q: int| 0 <= q < pairs.len() && pairs[q] == starts[k];
        if q < m {
            assert(pairs[q].0 != pairs[m].0);
        } else if m < q {
            assert(pairs[m].0 != pairs[q].0);
        }
    }
    starts
}

proof fn lemma_every_start(pairs: Seq<(int, int)>, n: nat)
    ensures
        ({
            let out = by_start(pairs, n);
            &&& forall|k: int|
                0 <= k < out.len() ==> pairs.contains(#[trigger] out[k]) && 0 <= out[k].0 < n
            &&& forall|j: int, k: int|
                0 <= j < k < out.len() ==> (#[trigger] out[j]).0 < (#[trigger] out[k]).0
            &&& forall|m: int|
                0 <= m < pairs.len() && 0 <= (#[trigger] pairs[m]).0 < n ==> exists|k: int|
                    0 <= k < out.len() && (#[trigger] out[k]).0 == pairs[m].0
        }),
    decreases n,
{
    if n > 0 {
        lemma_every_start(pairs, (n - 1) as nat);
        lemma_partner(pairs, n - 1);
        let before = by_start(pairs, (n - 1) as nat);
        let out = by_start(pairs, n);
        assert forall|m: int| 0 <= m < pairs.len() && 0 <= (#[trigger] pairs[m]).0 < n implies exists|
            k: int,
        |
            0 <= k < out.len() && (#[trigger] out[k]).0 == pairs[m].0 by {
            if pairs[m].0 == n - 1 {
                assert(out[before.len() as int].0 == n - 1);
            } else {
                let k = choose|k: int| 0 <= k < before.len() && (#[trigger] before[k]).0 == pairs[m].0;
                assert(out[k] == before[k]);
            }
        }
    }
}

/// Four names are known. An error pattern and an optimization are selected by a
/// tag, and an optimization is an insight.
pub proof fn four_kinds_of_lessons_are_known(name: Seq<char>)
    ensures
        kind_of("strategy"@) == Some((MemoryCategory::Strategy, None::<Seq<char>>)),
        kind_of("error_pattern"@) == Some((MemoryCategory::ErrorPattern, Some("recovery"@))),
        kind_of("insight"@) == Some((MemoryCategory::Insight, None::<Seq<char>>)),
        kind_of("optimization"@) == Some((MemoryCategory::Insight, Some("optimization"@))),
        kind_of(name) is Some ==> name == "strategy"@ || name == "error_pattern"@ || name
            == "insight"@ || name == "optimization"@,
{
    reveal_strlit("strategy");
    reveal_strlit("error_pattern");
    reveal_strlit("insight");
    reveal_strlit("optimization");
    assert("strategy"@[0] == 's' && "error_pattern"@[0] == 'e' && "insight"@[0] == 'i'
        && "optimization"@[0] == 'o');
}

/// Of the tags those of at most 64 bytes are kept, the first as many as there
/// is room for, in their order: the result names the places of all short ones.
pub proof fn the_first_short_tags_are_kept(tags: Seq<Seq<char>>, room: nat, n: nat) -> (places: Seq<
    int,
>)
    requires
        n <= tags.len(),
    ensures
        selection::selects(places, n, |i: int| text::byte_length(tags[i]) <= 64),
        short_tags(tags, room, n) == (if places.len() <= room {
            places
        } else {
            places.take(room as int)
        }).map_values(|i: int| tags[i]),
    decreases n,
{
    let rule = |i: int| text::byte_length(tags[i]) <= 64;
    if n == 0 {
        selection::lemma_none(rule);
        let none = Seq::<int>::empty();
        assert(short_tags(tags, room, 0) =~= none.map_values(|i: int| tags[i]));
        none
    } else {
        let before = the_first_short_tags_are_kept(tags, room, (n - 1) as nat);
        selection::lemma_next(before, (n - 1) as nat, rule);
        let places = if rule(n - 1) {
            before.push(n - 1)
        } else {
            before
        };
        let kept = if places.len() <= room {
            places
        } else {
            places.take(room as int)
        };
        assert(short_tags(tags, room, n) =~= kept.map_values(|i: int| tags[i]));
        places
    }
}

/// The tag that a kind is selected by follows the provider's own where they
/// lack it, and takes one of eight places; the last place is the mark's.
pub proof fn a_lesson_carries_its_marks(tags: Seq<Seq<char>>, tag: Seq<char>)
    ensures
        lesson_tags(tags, None) == short_tags(tags, 7, tags.len()) + seq!["provider-derived"@],
        short_tags(tags, 6, tags.len()).contains(tag) ==> lesson_tags(tags, Some(tag))
            == short_tags(tags, 6, tags.len()) + seq!["provider-derived"@],
        !short_tags(tags, 6, tags.len()).contains(tag) ==> lesson_tags(tags, Some(tag))
            == short_tags(tags, 6, tags.len()) + seq![tag, "provider-derived"@],
{
    let seven = short_tags(tags, 7, tags.len());
    let six = short_tags(tags, 6, tags.len());
    let mark = "provider-derived"@;
    assert(seven.push(mark) =~= seven + seq![mark]);
    assert(six.push(mark) =~= six + seq![mark]);
    assert(six.push(tag).push(mark) =~= six + seq![tag, mark]);
}

/// A rating between zero and 0.85 counts as it is. One above counts as 0.85 and
/// one below zero as zero; none, and one that is no finite number, counts as
/// one half.
pub proof fn a_rating_counts_up_to_its_ceiling(x: Single)
    ensures
        rating(None) == (Single { bits: 0x3f00_0000 }),
        x.magnitude() >= 0x7f80_0000 ==> rating(Some(x)) == (Single { bits: 0x3f00_0000 }),
        x.magnitude() < 0x7f80_0000 && 0 <= x.key() <= 0x3f59_999a ==> rating(Some(x)).key()
            == x.key(),
        x.magnitude() < 0x7f80_0000 && x.key() > 0x3f59_999a ==> rating(Some(x)) == (Single {
            bits: 0x3f59_999a,
        }),
        x.magnitude() < 0x7f80_0000 && x.key() < 0 ==> rating(Some(x)).key() == 0,
{
}

/// An element is a lesson where its category is known and its content is
/// neither blank nor longer than 2000 bytes; the content then stays as it is.
pub proof fn a_known_element_is_a_lesson(wire: WireView)
    ensures
        lesson_of(wire) is Some <==> kind_of(wire.category) is Some && text::stripped(
            wire.content,
        ).len() > 0 && text::byte_length(wire.content) <= 2000,
        lesson_of(wire) matches Some(m) ==> {
            &&& kind_of(wire.category) matches Some((category, selecting)) && m.category == category
                && m.tags == lesson_tags(wire.tags, selecting)
            &&& m.content == wire.content
            &&& m.quality == rating(wire.quality)
        },
{
}

/// Every element that is a lesson is listed, in its order, whatever the others
/// are: the result names their places.
pub proof fn every_lesson_is_listed(wires: Seq<WireView>, n: nat) -> (places: Seq<int>)
    requires
        n <= wires.len(),
    ensures
        selection::selects(places, n, |i: int| lesson_of(wires[i]) is Some),
        lessons(wires, n) == places.map_values(|i: int| lesson_of(wires[i])->0),
    decreases n,
{
    let rule = |i: int| lesson_of(wires[i]) is Some;
    if n == 0 {
        selection::lemma_none(rule);
        let none = Seq::<int>::empty();
        assert(lessons(wires, 0) =~= none.map_values(|i: int| lesson_of(wires[i])->0));
        none
    } else {
        let before = every_lesson_is_listed(wires, (n - 1) as nat);
        selection::lemma_next(before, (n - 1) as nat, rule);
        let places = if rule(n - 1) {
            before.push(n - 1)
        } else {
            before
        };
        assert(lessons(wires, n) =~= places.map_values(|i: int| lesson_of(wires[i])->0));
        places
    }
}

/// The first span that can be read counts, however many cannot be before it.
pub proof fn the_first_readable_span_counts(parsed: Seq<Option<Vec<LlmMemoryWire>>>, i: int)
    ensures
        0 <= i < parsed.len() && parsed[i] is Some && (forall|j: int|
            0 <= j < i ==> (#[trigger] parsed[j]) is None) ==> first_read(parsed) == i,
        (forall|j: int| 0 <= j < parsed.len() ==> (#[trigger] parsed[j]) is None) ==> first_read(
            parsed,
        ) == parsed.len(),
    decreases parsed.len(),
{
    if parsed.len() > 0 {
        let rest = parsed.skip(1);
        the_first_readable_span_counts(rest, i - 1);
        if 0 < i < parsed.len() && parsed[i] is Some && (forall|j: int|
            0 <= j < i ==> (#[trigger] parsed[j]) is None) {
            assert(parsed[0] is None);
            assert(rest[i - 1] == parsed[i]);
            assert forall|j: int| 0 <= j < i - 1 implies (#[trigger] rest[j]) is None by {
                assert(rest[j] == parsed[j + 1]);
            }
        }
        if forall|j: int| 0 <= j < parsed.len() ==> (#[trigger] parsed[j]) is None {
            assert(parsed[0] is None);
            assert forall|j: int| 0 <= j < rest.len() implies (#[trigger] rest[j]) is None by {
                assert(rest[j] == parsed[j + 1]);
            }
        }
    }
}

/// An answer is looked at up to 64 kibibytes.
pub proof fn long_answers_are_not_looked_at()
    ensures
        MAX_RESPONSE_BYTES == 64 * 1024,
{
}

} // verus!
