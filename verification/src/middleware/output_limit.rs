//! A limit on the text that a tool returns.

use vstd::prelude::*;

use crate::message;
use crate::message::{ResultPartView, ResultView, ToolResult, ToolResultPart};
use crate::middleware::dispatch::{DispatchView, ToolDispatchResult};
use crate::text;

verus! {

/// What marks a cut text.
pub const TRUNCATION_MARKER: &'static str = "\n[truncated]";

/// The number of characters of the marker.
pub const MARKER_LENGTH: usize = 12;

/// Holds the text of a result within a number of characters.
#[derive(Debug, Clone, Copy)]
pub struct OutputLimitMiddleware {
    pub max_chars: usize,
}

/// A text cut so that it and the marker fit into `budget` characters; the bare
/// marker where the budget is smaller than that.
pub open spec fn marked(text: Seq<char>, budget: nat) -> Seq<char> {
    let kept: int = if budget >= MARKER_LENGTH {
        budget - MARKER_LENGTH
    } else {
        0
    };
    text.take(
        if kept <= text.len() {
            kept
        } else {
            text.len() as int
        },
    ) + TRUNCATION_MARKER@
}

/// A part under a budget, and what is left of the budget after it.
pub open spec fn part_limited(part: ResultPartView, budget: nat) -> (ResultPartView, nat) {
    match part {
        ResultPartView::Image { .. } => (part, budget),
        ResultPartView::Text { text } => if text.len() <= budget {
            (part, (budget - text.len()) as nat)
        } else if budget == 0 {
            (ResultPartView::Text { text: Seq::empty() }, 0)
        } else {
            (ResultPartView::Text { text: marked(text, budget) }, 0)
        },
    }
}

/// The first `n` parts under one budget, and what is left of it after them.
pub open spec fn parts_limited(parts: Seq<ResultPartView>, budget: nat, n: nat) -> (
    Seq<ResultPartView>,
    nat,
)
    decreases n,
{
    if n == 0 {
        (Seq::empty(), budget)
    } else {
        let before = parts_limited(parts, budget, (n - 1) as nat);
        let here = part_limited(parts[n - 1], before.1);
        (before.0.push(here.0), here.1)
    }
}

/// A result under a budget. A budget of zero sets no limit.
pub open spec fn limited(result: ResultView, max_chars: nat) -> ResultView {
    if max_chars == 0 {
        result
    } else {
        match result {
            ResultView::Text(text) => if text.len() > max_chars {
                ResultView::Text(marked(text, max_chars))
            } else {
                result
            },
            ResultView::Multipart(parts) => ResultView::Multipart(
                parts_limited(parts, max_chars, parts.len()).0,
            ),
        }
    }
}

/// Cuts a text so that it and the marker fit.
pub fn truncate_marked(text: &str, budget: usize) -> (out: String)
    ensures
        out@ == marked(text@, budget as nat),
{
    let chars = text::chars_of(text);
    let kept: usize = if budget >= MARKER_LENGTH {
        budget - MARKER_LENGTH
    } else {
        0
    };
    let end: usize = if kept <= chars.len() {
        kept
    } else {
        chars.len()
    };
    let mut out = text::slice_text(&chars, 0, end);
    assert(chars@.subrange(0, end as int) =~= text@.take(end as int));
    text::push_text(&mut out, TRUNCATION_MARKER);
    out
}

fn limit_part(part: &ToolResultPart, budget: usize) -> (out: (ToolResultPart, usize))
    ensures
        (out.0@, out.1 as nat) == part_limited(part@, budget as nat),
{
    match part {
        ToolResultPart::Image { source } => (
            ToolResultPart::Image { source: source.clone() },
            budget,
        ),
        ToolResultPart::Text { text } => {
            let count: usize = text::chars_of(text.as_str()).len();
            if count <= budget {
                (ToolResultPart::text(text.as_str()), budget - count)
            } else if budget == 0 {
                let empty = ToolResultPart::Text { text: String::new() };
                assert(empty@->Text_text =~= Seq::<char>::empty());
                (empty, 0)
            } else {
                (ToolResultPart::Text { text: truncate_marked(text.as_str(), budget) }, 0)
            }
        },
    }
}

/// Holds a result within a number of characters.
pub fn limit_output(output: &ToolResult, max_chars: usize) -> (out: ToolResult)
    ensures
        out@ == limited(output@, max_chars as nat),
{
    if max_chars == 0 {
        return output.clone();
    }
    match output {
        ToolResult::Text(text) => {
            if text::chars_of(text.as_str()).len() > max_chars {
                ToolResult::Text(truncate_marked(text.as_str(), max_chars))
            } else {
                output.clone()
            }
        },
        ToolResult::Multipart(parts) => {
            let ghost all = message::result_parts(parts@);
            let mut cut: Vec<ToolResultPart> = Vec::new();
            let mut left: usize = max_chars;
            let mut i: usize = 0;
            assert(message::result_parts(cut@) =~= Seq::<ResultPartView>::empty());
            while i < parts.len()
                invariant
                    i <= parts.len(),
                    all == message::result_parts(parts@),
                    (message::result_parts(cut@), left as nat) == parts_limited(
                        all,
                        max_chars as nat,
                        i as nat,
                    ),
                decreases parts.len() - i,
            {
                assert(all[i as int] == parts@[i as int]@);
                let (part, rest) = limit_part(&parts[i], left);
                assert(message::result_parts(cut@.push(part)) =~= message::result_parts(cut@).push(
                    part@,
                ));
                cut.push(part);
                left = rest;
                i = i + 1;
            }
            ToolResult::Multipart(cut)
        },
    }
}

impl OutputLimitMiddleware {
    /// A layer that lets through this many characters; zero sets no limit.
    pub fn new(max_chars: usize) -> (r: Self)
        ensures
            r.max_chars == max_chars,
    {
        OutputLimitMiddleware { max_chars }
    }

    /// The name of the layer.
    pub fn name(&self) -> (r: &'static str)
        ensures
            r@ == "output_limit"@,
    {
        "output_limit"
    }

    /// What the layer makes of a result.
    pub fn after_dispatch(&self, result: ToolDispatchResult) -> (out: ToolDispatchResult)
        ensures
            out@ == (DispatchView {
                output: limited(result@.output, self.max_chars as nat),
                ..result@
            }),
    {
        let mut out = result;
        out.output = limit_output(&out.output, self.max_chars);
        out
    }
}

/// The number of characters of text in a list of parts.
pub open spec fn text_size(parts: Seq<ResultPartView>) -> nat
    decreases parts.len(),
{
    if parts.len() == 0 {
        0
    } else {
        text_size(parts.drop_last()) + match parts.last() {
            ResultPartView::Text { text } => text.len(),
            ResultPartView::Image { .. } => 0,
        }
    }
}

/// The number of characters of text in a result.
pub open spec fn result_size(result: ResultView) -> nat {
    match result {
        ResultView::Text(text) => text.len(),
        ResultView::Multipart(parts) => text_size(parts),
    }
}

proof fn lemma_parts_size(parts: Seq<ResultPartView>, budget: nat, n: nat)
    requires
        n <= parts.len(),
    ensures
        ({
            let (cut, left) = parts_limited(parts, budget, n);
            &&& cut.len() == n
            &&& text_size(cut) + left < budget + MARKER_LENGTH
            &&& left > 0 ==> text_size(cut) + left == budget
            &&& left <= budget
        }),
    decreases n,
{
    reveal_strlit("\n[truncated]");
    if n > 0 {
        lemma_parts_size(parts, budget, (n - 1) as nat);
        let before = parts_limited(parts, budget, (n - 1) as nat);
        let now = parts_limited(parts, budget, n);
        assert(now.0.drop_last() =~= before.0);
    }
}

/// What comes out stays within the limit, but for a marker that is shown even
/// where less than its length was left.
pub proof fn output_stays_within_the_limit(result: ResultView, max_chars: nat)
    requires
        max_chars > 0,
    ensures
        result_size(limited(result, max_chars)) < max_chars + MARKER_LENGTH,
        result is Text && max_chars >= MARKER_LENGTH ==> result_size(limited(result, max_chars))
            <= max_chars,
{
    reveal_strlit("\n[truncated]");
    if let ResultView::Multipart(parts) = result {
        lemma_parts_size(parts, max_chars, parts.len());
    }
}

/// What fits comes out unchanged.
pub proof fn output_that_fits_is_untouched(result: ResultView, max_chars: nat)
    requires
        result_size(result) <= max_chars,
    ensures
        limited(result, max_chars) == result,
{
    if max_chars > 0 {
        if let ResultView::Multipart(parts) = result {
            lemma_fitting_parts(parts, max_chars, parts.len());
            assert(parts.take(parts.len() as int) =~= parts);
        }
    }
}

proof fn lemma_size_grows(parts: Seq<ResultPartView>, n: int)
    requires
        0 <= n <= parts.len(),
    ensures
        text_size(parts.take(n)) <= text_size(parts),
    decreases parts.len(),
{
    if n < parts.len() {
        lemma_size_grows(parts.drop_last(), n);
        assert(parts.drop_last().take(n) =~= parts.take(n));
    } else {
        assert(parts.take(n) =~= parts);
    }
}

proof fn lemma_fitting_parts(parts: Seq<ResultPartView>, budget: nat, n: nat)
    requires
        n <= parts.len(),
        text_size(parts) <= budget,
    ensures
        parts_limited(parts, budget, n).0 == parts.take(n as int),
        parts_limited(parts, budget, n).1 == budget - text_size(parts.take(n as int)),
    decreases n,
{
    if n == 0 {
        assert(parts.take(0) =~= Seq::<ResultPartView>::empty());
    } else {
        lemma_fitting_parts(parts, budget, (n - 1) as nat);
        lemma_size_grows(parts, n as int);
        assert(parts.take(n as int).drop_last() =~= parts.take(n - 1));
        assert(parts.take(n as int).last() == parts[n - 1]);
        assert(parts.take(n - 1).push(parts[n - 1]) =~= parts.take(n as int));
    }
}

/// A text that is cut keeps its start and ends with the marker, together as
/// long as the budget; only where the budget is shorter than the marker does
/// the marker stand alone.
pub proof fn a_cut_text_ends_with_the_marker(text: Seq<char>, budget: nat)
    requires
        text.len() > budget,
    ensures
        budget >= 12 ==> marked(text, budget) == text.take(budget - 12) + "\n[truncated]"@,
        budget >= 12 ==> marked(text, budget).len() == budget,
        budget < 12 ==> marked(text, budget) == "\n[truncated]"@,
{
    reveal_strlit("\n[truncated]");
    if budget < 12 {
        assert(text.take(0) + "\n[truncated]"@ =~= "\n[truncated]"@);
    }
}

/// The parts of a result share one budget, the first come first. A text that
/// ends within the budget stays, the one that crosses it is cut to what was
/// left, and texts behind it are emptied; images stay and cost nothing.
pub proof fn the_budget_goes_to_the_first_parts(parts: Seq<ResultPartView>, max_chars: nat, i: int)
    requires
        max_chars > 0,
        0 <= i < parts.len(),
    ensures
        limited(ResultView::Multipart(parts), max_chars) is Multipart,
        ({
            let out = limited(ResultView::Multipart(parts), max_chars)->Multipart_0;
            let before = text_size(parts.take(i));
            &&& out.len() == parts.len()
            &&& parts[i] is Image ==> out[i] == parts[i]
            &&& parts[i] matches ResultPartView::Text { text } ==> {
                &&& before + text.len() <= max_chars ==> out[i] == parts[i]
                &&& before < max_chars && before + text.len() > max_chars ==> out[i] == (
                ResultPartView::Text { text: marked(text, (max_chars - before) as nat) })
                &&& before >= max_chars && text.len() > 0 ==> out[i] == (ResultPartView::Text {
                    text: Seq::empty(),
                })
            }
        }),
{
    lemma_shared(parts, max_chars, parts.len(), i);
    lemma_left(parts, max_chars, i as nat);
}

proof fn lemma_shared(parts: Seq<ResultPartView>, budget: nat, n: nat, i: int)
    requires
        0 <= i < n <= parts.len(),
    ensures
        parts_limited(parts, budget, n).0.len() == n,
        parts_limited(parts, budget, n).0[i] == part_limited(
            parts[i],
            parts_limited(parts, budget, i as nat).1,
        ).0,
    decreases n,
{
    lemma_length(parts, budget, (n - 1) as nat);
    if i < n - 1 {
        lemma_shared(parts, budget, (n - 1) as nat, i);
    }
}

proof fn lemma_length(parts: Seq<ResultPartView>, budget: nat, n: nat)
    ensures
        parts_limited(parts, budget, n).0.len() == n,
    decreases n,
{
    if n > 0 {
        lemma_length(parts, budget, (n - 1) as nat);
    }
}

proof fn lemma_left(parts: Seq<ResultPartView>, budget: nat, n: nat)
    requires
        n <= parts.len(),
    ensures
        text_size(parts.take(n as int)) <= budget ==> parts_limited(parts, budget, n).1 == budget
            - text_size(parts.take(n as int)),
        text_size(parts.take(n as int)) > budget ==> parts_limited(parts, budget, n).1 == 0,
    decreases n,
{
    if n > 0 {
        lemma_left(parts, budget, (n - 1) as nat);
        assert(parts.take(n as int).drop_last() =~= parts.take(n - 1));
        assert(parts.take(n as int).last() == parts[n - 1]);
    }
}

/// A single text is cut where it is longer than the limit, and a limit of zero
/// cuts nothing.
pub proof fn a_limit_of_zero_cuts_nothing(result: ResultView, max_chars: nat)
    ensures
        limited(result, 0) == result,
        result matches ResultView::Text(text) ==> {
            &&& text.len() <= max_chars ==> limited(result, max_chars) == result
            &&& text.len() > max_chars && max_chars > 0 ==> limited(result, max_chars)
                == ResultView::Text(marked(text, max_chars))
        },
{
}

/// The size of a list of parts is that of its texts.
pub proof fn only_texts_have_a_size(parts: Seq<ResultPartView>, text: Seq<char>, part: ResultPartView)
    ensures
        text_size(Seq::empty()) == 0,
        text_size(parts.push(ResultPartView::Text { text })) == text_size(parts) + text.len(),
        part is Image ==> text_size(parts.push(part)) == text_size(parts),
{
    assert(parts.push(ResultPartView::Text { text }).drop_last() =~= parts);
    assert(parts.push(part).drop_last() =~= parts);
}

} // verus!
