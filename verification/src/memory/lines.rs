//! The lines of a memory file.

use vstd::prelude::*;

use crate::error::{ErrorView, LoopError};
use crate::memory::entry;
use crate::memory::entry::{EntryView, MemoryEntry};
use crate::selection;
use crate::text;

verus! {

/// What a file holds: its complete lines that are not empty, and what follows
/// the last newline.
pub struct FileLines {
    pub complete: Seq<Seq<u8>>,
    pub rest: Seq<u8>,
}

/// The lines of the first `n` bytes.
pub open spec fn lines_in(bytes: Seq<u8>, n: nat) -> FileLines
    decreases n,
{
    if n == 0 {
        FileLines { complete: Seq::empty(), rest: Seq::empty() }
    } else {
        let before = lines_in(bytes, (n - 1) as nat);
        let b = bytes[n - 1];
        if b != 10u8 {
            FileLines { rest: before.rest.push(b), ..before }
        } else if before.rest.len() == 0 {
            before
        } else {
            FileLines { complete: before.complete.push(before.rest), rest: Seq::empty() }
        }
    }
}

/// The byte strings of a list.
pub open spec fn byte_strings(list: Seq<Vec<u8>>) -> Seq<Seq<u8>> {
    list.map_values(|v: Vec<u8>| v@)
}

/// Splits a file into its complete lines that are not empty and the fragment
/// behind the last newline, where there is one.
pub fn split_complete_lines(bytes: &[u8]) -> (out: (Vec<Vec<u8>>, Option<Vec<u8>>))
    ensures
        byte_strings(out.0@) == lines_in(bytes@, bytes@.len()).complete,
        match out.1 {
            Some(rest) => rest@ == lines_in(bytes@, bytes@.len()).rest && rest@.len() > 0,
            None => lines_in(bytes@, bytes@.len()).rest.len() == 0,
        },
{
    let mut complete: Vec<Vec<u8>> = Vec::new();
    let mut rest: Vec<u8> = Vec::new();
    let mut i: usize = 0;
    assert(byte_strings(complete@) =~= Seq::<Seq<u8>>::empty());
    while i < bytes.len()
        invariant
            i <= bytes.len(),
            byte_strings(complete@) == lines_in(bytes@, i as nat).complete,
            rest@ == lines_in(bytes@, i as nat).rest,
        decreases bytes.len() - i,
    {
        let b: u8 = bytes[i];
        if b != 10u8 {
            rest.push(b);
        } else if rest.len() > 0 {
            let mut line: Vec<u8> = Vec::new();
            core::mem::swap(&mut line, &mut rest);
            assert(byte_strings(complete@.push(line)) =~= byte_strings(complete@).push(line@));
            complete.push(line);
        }
        i = i + 1;
    }
    if rest.len() > 0 {
        (complete, Some(rest))
    } else {
        (complete, None)
    }
}

/// A newline ends a line: what is appended as one line to a file that ends with
/// a newline is read back as its last line, and the lines before it stay.
pub proof fn an_appended_line_is_read_back(bytes: Seq<u8>, line: Seq<u8>)
    requires
        lines_in(bytes, bytes.len()).rest.len() == 0,
        line.len() > 0,
        forall|i: int| 0 <= i < line.len() ==> line[i] != 10u8,
    ensures
        ({
            let longer = bytes + line.push(10u8);
            &&& lines_in(longer, longer.len()).complete == lines_in(
                bytes,
                bytes.len(),
            ).complete.push(line)
            &&& lines_in(longer, longer.len()).rest.len() == 0
        }),
{
    let longer = bytes + line.push(10u8);
    lemma_lines_frame(bytes, longer, bytes.len());
    lemma_unfinished(bytes, line, line.len());
    assert(longer[(bytes.len() + line.len()) as int] == 10u8);
    assert(line.take(line.len() as int) =~= line);
}

proof fn lemma_lines_frame(a: Seq<u8>, b: Seq<u8>, n: nat)
    requires
        n <= a.len() <= b.len(),
        forall|i: int| 0 <= i < n ==> a[i] == b[i],
    ensures
        lines_in(a, n) == lines_in(b, n),
    decreases n,
{
    if n > 0 {
        lemma_lines_frame(a, b, (n - 1) as nat);
    }
}

proof fn lemma_unfinished(bytes: Seq<u8>, line: Seq<u8>, k: nat)
    requires
        k <= line.len(),
        lines_in(bytes, bytes.len()).rest.len() == 0,
        forall|i: int| 0 <= i < line.len() ==> line[i] != 10u8,
    ensures
        ({
            let longer = bytes + line.push(10u8);
            let got = lines_in(longer, bytes.len() + k);
            &&& got.complete == lines_in(bytes, bytes.len()).complete
            &&& got.rest == line.take(k as int)
        }),
    decreases k,
{
    let longer = bytes + line.push(10u8);
    if k == 0 {
        lemma_lines_frame(bytes, longer, bytes.len());
        assert(lines_in(bytes, bytes.len()).rest =~= line.take(0));
    } else {
        lemma_unfinished(bytes, line, (k - 1) as nat);
        assert(longer[bytes.len() + k - 1] == line[k - 1]);
        assert(line.take(k as int) =~= line.take(k - 1).push(line[k - 1]));
    }
}

// ---------------------------------------------------------------------------
// From lines to entries
// ---------------------------------------------------------------------------

/// What came of reading one line.
#[derive(Debug)]
pub enum LineRead {
    /// The bytes are no text; why.
    NotUtf8(String),
    /// The bytes are a text; the entry that it holds, or why it holds none.
    Text { line: String, parsed: Result<MemoryEntry, String> },
}

/// What a line that was read says.
pub enum ReadView {
    NotUtf8(Seq<char>),
    Text { line: Seq<char>, parsed: Result<EntryView, Seq<char>> },
}

impl View for LineRead {
    type V = ReadView;

    open spec fn view(&self) -> ReadView {
        match self {
            LineRead::NotUtf8(e) => ReadView::NotUtf8(e@),
            LineRead::Text { line, parsed } => ReadView::Text {
                line: line@,
                parsed: match parsed {
                    Ok(entry) => Ok(entry@),
                    Err(e) => Err(e@),
                },
            },
        }
    }
}

/// What `std::str::from_utf8` says is wrong with bytes that are no text.
pub uninterp spec fn utf8_fault(bytes: Seq<u8>) -> Seq<char>;

/// `std::str::from_utf8`: bytes that are valid UTF-8 are decoded, others are
/// refused. How the refusal is worded depends on the bytes alone, and is left
/// unsaid.
#[verifier::external_body]
fn text_of_utf8(bytes: &[u8]) -> (r: Result<String, String>)
    ensures
        match r {
            Ok(text) => vstd::utf8::valid_utf8(bytes@) && text@ == vstd::utf8::decode_utf8(bytes@),
            Err(why) => !vstd::utf8::valid_utf8(bytes@) && why@ == utf8_fault(bytes@),
        },
{
    std::str::from_utf8(bytes).map(String::from).map_err(|e| e.to_string())
}

/// Reads the bytes of a line as a text, in which the host then looks for an
/// entry; or says what came of reading it where it is none.
pub fn decode_line(bytes: &[u8]) -> (r: Result<String, LineRead>)
    ensures
        match r {
            Ok(text) => vstd::utf8::valid_utf8(bytes@) && text@ == vstd::utf8::decode_utf8(bytes@),
            Err(read) => !vstd::utf8::valid_utf8(bytes@) && read@ == ReadView::NotUtf8(
                utf8_fault(bytes@),
            ),
        },
{
    match text_of_utf8(bytes) {
        Ok(text) => Ok(text),
        Err(why) => Err(LineRead::NotUtf8(why)),
    }
}

/// What a list of lines that were read says.
pub open spec fn read_views(list: Seq<LineRead>) -> Seq<ReadView> {
    list.map_values(|r: LineRead| r@)
}

/// Why a complete line cannot be used, where it cannot.
pub open spec fn line_fault(r: ReadView, number: nat) -> Option<Seq<char>> {
    match r {
        ReadView::NotUtf8(e) => Some(
            "corrupt memory line "@ + text::decimal(number) + ": not valid UTF-8: "@ + e,
        ),
        ReadView::Text { line, parsed } => if text::stripped(line).len() == 0 {
            None
        } else {
            match parsed {
                Ok(_) => None,
                Err(e) => Some("corrupt memory line "@ + text::decimal(number) + ": "@ + e),
            }
        },
    }
}

/// The first complete line, among the first `n`, that cannot be used.
pub open spec fn first_fault(list: Seq<ReadView>, n: nat) -> Option<Seq<char>>
    decreases n,
{
    if n == 0 {
        None
    } else {
        match first_fault(list, (n - 1) as nat) {
            Some(f) => Some(f),
            None => line_fault(list[n - 1], n),
        }
    }
}

/// The entries of the first `n` complete lines.
pub open spec fn entries_in(list: Seq<ReadView>, n: nat) -> Seq<EntryView>
    decreases n,
{
    if n == 0 {
        Seq::empty()
    } else {
        let before = entries_in(list, (n - 1) as nat);
        match list[n - 1] {
            ReadView::Text { line, parsed } => if text::stripped(line).len() == 0 {
                before
            } else {
                match parsed {
                    Ok(e) => before.push(e),
                    Err(_) => before,
                }
            },
            ReadView::NotUtf8(_) => before,
        }
    }
}

/// The entry of the fragment behind the last newline, where it holds one.
pub open spec fn tail_entry(tail: Option<ReadView>) -> Seq<EntryView> {
    match tail {
        Some(ReadView::Text { parsed: Ok(e), .. }) => seq![e],
        _ => Seq::empty(),
    }
}

/// Settles a load. A complete line that cannot be used is an error; a fragment
/// that cannot be used is dropped; and any fragment calls for a repair.
pub fn settle_load(lines: &Vec<LineRead>, tail: &Option<LineRead>) -> (out: Result<
    (Vec<MemoryEntry>, bool),
    LoopError,
>)
    ensures
        ({
            let list = read_views(lines@);
            let last = match *tail {
                Some(t) => Some(t@),
                None => None,
            };
            match first_fault(list, list.len()) {
                Some(f) => out is Err && out->Err_0@ == (ErrorView::Memory(f)),
                None => {
                    &&& out is Ok
                    &&& entry::entry_views(out->Ok_0.0@) == entries_in(list, list.len())
                        + tail_entry(last)
                    &&& out->Ok_0.1 == tail is Some
                },
            }
        }),
{
    let ghost list = read_views(lines@);
    let mut entries: Vec<MemoryEntry> = Vec::new();
    let mut i: usize = 0;
    assert(entry::entry_views(entries@) =~= Seq::<EntryView>::empty());
    while i < lines.len()
        invariant
            i <= lines.len(),
            list == read_views(lines@),
            first_fault(list, i as nat) is None,
            entry::entry_views(entries@) == entries_in(list, i as nat),
        decreases lines.len() - i,
    {
        assert(list[i as int] == lines@[i as int]@);
        match &lines[i] {
            LineRead::NotUtf8(e) => {
                let mut m = String::from_str("corrupt memory line ");
                text::push_decimal(&mut m, i as u128 + 1);
                text::push_text(&mut m, ": not valid UTF-8: ");
                text::push_text(&mut m, e.as_str());
                proof {
                    lemma_fault_stays(list, (i + 1) as nat, list.len());
                }
                return Err(LoopError::Memory(m));
            },
            LineRead::Text { line, parsed } => {
                let bare = text::trim_white(line.as_str());
                if !bare.as_str().is_empty() {
                    match parsed {
                        Ok(e) => {
                            let copy = e.clone();
                            assert(entry::entry_views(entries@.push(copy)) =~= entry::entry_views(
                                entries@,
                            ).push(copy@));
                            entries.push(copy);
                        },
                        Err(e) => {
                            let mut m = String::from_str("corrupt memory line ");
                            text::push_decimal(&mut m, i as u128 + 1);
                            text::push_text(&mut m, ": ");
                            text::push_text(&mut m, e.as_str());
                            proof {
                                lemma_fault_stays(list, (i + 1) as nat, list.len());
                            }
                            return Err(LoopError::Memory(m));
                        },
                    }
                }
            },
        }
        i = i + 1;
    }
    match tail {
        Some(LineRead::Text { parsed: Ok(e), .. }) => {
            let copy = e.clone();
            assert(entry::entry_views(entries@.push(copy)) =~= entry::entry_views(entries@)
                + seq![copy@]);
            entries.push(copy);
            Ok((entries, true))
        },
        Some(_) => {
            assert(entry::entry_views(entries@) + Seq::<EntryView>::empty() =~= entry::entry_views(
                entries@,
            ));
            Ok((entries, true))
        },
        None => {
            assert(entry::entry_views(entries@) + Seq::<EntryView>::empty() =~= entry::entry_views(
                entries@,
            ));
            Ok((entries, false))
        },
    }
}

proof fn lemma_fault_stays(list: Seq<ReadView>, n: nat, m: nat)
    requires
        n <= m,
        first_fault(list, n) is Some,
    ensures
        first_fault(list, m) == first_fault(list, n),
    decreases m - n,
{
    if n < m {
        lemma_fault_stays(list, n, (m - 1) as nat);
    }
}

/// What follows without a newline is a fragment and joins the one before; a
/// newline makes a line of the fragment, and behind another newline does
/// nothing.
pub proof fn only_a_newline_ends_a_line(bytes: Seq<u8>, b: u8)
    ensures
        ({
            let before = lines_in(bytes, bytes.len());
            let after = lines_in(bytes.push(b), bytes.len() + 1);
            &&& b != 10 ==> after.complete == before.complete && after.rest == before.rest + seq![b]
            &&& b == 10 && before.rest.len() > 0 ==> after.complete == before.complete + seq![
                before.rest,
            ] && after.rest.len() == 0
            &&& b == 10 && before.rest.len() == 0 ==> after == before
        }),
        lines_in(Seq::empty(), 0).complete.len() == 0,
        lines_in(Seq::empty(), 0).rest.len() == 0,
{
    let more = bytes.push(b);
    let n = bytes.len();
    lemma_same_lines(bytes, more, n);
    assert(more[n as int] == b);
    let before = lines_in(bytes, n);
    assert(before.rest.push(b) =~= before.rest + seq![b]);
    assert(before.complete.push(before.rest) =~= before.complete + seq![before.rest]);
}

proof fn lemma_same_lines(a: Seq<u8>, b: Seq<u8>, n: nat)
    requires
        n <= a.len(),
        n <= b.len(),
        forall|i: int| 0 <= i < n ==> a[i] == b[i],
    ensures
        lines_in(a, n) == lines_in(b, n),
    decreases n,
{
    if n > 0 {
        lemma_same_lines(a, b, (n - 1) as nat);
        assert(a[n - 1] == b[n - 1]);
    }
}

/// Whether a line that was read holds an entry.
pub open spec fn holds_entry(r: ReadView) -> bool {
    r matches ReadView::Text { line, parsed } && text::stripped(line).len() > 0 && parsed is Ok
}

/// The entries of a file are those of the lines that hold one, in order; blank
/// lines hold none. The result names the places of these lines.
pub proof fn every_line_with_an_entry_counts(list: Seq<ReadView>, n: nat) -> (places: Seq<int>)
    requires
        n <= list.len(),
    ensures
        selection::selects(places, n, |i: int| holds_entry(list[i])),
        entries_in(list, n) == places.map_values(|i: int| list[i]->parsed->Ok_0),
    decreases n,
{
    let rule = |i: int| holds_entry(list[i]);
    if n == 0 {
        selection::lemma_none(rule);
        let none = Seq::<int>::empty();
        assert(entries_in(list, 0) =~= none.map_values(|i: int| list[i]->parsed->Ok_0));
        none
    } else {
        let before = every_line_with_an_entry_counts(list, (n - 1) as nat);
        selection::lemma_next(before, (n - 1) as nat, rule);
        let places = if rule(n - 1) {
            before.push(n - 1)
        } else {
            before
        };
        assert(entries_in(list, n) =~= places.map_values(|i: int| list[i]->parsed->Ok_0));
        places
    }
}

/// A line is at fault where it is no text, or where it is not blank and holds
/// no entry. A file is refused for the first such line, by its number, which
/// counts from one; and only for one.
pub proof fn a_file_is_refused_for_its_first_fault(list: Seq<ReadView>, n: nat, i: int)
    requires
        n <= list.len(),
    ensures
        0 <= i < n && line_fault(list[i], (i + 1) as nat) is Some && (forall|j: int|
            0 <= j < i ==> line_fault(#[trigger] list[j], (j + 1) as nat) is None) ==> first_fault(
            list,
            n,
        ) == line_fault(list[i], (i + 1) as nat),
        (forall|j: int| 0 <= j < n ==> line_fault(#[trigger] list[j], (j + 1) as nat) is None)
            ==> first_fault(list, n) is None,
        0 <= i < n ==> (line_fault(list[i], (i + 1) as nat) is Some <==> match list[i] {
            ReadView::NotUtf8(_) => true,
            ReadView::Text { line, parsed } => text::stripped(line).len() > 0 && parsed is Err,
        }),
    decreases n,
{
    if n > 0 {
        a_file_is_refused_for_its_first_fault(list, (n - 1) as nat, i);
        if forall|j: int| 0 <= j < n ==> line_fault(#[trigger] list[j], (j + 1) as nat) is None {
            assert(line_fault(list[n - 1], n) is None);
        }
        if i == n - 1 && (forall|j: int|
            0 <= j < i ==> line_fault(#[trigger] list[j], (j + 1) as nat) is None) {
            assert(first_fault(list, (n - 1) as nat) is None);
        }
    }
}

/// A fragment behind the last newline counts only where it holds an entry, and
/// is passed over otherwise.
pub proof fn a_fragment_counts_where_it_is_whole(r: ReadView)
    ensures
        tail_entry(None).len() == 0,
        tail_entry(Some(r)).len() <= 1,
        r matches ReadView::Text { line, parsed: Ok(e) } ==> tail_entry(Some(r)) == seq![e],
        r matches ReadView::Text { line, parsed: Err(e) } ==> tail_entry(Some(r)).len() == 0,
        r is NotUtf8 ==> tail_entry(Some(r)).len() == 0,
{
}

/// A fault tells the number of its line and what is wrong with it.
pub proof fn a_fault_tells_its_line(line: Seq<char>, reason: Seq<char>, number: nat)
    ensures
        line_fault(ReadView::NotUtf8(reason), number) == Some(
            "corrupt memory line "@ + text::decimal(number) + ": not valid UTF-8: "@ + reason,
        ),
        text::stripped(line).len() > 0 ==> line_fault(
            ReadView::Text { line, parsed: Err(reason) },
            number,
        ) == Some("corrupt memory line "@ + text::decimal(number) + ": "@ + reason),
{
}

} // verus!
