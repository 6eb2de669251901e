//! Rewriting a memory file: a temporary sibling is written, renamed over the
//! file, and the directory is synced.

use vstd::prelude::*;

use crate::error::{ErrorView, LoopError};
use crate::ids;
use crate::memory::lines;
use crate::text;

verus! {

/// How a rewrite failed.
#[derive(Debug)]
pub enum RewriteError {
    /// The file is as it was.
    PreCommit(LoopError),
    /// The new file is in place; only its durability is not confirmed.
    NotDurable(LoopError),
}

/// How a rewrite failed, as a contract sees it.
pub enum RewriteFault {
    PreCommit(ErrorView),
    NotDurable(ErrorView),
}

impl View for RewriteError {
    type V = RewriteFault;

    open spec fn view(&self) -> RewriteFault {
        match self {
            RewriteError::PreCommit(e) => RewriteFault::PreCommit(e@),
            RewriteError::NotDurable(e) => RewriteFault::NotDurable(e@),
        }
    }
}

impl RewriteError {
    /// The error itself.
    pub fn into_error(self) -> (e: LoopError)
        ensures
            e@ == match self@ {
                RewriteFault::PreCommit(x) => x,
                RewriteFault::NotDurable(x) => x,
            },
    {
        match self {
            RewriteError::PreCommit(e) => e,
            RewriteError::NotDurable(e) => e,
        }
    }
}

/// Where a rewrite stands.
#[derive(Debug)]
pub enum RewriteStage {
    /// The temporary sibling is to be created.
    Create,
    /// The new content is to be written to it and synced.
    Write,
    /// Whether the file's own path is a symbolic link is to be found out.
    Inspect,
    /// The sibling is to be renamed over the file.
    Rename,
    /// The directory is to be synced.
    Sync,
    /// The rewrite is over.
    Done(Result<(), RewriteError>),
}

/// Where a rewrite stands, as a contract sees it.
pub enum StageView {
    Create,
    Write,
    Inspect,
    Rename,
    Sync,
    Done(Result<(), RewriteFault>),
}

impl View for RewriteStage {
    type V = StageView;

    open spec fn view(&self) -> StageView {
        match self {
            RewriteStage::Create => StageView::Create,
            RewriteStage::Write => StageView::Write,
            RewriteStage::Inspect => StageView::Inspect,
            RewriteStage::Rename => StageView::Rename,
            RewriteStage::Sync => StageView::Sync,
            RewriteStage::Done(r) => StageView::Done(
                match r {
                    Ok(()) => Ok(()),
                    Err(e) => Err(e@),
                },
            ),
        }
    }
}

/// What the host did.
#[derive(Debug)]
pub enum RewriteEvent {
    /// The step succeeded.
    Succeeded,
    /// The step failed; why.
    Failed(String),
    /// The file's own path is a symbolic link, or is not.
    Link(bool),
}

/// A failure before the rename.
pub open spec fn before_commit(message: Seq<char>) -> StageView {
    StageView::Done(Err(RewriteFault::PreCommit(ErrorView::Memory(message))))
}

/// The stage after an event. An event that the stage was not waiting for
/// changes nothing.
pub open spec fn next_stage(stage: StageView, event: RewriteEvent) -> StageView {
    match (stage, event) {
        (StageView::Create, RewriteEvent::Succeeded) => StageView::Write,
        (StageView::Create, RewriteEvent::Failed(e)) => before_commit(
            "cannot create rewrite temp file: "@ + e@,
        ),
        (StageView::Write, RewriteEvent::Succeeded) => StageView::Inspect,
        (StageView::Write, RewriteEvent::Failed(e)) => before_commit(
            "cannot write rewrite temp file: "@ + e@,
        ),
        (StageView::Inspect, RewriteEvent::Link(false)) => StageView::Rename,
        (StageView::Inspect, RewriteEvent::Link(true)) => before_commit(
            "memory file path resolves to a symlink; refusing to replace the link"@,
        ),
        (StageView::Rename, RewriteEvent::Succeeded) => StageView::Sync,
        (StageView::Rename, RewriteEvent::Failed(e)) => before_commit(
            "cannot finalize memory rewrite: "@ + e@,
        ),
        (StageView::Sync, RewriteEvent::Succeeded) => StageView::Done(Ok(())),
        (StageView::Sync, RewriteEvent::Failed(e)) => StageView::Done(
            Err(
                RewriteFault::NotDurable(
                    ErrorView::Memory("cannot sync directory after memory rewrite: "@ + e@),
                ),
            ),
        ),
        _ => stage,
    }
}

fn failed_before_commit(head: &str, why: &str) -> (r: RewriteStage)
    ensures
        r@ == before_commit(head@ + why@),
{
    let mut m = String::from_str(head);
    text::push_text(&mut m, why);
    RewriteStage::Done(Err(RewriteError::PreCommit(LoopError::Memory(m))))
}

/// The stage that a rewrite begins at, given what came of serializing its
/// entries: one that cannot be serialized ends it before any file is touched.
pub fn begin_rewrite(unserializable: Option<&str>) -> (stage: RewriteStage)
    ensures
        stage@ == match unserializable {
            None => StageView::Create,
            Some(e) => before_commit("memory entry serialization failed: "@ + e@),
        },
{
    match unserializable {
        None => RewriteStage::Create,
        Some(e) => failed_before_commit("memory entry serialization failed: ", e),
    }
}

/// The stage after an event.
pub fn rewrite_step(stage: RewriteStage, event: RewriteEvent) -> (next: RewriteStage)
    ensures
        next@ == next_stage(stage@, event),
{
    match (stage, event) {
        (RewriteStage::Create, RewriteEvent::Succeeded) => RewriteStage::Write,
        (RewriteStage::Create, RewriteEvent::Failed(e)) => failed_before_commit(
            "cannot create rewrite temp file: ",
            e.as_str(),
        ),
        (RewriteStage::Write, RewriteEvent::Succeeded) => RewriteStage::Inspect,
        (RewriteStage::Write, RewriteEvent::Failed(e)) => failed_before_commit(
            "cannot write rewrite temp file: ",
            e.as_str(),
        ),
        (RewriteStage::Inspect, RewriteEvent::Link(false)) => RewriteStage::Rename,
        (RewriteStage::Inspect, RewriteEvent::Link(true)) => RewriteStage::Done(
            Err(
                RewriteError::PreCommit(
                    LoopError::Memory(
                        String::from_str(
                            "memory file path resolves to a symlink; refusing to replace the link",
                        ),
                    ),
                ),
            ),
        ),
        (RewriteStage::Rename, RewriteEvent::Succeeded) => RewriteStage::Sync,
        (RewriteStage::Rename, RewriteEvent::Failed(e)) => failed_before_commit(
            "cannot finalize memory rewrite: ",
            e.as_str(),
        ),
        (RewriteStage::Sync, RewriteEvent::Succeeded) => RewriteStage::Done(Ok(())),
        (RewriteStage::Sync, RewriteEvent::Failed(e)) => {
            let mut m = String::from_str("cannot sync directory after memory rewrite: ");
            text::push_text(&mut m, e.as_str());
            RewriteStage::Done(Err(RewriteError::NotDurable(LoopError::Memory(m))))
        },
        (stage, _) => stage,
    }
}

/// Whether the temporary sibling is to be removed: after every failure.
pub fn removes_sibling(stage: &RewriteStage) -> (r: bool)
    ensures
        r == (stage@ is Done && stage@->Done_0 is Err),
{
    match stage {
        RewriteStage::Done(Err(_)) => true,
        _ => false,
    }
}

/// How many steps a rewrite still has before it.
pub open spec fn steps_left(stage: StageView) -> nat {
    match stage {
        StageView::Create => 5,
        StageView::Write => 4,
        StageView::Inspect => 3,
        StageView::Rename => 2,
        StageView::Sync => 1,
        StageView::Done(_) => 0,
    }
}

/// A rewrite either stays where it is or comes nearer to its end; once it is
/// over, it stays over.
pub proof fn a_rewrite_moves_forward(stage: StageView, event: RewriteEvent)
    ensures
        next_stage(stage, event) == stage || steps_left(next_stage(stage, event)) < steps_left(
            stage,
        ),
        stage is Done ==> next_stage(stage, event) == stage,
{
}

/// A rewrite that fails before the commit never renamed anything, and one that
/// is only not durable did.
pub proof fn the_rename_is_the_commit(stage: StageView, event: RewriteEvent)
    requires
        !(stage is Done),
        next_stage(stage, event) is Done,
    ensures
        next_stage(stage, event)->Done_0 matches Err(RewriteFault::PreCommit(_)) ==> !(
        stage is Sync),
        next_stage(stage, event)->Done_0 matches Err(RewriteFault::NotDurable(_))
            ==> stage is Sync,
        next_stage(stage, event)->Done_0 is Ok ==> stage is Sync && event is Succeeded,
{
}

/// The lines of a file, each ended by a newline.
pub open spec fn file_text(lines: Seq<Seq<char>>) -> Seq<char>
    decreases lines.len(),
{
    if lines.len() == 0 {
        Seq::empty()
    } else {
        (file_text(lines.drop_last()) + lines.last()).push('\n')
    }
}

/// The content of a file with these lines.
pub fn rewrite_text(lines: &Vec<String>) -> (out: String)
    ensures
        out@ == file_text(text::texts(lines@)),
{
    let ghost all = text::texts(lines@);
    let mut out = String::new();
    let mut i: usize = 0;
    assert(all.take(0) =~= Seq::<Seq<char>>::empty());
    while i < lines.len()
        invariant
            i <= lines.len(),
            all == text::texts(lines@),
            out@ == file_text(all.take(i as int)),
        decreases lines.len() - i,
    {
        assert(all.take(i + 1).drop_last() =~= all.take(i as int));
        assert(all.take(i + 1).last() == lines@[i as int]@);
        text::push_text(&mut out, lines[i].as_str());
        out.push('\n');
        i = i + 1;
    }
    assert(all.take(all.len() as int) =~= all);
    out
}

proof fn lemma_no_newline_in_scalar(scalar: u32)
    requires
        scalar != 10,
    ensures
        forall|i: int|
            0 <= i < vstd::utf8::encode_scalar(scalar).len() ==> #[trigger] vstd::utf8::encode_scalar(
                scalar,
            )[i] != 10u8,
{
    assert(scalar <= 0x7f && scalar != 10 ==> (scalar & 0x7F) as u8 != 10u8) by (bit_vector);
    assert(0xC0u8 | ((scalar >> 6) & 0x1F) as u8 != 10u8) by (bit_vector);
    assert(0xE0u8 | ((scalar >> 12) & 0x0F) as u8 != 10u8) by (bit_vector);
    assert(0xF0u8 | ((scalar >> 18) & 0x7) as u8 != 10u8) by (bit_vector);
    assert(0x80u8 | (scalar & 0x3F) as u8 != 10u8) by (bit_vector);
    assert(0x80u8 | ((scalar >> 6) & 0x3F) as u8 != 10u8) by (bit_vector);
    assert(0x80u8 | ((scalar >> 12) & 0x3F) as u8 != 10u8) by (bit_vector);
}

proof fn lemma_newline_is_one_character(c: char)
    requires
        c != '\n',
    ensures
        c as u32 != 10,
{
    vstd::utf8::char_is_scalar(c);
}

proof fn lemma_no_newline_in_line(line: Seq<char>)
    requires
        forall|i: int| 0 <= i < line.len() ==> #[trigger] line[i] != '\n',
    ensures
        forall|i: int|
            0 <= i < vstd::utf8::encode_utf8(line).len() ==> #[trigger] vstd::utf8::encode_utf8(
                line,
            )[i] != 10u8,
    decreases line.len(),
{
    if line.len() > 0 {
        let rest = line.drop_first();
        assert forall|i: int| 0 <= i < rest.len() implies #[trigger] rest[i] != '\n' by {
            assert(rest[i] == line[i + 1]);
        }
        lemma_no_newline_in_line(rest);
        let first = line[0];
        assert(first != '\n');
        lemma_newline_is_one_character(first);
        lemma_no_newline_in_scalar(first as u32);
        let whole = vstd::utf8::encode_utf8(line);
        let head = vstd::utf8::encode_scalar(first as u32);
        let tail = vstd::utf8::encode_utf8(rest);
        assert(whole == head + tail);
        assert forall|i: int| 0 <= i < whole.len() implies #[trigger] whole[i] != 10u8 by {
            if i < head.len() {
                assert(whole[i] == head[i]);
            } else {
                assert(whole[i] == tail[i - head.len()]);
            }
        }
    }
}

/// What is read from a file that was written with these lines.
pub open spec fn line_bytes(lines: Seq<Seq<char>>) -> Seq<Seq<u8>> {
    lines.map_values(|line: Seq<char>| vstd::utf8::encode_utf8(line))
}

/// A file that was rewritten is read back line for line, each line as the text
/// that it was, and no fragment is left over: what was kept is what comes back.
pub proof fn a_rewritten_file_is_read_back(all: Seq<Seq<char>>)
    requires
        forall|k: int| 0 <= k < all.len() ==> (#[trigger] all[k]).len() > 0,
        forall|k: int, i: int|
            0 <= k < all.len() && 0 <= i < all[k].len() ==> #[trigger] all[k][i] != '\n',
    ensures
        ({
            let bytes = vstd::utf8::encode_utf8(file_text(all));
            &&& lines::lines_in(bytes, bytes.len()).complete == line_bytes(all)
            &&& lines::lines_in(bytes, bytes.len()).rest.len() == 0
        }),
        forall|k: int|
            0 <= k < all.len() ==> vstd::utf8::valid_utf8(#[trigger] line_bytes(all)[k])
                && vstd::utf8::decode_utf8(line_bytes(all)[k]) == all[k],
    decreases all.len(),
{
    assert forall|k: int| 0 <= k < all.len() implies vstd::utf8::valid_utf8(
        #[trigger] line_bytes(all)[k],
    ) && vstd::utf8::decode_utf8(line_bytes(all)[k]) == all[k] by {
        vstd::utf8::encode_utf8_valid_utf8(all[k]);
        vstd::utf8::encode_utf8_decode_utf8(all[k]);
    }
    if all.len() == 0 {
        assert(line_bytes(all) =~= Seq::<Seq<u8>>::empty());
    } else {
        let less = all.drop_last();
        let last = all.last();
        assert(last == all[all.len() - 1]);
        a_rewritten_file_is_read_back(less);
        let head = file_text(less);
        let newline = seq!['\n'];
        assert((head + last).push('\n') =~= head + last + newline);
        text::lemma_encoding_of_parts(head + last, newline);
        text::lemma_encoding_of_parts(head, last);
        assert(vstd::utf8::encode_utf8(newline) =~= seq![10u8]) by {
            assert(newline.drop_first() =~= Seq::<char>::empty());
            assert(vstd::utf8::encode_utf8(newline.drop_first()) =~= Seq::<u8>::empty());
            assert(newline[0] as u32 == 10);
            assert((10u32 & 0x7F) as u8 == 10u8) by (bit_vector);
            assert(vstd::utf8::encode_scalar(10) =~= seq![10u8]);
        }
        let before = vstd::utf8::encode_utf8(head);
        let line = vstd::utf8::encode_utf8(last);
        assert(vstd::utf8::encode_utf8(file_text(all)) =~= before + line.push(10u8));
        assert forall|i: int| 0 <= i < last.len() implies #[trigger] last[i] != '\n' by {
            assert(all[all.len() - 1][i] != '\n');
        }
        lemma_no_newline_in_line(last);
        text::lemma_byte_length_bounds(last);
        lines::an_appended_line_is_read_back(before, line);
        assert(line_bytes(all) =~= line_bytes(less).push(line));
    }
}

// ---------------------------------------------------------------------------
// Names of temporary siblings
// ---------------------------------------------------------------------------

/// The name of the temporary sibling of a file, made with this identifier.
pub open spec fn sibling_name(name: Seq<char>, id: u128) -> Seq<char> {
    name + "."@ + ids::hyphenated(id) + ".tmp"@
}

/// The path of a temporary sibling, under a fresh random identifier.
pub fn temp_sibling_path(path: &str) -> (out: String)
    ensures
        exists|id: u128|
            ids::is_random_id(id) && out@ == #[trigger] sibling_name(path@, id),
{
    let id = ids::mint_uuid();
    let mut out = String::from_str(path);
    text::push_text(&mut out, ".");
    let middle = ids::uuid_text(id);
    text::push_text(&mut out, middle.as_str());
    text::push_text(&mut out, ".tmp");
    assert(out@ == sibling_name(path@, id));
    out
}

/// What stands in `sibling` between the file's name with a dot and the
/// extension of temporary files.
pub open spec fn sibling_middle(name: Seq<char>, sibling: Seq<char>) -> Seq<char> {
    sibling.subrange(name.len() as int + 1, sibling.len() - 4)
}

/// Whether `sibling` has the form of a temporary sibling of the file `name`.
pub open spec fn is_sibling(name: Seq<char>, sibling: Seq<char>) -> bool {
    &&& text::begins_with(sibling, name + "."@)
    &&& sibling.len() >= name.len() + 5
    &&& sibling.skip(sibling.len() - 4) == ".tmp"@
    &&& ids::parses_as_uuid(sibling_middle(name, sibling))
}

/// Whether `sibling` is a temporary sibling of the file `name` that a crash
/// left behind. Every sibling that a rewrite makes is recognized.
pub fn is_stale_sibling(name: &str, sibling: &str) -> (r: bool)
    ensures
        r == is_sibling(name@, sibling@),
        forall|id: u128| sibling@ == #[trigger] sibling_name(name@, id) ==> r,
{
    let chars = text::chars_of(sibling);
    let stem = text::chars_of(name);
    let extension = text::chars_of(".tmp");
    proof {
        reveal_strlit(".");
        reveal_strlit(".tmp");
        assert("."@ =~= seq!['.']);
        assert forall|id: u128| sibling@ == #[trigger] sibling_name(name@, id) implies {
            &&& sibling@.len() == name@.len() + 41
            &&& text::begins_with(sibling@, name@ + "."@)
            &&& sibling@.skip(sibling@.len() - 4) == ".tmp"@
            &&& sibling_middle(name@, sibling@) == ids::hyphenated(id)
            &&& ids::parses_as_uuid(sibling_middle(name@, sibling@))
        } by {
            ids::a_written_id_parses(id);
            assert(sibling@.take(name@.len() as int + 1) =~= name@ + "."@);
            assert(sibling@.skip(sibling@.len() - 4) =~= ".tmp"@);
            assert(sibling_middle(name@, sibling@) =~= ids::hyphenated(id));
        }
    }
    if chars.len() < 5 || chars.len() - 5 < stem.len() {
        return false;
    }
    let end: usize = chars.len() - 4;
    proof {
        assert(text::occurs_at(sibling@, name@, 0) && sibling@[name@.len() as int] == '.'
            <==> text::begins_with(sibling@, name@ + "."@)) by {
            let head = sibling@.take(name@.len() as int + 1);
            assert(head =~= sibling@.subrange(0, name@.len() as int).push(
                sibling@[name@.len() as int],
            ));
            assert(name@ + "."@ =~= name@.push('.'));
            if text::begins_with(sibling@, name@ + "."@) {
                assert(head == name@.push('.'));
                assert(sibling@.subrange(0, name@.len() as int) =~= name@) by {
                    assert forall|i: int| 0 <= i < name@.len() implies sibling@[i] == name@[i] by {
                        assert(head[i] == name@.push('.')[i]);
                    }
                }
                assert(head[name@.len() as int] == '.');
            }
        }
        assert(sibling@.subrange(end as int, end + 4) =~= sibling@.skip(end as int));
    }
    if !text::stands_at(&chars, &stem, 0) || chars[stem.len()] != '.' {
        return false;
    }
    if !text::stands_at(&chars, &extension, end) {
        return false;
    }
    let middle = text::slice_text(&chars, stem.len() + 1, end);
    ids::is_uuid(middle.as_str())
}

// ---------------------------------------------------------------------------
// Faults for tests
// ---------------------------------------------------------------------------

/// Where a rewrite can be made to fail.
#[derive(Debug, Clone, Copy, PartialEq, Eq, Structural)]
pub enum RewriteFaultStage {
    /// When the temporary sibling is created.
    TempCreate,
    /// When the directory is synced.
    DirectorySync,
}

/// The faults that wait for a rewrite, oldest first.
#[derive(Debug)]
pub struct RewriteFaults {
    faults: Vec<(String, RewriteFaultStage)>,
}

impl View for RewriteFaults {
    type V = Seq<(Seq<char>, RewriteFaultStage)>;

    closed spec fn view(&self) -> Seq<(Seq<char>, RewriteFaultStage)> {
        self.faults@.map_values(|f: (String, RewriteFaultStage)| (f.0@, f.1))
    }
}

impl RewriteFaults {
    /// No faults.
    pub fn new() -> (r: Self)
        ensures
            r@ == Seq::<(Seq<char>, RewriteFaultStage)>::empty(),
    {
        let r = RewriteFaults { faults: Vec::new() };
        assert(r@ =~= Seq::<(Seq<char>, RewriteFaultStage)>::empty());
        r
    }
}

/// The place of the first fault for this path and stage, or the number of
/// faults.
pub open spec fn fault_place(
    faults: Seq<(Seq<char>, RewriteFaultStage)>,
    path: Seq<char>,
    stage: RewriteFaultStage,
) -> int
    decreases faults.len(),
{
    if faults.len() == 0 || faults[0] == (path, stage) {
        0
    } else {
        1 + fault_place(faults.skip(1), path, stage)
    }
}

/// Makes the next rewrite of the file under this path fail at a stage.
pub fn fail_next_rewrite_at(faults: &mut RewriteFaults, path: String, stage: RewriteFaultStage)
    ensures
        final(faults)@ == old(faults)@.push((path@, stage)),
{
    let ghost before = faults@;
    faults.faults.push((path, stage));
    assert(faults@ =~= before.push((path@, stage)));
}

/// Whether a fault waits for this path and stage; one that does is used up.
pub fn injected_fault_at(faults: &mut RewriteFaults, path: &str, stage: RewriteFaultStage) -> (hit:
    bool)
    ensures
        hit == (fault_place(old(faults)@, path@, stage) < old(faults)@.len()),
        hit ==> final(faults)@ == old(faults)@.remove(fault_place(old(faults)@, path@, stage)),
        !hit ==> final(faults)@ == old(faults)@,
{
    let ghost all = faults@;
    let mut i: usize = 0;
    assert(all.skip(0) =~= all);
    while i < faults.faults.len()
        invariant
            i <= faults.faults.len(),
            all == faults@,
            all == old(faults)@,
            all.len() == faults.faults.len(),
            fault_place(all, path@, stage) == i + fault_place(all.skip(i as int), path@, stage),
        decreases faults.faults.len() - i,
    {
        assert(all.skip(i as int)[0] == all[i as int]);
        assert(all[i as int] == (faults.faults@[i as int].0@, faults.faults@[i as int].1));
        if text::same_text(faults.faults[i].0.as_str(), path) && faults.faults[i].1 == stage {
            faults.faults.remove(i);
            assert(faults@ =~= all.remove(i as int));
            return true;
        }
        assert(all.skip(i as int).skip(1) =~= all.skip(i + 1));
        i = i + 1;
    }
    false
}

/// A fault that was set for a rewrite strikes once.
pub proof fn a_fault_strikes_once(
    faults: Seq<(Seq<char>, RewriteFaultStage)>,
    path: Seq<char>,
    stage: RewriteFaultStage,
)
    requires
        forall|i: int| 0 <= i < faults.len() ==> #[trigger] faults[i] != (path, stage),
    ensures
        fault_place(faults.push((path, stage)), path, stage) == faults.len(),
        fault_place(faults, path, stage) == faults.len(),
    decreases faults.len(),
{
    if faults.len() > 0 {
        assert(faults[0] != (path, stage));
        let rest = faults.skip(1);
        assert forall|i: int| 0 <= i < rest.len() implies #[trigger] rest[i] != (path, stage) by {
            assert(rest[i] == faults[i + 1]);
        }
        a_fault_strikes_once(rest, path, stage);
        assert(faults.push((path, stage)).skip(1) =~= rest.push((path, stage)));
    } else {
        assert(faults.push((path, stage))[0] == (path, stage));
    }
}

/// A rewrite that nothing stops creates its temporary file, writes it, looks
/// for a link, renames and syncs, in this order.
pub proof fn a_rewrite_goes_step_by_step()
    ensures
        next_stage(StageView::Create, RewriteEvent::Succeeded) == StageView::Write,
        next_stage(StageView::Write, RewriteEvent::Succeeded) == StageView::Inspect,
        next_stage(StageView::Inspect, RewriteEvent::Link(false)) == StageView::Rename,
        next_stage(StageView::Inspect, RewriteEvent::Link(true)) is Done,
        next_stage(StageView::Inspect, RewriteEvent::Link(true))->Done_0 is Err,
        next_stage(StageView::Rename, RewriteEvent::Succeeded) == StageView::Sync,
        next_stage(StageView::Sync, RewriteEvent::Succeeded) == StageView::Done(Ok(())),
{
}

/// Whatever fails, the rewrite ends with what the file system said, behind the
/// step that it was said of.
pub proof fn a_failure_tells_its_step(reason: String)
    ensures
        next_stage(StageView::Create, RewriteEvent::Failed(reason)) == StageView::Done(
            Err(
                RewriteFault::PreCommit(
                    ErrorView::Memory("cannot create rewrite temp file: "@ + reason@),
                ),
            ),
        ),
        next_stage(StageView::Write, RewriteEvent::Failed(reason)) == StageView::Done(
            Err(
                RewriteFault::PreCommit(
                    ErrorView::Memory("cannot write rewrite temp file: "@ + reason@),
                ),
            ),
        ),
        next_stage(StageView::Rename, RewriteEvent::Failed(reason)) == StageView::Done(
            Err(
                RewriteFault::PreCommit(
                    ErrorView::Memory("cannot finalize memory rewrite: "@ + reason@),
                ),
            ),
        ),
        next_stage(StageView::Sync, RewriteEvent::Failed(reason)) == StageView::Done(
            Err(
                RewriteFault::NotDurable(
                    ErrorView::Memory("cannot sync directory after memory rewrite: "@ + reason@),
                ),
            ),
        ),
{
}

/// A file is its lines, one behind the other, each with its newline.
pub proof fn a_file_is_its_lines(all: Seq<Seq<char>>)
    ensures
        file_text(all) == all.map_values(|line: Seq<char>| line.push('\n')).flatten(),
    decreases all.len(),
{
    let ended = all.map_values(|line: Seq<char>| line.push('\n'));
    if all.len() == 0 {
        assert(ended.flatten() =~= Seq::<char>::empty());
    } else {
        let fewer = all.drop_last();
        a_file_is_its_lines(fewer);
        let before = fewer.map_values(|line: Seq<char>| line.push('\n'));
        let last = all.last().push('\n');
        assert(ended =~= before.push(last));
        before.lemma_flatten_push(last);
        assert((file_text(fewer) + all.last()).push('\n') =~= before.flatten() + last);
    }
}

/// What the name of a temporary sibling is made of: the file's name and a dot,
/// the identifier, and the extension of temporary files. Whatever is taken for
/// one has that form.
pub proof fn a_sibling_is_known_by_its_name(name: Seq<char>, id: u128, other: Seq<char>)
    ensures
        ({
            let sibling = sibling_name(name, id);
            &&& text::begins_with(sibling, name + seq!['.'])
            &&& sibling.skip(sibling.len() - 4) == seq!['.', 't', 'm', 'p']
            &&& sibling_middle(name, sibling) == ids::hyphenated(id)
            &&& is_sibling(name, sibling) <==> ids::parses_as_uuid(ids::hyphenated(id))
        }),
        is_sibling(name, other) ==> other == name + seq!['.'] + sibling_middle(name, other) + seq![
            '.',
            't',
            'm',
            'p',
        ] && ids::parses_as_uuid(sibling_middle(name, other)),
{
    reveal_strlit(".");
    reveal_strlit(".tmp");
    assert("."@ =~= seq!['.']);
    assert(".tmp"@ =~= seq!['.', 't', 'm', 'p']);
    let sibling = sibling_name(name, id);
    let tail = ids::hyphenated(id) + ".tmp"@;
    assert(sibling =~= (name + "."@) + tail);
    text::a_text_begins_with_its_first_part(name + "."@, tail, name);
    assert(sibling.skip(sibling.len() - 4) =~= ".tmp"@);
    assert(sibling_middle(name, sibling) =~= ids::hyphenated(id));
    if is_sibling(name, other) {
        let lead = name + "."@;
        assert(other.take(lead.len() as int) == lead);
        assert(other =~= other.take(lead.len() as int) + other.subrange(
            lead.len() as int,
            other.len() - 4,
        ) + other.skip(other.len() - 4));
    }
}

/// A fault is looked for by its path and its stage, and the first one strikes.
pub proof fn the_first_fault_of_a_stage_strikes(
    faults: Seq<(Seq<char>, RewriteFaultStage)>,
    path: Seq<char>,
    stage: RewriteFaultStage,
    i: int,
)
    requires
        0 <= i < faults.len(),
        faults[i] == (path, stage),
        forall|j: int| 0 <= j < i ==> #[trigger] faults[j] != (path, stage),
    ensures
        fault_place(faults, path, stage) == i,
    decreases faults.len(),
{
    if i > 0 {
        assert(faults[0] != (path, stage));
        let rest = faults.skip(1);
        assert forall|j: int| 0 <= j < i - 1 implies #[trigger] rest[j] != (path, stage) by {
            assert(rest[j] == faults[j + 1]);
        }
        the_first_fault_of_a_stage_strikes(rest, path, stage, i - 1);
    }
}

} // verus!
