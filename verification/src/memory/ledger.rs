//! The ledger that trajectory records are appended to, one line each.
//!
//! The file work belongs to the host. What is asked of it next, and what is
//! reported in the end, is decided here: [`LedgerStage`] walks through one
//! append, and [`LedgerQueue`] holds the lines that wait for a worker.

use vstd::prelude::*;

use crate::text;

verus! {

/// The file name of the ledger inside its directory.
pub const LEDGER_FILE: &'static str = "trajectory.jsonl";

/// The default bound on lines that wait to be written.
pub const DEFAULT_QUEUE_CAPACITY: usize = 128;

/// What became of one append.
#[derive(Debug, Clone, Copy, PartialEq, Eq, Structural)]
pub enum LedgerReport {
    /// The line is in the file, with its newline.
    Flushed { bytes: u64 },
    /// The record could not be serialized.
    NotSerialized,
    /// The directory could not be created.
    NoDirectory,
    /// The file could not be opened or written. `repaired` tells whether what
    /// a failed write left behind was cut off again.
    NotWritten { repaired: bool },
}

/// Where one append stands.
#[derive(Debug, Clone, Copy, PartialEq, Eq, Structural)]
pub enum LedgerStage {
    /// The directory is to be created.
    Directory,
    /// The file is to be opened for appending.
    Opening,
    /// The line is to be written; the file's length before that, where it could
    /// be read.
    Writing { length: Option<u64> },
    /// A write failed; the file is to be cut back to `start` bytes.
    Repairing { start: u64 },
    /// The append is over.
    Done { report: LedgerReport },
}

/// What the host did.
#[derive(Debug, Clone, Copy, PartialEq, Eq, Structural)]
pub enum LedgerEvent {
    /// The step that was asked for succeeded.
    Succeeded,
    /// The file was opened; its length, where it could be read.
    Opened { length: Option<u64> },
    /// The step that was asked for failed.
    Failed,
}

/// The byte count that a flushed line is reported by: its bytes and a newline,
/// held at the largest `u64`.
pub open spec fn flushed_bytes(line: Seq<char>) -> u64 {
    if text::byte_length(line) + 1 <= u64::MAX {
        (text::byte_length(line) + 1) as u64
    } else {
        u64::MAX
    }
}

/// The stage after an event. An event that no step was waiting for changes
/// nothing.
pub open spec fn next_stage(stage: LedgerStage, event: LedgerEvent, line: Seq<char>) -> LedgerStage {
    match (stage, event) {
        (LedgerStage::Directory, LedgerEvent::Succeeded) => LedgerStage::Opening,
        (LedgerStage::Directory, LedgerEvent::Failed) => LedgerStage::Done {
            report: LedgerReport::NoDirectory,
        },
        (LedgerStage::Opening, LedgerEvent::Opened { length }) => LedgerStage::Writing {
            length,
        },
        (LedgerStage::Opening, LedgerEvent::Failed) => LedgerStage::Done {
            report: LedgerReport::NotWritten { repaired: true },
        },
        (LedgerStage::Writing { .. }, LedgerEvent::Succeeded) => LedgerStage::Done {
            report: LedgerReport::Flushed { bytes: flushed_bytes(line) },
        },
        (LedgerStage::Writing { length: Some(start) }, LedgerEvent::Failed) => {
            LedgerStage::Repairing { start }
        },
        (LedgerStage::Writing { length: None }, LedgerEvent::Failed) => LedgerStage::Done {
            report: LedgerReport::NotWritten { repaired: false },
        },
        (LedgerStage::Repairing { .. }, LedgerEvent::Succeeded) => LedgerStage::Done {
            report: LedgerReport::NotWritten { repaired: true },
        },
        (LedgerStage::Repairing { .. }, LedgerEvent::Failed) => LedgerStage::Done {
            report: LedgerReport::NotWritten { repaired: false },
        },
        _ => stage,
    }
}

/// The stage that an append begins at: a record that could not be serialized
/// is lost before any file is touched.
pub fn begin_append(line: &Option<String>) -> (stage: LedgerStage)
    ensures
        stage == match line {
            Some(_) => LedgerStage::Directory,
            None => LedgerStage::Done { report: LedgerReport::NotSerialized },
        },
{
    match line {
        Some(_) => LedgerStage::Directory,
        None => LedgerStage::Done { report: LedgerReport::NotSerialized },
    }
}

/// The stage after an event.
pub fn append_step(stage: LedgerStage, event: LedgerEvent, line: &str) -> (next: LedgerStage)
    ensures
        next == next_stage(stage, event, line@),
{
    match (stage, event) {
        (LedgerStage::Directory, LedgerEvent::Succeeded) => LedgerStage::Opening,
        (LedgerStage::Directory, LedgerEvent::Failed) => LedgerStage::Done {
            report: LedgerReport::NoDirectory,
        },
        (LedgerStage::Opening, LedgerEvent::Opened { length }) => LedgerStage::Writing {
            length,
        },
        (LedgerStage::Opening, LedgerEvent::Failed) => LedgerStage::Done {
            report: LedgerReport::NotWritten { repaired: true },
        },
        (LedgerStage::Writing { .. }, LedgerEvent::Succeeded) => {
            let len: usize = text::byte_len(line);
            LedgerStage::Done {
                report: LedgerReport::Flushed { bytes: (len as u64).saturating_add(1) },
            }
        },
        (LedgerStage::Writing { length: Some(start) }, LedgerEvent::Failed) => {
            LedgerStage::Repairing { start }
        },
        (LedgerStage::Writing { length: None }, LedgerEvent::Failed) => LedgerStage::Done {
            report: LedgerReport::NotWritten { repaired: false },
        },
        (LedgerStage::Repairing { .. }, LedgerEvent::Succeeded) => LedgerStage::Done {
            report: LedgerReport::NotWritten { repaired: true },
        },
        (LedgerStage::Repairing { .. }, LedgerEvent::Failed) => LedgerStage::Done {
            report: LedgerReport::NotWritten { repaired: false },
        },
        _ => stage,
    }
}

/// What is written for a line: the line and a newline, in one piece.
pub fn ledger_text(line: &str) -> (out: String)
    ensures
        out@ == line@.push('\n'),
{
    let mut out = String::from_str(line);
    out.push('\n');
    out
}

/// How many steps an append still has before it.
pub open spec fn steps_left(stage: LedgerStage) -> nat {
    match stage {
        LedgerStage::Directory => 4,
        LedgerStage::Opening => 3,
        LedgerStage::Writing { .. } => 2,
        LedgerStage::Repairing { .. } => 1,
        LedgerStage::Done { .. } => 0,
    }
}

/// Whether an event answers what the stage asked for.
pub open spec fn answers(stage: LedgerStage, event: LedgerEvent) -> bool {
    match stage {
        LedgerStage::Opening => event is Opened || event is Failed,
        LedgerStage::Done { .. } => false,
        _ => event is Succeeded || event is Failed,
    }
}

/// Every answer brings an append nearer to its end, and an append that is over
/// stays as it is: each one is reported exactly once.
pub proof fn an_append_ends_with_one_report(
    stage: LedgerStage,
    event: LedgerEvent,
    line: Seq<char>,
)
    ensures
        answers(stage, event) ==> steps_left(next_stage(stage, event, line)) < steps_left(stage),
        !answers(stage, event) ==> next_stage(stage, event, line) == stage,
        stage is Done ==> next_stage(stage, event, line) == stage,
{
}

/// After a failed write the file is asked to be cut back to the length that it
/// had before, and to no other: where that length is not known nothing is cut
/// off, and the failure is reported as one that was not repaired. A line is
/// reported as flushed only after its write succeeded.
pub proof fn a_failed_write_is_repaired_first(
    stage: LedgerStage,
    event: LedgerEvent,
    line: Seq<char>,
)
    ensures
        ({
            let next = next_stage(stage, event, line);
            &&& stage is Writing && event is Failed ==> next == match stage->Writing_length {
                Some(start) => LedgerStage::Repairing { start },
                None => LedgerStage::Done { report: LedgerReport::NotWritten { repaired: false } },
            }
            &&& next is Repairing && !(stage is Repairing) ==> stage == (LedgerStage::Writing {
                length: Some(next->Repairing_start),
            })
            &&& next is Writing && !(stage is Writing) ==> event == (LedgerEvent::Opened {
                length: next->Writing_length,
            })
            &&& !(stage is Done) && next is Done && next->report is Flushed ==> stage is Writing
                && event is Succeeded
        }),
{
}

// ---------------------------------------------------------------------------
// The queue
// ---------------------------------------------------------------------------

/// What became of a line that was handed over.
#[derive(Debug, Clone, Copy, PartialEq, Eq, Structural)]
pub enum EnqueueOutcome {
    /// The line waits.
    Queued,
    /// The line waits; the oldest waiting line was dropped for it.
    DroppedOldest,
    /// The writer is shut down; the line was dropped.
    Refused,
}

/// What a worker does next.
#[derive(Debug)]
pub enum WorkerStep {
    /// Wait for a line or for the end.
    Wait,
    /// There is nothing left and nothing will come.
    Exit,
    /// Write these lines, in this order.
    Write(Vec<String>),
}

/// Lines that wait for a worker, oldest first, and the lines in its hands.
#[derive(Debug)]
pub struct LedgerQueue {
    lines: Vec<String>,
    writing: usize,
    closed: bool,
    capacity: usize,
}

/// What a queue holds.
pub struct QueueView {
    pub lines: Seq<Seq<char>>,
    pub writing: usize,
    pub closed: bool,
    pub capacity: usize,
}

impl View for LedgerQueue {
    type V = QueueView;

    closed spec fn view(&self) -> QueueView {
        QueueView {
            lines: text::texts(self.lines@),
            writing: self.writing,
            closed: self.closed,
            capacity: self.capacity,
        }
    }
}

/// The bound of a queue is at least one and is kept.
pub open spec fn bounded(q: QueueView) -> bool {
    1 <= q.capacity && q.lines.len() <= q.capacity
}

impl LedgerQueue {
    #[verifier::type_invariant]
    spec fn well_formed(&self) -> bool {
        bounded(self@)
    }

    /// An empty queue. A capacity of zero is taken as one.
    pub fn with_capacity(capacity: usize) -> (r: Self)
        ensures
            r@ == (QueueView {
                lines: Seq::empty(),
                writing: 0,
                closed: false,
                capacity: if capacity == 0 {
                    1
                } else {
                    capacity
                },
            }),
            bounded(r@),
    {
        let lines: Vec<String> = Vec::new();
        assert(text::texts(lines@) =~= Seq::<Seq<char>>::empty());
        LedgerQueue {
            lines,
            writing: 0,
            closed: false,
            capacity: if capacity == 0 {
                1
            } else {
                capacity
            },
        }
    }

    /// Hands a line over. A full queue drops its oldest line; a closed one
    /// refuses.
    pub fn enqueue(&mut self, line: String) -> (outcome: EnqueueOutcome)
        ensures
            bounded(final(self)@),
            outcome == if old(self)@.closed {
                EnqueueOutcome::Refused
            } else if old(self)@.lines.len() >= old(self)@.capacity {
                EnqueueOutcome::DroppedOldest
            } else {
                EnqueueOutcome::Queued
            },
            final(self)@ == match outcome {
                EnqueueOutcome::Refused => old(self)@,
                _ => QueueView {
                    lines: waiting(old(self)@.lines, old(self)@.capacity as nat, line@),
                    ..old(self)@
                },
            },
    {
        proof {
            use_type_invariant(&*self);
        }
        if self.closed {
            return EnqueueOutcome::Refused;
        }
        let ghost before = self.lines@;
        let mut lines: Vec<String> = Vec::new();
        assert(text::texts(lines@) =~= Seq::<Seq<char>>::empty());
        core::mem::swap(&mut self.lines, &mut lines);
        let outcome = if lines.len() >= self.capacity {
            lines.remove(0);
            lines.push(line);
            assert(text::texts(lines@) =~= text::texts(before).skip(1).push(line@));
            EnqueueOutcome::DroppedOldest
        } else {
            lines.push(line);
            assert(text::texts(lines@) =~= text::texts(before).push(line@));
            EnqueueOutcome::Queued
        };
        self.lines = lines;
        outcome
    }

    /// What the worker does next. Lines to write are taken out of the queue and
    /// counted as being written.
    pub fn next_step(&mut self) -> (step: WorkerStep)
        ensures
            match step {
                WorkerStep::Wait => {
                    &&& old(self)@.lines.len() == 0
                    &&& !old(self)@.closed
                    &&& final(self)@ == old(self)@
                },
                WorkerStep::Exit => {
                    &&& old(self)@.lines.len() == 0
                    &&& old(self)@.closed
                    &&& final(self)@ == old(self)@
                },
                WorkerStep::Write(batch) => {
                    &&& old(self)@.lines.len() > 0
                    &&& text::texts(batch@) == old(self)@.lines
                    &&& final(self)@ == (QueueView {
                        lines: Seq::empty(),
                        writing: batch@.len() as usize,
                        ..old(self)@
                    })
                },
            },
    {
        proof {
            use_type_invariant(&*self);
        }
        if self.lines.len() == 0 {
            if self.closed {
                return WorkerStep::Exit;
            }
            return WorkerStep::Wait;
        }
        let mut batch: Vec<String> = Vec::new();
        assert(text::texts(batch@) =~= Seq::<Seq<char>>::empty());
        core::mem::swap(&mut self.lines, &mut batch);
        self.writing = batch.len();
        WorkerStep::Write(batch)
    }

    /// The worker has written `count` lines. The result tells whether nothing
    /// waits and nothing is being written any more.
    pub fn batch_written(&mut self, count: usize) -> (idle: bool)
        ensures
            final(self)@ == (QueueView {
                writing: if old(self)@.writing >= count {
                    (old(self)@.writing - count) as usize
                } else {
                    0
                },
                ..old(self)@
            }),
            idle == (final(self)@.writing == 0 && final(self)@.lines.len() == 0),
    {
        proof {
            use_type_invariant(&*self);
        }
        self.writing = self.writing.saturating_sub(count);
        self.writing == 0 && self.lines.len() == 0
    }

    /// Whether nothing waits and nothing is being written.
    pub fn is_idle(&self) -> (r: bool)
        ensures
            r == (self@.lines.len() == 0 && self@.writing == 0),
    {
        self.lines.len() == 0 && self.writing == 0
    }

    /// Shuts the queue: what waits is still written, nothing more is taken.
    pub fn close(&mut self)
        ensures
            final(self)@ == (QueueView { closed: true, ..old(self)@ }),
    {
        proof {
            use_type_invariant(&*self);
        }
        self.closed = true;
    }
}

/// The lines that wait after one more was handed over.
pub open spec fn waiting(lines: Seq<Seq<char>>, capacity: nat, line: Seq<char>) -> Seq<Seq<char>> {
    if lines.len() >= capacity {
        lines.skip(1).push(line)
    } else {
        lines.push(line)
    }
}

/// The lines that wait after all of these were handed over, in order.
pub open spec fn all_waiting(capacity: nat, handed: Seq<Seq<char>>) -> Seq<Seq<char>>
    decreases handed.len(),
{
    if handed.len() == 0 {
        Seq::empty()
    } else {
        waiting(all_waiting(capacity, handed.drop_last()), capacity, handed.last())
    }
}

/// However many lines an open queue was handed, those that wait are the newest,
/// as many as it may hold, in the order in which they came.
pub proof fn a_queue_keeps_the_newest_in_order(capacity: nat, handed: Seq<Seq<char>>)
    requires
        capacity >= 1,
    ensures
        all_waiting(capacity, handed) == if handed.len() <= capacity {
            handed
        } else {
            handed.skip(handed.len() - capacity)
        },
    decreases handed.len(),
{
    if handed.len() > 0 {
        let less = handed.drop_last();
        a_queue_keeps_the_newest_in_order(capacity, less);
        let before = all_waiting(capacity, less);
        let after = all_waiting(capacity, handed);
        assert(less.push(handed.last()) =~= handed);
        if handed.len() <= capacity {
            assert(after =~= handed);
        } else {
            assert(before.len() == capacity);
            assert(after =~= handed.skip(handed.len() - capacity));
        }
    }
}

/// Whether the writer writes on the calling thread: only where a worker was
/// wanted and could not be had.
pub fn writes_inline(spawn_wanted: bool, spawned: bool) -> (r: bool)
    ensures
        r == (spawn_wanted && !spawned),
{
    spawn_wanted && !spawned
}

/// A line goes to its file in three steps, and what is reported is its length
/// with the newline. Where there is no directory, or the file cannot be opened,
/// nothing was written; after a write that failed it matters whether the file
/// could be cut back.
pub proof fn an_append_goes_step_by_step(line: Seq<char>, length: Option<u64>, start: u64)
    ensures
        next_stage(LedgerStage::Directory, LedgerEvent::Succeeded, line) == LedgerStage::Opening,
        next_stage(LedgerStage::Directory, LedgerEvent::Failed, line) == (LedgerStage::Done {
            report: LedgerReport::NoDirectory,
        }),
        next_stage(LedgerStage::Opening, LedgerEvent::Opened { length }, line) == (
        LedgerStage::Writing { length }),
        next_stage(LedgerStage::Opening, LedgerEvent::Failed, line) == (LedgerStage::Done {
            report: LedgerReport::NotWritten { repaired: true },
        }),
        text::byte_length(line) < u64::MAX ==> next_stage(
            LedgerStage::Writing { length },
            LedgerEvent::Succeeded,
            line,
        ) == (LedgerStage::Done {
            report: LedgerReport::Flushed { bytes: (text::byte_length(line) + 1) as u64 },
        }),
        next_stage(LedgerStage::Repairing { start }, LedgerEvent::Succeeded, line) == (
        LedgerStage::Done { report: LedgerReport::NotWritten { repaired: true } }),
        next_stage(LedgerStage::Repairing { start }, LedgerEvent::Failed, line) == (
        LedgerStage::Done { report: LedgerReport::NotWritten { repaired: false } }),
{
}

/// A ledger is one file, and unless told otherwise 128 lines wait for it.
pub proof fn a_ledger_has_one_file()
    ensures
        LEDGER_FILE@ == "trajectory.jsonl"@,
        DEFAULT_QUEUE_CAPACITY == 128,
{
}

} // verus!
