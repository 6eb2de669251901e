//! Lines read in pieces, within a bound on what is held in memory.

use vstd::prelude::*;

verus! {

/// The bytes beyond which a line of a ledger is not held.
pub const MAX_LEDGER_LINE: usize = 16_777_216;

/// A line that is being read.
#[derive(Debug)]
pub struct CappedLine {
    buffer: Vec<u8>,
    over_cap: bool,
    cap: usize,
}

/// What a line being read holds.
pub struct LineView {
    /// What is held of the line.
    pub buffer: Seq<u8>,
    /// Whether the line was too long to be held whole.
    pub over_cap: bool,
    /// The bound.
    pub cap: usize,
}

impl View for CappedLine {
    type V = LineView;

    closed spec fn view(&self) -> LineView {
        LineView { buffer: self.buffer@, over_cap: self.over_cap, cap: self.cap }
    }
}

/// The place after the first newline, where there is one.
pub open spec fn newline_end(chunk: Seq<u8>) -> Option<int>
    decreases chunk.len(),
{
    if chunk.len() == 0 {
        None
    } else if chunk[0] == 10u8 {
        Some(1)
    } else {
        match newline_end(chunk.skip(1)) {
            Some(n) => Some(n + 1),
            None => None,
        }
    }
}

/// The line after `bytes` of it were read.
pub open spec fn taken(line: LineView, bytes: Seq<u8>) -> LineView {
    if line.over_cap || line.buffer.len() + bytes.len() > line.cap {
        LineView { over_cap: true, ..line }
    } else {
        LineView { buffer: line.buffer + bytes, ..line }
    }
}

/// How many bytes of a chunk belong to the line.
pub open spec fn share(chunk: Seq<u8>) -> int {
    match newline_end(chunk) {
        Some(n) => n,
        None => chunk.len() as int,
    }
}

proof fn lemma_newline_end(chunk: Seq<u8>)
    ensures
        newline_end(chunk) matches Some(n) ==> 0 < n <= chunk.len() && chunk[n - 1] == 10u8
            && forall|i: int| 0 <= i < n - 1 ==> chunk[i] != 10u8,
        newline_end(chunk) is None ==> forall|i: int| 0 <= i < chunk.len() ==> chunk[i] != 10u8,
    decreases chunk.len(),
{
    if chunk.len() > 0 && chunk[0] != 10u8 {
        let rest = chunk.skip(1);
        lemma_newline_end(rest);
        assert forall|i: int| 0 < i < chunk.len() implies rest[i - 1] == chunk[i] by {}
        match newline_end(rest) {
            Some(n) => {
                assert forall|i: int| 0 <= i < n implies chunk[i] != 10u8 by {
                    if i > 0 {
                        assert(rest[i - 1] == chunk[i]);
                    }
                }
                assert(rest[n - 1] == chunk[n]);
            },
            None => {
                assert forall|i: int| 0 <= i < chunk.len() implies chunk[i] != 10u8 by {
                    if i > 0 {
                        assert(rest[i - 1] == chunk[i]);
                    }
                }
            },
        }
    }
}

impl CappedLine {
    /// A line of which nothing was read.
    pub fn new(cap: usize) -> (r: Self)
        ensures
            r@ == (LineView { buffer: Seq::empty(), over_cap: false, cap }),
    {
        CappedLine { buffer: Vec::new(), over_cap: false, cap }
    }

    /// Takes a line's share of the next chunk. Says how many bytes were used up
    /// and whether the line is complete.
    pub fn take_chunk(&mut self, chunk: &[u8]) -> (out: (usize, bool))
        ensures
            out.0 == share(chunk@),
            out.1 == newline_end(chunk@) is Some,
            final(self)@ == taken(old(self)@, chunk@.take(share(chunk@))),
    {
        let mut n: usize = 0;
        let mut complete = false;
        proof {
            lemma_newline_end(chunk@);
        }
        while n < chunk.len() && !complete
            invariant
                n <= chunk.len(),
                complete ==> n > 0 && chunk@[n - 1] == 10u8 && forall|i: int|
                    0 <= i < n - 1 ==> chunk@[i] != 10u8,
                !complete ==> forall|i: int| 0 <= i < n ==> chunk@[i] != 10u8,
            decreases chunk.len() - n,
        {
            if chunk[n] == 10u8 {
                complete = true;
            }
            n = n + 1;
        }
        proof {
            if complete {
                assert(chunk@[n - 1] == 10u8);
                assert(newline_end(chunk@) is Some);
                let m = newline_end(chunk@)->0;
                assert(m == n);
            } else {
                if newline_end(chunk@) is Some {
                    let m = newline_end(chunk@)->0;
                    assert(chunk@[m - 1] == 10u8);
                }
            }
        }
        if self.over_cap || self.buffer.len() > self.cap || n > self.cap - self.buffer.len() {
            self.over_cap = true;
        } else {
            let ghost before = self.buffer@;
            let mut i: usize = 0;
            while i < n
                invariant
                    i <= n <= chunk.len(),
                    self.buffer@ == before + chunk@.take(i as int),
                    self.over_cap == old(self).over_cap,
                    self.cap == old(self).cap,
                decreases n - i,
            {
                self.buffer.push(chunk[i]);
                i = i + 1;
                assert(before + chunk@.take(i as int) =~= (before + chunk@.take(i - 1)).push(
                    chunk@[i - 1],
                ));
            }
        }
        (n, complete)
    }

    /// Whether the input has ended, told at its end: it has where nothing of a
    /// further line was held.
    pub fn at_end_of_input(&self) -> (r: bool)
        ensures
            r == (self@.buffer.len() == 0),
    {
        self.buffer.len() == 0
    }

    /// The line, where it was held whole. One that was too long is skipped,
    /// even where what is held of it could be read.
    pub fn whole(&self) -> (b: Option<&Vec<u8>>)
        ensures
            b is None <==> self@.over_cap,
            b matches Some(bytes) ==> bytes@ == self@.buffer,
    {
        if self.over_cap {
            None
        } else {
            Some(&self.buffer)
        }
    }

    /// What is held of the line.
    pub fn bytes(&self) -> (b: &Vec<u8>)
        ensures
            b@ == self@.buffer,
    {
        &self.buffer
    }
}

/// The line after its shares of the first `n` chunks.
pub open spec fn read_in(line: LineView, shares: Seq<Seq<u8>>, n: nat) -> LineView
    decreases n,
{
    if n == 0 {
        line
    } else {
        taken(read_in(line, shares, (n - 1) as nat), shares[n - 1])
    }
}

/// The first `n` pieces, one behind the other.
pub open spec fn joined_bytes(shares: Seq<Seq<u8>>, n: nat) -> Seq<u8>
    decreases n,
{
    if n == 0 {
        Seq::empty()
    } else {
        joined_bytes(shares, (n - 1) as nat) + shares[n - 1]
    }
}

/// However a line is cut into pieces, no more than the bound is ever held, and
/// a line within the bound is held whole.
pub proof fn a_line_is_held_within_its_bound(cap: usize, shares: Seq<Seq<u8>>, n: nat)
    requires
        n <= shares.len(),
    ensures
        ({
            let fresh = LineView { buffer: Seq::empty(), over_cap: false, cap };
            let line = read_in(fresh, shares, n);
            &&& line.cap == cap
            &&& line.buffer.len() <= cap
            &&& joined_bytes(shares, n).len() <= cap ==> !line.over_cap && line.buffer
                == joined_bytes(shares, n)
            &&& joined_bytes(shares, n).len() > cap ==> line.over_cap
        }),
    decreases n,
{
    if n > 0 {
        a_line_is_held_within_its_bound(cap, shares, (n - 1) as nat);
    }
}

/// A line takes of a chunk what stands up to its first newline, and that too;
/// a chunk without one it takes whole.
pub proof fn a_line_ends_with_its_first_newline(chunk: Seq<u8>)
    ensures
        0 <= share(chunk) <= chunk.len(),
        newline_end(chunk) is Some <==> chunk.contains(10u8),
        newline_end(chunk) is None ==> share(chunk) == chunk.len(),
        newline_end(chunk) matches Some(n) ==> {
            &&& share(chunk) == n
            &&& 0 < n <= chunk.len()
            &&& chunk[n - 1] == 10u8
            &&& forall|i: int| 0 <= i < n - 1 ==> #[trigger] chunk[i] != 10u8
        },
    decreases chunk.len(),
{
    if chunk.len() > 0 {
        if chunk[0] == 10u8 {
            assert(chunk.contains(chunk[0]));
        } else {
            let rest = chunk.skip(1);
            a_line_ends_with_its_first_newline(rest);
            if newline_end(rest) is Some {
                let n = newline_end(rest)->0;
                assert(rest[n - 1] == chunk[n]);
                assert(chunk.contains(chunk[n]));
                assert forall|i: int| 0 <= i < n implies #[trigger] chunk[i] != 10u8 by {
                    if i > 0 {
                        assert(rest[i - 1] == chunk[i]);
                    }
                }
            } else if chunk.contains(10u8) {
                let i = choose|i: int| 0 <= i < chunk.len() && chunk[i] == 10u8;
                assert(rest[i - 1] == 10u8);
                assert(rest.contains(10u8));
            }
        }
    }
}

/// Bytes that still fit are held behind the others; with the first that do not,
/// the line is over its bound for good, and what is held stays.
pub proof fn a_line_over_its_bound_stays_over(line: LineView, bytes: Seq<u8>)
    ensures
        !line.over_cap && line.buffer.len() + bytes.len() <= line.cap ==> taken(line, bytes) == (
        LineView { buffer: line.buffer + bytes, over_cap: false, cap: line.cap }),
        !line.over_cap && line.buffer.len() + bytes.len() > line.cap ==> taken(line, bytes) == (
        LineView { buffer: line.buffer, over_cap: true, cap: line.cap }),
        line.over_cap ==> taken(line, bytes) == line,
{
}

/// A line of a ledger is read up to 16 mebibytes.
pub proof fn a_ledger_line_is_read_up_to_its_bound()
    ensures
        MAX_LEDGER_LINE == 16 * 1024 * 1024,
{
}

} // verus!
