//! The tailing state machine.

use vstd::prelude::*;

use crate::lines::NEWLINE;
use crate::lines::all_newline_free;
use crate::lines::completes_line;
use crate::lines::join_lines;
use crate::lines::lemma_join_lines_push;
use crate::lines::newline_free;
use crate::lines::wf_chunk;

verus! {

/// Where the machine stands in its lifecycle.
#[derive(Clone, Copy, Debug, PartialEq, Eq, Structural)]
pub enum Phase {
    /// No file handle is held; the next pull must (re)open the file.
    Closed,
    /// The file is open and the machine scans backward for the last newline.
    Scanning,
    /// The start offset is established; the machine assembles lines.
    Ready,
}

/// What the driver must do next on the machine's behalf.
#[derive(Clone, Copy, Debug, PartialEq, Eq, Structural)]
pub enum Action {
    /// Open the file and seek to its end; report the end offset with
    /// [`LogTail::on_opened`], or a failure with [`LogTail::on_io_error`].
    Open,
    /// Read the single byte at offset `off`; report it with
    /// [`LogTail::on_scan_byte`], or a failure with [`LogTail::on_io_error`].
    ReadByteAt { off: u64 },
    /// Read from offset `from` up to and including the next newline, or up
    /// to the current end of file; report the bytes with
    /// [`LogTail::on_chunk`], or a failure with [`LogTail::on_io_error`].
    ReadChunk { from: u64 },
}

/// The blocking tail of a growing log file, as a verified state machine.
///
/// The machine starts `Closed`.  Once the driver opens the file, the machine
/// directs a backward scan from the end of the file to the most recent
/// newline, so that tailing starts just after it and everything already in
/// the file is skipped.  From then on it assembles lines from whatever the
/// driver's reads return, tolerating reads that stop short of a newline:
/// a pull simply retries until a read completes the line.
pub struct LogTail {
    /// Where the machine stands in its lifecycle.
    pub phase: Phase,
    /// In `Scanning`: the offset whose preceding byte is inspected next.
    /// In `Ready`: the offset of the first byte not yet consumed.
    /// In `Closed`: zero.
    pub pos: u64,
    /// The bytes of the line currently being assembled (meaningful in
    /// `Ready`; empty otherwise).
    pub buf: Vec<u8>,
    /// The offset at which the machine entered `Ready`: the first byte of
    /// the file that is tailed rather than skipped.
    pub start: Ghost<int>,
    /// Every byte consumed since the machine entered `Ready`, in order.
    pub consumed: Ghost<Seq<u8>>,
    /// Every line produced since the machine entered `Ready`, in order.
    pub emitted: Ghost<Seq<Seq<u8>>>,
}

impl LogTail {
    /// The machine's internal consistency: phase-dependent field shapes,
    /// and — the heart of the byte accounting — that the lines produced so
    /// far, each with its newline put back, followed by the partial line,
    /// are exactly the bytes consumed, whose count the read position
    /// reflects.
    pub open spec fn wf(self) -> bool {
        &&& match self.phase {
            Phase::Closed => self.pos == 0,
            Phase::Scanning => self.pos > 0,
            Phase::Ready => self.pos == self.start@ + self.consumed@.len(),
        }
        &&& self.phase is Ready ==> self.start@ >= 0
        &&& self.phase !is Ready ==> {
            &&& self.buf@.len() == 0
            &&& self.consumed@.len() == 0
            &&& self.emitted@.len() == 0
        }
        &&& join_lines(self.emitted@) + self.buf@ == self.consumed@
        &&& newline_free(self.buf@)
        &&& all_newline_free(self.emitted@)
    }

    /// Creates a tail that has not yet touched the file.  No input/output
    /// happens here; the first pull opens the file.
    pub fn new() -> (t: LogTail)
        ensures
            t.wf(),
            t.phase is Closed,
            t.pos == 0,
    {
        let t = LogTail {
            phase: Phase::Closed,
            pos: 0,
            buf: Vec::new(),
            start: Ghost(0),
            consumed: Ghost(Seq::empty()),
            emitted: Ghost(Seq::empty()),
        };
        proof {
            assert(join_lines(t.emitted@) + t.buf@ =~= t.consumed@);
        }
        t
    }

    /// What the driver must do next, determined by the phase alone.
    pub fn next_action(&self) -> (a: Action)
        requires
            self.wf(),
        ensures
            self.phase is Closed ==> a == Action::Open,
            self.phase is Scanning ==> a == (Action::ReadByteAt { off: (self.pos - 1) as u64 }),
            self.phase is Ready ==> a == (Action::ReadChunk { from: self.pos }),
    {
        match self.phase {
            Phase::Closed => Action::Open,
            Phase::Scanning => Action::ReadByteAt { off: self.pos - 1 },
            Phase::Ready => Action::ReadChunk { from: self.pos },
        }
    }

    /// The driver opened the file and seeked to its end, which lies at
    /// offset `end`.  An empty file needs no scan: tailing starts at the
    /// start of the file.  Otherwise the backward scan begins at the end.
    pub fn on_opened(&mut self, end: u64)
        requires
            old(self).wf(),
            old(self).phase is Closed,
        ensures
            final(self).wf(),
            end == 0 ==> final(self).phase is Ready && final(self).pos == 0,
            end > 0 ==> final(self).phase is Scanning && final(self).pos == end,
            final(self).buf@.len() == 0,
            final(self).consumed@.len() == 0,
            final(self).emitted@.len() == 0,
    {
        self.pos = end;
        if end == 0 {
            self.phase = Phase::Ready;
            self.start = Ghost(0);
        } else {
            self.phase = Phase::Scanning;
        }
    }

    /// The driver read `b`, the byte at the offset just before `self.pos`,
    /// during the backward scan.  A newline there means `self.pos` is the
    /// offset just after the file's last newline, so tailing starts here;
    /// reaching the start of the file without one means the whole existing
    /// content is a line still in progress, so tailing starts at offset
    /// `0`.  Otherwise the scan steps back one byte.  This mirrors one
    /// unfolding of [`crate::lines::scan_result`].
    pub fn on_scan_byte(&mut self, b: u8)
        requires
            old(self).wf(),
            old(self).phase is Scanning,
        ensures
            final(self).wf(),
            b == NEWLINE ==> final(self).phase is Ready && final(self).pos == old(self).pos,
            b != NEWLINE && old(self).pos == 1 ==> final(self).phase is Ready
                && final(self).pos == 0,
            b != NEWLINE && old(self).pos > 1 ==> final(self).phase is Scanning
                && final(self).pos == old(self).pos - 1,
            final(self).buf@.len() == 0,
            final(self).consumed@.len() == 0,
            final(self).emitted@.len() == 0,
    {
        if b == NEWLINE {
            self.phase = Phase::Ready;
            self.start = Ghost(self.pos as int);
        } else {
            self.pos = self.pos - 1;
            if self.pos == 0 {
                self.phase = Phase::Ready;
                self.start = Ghost(0);
            }
        }
    }

    /// The driver read `chunk` at the machine's position: the bytes up to
    /// and including the next newline, or up to the current end of the
    /// file, whichever came first — possibly nothing at all.  The machine
    /// appends them to the line in progress and advances its position by
    /// exactly the bytes consumed.  A chunk that ends in a newline
    /// completes the line, which is returned without its terminator; any
    /// other chunk returns nothing and the pull must retry.  That retry,
    /// repeated until the file grows a newline, is the blocking behaviour
    /// of the tail.
    pub fn on_chunk(&mut self, chunk: &[u8]) -> (line: Option<Vec<u8>>)
        requires
            old(self).wf(),
            old(self).phase is Ready,
            wf_chunk(chunk@),
            old(self).pos + chunk@.len() <= u64::MAX,
        ensures
            final(self).wf(),
            final(self).phase is Ready,
            final(self).pos == old(self).pos + chunk@.len(),
            final(self).start == old(self).start,
            final(self).consumed@ == old(self).consumed@ + chunk@,
            completes_line(chunk@) ==> {
                &&& line matches Some(l)
                &&& l@ == old(self).buf@ + chunk@.drop_last()
                &&& newline_free(l@)
                &&& final(self).buf@.len() == 0
                &&& final(self).emitted@ == old(self).emitted@.push(l@)
            },
            !completes_line(chunk@) ==> {
                &&& line is None
                &&& final(self).buf@ == old(self).buf@ + chunk@
                &&& final(self).emitted@ == old(self).emitted@
            },
    {
        let ghost prev = *self;
        let mut i: usize = 0;
        while i < chunk.len()
            invariant
                i <= chunk.len(),
                self.buf@ == prev.buf@ + chunk@.take(i as int),
                self.phase == prev.phase,
                self.pos == prev.pos,
                self.start == prev.start,
                self.consumed == prev.consumed,
                self.emitted == prev.emitted,
            decreases chunk.len() - i,
        {
            self.buf.push(chunk[i]);
            i = i + 1;
            proof {
                assert(chunk@.take(i as int) =~= chunk@.take(i - 1).push(chunk@[i - 1]));
            }
        }
        proof {
            assert(chunk@.take(chunk@.len() as int) =~= chunk@);
        }
        self.pos = self.pos + chunk.len() as u64;
        self.consumed = Ghost(self.consumed@ + chunk@);
        let n = self.buf.len();
        if n > 0 && self.buf[n - 1] == NEWLINE {
            proof {
                if chunk@.len() == 0 {
                    assert(self.buf@ =~= prev.buf@);
                    assert(self.buf@[n - 1] != NEWLINE);
                }
                assert(completes_line(chunk@));
            }
            self.buf.pop();
            let mut line: Vec<u8> = Vec::new();
            core::mem::swap(&mut line, &mut self.buf);
            self.emitted = Ghost(self.emitted@.push(line@));
            proof {
                assert(line@ =~= prev.buf@ + chunk@.drop_last());
                assert forall|j: int| 0 <= j < line@.len() implies line@[j] != NEWLINE by {
                    if j < prev.buf@.len() {
                        assert(prev.buf@[j] != NEWLINE);
                    } else {
                        assert(line@[j] == chunk@[j - prev.buf@.len()]);
                    }
                }
                lemma_join_lines_push(prev.emitted@, line@);
                assert(chunk@ =~= chunk@.drop_last() + seq![NEWLINE]);
                assert(join_lines(self.emitted@) + self.buf@ =~= self.consumed@);
                assert forall|j: int|
                    0 <= j < self.emitted@.len() implies newline_free(
                    #[trigger] self.emitted@[j],
                ) by {
                    if j < prev.emitted@.len() {
                        assert(newline_free(prev.emitted@[j]));
                    }
                }
            }
            Some(line)
        } else {
            proof {
                assert(!completes_line(chunk@));
                assert(self.buf@ == prev.buf@ + chunk@);
                assert forall|j: int| 0 <= j < self.buf@.len() implies self.buf@[j] != NEWLINE by {
                    if j < prev.buf@.len() {
                        assert(prev.buf@[j] != NEWLINE);
                    } else {
                        assert(self.buf@[j] == chunk@[j - prev.buf@.len()]);
                        if j == self.buf@.len() - 1 {
                            assert(chunk@[j - prev.buf@.len()] == chunk@.last());
                        }
                    }
                }
                assert(join_lines(self.emitted@) + self.buf@ =~= self.consumed@);
            }
            None
        }
    }

    /// An open, seek or read failed.  The handle is dropped and any partial
    /// progress discarded, so that the next pull retries initialization
    /// from scratch; the failure itself is the driver's to report.
    pub fn on_io_error(&mut self)
        ensures
            final(self).wf(),
            final(self).phase is Closed,
            final(self).pos == 0,
            final(self).buf@.len() == 0,
    {
        self.phase = Phase::Closed;
        self.pos = 0;
        self.buf = Vec::new();
        self.start = Ghost(0);
        self.consumed = Ghost(Seq::empty());
        self.emitted = Ghost(Seq::empty());
        proof {
            assert(join_lines(self.emitted@) + self.buf@ =~= self.consumed@);
        }
    }
}

/// A tail's output is exactly the line decomposition of what it consumed:
/// if the bytes consumed since the machine became ready read as a sequence
/// of newline-terminated lines followed by a newline-free remainder, the
/// machine has produced precisely those lines, in that order, and holds
/// precisely that remainder as its line in progress — however the reads
/// were chunked, with no line duplicated, dropped, merged or reordered.
pub proof fn lemma_emitted_is_line_decomposition(t: LogTail, ls: Seq<Seq<u8>>, rest: Seq<u8>)
    requires
        t.wf(),
        all_newline_free(ls),
        newline_free(rest),
        t.consumed@ == join_lines(ls) + rest,
    ensures
        t.emitted@ == ls,
        t.buf@ == rest,
{
    crate::lines::lemma_decomposition_unique(t.emitted@, t.buf@, ls, rest);
}

} // verus!
