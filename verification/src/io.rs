//! Body execution: how a body is cut into reads, what the results of reads and writes mean, and
//! who may read at all.
//!
//! A short body is read at once. A longer one is read in chunks by a reader task, and a bounded
//! waiting room stands before the reader tasks; beyond it requests are shed before any header
//! is written. The whole send runs under the response budget.

use crate::counters;
use crate::counters::Counters;
use crate::resolve::Errno;
use vstd::prelude::*;

verus! {

/// The smallest chunk that a reader task reads.
pub const MIN_CHUNK_BYTES: usize = 4096;

/// How the send of a body ended. After anything but `Complete` the connection must not be
/// reused.
#[derive(Debug, Clone, Copy, PartialEq, Eq, Structural)]
pub enum SendOutcome {
    Complete { bytes: u64 },
    /// The client went away.
    ClientGone,
    /// The response budget or a write timeout expired.
    DeadlineExceeded,
    /// The file misbehaved after the header was written.
    IoFault,
}

// ---- admission ----

/// What becomes of a request for a reader task.
#[derive(Debug, Clone, Copy, PartialEq, Eq, Structural)]
pub enum Admission {
    /// A permit was free.
    Granted,
    /// The request waits for a permit.
    Wait,
    /// The waiting room is full.
    Shed,
}

/// The waiting room before the reader tasks.
#[derive(Debug)]
pub struct IoLimiter {
    permits: usize,
    waiters: usize,
    max_waiters: usize,
}

pub struct LimiterView {
    /// The number of reader tasks.
    pub permits: int,
    /// The requests in the waiting room.
    pub waiters: int,
    pub max_waiters: int,
}

impl View for IoLimiter {
    type V = LimiterView;

    closed spec fn view(&self) -> LimiterView {
        LimiterView {
            permits: self.permits as int,
            waiters: self.waiters as int,
            max_waiters: self.max_waiters as int,
        }
    }
}

/// A limiter with an empty waiting room.
pub open spec fn limiter_of(permits: usize, max_waiters: usize) -> LimiterView {
    LimiterView {
        permits: if permits == 0 {
            1
        } else {
            permits as int
        },
        waiters: 0,
        max_waiters: max_waiters as int,
    }
}

/// A limiter once one of the requests in the waiting room has left it.
pub open spec fn left(limiter: LimiterView) -> LimiterView {
    LimiterView { waiters: limiter.waiters - 1, ..limiter }
}

/// A limiter after one more request for a permit, and what the request is told.
pub open spec fn asked(limiter: LimiterView, free: bool) -> (LimiterView, Admission) {
    if free {
        (limiter, Admission::Granted)
    } else if limiter.waiters < limiter.max_waiters {
        (LimiterView { waiters: limiter.waiters + 1, ..limiter }, Admission::Wait)
    } else {
        (limiter, Admission::Shed)
    }
}

impl IoLimiter {
    #[verifier::type_invariant]
    pub closed spec fn wf(self) -> bool {
        self.waiters <= self.max_waiters && self.permits > 0
    }

    /// A waiting room of the given size before the given number of reader tasks, of which there
    /// is at least one.
    pub fn new(permits: usize, max_waiters: usize) -> (r: IoLimiter)
        ensures
            r@ == limiter_of(permits, max_waiters),
            r@ == (LimiterView {
                permits: if permits == 0 {
                    1
                } else {
                    permits as int
                },
                waiters: 0,
                max_waiters: max_waiters as int,
            }),
    {
        IoLimiter {
            permits: if permits == 0 {
                1
            } else {
                permits
            },
            waiters: 0,
            max_waiters,
        }
    }

    /// The number of reader tasks.
    pub fn permits(&self) -> (r: usize)
        ensures
            r == self@.permits,
            r > 0,
    {
        proof {
            use_type_invariant(self);
        }
        self.permits
    }

    /// Admits a request: at once when a permit is free, to the waiting room while it has room,
    /// and not at all beyond that. The waiting room never holds more than its size.
    pub fn acquire(&mut self, free: bool) -> (r: Admission)
        ensures
            (final(self)@, r) == asked(old(self)@, free),
            final(self)@.waiters <= final(self)@.max_waiters,
            if free {
                r == Admission::Granted && final(self)@ == old(self)@
            } else if old(self)@.waiters < old(self)@.max_waiters {
                r == Admission::Wait && final(self)@ == (LimiterView {
                    waiters: old(self)@.waiters + 1,
                    ..old(self)@
                })
            } else {
                r == Admission::Shed && final(self)@ == old(self)@
            },
    {
        proof {
            use_type_invariant(&*self);
        }
        if free {
            Admission::Granted
        } else if self.waiters < self.max_waiters {
            self.waiters = self.waiters + 1;
            Admission::Wait
        } else {
            Admission::Shed
        }
    }

    /// A request leaves the waiting room, with its permit.
    pub fn leave(&mut self)
        requires
            old(self)@.waiters > 0,
        ensures
            final(self)@ == left(old(self)@),
            final(self)@ == (LimiterView { waiters: old(self)@.waiters - 1, ..old(self)@ }),
    {
        proof {
            use_type_invariant(&*self);
        }
        self.waiters = self.waiters - 1;
    }
}

// ---- reads ----

/// What to do after a read into a buffer.
#[derive(Debug, Clone, Copy, PartialEq, Eq, Structural)]
pub enum FillStep {
    /// Read on.
    More,
    /// The buffer is full.
    Full,
    /// The file is shorter than its snapshot, or cannot be read.
    Fault,
}

/// A buffer that is being filled by positioned reads.
#[derive(Debug)]
pub struct Fill {
    filled: usize,
    want: usize,
}

pub struct FillView {
    pub filled: int,
    pub want: int,
}

impl View for Fill {
    type V = FillView;

    closed spec fn view(&self) -> FillView {
        FillView { filled: self.filled as int, want: self.want as int }
    }
}

/// The state of a buffer after a read.
pub open spec fn filled_after(fill: FillView, result: Result<usize, Errno>) -> (
    FillView,
    FillStep,
) {
    match result {
        Ok(n) => {
            let next = FillView { filled: fill.filled + n, ..fill };
            (
                next,
                if n == 0 {
                    FillStep::Fault
                } else if next.filled == next.want {
                    FillStep::Full
                } else {
                    FillStep::More
                },
            )
        },
        Err(e) => (
            fill,
            if e == Errno::Intr {
                FillStep::More
            } else {
                FillStep::Fault
            },
        ),
    }
}

impl Fill {
    #[verifier::type_invariant]
    pub closed spec fn wf(self) -> bool {
        self.filled <= self.want
    }

    /// An empty buffer of the given size.
    pub fn new(want: usize) -> (r: Fill)
        ensures
            r@ == (FillView { filled: 0, want: want as int }),
    {
        Fill { filled: 0, want }
    }

    /// How much of the buffer is filled: the next read goes there, and reads from as far behind
    /// the start of the buffer's part of the file.
    pub fn filled(&self) -> (r: usize)
        ensures
            r == self@.filled,
            self@.filled <= self@.want,
    {
        proof {
            use_type_invariant(self);
        }
        self.filled
    }

    pub fn is_full(&self) -> (r: bool)
        ensures
            r == (self@.filled == self@.want),
    {
        self.filled == self.want
    }

    /// Takes the result of a read into the rest of the buffer. An interrupted read is repeated;
    /// an empty one means that the file is shorter than its snapshot.
    pub fn read(&mut self, result: Result<usize, Errno>) -> (r: FillStep)
        requires
            result matches Ok(n) ==> n <= old(self)@.want - old(self)@.filled,
        ensures
            (final(self)@, r) == filled_after(old(self)@, result),
    {
        proof {
            use_type_invariant(&*self);
        }
        match result {
            Ok(n) => {
                self.filled = self.filled + n;
                if n == 0 {
                    FillStep::Fault
                } else if self.filled == self.want {
                    FillStep::Full
                } else {
                    FillStep::More
                }
            },
            Err(Errno::Intr) => FillStep::More,
            Err(_) => FillStep::Fault,
        }
    }
}

/// The part of a file that is still to be read, chunk by chunk.
#[derive(Debug)]
pub struct Chunks {
    position: u64,
    remaining: u64,
    chunk: usize,
}

pub struct ChunksView {
    pub position: int,
    pub remaining: int,
    pub chunk: int,
}

impl View for Chunks {
    type V = ChunksView;

    closed spec fn view(&self) -> ChunksView {
        ChunksView {
            position: self.position as int,
            remaining: self.remaining as int,
            chunk: self.chunk as int,
        }
    }
}

/// The length of the next chunk.
pub open spec fn next_chunk(c: ChunksView) -> int {
    if c.remaining < c.chunk {
        c.remaining
    } else {
        c.chunk
    }
}

/// The chunks of a part of a file, before any is read.
pub open spec fn chunks_of(offset: u64, len: u64, chunk_bytes: usize) -> ChunksView {
    ChunksView {
        position: offset as int,
        remaining: len as int,
        chunk: if chunk_bytes < MIN_CHUNK_BYTES {
            MIN_CHUNK_BYTES as int
        } else {
            chunk_bytes as int
        },
    }
}

impl Chunks {
    #[verifier::type_invariant]
    pub closed spec fn wf(self) -> bool {
        self.position + self.remaining <= u64::MAX && self.chunk >= MIN_CHUNK_BYTES
    }

    /// The chunks of `len` bytes from `offset` on, each of the given size or of the least that
    /// is read at once.
    pub fn new(offset: u64, len: u64, chunk_bytes: usize) -> (r: Chunks)
        requires
            offset + len <= u64::MAX,
        ensures
            r@ == chunks_of(offset, len, chunk_bytes),
            r@ == (ChunksView {
                position: offset as int,
                remaining: len as int,
                chunk: if chunk_bytes < MIN_CHUNK_BYTES {
                    MIN_CHUNK_BYTES as int
                } else {
                    chunk_bytes as int
                },
            }),
    {
        Chunks {
            position: offset,
            remaining: len,
            chunk: if chunk_bytes < MIN_CHUNK_BYTES {
                MIN_CHUNK_BYTES
            } else {
                chunk_bytes
            },
        }
    }

    /// The next chunk, as its position and length; `None` when all is read.
    pub fn next(&mut self) -> (r: Option<(u64, usize)>)
        ensures
            match r {
                Some((position, n)) => {
                    &&& old(self)@.remaining > 0
                    &&& position == old(self)@.position
                    &&& n == next_chunk(old(self)@)
                    &&& n > 0
                    &&& final(self)@ == (ChunksView {
                        position: old(self)@.position + n,
                        remaining: old(self)@.remaining - n,
                        ..old(self)@
                    })
                },
                None => old(self)@.remaining == 0 && final(self)@ == old(self)@,
            },
            match r {
                Some((position, n)) => chunk_list(old(self)@) == seq![(position as int, n as int)]
                    + chunk_list(final(self)@),
                None => chunk_list(old(self)@).len() == 0,
            },
    {
        proof {
            use_type_invariant(&*self);
        }
        if self.remaining == 0 {
            return None;
        }
        let want: usize = if self.remaining < self.chunk as u64 {
            self.remaining as usize
        } else {
            self.chunk
        };
        let position: u64 = self.position;
        *self = Chunks {
            position: position + want as u64,
            remaining: self.remaining - want as u64,
            chunk: self.chunk,
        };
        Some((position, want))
    }
}

/// The chunks that are read, in order, as positions and lengths.
pub open spec fn chunk_list(c: ChunksView) -> Seq<(int, int)>
    decreases c.remaining,
{
    if c.remaining <= 0 || c.chunk <= 0 {
        Seq::empty()
    } else {
        let n = next_chunk(c);
        seq![(c.position, n)] + chunk_list(
            ChunksView { position: c.position + n, remaining: c.remaining - n, ..c },
        )
    }
}

/// The bytes in a list of chunks.
pub open spec fn total_bytes(chunks: Seq<(int, int)>) -> int
    decreases chunks.len(),
{
    if chunks.len() == 0 {
        0
    } else {
        chunks[0].1 + total_bytes(chunks.skip(1))
    }
}

/// The chunks tile the body: they follow on one another from its start, none is empty or
/// larger than a chunk, and together they are as long as the body.
pub proof fn law_chunks_tile_the_body(c: ChunksView)
    requires
        c.remaining >= 0,
        c.chunk > 0,
    ensures
        total_bytes(chunk_list(c)) == c.remaining,
        c.remaining > 0 ==> chunk_list(c).len() > 0 && chunk_list(c)[0].0 == c.position,
        forall|i: int|
            0 <= i < chunk_list(c).len() ==> 0 < (#[trigger] chunk_list(c)[i]).1 <= c.chunk,
        forall|i: int|
            1 <= i < chunk_list(c).len() ==> (#[trigger] chunk_list(c)[i]).0 == chunk_list(c)[i
                - 1].0 + chunk_list(c)[i - 1].1,
    decreases c.remaining,
{
    if c.remaining > 0 {
        let n = next_chunk(c);
        let rest = ChunksView { position: c.position + n, remaining: c.remaining - n, ..c };
        law_chunks_tile_the_body(rest);
        let all = chunk_list(c);
        assert(all.skip(1) =~= chunk_list(rest));
        assert forall|i: int| 0 <= i < all.len() implies 0 < (#[trigger] all[i]).1 <= c.chunk by {
            if i > 0 {
                assert(all[i] == chunk_list(rest)[i - 1]);
            }
        }
        assert forall|i: int| 1 <= i < all.len() implies (#[trigger] all[i]).0 == all[i - 1].0
            + all[i - 1].1 by {
            assert(all[i] == chunk_list(rest)[i - 1]);
            if i > 1 {
                assert(all[i - 1] == chunk_list(rest)[i - 2]);
            }
        }
    }
}

// ---- writes ----

/// Why a write to the client failed.
#[derive(Debug, Clone, Copy, PartialEq, Eq, Structural)]
pub enum WriteFailure {
    TimedOut,
    /// Any other failure.
    Broken,
}

/// What happened while a body was streamed.
#[derive(Debug, Clone, Copy, PartialEq, Eq, Structural)]
pub enum StreamEvent {
    /// A chunk of the given length was written.
    Wrote(u64),
    /// The reader task could not read on.
    ReadFailed,
    /// A chunk, or the end of the message, could not be written.
    WriteFailed(WriteFailure),
    /// The reader task has read all.
    ReaderDone,
    /// The end of the message was written.
    Terminated,
}

/// What to do next while a body is streamed.
#[derive(Debug, Clone, Copy, PartialEq, Eq, Structural)]
pub enum StreamStep {
    /// Take the next chunk; so many bytes are written.
    Continue { sent: u64 },
    /// Write the end of the message.
    Terminate { sent: u64 },
    Done(SendOutcome),
}

/// What a failed write comes to.
pub fn classify_write_error(e: WriteFailure) -> (r: SendOutcome)
    ensures
        r == match e {
            WriteFailure::TimedOut => SendOutcome::DeadlineExceeded,
            WriteFailure::Broken => SendOutcome::ClientGone,
        },
        forall|sent: u64| #[trigger]
            streamed(sent, StreamEvent::WriteFailed(e)) == StreamStep::Done(r),
{
    match e {
        WriteFailure::TimedOut => SendOutcome::DeadlineExceeded,
        WriteFailure::Broken => SendOutcome::ClientGone,
    }
}

/// The next step of a streamed send after an event. Only the end of the message makes it
/// complete.
pub open spec fn streamed(sent: u64, event: StreamEvent) -> StreamStep {
    match event {
        StreamEvent::Wrote(n) => StreamStep::Continue { sent: (sent + n) as u64 },
        StreamEvent::ReadFailed => StreamStep::Done(SendOutcome::IoFault),
        StreamEvent::WriteFailed(WriteFailure::TimedOut) => StreamStep::Done(
            SendOutcome::DeadlineExceeded,
        ),
        StreamEvent::WriteFailed(WriteFailure::Broken) => StreamStep::Done(SendOutcome::ClientGone),
        StreamEvent::ReaderDone => StreamStep::Terminate { sent },
        StreamEvent::Terminated => StreamStep::Done(SendOutcome::Complete { bytes: sent }),
    }
}

/// Takes one event of a streamed send.
pub fn stream_step(sent: u64, event: StreamEvent) -> (r: StreamStep)
    requires
        event matches StreamEvent::Wrote(n) ==> sent + n <= u64::MAX,
    ensures
        r == streamed(sent, event),
{
    match event {
        StreamEvent::Wrote(n) => StreamStep::Continue { sent: sent + n },
        StreamEvent::ReadFailed => StreamStep::Done(SendOutcome::IoFault),
        StreamEvent::WriteFailed(e) => StreamStep::Done(classify_write_error(e)),
        StreamEvent::ReaderDone => StreamStep::Terminate { sent },
        StreamEvent::Terminated => StreamStep::Done(SendOutcome::Complete { bytes: sent }),
    }
}

/// The bytes counted as sent after all chunks of a list were written.
pub open spec fn sent_after(sent: u64, chunks: Seq<(int, int)>) -> Option<u64>
    decreases chunks.len(),
{
    if chunks.len() == 0 {
        Some(sent)
    } else {
        match streamed(sent, StreamEvent::Wrote(chunks[0].1 as u64)) {
            StreamStep::Continue { sent } => sent_after(sent, chunks.skip(1)),
            _ => None,
        }
    }
}

/// A streamed send whose every chunk was written reports the length of the body.
pub proof fn law_complete_send_is_whole(c: ChunksView, sent: u64)
    requires
        c.remaining >= 0,
        c.chunk > 0,
        sent + c.remaining <= u64::MAX,
    ensures
        sent_after(sent, chunk_list(c)) == Some((sent + c.remaining) as u64),
    decreases c.remaining,
{
    if c.remaining > 0 {
        let n = next_chunk(c);
        let rest = ChunksView { position: c.position + n, remaining: c.remaining - n, ..c };
        assert(chunk_list(c).skip(1) =~= chunk_list(rest));
        assert(chunk_list(c)[0].1 == n);
        law_complete_send_is_whole(rest, (sent + n) as u64);
    }
}

/// A body that is read at once.
pub open spec fn is_inline(len: u64, inline_threshold: u64) -> bool {
    len <= inline_threshold
}

/// Whether a body is read at once instead of by a reader task.
pub fn reads_inline(len: u64, inline_threshold: u64) -> (r: bool)
    ensures
        r == is_inline(len, inline_threshold),
        r == (len <= inline_threshold),
{
    len <= inline_threshold
}

/// The counters after a send.
pub open spec fn settled(c: Counters, outcome: SendOutcome) -> Counters {
    match outcome {
        SendOutcome::Complete { bytes } => Counters {
            bytes_sent: c.bytes_sent.wrapping_add(bytes),
            ..c
        },
        SendOutcome::ClientGone => Counters {
            client_aborts: counters::bumped(c.client_aborts),
            ..c
        },
        SendOutcome::DeadlineExceeded => Counters {
            deadline_aborts: counters::bumped(c.deadline_aborts),
            ..c
        },
        SendOutcome::IoFault => Counters { io_faults: counters::bumped(c.io_faults), ..c },
    }
}

/// A send after which the connection may be used again.
pub open spec fn is_reusable(outcome: SendOutcome) -> bool {
    outcome is Complete
}

/// Counts how a send ended, once. The connection may be reused only after a complete one.
pub fn settle(counters: &mut Counters, outcome: SendOutcome) -> (reusable: bool)
    ensures
        *final(counters) == settled(*old(counters), outcome),
        reusable == is_reusable(outcome),
        reusable == (outcome is Complete),
{
    match outcome {
        SendOutcome::Complete { bytes } => {
            counters.add_bytes(bytes);
            true
        },
        SendOutcome::ClientGone => {
            counters.client_aborts = counters.client_aborts.wrapping_add(1);
            false
        },
        SendOutcome::DeadlineExceeded => {
            counters.deadline_aborts = counters.deadline_aborts.wrapping_add(1);
            false
        },
        SendOutcome::IoFault => {
            counters.io_faults = counters.io_faults.wrapping_add(1);
            false
        },
    }
}

} // verus!
