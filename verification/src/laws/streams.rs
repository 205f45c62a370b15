//! Bodies: how they are admitted, read and sent, and what their end is counted as.

use crate::config::Limits;
use crate::counters::Counters;
use crate::io;
use crate::io::{
    Admission, ChunksView, FillStep, FillView, LimiterView, SendOutcome, StreamEvent, StreamStep,
    WriteFailure,
};
use crate::laws::exchanges;
use crate::resolve::Errno;
use crate::semantics::BodyPlan;
use crate::serve;
use crate::serve::{PreparedView, StepView};
use vstd::prelude::*;

verus! {

/// A limiter after requests that all found no permit free.
pub open spec fn crowded(limiter: LimiterView, requests: nat) -> LimiterView
    decreases requests,
{
    if requests == 0 {
        limiter
    } else {
        io::asked(crowded(limiter, (requests - 1) as nat), false).0
    }
}

/// A free permit is granted at once. While none is free, as many requests wait as the waiting
/// room has room for, and every one behind them is shed.
pub proof fn law_waiting_room_fills_up(limiter: LimiterView, requests: nat)
    requires
        0 <= limiter.waiters <= limiter.max_waiters,
    ensures
        io::asked(limiter, true) == (limiter, Admission::Granted),
        requests < limiter.max_waiters - limiter.waiters ==> io::asked(
            crowded(limiter, requests),
            false,
        ).1 == Admission::Wait,
        requests >= limiter.max_waiters - limiter.waiters ==> io::asked(
            crowded(limiter, requests),
            false,
        ).1 == Admission::Shed,
        crowded(limiter, requests).permits == limiter.permits,
        crowded(limiter, requests).max_waiters == limiter.max_waiters,
        crowded(limiter, requests).waiters == if requests < limiter.max_waiters - limiter.waiters {
            limiter.waiters + requests
        } else {
            limiter.max_waiters
        },
    decreases requests,
{
    if requests > 0 {
        law_waiting_room_fills_up(limiter, (requests - 1) as nat);
    }
}

/// A limiter begins with nobody waiting, and with at least one reader. A request that waited and
/// leaves makes the room that it took.
pub proof fn law_waiting_rooms_begin_empty(
    permits: usize,
    max_waiters: usize,
    limiter: LimiterView,
)
    ensures
        io::limiter_of(permits, max_waiters).waiters == 0,
        io::limiter_of(permits, max_waiters).max_waiters == max_waiters,
        permits >= 1 ==> io::limiter_of(permits, max_waiters).permits == permits,
        permits == 0 ==> io::limiter_of(permits, max_waiters).permits == 1,
        io::asked(limiter, false).1 == Admission::Wait ==> io::left(io::asked(limiter, false).0)
            == limiter,
        io::left(limiter).waiters == limiter.waiters - 1,
{
}

/// A body is read inline up to the threshold, which counts in. A response that has one and is
/// longer asks for a permit, and any other is sent at once.
pub proof fn law_long_bodies_ask_for_a_permit<F>(
    limits: Limits,
    response: PreparedView<F>,
    c: Counters,
)
    ensures
        io::is_inline(response.len, limits.inline_threshold) <==> response.len
            <= limits.inline_threshold,
        response.plan.body != BodyPlan::NoBody && response.len > limits.inline_threshold
            <==> serve::ready(limits, response, c).0 == StepView::Admit(response),
        !(response.plan.body != BodyPlan::NoBody && response.len > limits.inline_threshold)
            ==> serve::ready(limits, response, c).0 == StepView::Send(response),
{
}

/// A buffer fills by what is read into it. It is full when nothing is missing; an interrupted
/// read is made again; a file that ends too early, and any other error, is a fault.
pub proof fn law_buffers_fill_up(filled: int, missing: int, n: usize, e: Errno)
    requires
        0 <= filled,
        0 < missing,
        n <= missing,
    ensures
        ({
            let fill = FillView { filled, want: filled + missing };
            &&& io::filled_after(fill, Ok(n)).0 == (FillView { filled: filled + n, ..fill })
            &&& n == 0 ==> io::filled_after(fill, Ok(n)).1 == FillStep::Fault
            &&& 0 < n < missing ==> io::filled_after(fill, Ok(n)).1 == FillStep::More
            &&& n == missing ==> io::filled_after(fill, Ok(n)).1 == FillStep::Full
            &&& io::filled_after(fill, Err(e)) == (
                fill,
                match e {
                    Errno::Intr => FillStep::More,
                    _ => FillStep::Fault,
                },
            )
        }),
{
}

/// The chunks of a part of a file begin at its offset and hold all of it. Each has the size that
/// was asked for, or 4 KiB where that is less.
pub proof fn law_chunks_begin_at_the_offset(offset: u64, len: u64, chunk_bytes: usize)
    ensures
        io::chunks_of(offset, len, chunk_bytes).position == offset,
        io::chunks_of(offset, len, chunk_bytes).remaining == len,
        chunk_bytes >= 4096 ==> io::chunks_of(offset, len, chunk_bytes).chunk == chunk_bytes,
        chunk_bytes < 4096 ==> io::chunks_of(offset, len, chunk_bytes).chunk == 4096,
{
}

/// A body is read in chunks of the same size, one behind the other from its offset on; only the
/// last may be shorter, and it ends where the body does.
pub proof fn law_chunks_lie_in_a_row(c: ChunksView, i: int)
    requires
        c.remaining > 0,
        c.chunk > 0,
        0 <= i < io::chunk_list(c).len(),
    ensures
        ({
            let list = io::chunk_list(c);
            &&& list[i].0 == c.position + i * c.chunk
            &&& i < list.len() - 1 ==> list[i].1 == c.chunk
            &&& i == list.len() - 1 ==> 0 < list[i].1 <= c.chunk && list[i].0 + list[i].1
                == c.position + c.remaining
        }),
    decreases c.remaining,
{
    let n = io::next_chunk(c);
    let rest = ChunksView { position: c.position + n, remaining: c.remaining - n, ..c };
    let list = io::chunk_list(c);
    assert(list =~= seq![(c.position, n)] + io::chunk_list(rest));
    if rest.remaining > 0 {
        assert(n == c.chunk);
        let m = io::next_chunk(rest);
        assert(io::chunk_list(rest)[0] == (rest.position, m));
        if i > 0 {
            law_chunks_lie_in_a_row(rest, i - 1);
            assert(list[i] == io::chunk_list(rest)[i - 1]);
            assert((i - 1) * c.chunk + c.chunk == i * c.chunk) by (nonlinear_arith);
        } else {
            assert(0 * c.chunk == 0);
        }
    } else {
        assert(io::chunk_list(rest) =~= Seq::<(int, int)>::empty());
        assert(0 * c.chunk == 0);
    }
}

/// A body without bytes has no chunks, and any other has at least one.
pub proof fn law_empty_bodies_have_no_chunks(c: ChunksView)
    requires
        c.remaining >= 0,
        c.chunk > 0,
    ensures
        io::chunk_list(c).len() == 0 <==> c.remaining == 0,
{
}

/// A stream ends by the first thing that goes wrong with it, and is complete only when the end of
/// the message was written behind all that was read: with as many bytes as were written.
pub proof fn law_streams_end_by_what_happened(sent: u64, n: u64)
    requires
        sent + n <= 0xffff_ffff_ffff_ffff,
    ensures
        io::streamed(sent, StreamEvent::Wrote(n)) matches StreamStep::Continue { sent: now }
            && now == sent + n,
        io::streamed(sent, StreamEvent::ReaderDone) == (StreamStep::Terminate { sent }),
        io::streamed(sent, StreamEvent::Terminated) == StreamStep::Done(
            SendOutcome::Complete { bytes: sent },
        ),
        io::streamed(sent, StreamEvent::ReadFailed) == StreamStep::Done(SendOutcome::IoFault),
        io::streamed(sent, StreamEvent::WriteFailed(WriteFailure::TimedOut)) == StreamStep::Done(
            SendOutcome::DeadlineExceeded,
        ),
        io::streamed(sent, StreamEvent::WriteFailed(WriteFailure::Broken)) == StreamStep::Done(
            SendOutcome::ClientGone,
        ),
{
}

/// A connection is used again only when the end of the message was written.
pub proof fn law_connections_are_reused_when_complete(
    sent: u64,
    event: StreamEvent,
    outcome: SendOutcome,
)
    ensures
        io::streamed(sent, event) == StreamStep::Done(outcome) ==> (io::is_reusable(outcome)
            <==> event == StreamEvent::Terminated),
        io::is_reusable(SendOutcome::Complete { bytes: sent }),
        !io::is_reusable(SendOutcome::ClientGone),
        !io::is_reusable(SendOutcome::DeadlineExceeded),
        !io::is_reusable(SendOutcome::IoFault),
{
}

/// The end of a response is counted once: its bytes where it is complete, around at 64 bits, and
/// otherwise what cut it off.
pub proof fn law_ends_are_counted_once(c: Counters, bytes: u64)
    ensures
        io::settled(c, SendOutcome::Complete { bytes }) == (Counters {
            bytes_sent: (if c.bytes_sent + bytes > 0xffff_ffff_ffff_ffff {
                c.bytes_sent + bytes - 0x1_0000_0000_0000_0000
            } else {
                c.bytes_sent + bytes
            }) as u64,
            ..c
        }),
        io::settled(c, SendOutcome::ClientGone) == (Counters {
            client_aborts: exchanges::one_more(c.client_aborts),
            ..c
        }),
        io::settled(c, SendOutcome::DeadlineExceeded) == (Counters {
            deadline_aborts: exchanges::one_more(c.deadline_aborts),
            ..c
        }),
        io::settled(c, SendOutcome::IoFault) == (Counters {
            io_faults: exchanges::one_more(c.io_faults),
            ..c
        }),
{
}

} // verus!
