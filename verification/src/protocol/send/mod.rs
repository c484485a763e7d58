//! The send engine: a sliding window over a file.
//!
//! The engine is a function from what arrived to what to do next. The
//! program that owns the socket and the file performs each step: it reads
//! from the file into the window, transmits the window, and reads the next
//! datagram.

use vstd::prelude::*;
use vstd::string::*;

pub mod buffer;

use crate::protocol::{seq_of, Incoming, IncomingView, ACK, FIN, FLAG_500, WINDOW_SIZE};
use crate::{Serr, SerrView, MTU};
use buffer::{lemma_slide_wf, lemma_window_bound, Buf, BufView};

verus! {

/// What the program has to do next.
pub enum Step {
    /// Where `refill` is set, first read from the file into the window for
    /// as long as `fill_window` asks for more. Then send every packet of the
    /// window and read the next datagram.
    Transmit { refill: bool },
    /// The peer has ended the transfer. Where `refill` is set, first read
    /// from the file into the window for as long as `fill_window` asks for
    /// more. Then take the result from `terminate`.
    Terminate { refill: bool },
    /// The transfer is over with this result.
    Finished(Result<(), Serr>),
}

/// A step as a mathematical value.
pub enum StepView {
    Transmit { refill: bool },
    Terminate { refill: bool },
    Finished(Result<(), SerrView>),
}

impl View for Step {
    type V = StepView;

    open spec fn view(&self) -> StepView {
        match self {
            Step::Transmit { refill } => StepView::Transmit { refill: *refill },
            Step::Terminate { refill } => StepView::Terminate { refill: *refill },
            Step::Finished(Ok(_)) => StepView::Finished(Ok(())),
            Step::Finished(Err(e)) => StepView::Finished(Err(e@)),
        }
    }
}

/// Whether the window is to be filled after the acknowledgement `pkt` was
/// applied to the buffer `s`: the window held a body before and has room
/// now.
pub open spec fn refill_after(s: BufView, pkt: Seq<u8>) -> bool {
    !s.is_done() && s.adjust(pkt).has_room()
}

/// The transition of the engine: the buffer and the step that follow what
/// arrived.
///
/// - Nothing, or an empty datagram: the whole window is sent again.
/// - A report that the peer failed: the transfer fails.
/// - Any other packet that is no acknowledgement: the peer has left the
///   session, and the transfer ends without an error.
/// - An acknowledgement slides the window. A final one also ends the
///   transfer.
pub open spec fn send_step(s: BufView, incoming: IncomingView) -> (BufView, StepView) {
    if !incoming.heard() {
        (s, StepView::Transmit { refill: false })
    } else if incoming.flags() == FLAG_500 {
        (
            s,
            StepView::Finished(
                Err(
                    SerrView::SERVER(
                        "Peer had unrecoverable error while receiving "@ + s.filename,
                    ),
                ),
            ),
        )
    } else if incoming.flags() < ACK {
        (s, StepView::Finished(Ok(())))
    } else if incoming.flags() == FIN {
        (
            s.adjust(incoming->bytes),
            StepView::Terminate { refill: refill_after(s, incoming->bytes) },
        )
    } else {
        (
            s.adjust(incoming->bytes),
            StepView::Transmit { refill: refill_after(s, incoming->bytes) },
        )
    }
}

/// The outcome of a transfer that the peer has ended: success where every
/// body was acknowledged.
pub open spec fn outcome(s: BufView) -> Result<(), SerrView> {
    if s.is_done() {
        Ok(())
    } else {
        Err(SerrView::SERVER("Received FIN before all data was sent"@))
    }
}

/// A step keeps the buffer well formed, never lowers `start`, and never
/// leaves more than a window of bodies outstanding.
pub proof fn lemma_send_step(s: BufView, incoming: IncomingView)
    requires
        s.wf(),
    ensures
        send_step(s, incoming).0.wf(),
        send_step(s, incoming).0.start >= s.start,
        send_step(s, incoming).0.outstanding() <= s.outstanding() <= WINDOW_SIZE,
{
    lemma_window_bound(s);
    if incoming.heard() {
        lemma_slide_wf(s, seq_of(incoming->bytes), WINDOW_SIZE as nat);
    }
}

/// One step of the send engine: takes what the last attempt to read a
/// datagram brought and says what to do next. A transfer starts with a
/// window filled from the file and the step for `Incoming::Timeout`. After
/// `Step::Terminate` or `Step::Finished` the transfer is over.
pub fn send(data_buf: &mut Buf, incoming: &Incoming) -> (step: Step)
    requires
        old(data_buf).wf(),
    ensures
        final(data_buf).wf(),
        (final(data_buf)@, step@) == send_step(old(data_buf)@, incoming@),
{
    match incoming {
        Incoming::Timeout => Step::Transmit { refill: false },
        Incoming::Datagram { amt, bytes } => {
            if *amt == 0 {
                return Step::Transmit { refill: false };
            }
            if bytes[0] == FLAG_500 {
                return Step::Finished(
                    Err(
                        Serr::SERVER(
                            String::from_str(
                                "Peer had unrecoverable error while receiving ",
                            ).concat(data_buf.filename().as_str()),
                        ),
                    ),
                );
            }
            if bytes[0] < ACK {
                return Step::Finished(Ok(()));
            }
            let refill = data_buf.adjust(bytes);
            if bytes[0] == FIN {
                Step::Terminate { refill }
            } else {
                Step::Transmit { refill }
            }
        },
    }
}

/// Terminate the transfer after the peer's final packet `buf`: returns the
/// packet to send back once, which is `buf` as it came, and the outcome of
/// the transfer: success where every body was acknowledged.
pub fn terminate(data_buf: &Buf, buf: &[u8; MTU]) -> (r: ([u8; MTU], Result<(), Serr>))
    requires
        data_buf.wf(),
    ensures
        r.0@ == buf@,
        match outcome(data_buf@) {
            Ok(_) => r.1 is Ok,
            Err(failure) => r.1 matches Err(e) && e@ == failure,
        },
{
    if data_buf.is_done() {
        (*buf, Ok(()))
    } else {
        (*buf, Err(Serr::SERVER(String::from_str("Received FIN before all data was sent"))))
    }
}

} // verus!
