//! The receive engine: a sliding window into a file.
//!
//! The engine is a function from what arrived to what to do next. The
//! program that owns the socket and the file performs each step: it writes
//! the chunks to the file in the order given, sends the packet, and reads the
//! next datagram.

use vstd::prelude::*;
use vstd::string::*;
use vstd::utf8::encode_utf8;

pub mod buffer;

use crate::protocol::window::{contents, held};
use crate::protocol::{
    create_ack, create_pkt, filename_as_body, filename_body, packet, zeros, Incoming,
    IncomingView, ACK, BODY_LEN, BODY_LEN_U64, DATA, FIN, FLAG_500, WINDOW_SIZE,
};
use crate::text::{chars_of, decimal, decimal_string};
use crate::{ReadData, Serr, SerrView, MTU};
use buffer::{lemma_drain_wf, lemma_offer_wf, Buf, BufView};

verus! {

/// A transfer in progress on the receiving side.
pub struct Receiver {
    data_buf: Buf,
    heard: usize,
}

/// A transfer in progress on the receiving side, as a mathematical value.
pub struct ReceiverView {
    /// The buffer.
    pub buf: BufView,
    /// Number of datagrams taken since the last acknowledgement.
    pub heard: nat,
}

/// What the program has to do next.
pub enum Step {
    /// Read the next datagram.
    Listen,
    /// Write `chunks` to the file in order, send `ack`, then read the next
    /// datagram.
    Flush { chunks: Vec<Vec<u8>>, ack: [u8; MTU] },
    /// Write `chunks` to the file in order and send `fin` once: the transfer
    /// has succeeded.
    Finish { chunks: Vec<Vec<u8>>, fin: [u8; MTU] },
    /// Give the transfer up with this error.
    Abort(Serr),
}

/// A step as a mathematical value.
pub enum StepView {
    Listen,
    Flush { chunks: Seq<Seq<u8>>, ack: Seq<u8> },
    Finish { chunks: Seq<Seq<u8>>, fin: Seq<u8> },
    Abort(SerrView),
}

impl View for Step {
    type V = StepView;

    open spec fn view(&self) -> StepView {
        match self {
            Step::Listen => StepView::Listen,
            Step::Flush { chunks, ack } => StepView::Flush { chunks: contents(chunks@), ack: ack@ },
            Step::Finish { chunks, fin } => StepView::Finish {
                chunks: contents(chunks@),
                fin: fin@,
            },
            Step::Abort(e) => StepView::Abort(e@),
        }
    }
}

/// The packet that ends a transfer of the file `filename` after `seq` bytes
/// were released, or the failure to build it when the name does not fit.
pub open spec fn fin_packet(seq: u64, filename: Seq<char>) -> Result<Seq<u8>, SerrView> {
    if encode_utf8(filename).len() <= BODY_LEN - 2 {
        Ok(packet(FIN, seq, filename_body(encode_utf8(filename))))
    } else {
        Err(SerrView::SERVER("filename exceeds 1461 bytes, cannot fit into packet"@))
    }
}

impl ReceiverView {
    /// The buffer is well formed, fewer datagrams than a window were taken
    /// since the last acknowledgement, bodies are still missing unless none
    /// was admitted, and counting one more body cannot overflow.
    pub open spec fn wf(self) -> bool {
        &&& self.buf.wf()
        &&& self.heard < WINDOW_SIZE
        &&& self.buf.size + BODY_LEN <= u64::MAX
        &&& self.buf.is_empty() || !self.buf.complete()
    }

    /// The chunks that releasing everything in order hands out.
    pub open spec fn released(self) -> Seq<Seq<u8>> {
        self.buf.flush().written.skip(self.buf.written.len() as int)
    }

    /// Release what is in order and acknowledge it; a new batch of datagrams
    /// begins.
    pub open spec fn flush(self) -> (ReceiverView, StepView) {
        (
            ReceiverView { buf: self.buf.flush(), heard: 0 },
            StepView::Flush {
                chunks: self.released(),
                ack: packet(ACK, self.buf.flush().start as u64, zeros(BODY_LEN as nat)),
            },
        )
    }

    /// One more datagram was taken: after a window of them, release and
    /// acknowledge; before that, go on reading.
    pub open spec fn count(self) -> (ReceiverView, StepView) {
        if self.heard + 1 >= WINDOW_SIZE {
            self.flush()
        } else {
            (ReceiverView { heard: self.heard + 1, ..self }, StepView::Listen)
        }
    }

    /// Every body has arrived: release what is left and end the transfer.
    pub open spec fn finish(self) -> (ReceiverView, StepView) {
        (
            ReceiverView { buf: self.buf.flush(), ..self },
            match fin_packet(self.buf.flush().start as u64, self.buf.filename) {
                Ok(fin) => StepView::Finish { chunks: self.released(), fin },
                Err(e) => StepView::Abort(e),
            },
        )
    }

    /// The transition of the engine: the state and the step that follow what
    /// arrived.
    ///
    /// - Nothing, or an empty datagram: release and acknowledge again.
    /// - A report that the peer failed: abort.
    /// - Another control packet: ignored while no body was admitted, for the
    ///   sender may not have seen the first acknowledgement; abort after
    ///   that.
    /// - Anything else is offered to the buffer. When that completes the
    ///   file, the transfer finishes.
    pub open spec fn receive(self, incoming: IncomingView) -> (ReceiverView, StepView) {
        if !incoming.heard() {
            self.flush()
        } else if incoming.flags() == FLAG_500 {
            (self, StepView::Abort(SerrView::SERVER("Received server error"@)))
        } else if incoming.flags() < DATA {
            if self.buf.is_empty() {
                self.count()
            } else {
                (
                    self,
                    StepView::Abort(
                        SerrView::SERVER(
                            "Got flag "@ + chars_of(decimal(incoming.flags() as nat))
                                + " while receiving data, canceling the transfer"@,
                        ),
                    ),
                )
            }
        } else if self.buf.accepts(incoming->bytes) && self.buf.offer(incoming->bytes).complete() {
            ReceiverView { buf: self.buf.offer(incoming->bytes), ..self }.finish()
        } else {
            ReceiverView { buf: self.buf.offer(incoming->bytes), ..self }.count()
        }
    }
}

/// While a transfer goes on, the offset that the receiver acknowledges lies
/// within the file.
pub proof fn lemma_start_within_size(s: ReceiverView)
    requires
        s.wf(),
    ensures
        s.buf.start <= s.buf.size,
{
    assert(held(s.buf.window) * BODY_LEN >= 0) by (nonlinear_arith);
}

/// A step never lowers the offset that the receiver acknowledges, and an
/// acknowledgement or a final packet carries that offset. While the transfer
/// goes on the state stays well formed.
pub proof fn lemma_receive_step(s: ReceiverView, incoming: IncomingView)
    requires
        s.wf(),
        incoming matches IncomingView::Datagram { bytes, .. } ==> bytes.len() == MTU,
    ensures
        s.receive(incoming).0.buf.start >= s.buf.start,
        s.receive(incoming).0.buf.wf(),
        s.receive(incoming).0.buf.start <= u64::MAX,
        s.receive(incoming).1 matches StepView::Flush { ack, .. } ==> ack == packet(
            ACK,
            s.receive(incoming).0.buf.start as u64,
            zeros(BODY_LEN as nat),
        ),
        s.receive(incoming).1 matches StepView::Finish { fin, .. } ==> fin_packet(
            s.receive(incoming).0.buf.start as u64,
            s.buf.filename,
        ) == Ok::<Seq<u8>, SerrView>(fin),
        s.receive(incoming).1 is Listen || s.receive(incoming).1 is Flush ==> s.receive(
            incoming,
        ).0.wf(),
{
    lemma_drain_wf(s.buf, WINDOW_SIZE as nat);
    if incoming.heard() {
        let offered = s.buf.offer(incoming->bytes);
        lemma_offer_wf(s.buf, incoming->bytes);
        lemma_drain_wf(offered, WINDOW_SIZE as nat);
    }
}

impl View for Receiver {
    type V = ReceiverView;

    closed spec fn view(&self) -> ReceiverView {
        ReceiverView { buf: self.data_buf@, heard: self.heard as nat }
    }
}

impl Receiver {
    /// The invariant of a transfer in progress.
    pub open spec fn wf(&self) -> bool {
        self@.wf()
    }

    /// Begin the transfer of `size` bytes into the file `filename`. The
    /// first step is the one that follows `Incoming::Timeout`: it sends the
    /// acknowledgement of offset zero.
    pub fn new(filename: String, size: u64) -> (rx: Receiver)
        requires
            size + BODY_LEN <= u64::MAX,
        ensures
            rx.wf(),
            rx@ == (ReceiverView { buf: BufView::fresh(filename@, size as nat), heard: 0 }),
    {
        Receiver { data_buf: Buf::new(filename, size), heard: 0 }
    }

    /// Begin the transfer of `size` bytes into the file `filename`, unless
    /// `size` is so close to the largest number that counting one more body
    /// would overflow.
    pub fn open(filename: String, size: u64) -> (r: Result<Receiver, Serr>)
        ensures
            match r {
                Ok(rx) => {
                    &&& size + BODY_LEN <= u64::MAX
                    &&& rx.wf()
                    &&& rx@ == (ReceiverView {
                        buf: BufView::fresh(filename@, size as nat),
                        heard: 0,
                    })
                },
                Err(e) => {
                    &&& size + BODY_LEN > u64::MAX
                    &&& e@ == SerrView::SERVER("File is too large to receive"@)
                },
            },
    {
        if size > u64::MAX - BODY_LEN_U64 {
            return Err(Serr::SERVER(String::from_str("File is too large to receive")));
        }
        Ok(Receiver::new(filename, size))
    }

    /// The buffer of the transfer.
    pub fn data_buf(&self) -> (data_buf: &Buf)
        ensures
            data_buf@ == self@.buf,
    {
        &self.data_buf
    }

    /// Release what is in order and acknowledge it.
    fn flush(&mut self) -> (step: Step)
        requires
            old(self).data_buf.wf(),
        ensures
            (final(self)@, step@) == old(self)@.flush(),
            final(self).data_buf.wf(),
    {
        let (chunks, _) = self.data_buf.save_read_data();
        self.heard = 0;
        let ack = self.data_buf.ack();
        assert(contents(chunks@) =~= old(self)@.released());
        Step::Flush { chunks, ack }
    }

    /// Count one datagram taken.
    fn count(&mut self) -> (step: Step)
        requires
            old(self).data_buf.wf(),
            old(self).heard < WINDOW_SIZE,
        ensures
            (final(self)@, step@) == old(self)@.count(),
            final(self).data_buf.wf(),
    {
        if self.heard + 1 >= WINDOW_SIZE {
            self.flush()
        } else {
            self.heard += 1;
            Step::Listen
        }
    }
}

/// The acknowledgement of every byte before `seq`.
pub fn ack(seq: u64) -> (pkt: [u8; MTU])
    ensures
        pkt@ == packet(ACK, seq, zeros(BODY_LEN as nat)),
{
    create_ack(seq)
}

/// The packet that terminates the transfer of the file `filename`: it
/// carries the offset `seq` reached and the name of the file. Fails when the
/// name does not fit into a body.
pub fn done(seq: u64, filename: &String) -> (r: Result<[u8; MTU], Serr>)
    ensures
        match fin_packet(seq, filename@) {
            Ok(fin) => r matches Ok(pkt) && pkt@ == fin,
            Err(failure) => r matches Err(e) && e@ == failure,
        },
{
    match filename_as_body(filename) {
        Ok(body) => Ok(create_pkt(FIN, seq, &body)),
        Err(e) => Err(e),
    }
}

/// One step of the receive engine: takes what the last attempt to read a
/// datagram brought and says what to do next. A transfer starts with the
/// step for `Incoming::Timeout`. After `Step::Finish` or `Step::Abort` the
/// transfer is over.
pub fn receive(rx: &mut Receiver, incoming: &Incoming) -> (step: Step)
    requires
        old(rx).wf(),
    ensures
        (final(rx)@, step@) == old(rx)@.receive(incoming@),
        final(rx)@.buf.start >= old(rx)@.buf.start,
        step is Listen || step is Flush ==> final(rx).wf(),
{
    proof {
        lemma_receive_step(rx@, incoming@);
    }
    match incoming {
        Incoming::Timeout => rx.flush(),
        Incoming::Datagram { amt, bytes } => {
            if *amt == 0 {
                return rx.flush();
            }
            if bytes[0] == FLAG_500 {
                return Step::Abort(Serr::SERVER(String::from_str("Received server error")));
            }
            if bytes[0] < DATA {
                if rx.data_buf.is_empty() {
                    return rx.count();
                }
                let mut msg = String::from_str("Got flag ");
                msg.append(decimal_string(bytes[0] as u64).as_str());
                msg.append(" while receiving data, canceling the transfer");
                return Step::Abort(Serr::SERVER(msg));
            }
            match rx.data_buf.add(bytes) {
                Ok(ReadData::DONE) => {
                    let ghost offered = rx@;
                    let (chunks, seq) = rx.data_buf.save_read_data();
                    proof {
                        lemma_drain_wf(offered.buf, WINDOW_SIZE as nat);
                        assert(contents(chunks@) =~= offered.released());
                    }
                    match done(seq, rx.data_buf.filename()) {
                        Ok(fin) => Step::Finish { chunks, fin },
                        Err(e) => Step::Abort(e),
                    }
                },
                _ => rx.count(),
            }
        },
    }
}

} // verus!
