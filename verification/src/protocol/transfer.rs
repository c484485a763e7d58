//! What a transfer delivers: the file that the receiver writes is the file
//! that the sender read.
//!
//! The sender only emits packets that carry bytes of its file at the offset
//! they name. A receiver that is offered only such packets, in any order and
//! any number of times, has written a prefix of the file at every moment, and
//! the whole file once enough bodies were admitted.

use vstd::prelude::*;

use crate::protocol::receive::buffer::{
    lemma_aligned_slot, lemma_drain_wf, lemma_fresh_wf, lemma_offer_wf, lemma_shift_wf, run,
    sized, BufView, Event,
};
use crate::protocol::receive::{ReceiverView, StepView};
use crate::protocol::send;
use crate::protocol::send::send_step;
use crate::protocol::window::{
    held, lemma_body_multiple, lemma_held_bound, lemma_held_full, lemma_held_take, Chunk,
};
use crate::protocol::{
    body_of, flags_of, lemma_packet_round_trip, packet, seq_of, zeros, IncomingView, ACK,
    BODY_LEN, DATA, WINDOW_SIZE,
};
use crate::MTU;

verus! {

/// Whether `body` starts with the bytes of `file` from offset `seq` on, as
/// far as the file goes.
pub open spec fn body_matches(file: Seq<u8>, seq: int, body: Seq<u8>) -> bool {
    forall|k: int|
        0 <= k < body.len() && seq + k < file.len() ==> #[trigger] body[k] == file[seq + k]
}

/// Whether `chunk` is a body of `file`: it lies at a multiple of the body
/// length within the file and matches the file there.
pub open spec fn chunk_of(file: Seq<u8>, chunk: Chunk) -> bool {
    &&& chunk.body.len() == BODY_LEN
    &&& chunk.seq % (BODY_LEN as u64) == 0
    &&& chunk.seq < file.len()
    &&& body_matches(file, chunk.seq as int, chunk.body)
}

/// Whether `pkt` is a data packet that carries a body of `file`.
pub open spec fn genuine(file: Seq<u8>, pkt: Seq<u8>) -> bool {
    &&& pkt.len() == MTU
    &&& flags_of(pkt) == DATA
    &&& chunk_of(file, Chunk { seq: seq_of(pkt), body: body_of(pkt) })
}

/// Whether every data packet among the events is genuine, and every packet
/// has the size of a datagram.
pub open spec fn faithful(file: Seq<u8>, events: Seq<Event>) -> bool {
    forall|i: int|
        0 <= i < events.len() ==> (#[trigger] events[i] matches Event::Deliver(pkt) ==> pkt.len()
            == MTU && (flags_of(pkt) == DATA ==> genuine(file, pkt)))
}

/// The smaller of two numbers.
pub open spec fn least(a: int, b: int) -> int {
    if a <= b {
        a
    } else {
        b
    }
}

/// Whether the sender's buffer holds only bodies of `file`.
pub open spec fn carries(s: send::buffer::BufView, file: Seq<u8>) -> bool {
    &&& s.wf()
    &&& forall|i: int|
        0 <= i < WINDOW_SIZE ==> (#[trigger] s.window[i] matches Some(chunk) ==> chunk_of(
            file,
            chunk,
        ))
}

/// Whether the receiver's buffer holds only bodies of `file`, and what it
/// has written is the file up to `start`.
pub open spec fn tracks(s: BufView, file: Seq<u8>) -> bool {
    &&& s.wf()
    &&& s.size == file.len()
    &&& forall|i: int|
        0 <= i < WINDOW_SIZE ==> (#[trigger] s.window[i] matches Some(chunk) ==> chunk_of(
            file,
            chunk,
        ))
    &&& s.written.flatten() == file.take(least(s.start as int, file.len() as int))
}

/// Whether every body of the file from `start` on waits in the window.
pub open spec fn ready(s: BufView) -> bool {
    forall|i: int|
        0 <= i && s.start + i * BODY_LEN < s.size ==> i < WINDOW_SIZE && (
        #[trigger] s.window[i]) is Some
}

/// Every packet that a sender holding only bodies of the file emits is
/// genuine.
pub proof fn lemma_packets_genuine(s: send::buffer::BufView, file: Seq<u8>, i: int)
    requires
        carries(s, file),
        0 <= i < s.packets().len(),
    ensures
        genuine(file, s.packets()[i]),
{
    lemma_held_bound(s.window);
    assert(s.slot_wf(i));
    let chunk = s.window[i]->0;
    lemma_packet_round_trip(DATA, chunk.seq, chunk.body);
}

/// A fresh sender holds only bodies of the file, whatever the file.
pub proof fn lemma_fresh_carries(filename: Seq<char>, size: nat, file: Seq<u8>)
    ensures
        carries(send::buffer::BufView::fresh(filename, size), file),
{
    send::buffer::lemma_fresh_wf(filename, size);
}

/// Storing what was read from the file at the offset of the next body keeps
/// the sender holding only bodies of the file.
pub proof fn lemma_load_carries(
    s: send::buffer::BufView,
    file: Seq<u8>,
    data: Seq<u8>,
    amt: usize,
)
    requires
        carries(s, file),
        data.len() == BODY_LEN,
        s.takes(amt) ==> s.next_seq() + BODY_LEN <= u64::MAX,
        s.takes(amt) ==> s.next_seq() < file.len() && body_matches(
            file,
            s.next_seq() as int,
            data,
        ),
    ensures
        carries(s.load(data, amt), file),
{
    send::buffer::lemma_load_wf(s, data, amt);
    if s.takes(amt) {
        let k = s.outstanding() as int;
        assert(s.next_seq() % 1463 == 0) by {
            lemma_body_multiple(s.start as int, k);
        }
        let t = s.load(data, amt);
        assert forall|i: int| 0 <= i < WINDOW_SIZE implies (#[trigger] t.window[i] matches Some(
            chunk,
        ) ==> chunk_of(file, chunk)) by {
            if i != k {
                assert(t.window[i] == s.window[i]);
            }
        }
    }
}

/// Applying a reply keeps the sender holding only bodies of the file.
pub proof fn lemma_adjust_carries(s: send::buffer::BufView, file: Seq<u8>, pkt: Seq<u8>)
    requires
        carries(s, file),
    ensures
        carries(s.adjust(pkt), file),
{
    lemma_slide_carries(s, file, seq_of(pkt), WINDOW_SIZE as nat);
}

/// Acknowledging bodies keeps the sender holding only bodies of the file.
pub proof fn lemma_slide_carries(s: send::buffer::BufView, file: Seq<u8>, ack: u64, n: nat)
    requires
        carries(s, file),
    ensures
        carries(s.slide(ack, n), file),
    decreases n,
{
    if n > 0 && s.window[0] is Some && s.window[0]->0.seq < ack {
        let t = s.pop();
        send::buffer::lemma_pop_wf(s);
        assert forall|i: int| 0 <= i < WINDOW_SIZE implies (#[trigger] t.window[i] matches Some(
            chunk,
        ) ==> chunk_of(file, chunk)) by {
            if i + 1 < WINDOW_SIZE {
                assert(t.window[i] == s.window[i + 1]);
            }
        }
        lemma_slide_carries(t, file, ack, (n - 1) as nat);
    }
}

/// A fresh receiver for a file of the right length has written the empty
/// prefix of the file.
pub proof fn lemma_fresh_tracks(filename: Seq<char>, file: Seq<u8>)
    ensures
        tracks(BufView::fresh(filename, file.len()), file),
{
    lemma_fresh_wf(filename, file.len());
    let s = BufView::fresh(filename, file.len());
    assert(s.written.flatten() =~= file.take(0));
}

/// Offering a packet that is genuine, or no data packet at all, keeps the
/// receiver on the file.
pub proof fn lemma_offer_tracks(s: BufView, file: Seq<u8>, pkt: Seq<u8>)
    requires
        tracks(s, file),
        pkt.len() == MTU,
        flags_of(pkt) == DATA ==> genuine(file, pkt),
    ensures
        tracks(s.offer(pkt), file),
{
    lemma_offer_wf(s, pkt);
    if s.accepts(pkt) {
        let t = s.offer(pkt);
        let k = s.index_of(seq_of(pkt));
        assert forall|i: int| 0 <= i < WINDOW_SIZE implies (#[trigger] t.window[i] matches Some(
            chunk,
        ) ==> chunk_of(file, chunk)) by {
            if i != k {
                assert(t.window[i] == s.window[i]);
            }
        }
    }
}

/// In a receiver on the file, a body in the window lies exactly at the
/// offset of its entry.
pub proof fn lemma_slot_offset(s: BufView, file: Seq<u8>, i: int)
    requires
        tracks(s, file),
        0 <= i < WINDOW_SIZE,
        s.window[i] is Some,
    ensures
        s.window[i]->0.seq == s.start + i * BODY_LEN,
{
    assert(chunk_of(file, s.window[i]->0));
    lemma_aligned_slot(s, i);
}

/// Releasing the first body keeps the receiver on the file.
pub proof fn lemma_shift_tracks(s: BufView, file: Seq<u8>)
    requires
        tracks(s, file),
        s.window[0] is Some,
    ensures
        tracks(s.shift(), file),
{
    let t = s.shift();
    let chunk = s.window[0]->0;
    lemma_shift_wf(s);
    lemma_slot_offset(s, file, 0);
    assert(chunk_of(file, chunk));
    assert forall|i: int| 0 <= i < WINDOW_SIZE implies (#[trigger] t.window[i] matches Some(
        c,
    ) ==> chunk_of(file, c)) by {
        if i + 1 < WINDOW_SIZE {
            assert(t.window[i] == s.window[i + 1]);
        }
    }
    let piece = chunk.body.take(s.data_size() as int);
    s.written.lemma_flatten_push(piece);
    assert(t.written.flatten() =~= s.written.flatten() + piece);
    assert(s.written.flatten() + piece =~= file.take(least(t.start as int, file.len() as int))) by {
        assert forall|k: int| 0 <= k < piece.len() implies piece[k] == file[s.start + k] by {
            assert(piece[k] == chunk.body[k]);
        }
    }
}

/// Releasing bodies keeps the receiver on the file.
pub proof fn lemma_drain_tracks(s: BufView, file: Seq<u8>, n: nat)
    requires
        tracks(s, file),
    ensures
        tracks(s.drain(n), file),
    decreases n,
{
    if n == 0 || s.window[0] is None {
    } else {
        lemma_shift_tracks(s, file);
        lemma_drain_tracks(s.shift(), file, (n - 1) as nat);
    }
}

/// Any events whose data packets are genuine keep the receiver on the
/// file: at every moment it has written the file up to `start`.
pub proof fn lemma_run_tracks(s: BufView, file: Seq<u8>, events: Seq<Event>)
    requires
        tracks(s, file),
        faithful(file, events),
    ensures
        tracks(run(s, events), file),
    decreases events.len(),
{
    if events.len() > 0 {
        assert(faithful(file, events.drop_last())) by {
            assert forall|i: int| 0 <= i < events.drop_last().len() implies (
            #[trigger] events.drop_last()[i] matches Event::Deliver(pkt) ==> pkt.len() == MTU && (
            flags_of(pkt) == DATA ==> genuine(file, pkt))) by {
                assert(events.drop_last()[i] == events[i]);
            }
        }
        lemma_run_tracks(s, file, events.drop_last());
        let before = run(s, events.drop_last());
        match events.last() {
            Event::Deliver(pkt) => {
                lemma_offer_tracks(before, file, pkt);
            },
            Event::Flush => {
                lemma_drain_tracks(before, file, WINDOW_SIZE as nat);
            },
        }
    }
}

/// In a receiver on the file that has admitted enough bodies, every body
/// that is still to be written waits in the window.
pub proof fn lemma_complete_ready(s: BufView, file: Seq<u8>)
    requires
        tracks(s, file),
        s.complete(),
    ensures
        ready(s),
{
    let w = s.window;
    // the number of bodies between `start` and the end of the file
    let m: int = if s.start >= s.size {
        0
    } else {
        (s.size - s.start + 1462) / 1463
    };
    assert(s.start + m * 1463 >= s.size);
    assert(m > 0 ==> s.start + (m - 1) * 1463 < s.size);
    let h = held(w) as int;
    lemma_held_bound(w);
    lemma_body_multiple(s.start as int, h);
    assert(s.start + h * 1463 >= s.size);
    assert(h >= m);
    let c = least(m, WINDOW_SIZE as int);
    assert forall|i: int| c <= i < w.len() implies w[i] is None by {
        if w[i] is Some {
            lemma_slot_offset(s, file, i);
            lemma_body_multiple(s.start as int, i);
            assert(chunk_of(file, w[i]->0));
            assert(s.start + i * 1463 < s.size);
            assert(i >= m);
        }
    }
    lemma_held_take(w, c);
    lemma_held_bound(w.take(c));
    assert(h == c && c == m);
    lemma_held_full(w.take(m));
    assert forall|i: int| 0 <= i && s.start + i * BODY_LEN < s.size implies i < WINDOW_SIZE && (
    #[trigger] s.window[i]) is Some by {
        lemma_body_multiple(s.start as int, i);
        assert(s.start + i * 1463 < s.size);
        assert(i < m);
        assert(w.take(m)[i] == w[i]);
    }
}

/// Releasing in order from a receiver on the file in which every body still
/// to be written waits in the window writes the file to its end.
pub proof fn lemma_ready_drain(s: BufView, file: Seq<u8>, n: nat)
    requires
        tracks(s, file),
        ready(s),
        s.start + n * BODY_LEN >= s.size,
    ensures
        s.drain(n).start >= s.size,
        tracks(s.drain(n), file),
    decreases n,
{
    if n == 0 {
    } else if s.window[0] is None {
        assert(!(s.start + 0 * BODY_LEN < s.size));
    } else {
        let t = s.shift();
        lemma_shift_tracks(s, file);
        assert(ready(t)) by {
            assert forall|i: int| 0 <= i && t.start + i * BODY_LEN < t.size implies i < WINDOW_SIZE
                && (#[trigger] t.window[i]) is Some by {
                assert(s.start + (i + 1) * BODY_LEN == t.start + i * BODY_LEN) by (nonlinear_arith)
                    requires
                        t.start == s.start + BODY_LEN,
                ;
                assert(s.window[i + 1] is Some);
                assert(t.window[i] == s.window[i + 1]);
            }
        }
        assert(t.start + (n - 1) * BODY_LEN == s.start + n * BODY_LEN) by (nonlinear_arith)
            requires
                t.start == s.start + BODY_LEN,
        ;
        lemma_ready_drain(t, file, (n - 1) as nat);
    }
}

/// A receiver on the file that has admitted enough bodies has written the
/// whole file, byte for byte, once it has released what is in order.
pub proof fn lemma_complete_flush(s: BufView, file: Seq<u8>)
    requires
        tracks(s, file),
        s.complete(),
    ensures
        s.flush().written.flatten() == file,
{
    lemma_complete_ready(s, file);
    assert(s.start + WINDOW_SIZE * BODY_LEN >= s.size) by {
        lemma_body_multiple(s.start as int, 5);
        if s.start + 5 * BODY_LEN < s.size {
            assert(5 < WINDOW_SIZE && s.window[5] is Some);
        }
    }
    lemma_ready_drain(s, file, WINDOW_SIZE as nat);
    assert(file.take(file.len() as int) =~= file);
}

/// The transfer is exact. Start a receiver for a file of the length of
/// `file`, offer it any packets in any order and any number of times, of
/// which the data packets are genuine, and release bodies at any moments in
/// between. At every moment what was written is a prefix of the file. Once
/// enough bodies were admitted, releasing what is in order leaves exactly the
/// file written.
pub proof fn lemma_transfer_is_exact(filename: Seq<char>, file: Seq<u8>, events: Seq<Event>)
    requires
        faithful(file, events),
    ensures
        run(BufView::fresh(filename, file.len()), events).written.flatten().is_prefix_of(file),
        run(BufView::fresh(filename, file.len()), events).complete() ==> run(
            BufView::fresh(filename, file.len()),
            events,
        ).flush().written.flatten() == file,
{
    let s = BufView::fresh(filename, file.len());
    lemma_fresh_tracks(filename, file);
    lemma_run_tracks(s, file, events);
    if run(s, events).complete() {
        lemma_complete_flush(run(s, events), file);
    }
}

/// A step of the send engine keeps the sender holding only bodies of the
/// file.
pub proof fn lemma_send_carries(s: send::buffer::BufView, file: Seq<u8>, incoming: IncomingView)
    requires
        carries(s, file),
    ensures
        carries(send_step(s, incoming).0, file),
{
    if incoming.heard() {
        lemma_adjust_carries(s, file, incoming->bytes);
    }
}

/// A step of the receive engine that takes a genuine packet, or anything
/// that is no data packet, keeps the receiver on the file. What the step
/// hands out for writing is what the buffer adds to what was written. When
/// the step finishes the transfer, all that was written is exactly the file.
pub proof fn lemma_receive_tracks(s: ReceiverView, file: Seq<u8>, incoming: IncomingView)
    requires
        s.wf(),
        tracks(s.buf, file),
        incoming matches IncomingView::Datagram { bytes, .. } ==> bytes.len() == MTU && (flags_of(
            bytes,
        ) == DATA ==> genuine(file, bytes)),
    ensures
        tracks(s.receive(incoming).0.buf, file),
        s.receive(incoming).1 matches StepView::Flush { chunks, .. } ==> s.receive(
            incoming,
        ).0.buf.written == s.buf.written + chunks,
        s.receive(incoming).1 matches StepView::Finish { chunks, .. } ==> s.receive(
            incoming,
        ).0.buf.written == s.buf.written + chunks && s.receive(
            incoming,
        ).0.buf.written.flatten() == file,
        s.receive(incoming).1 is Listen ==> s.receive(incoming).0.buf.written == s.buf.written,
{
    lemma_drain_tracks(s.buf, file, WINDOW_SIZE as nat);
    lemma_drain_wf(s.buf, WINDOW_SIZE as nat);
    let flushed = s.buf.flush();
    assert(s.buf.written + flushed.written.skip(s.buf.written.len() as int) =~= flushed.written);
    if incoming.heard() {
        let offered = s.buf.offer(incoming->bytes);
        lemma_offer_tracks(s.buf, file, incoming->bytes);
        lemma_drain_tracks(offered, file, WINDOW_SIZE as nat);
        lemma_drain_wf(offered, WINDOW_SIZE as nat);
        assert(offered.written + offered.flush().written.skip(offered.written.len() as int)
            =~= offered.flush().written);
        if offered.complete() {
            lemma_complete_flush(offered, file);
        }
    }
}

/// The receiver's buffer after the packets were offered to it, first to
/// last.
pub open spec fn offer_all(s: BufView, pkts: Seq<Seq<u8>>) -> BufView
    decreases pkts.len(),
{
    if pkts.len() == 0 {
        s
    } else {
        offer_all(s, pkts.drop_last()).offer(pkts.last())
    }
}

/// Whether exactly the first `m` entries of the window hold a body.
pub open spec fn leading(s: BufView, m: int) -> bool {
    forall|i: int| 0 <= i < WINDOW_SIZE ==> ((#[trigger] s.window[i]) is Some <==> i < m)
}

/// After the first `k` packets of the sender's window were offered to a
/// receiver that waits at the sender's `start` with an empty window, exactly
/// the first `k` entries of its window hold a body.
pub proof fn lemma_offer_window(tx: send::buffer::BufView, rx: BufView, k: int)
    requires
        tx.wf(),
        rx.wf(),
        rx.start == tx.start,
        leading(rx, 0),
        0 <= k <= tx.packets().len(),
    ensures
        offer_all(rx, tx.packets().take(k)).wf(),
        offer_all(rx, tx.packets().take(k)).start == rx.start,
        offer_all(rx, tx.packets().take(k)).written == rx.written,
        offer_all(rx, tx.packets().take(k)).size == rx.size,
        offer_all(rx, tx.packets().take(k)).received == rx.received + k * BODY_LEN,
        leading(offer_all(rx, tx.packets().take(k)), k),
    decreases k,
{
    let pkts = tx.packets();
    if k == 0 {
        assert(pkts.take(0) =~= Seq::<Seq<u8>>::empty());
        lemma_body_multiple(0, 0);
    } else {
        lemma_offer_window(tx, rx, k - 1);
        assert(pkts.take(k).drop_last() =~= pkts.take(k - 1));
        assert(pkts.take(k).last() == pkts[k - 1]);
        let before = offer_all(rx, pkts.take(k - 1));
        let pkt = pkts[k - 1];
        send::buffer::lemma_packets_in_order(tx, k - 1);
        send::buffer::lemma_window_bound(tx);
        lemma_body_multiple(rx.start as int, k - 1);
        lemma_body_multiple(0, k - 1);
        assert(before.index_of(seq_of(pkt)) == k - 1);
        assert(before.window[k - 1] is None);
        assert(before.accepts(pkt));
        lemma_offer_wf(before, pkt);
        let after = before.offer(pkt);
        assert forall|i: int| 0 <= i < WINDOW_SIZE implies ((#[trigger] after.window[i]) is Some
            <==> i < k) by {
            if i != k - 1 {
                assert(after.window[i] == before.window[i]);
            }
        }
    }
}

/// Releasing in order from a window of which exactly the first `m` entries
/// hold a body moves `start` on by `m` bodies and leaves the window empty.
pub proof fn lemma_drain_leading(s: BufView, m: int, n: nat)
    requires
        s.wf(),
        leading(s, m),
        0 <= m <= n,
        m <= WINDOW_SIZE,
    ensures
        s.drain(n).start == s.start + m * BODY_LEN,
        s.drain(n).received == s.received,
        leading(s.drain(n), 0),
    decreases n,
{
    lemma_body_multiple(s.start as int, m);
    if m == 0 {
        lemma_body_multiple(0, 0);
        assert(s.window[0] is None);
    } else {
        assert(s.window[0] is Some);
        let t = s.shift();
        lemma_shift_wf(s);
        assert(t.window.len() == WINDOW_SIZE);
        assert(leading(t, m - 1)) by {
            assert forall|i: int| 0 <= i < WINDOW_SIZE implies ((#[trigger] t.window[i]) is Some
                <==> i < m - 1) by {
                if i + 1 < WINDOW_SIZE {
                    assert(t.window[i] == s.window[i + 1]);
                } else {
                    assert(t.window[i] is None);
                }
            }
        }
        lemma_body_multiple(t.start as int, m - 1);
        lemma_drain_leading(t, m - 1, (n - 1) as nat);
    }
}

/// A round without loss. When every packet of the sender's window reaches,
/// in order, a receiver that waits at the sender's `start` with an empty
/// window, the receiver releases all of them: it then waits at the offset
/// of the sender's next body with an empty window again, and its
/// acknowledgement of that offset leaves no body outstanding at the sender.
pub proof fn lemma_round_without_loss(tx: send::buffer::BufView, rx: BufView)
    requires
        tx.wf(),
        rx.wf(),
        rx.start == tx.start,
        leading(rx, 0),
    ensures
        offer_all(rx, tx.packets()).flush().start == tx.next_seq(),
        offer_all(rx, tx.packets()).flush().received == rx.received + tx.outstanding() * BODY_LEN,
        leading(offer_all(rx, tx.packets()).flush(), 0),
        tx.adjust(
            packet(ACK, offer_all(rx, tx.packets()).flush().start as u64, zeros(BODY_LEN as nat)),
        ).is_done(),
{
    let pkts = tx.packets();
    let m = pkts.len() as int;
    send::buffer::lemma_window_bound(tx);
    lemma_offer_window(tx, rx, m);
    assert(pkts.take(m) =~= pkts);
    let offered = offer_all(rx, pkts);
    lemma_drain_leading(offered, m, WINDOW_SIZE as nat);
    let ack = packet(ACK, offered.flush().start as u64, zeros(BODY_LEN as nat));
    lemma_packet_round_trip(ACK, offered.flush().start as u64, zeros(BODY_LEN as nat));
    send::buffer::lemma_ack_of_all(tx, ack);
}

/// The transfer is exact from end to end. Where every data packet that
/// reaches the receiver was emitted by the sender in one of the states that
/// it went through, and the sender held only bodies of the file in each of
/// them, the receiver writes exactly the file.
pub proof fn lemma_sender_to_receiver(
    filename: Seq<char>,
    file: Seq<u8>,
    senders: Seq<send::buffer::BufView>,
    events: Seq<Event>,
)
    requires
        sized(events),
        forall|j: int| 0 <= j < senders.len() ==> carries(#[trigger] senders[j], file),
        forall|i: int|
            0 <= i < events.len() ==> (#[trigger] events[i] matches Event::Deliver(pkt) ==> (
            flags_of(pkt) == DATA ==> exists|j: int, k: int|
                0 <= j < senders.len() && 0 <= k < senders[j].packets().len()
                    && #[trigger] senders[j].packets()[k] == pkt)),
    ensures
        run(BufView::fresh(filename, file.len()), events).complete() ==> run(
            BufView::fresh(filename, file.len()),
            events,
        ).flush().written.flatten() == file,
{
    assert(faithful(file, events)) by {
        assert forall|i: int| 0 <= i < events.len() implies (
        #[trigger] events[i] matches Event::Deliver(pkt) ==> pkt.len() == MTU && (flags_of(pkt)
            == DATA ==> genuine(file, pkt))) by {
            if let Event::Deliver(pkt) = events[i] {
                if flags_of(pkt) == DATA {
                    let (j, k) = choose|j: int, k: int|
                        0 <= j < senders.len() && 0 <= k < senders[j].packets().len()
                            && #[trigger] senders[j].packets()[k] == pkt;
                    lemma_packets_genuine(senders[j], file, k);
                }
            }
        }
    }
    lemma_transfer_is_exact(filename, file, events);
}

} // verus!
