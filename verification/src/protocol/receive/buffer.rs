//! The receiver's buffer: a window into the file being received.
//!
//! Bodies may arrive in any order. The buffer holds those that belong to the
//! window and releases them for writing in strict order of their offsets.

use vstd::prelude::*;

use crate::protocol::window::{
    contents, held, lemma_body_multiple, lemma_held_bound, lemma_held_slide, lemma_held_update,
    lemma_held_vacant, slots, vacant, Chunk, Slot,
};
use crate::protocol::{
    body_of, calculate_index, create_ack, flags_of, get_body, get_seq, packet, seq_of, zeros,
    ACK, BODY_LEN, BODY_LEN_U64, DATA, WINDOW_SIZE,
};
use crate::{ReadData, Serr, MTU};

verus! {

/// The receiver's buffer as a mathematical value.
pub struct BufView {
    /// Name of the file being received.
    pub filename: Seq<char>,
    /// Expected length of the file in bytes.
    pub size: nat,
    /// One body length for each body admitted so far.
    pub received: nat,
    /// Offset of the next body to release: every byte before it was released.
    pub start: nat,
    /// The bodies that wait to be released.
    pub window: Seq<Option<Chunk>>,
    /// Every chunk released so far, in the order of release.
    pub written: Seq<Seq<u8>>,
}

/// Number of bytes of the `k`-th body of a file of `size` bytes that belong
/// to the file: a whole body, less where the file ends within it, none
/// beyond the end of the file.
pub open spec fn piece_len(size: nat, k: int) -> nat {
    if k * BODY_LEN >= size {
        0
    } else if size - k * BODY_LEN < BODY_LEN {
        (size - k * BODY_LEN) as nat
    } else {
        BODY_LEN as nat
    }
}

impl BufView {
    /// The buffer at the start of a transfer of `size` bytes.
    pub open spec fn fresh(filename: Seq<char>, size: nat) -> BufView {
        BufView {
            filename,
            size,
            received: 0,
            start: 0,
            window: vacant(WINDOW_SIZE as nat),
            written: Seq::empty(),
        }
    }

    /// The entry at position `i` is empty, or holds a whole body whose offset
    /// belongs to that position.
    pub open spec fn slot_wf(self, i: int) -> bool {
        self.window[i] matches Some(chunk) ==> {
            &&& chunk.body.len() == BODY_LEN
            &&& self.start + i * BODY_LEN <= chunk.seq < self.start + (i + 1) * BODY_LEN
        }
    }

    /// The window has its fixed length, every entry sits where its offset
    /// belongs, and `received` counts the released and the waiting bodies.
    /// One chunk was written for each body before `start`, in the order of
    /// the offsets, each with the bytes of its body that belong to the file.
    pub open spec fn wf(self) -> bool {
        &&& self.window.len() == WINDOW_SIZE
        &&& self.start == self.written.len() * BODY_LEN
        &&& self.received == self.start + held(self.window) * BODY_LEN
        &&& forall|i: int| 0 <= i < WINDOW_SIZE ==> #[trigger] self.slot_wf(i)
        &&& forall|k: int|
            0 <= k < self.written.len() ==> (#[trigger] self.written[k]).len() == piece_len(
                self.size,
                k,
            )
    }

    /// Position in the window of the body at offset `seq`.
    pub open spec fn index_of(self, seq: u64) -> int {
        (seq - self.start) / (BODY_LEN as int)
    }

    /// Whether the packet is a data packet for an empty entry of the window.
    pub open spec fn accepts(self, pkt: Seq<u8>) -> bool {
        &&& flags_of(pkt) == DATA
        &&& seq_of(pkt) >= self.start
        &&& self.index_of(seq_of(pkt)) < WINDOW_SIZE
        &&& self.window[self.index_of(seq_of(pkt))] is None
    }

    /// The buffer after the packet was offered to it: stored if accepted,
    /// dropped otherwise.
    pub open spec fn offer(self, pkt: Seq<u8>) -> BufView {
        if self.accepts(pkt) {
            BufView {
                received: self.received + BODY_LEN as nat,
                window: self.window.update(
                    self.index_of(seq_of(pkt)),
                    Some(Chunk { seq: seq_of(pkt), body: body_of(pkt) }),
                ),
                ..self
            }
        } else {
            self
        }
    }

    /// Whether nothing was admitted yet.
    pub open spec fn is_empty(self) -> bool {
        self.received == 0
    }

    /// Whether as many bodies were admitted as the file needs.
    pub open spec fn complete(self) -> bool {
        self.received >= self.size
    }

    /// Number of bytes of the body at `start` that belong to the file.
    pub open spec fn data_size(self) -> nat {
        if self.start >= self.size {
            0
        } else if self.size - self.start < BODY_LEN {
            (self.size - self.start) as nat
        } else {
            BODY_LEN as nat
        }
    }

    /// The buffer after the first entry was released: its body, trimmed to
    /// the end of the file, is written and the window moves on by one body.
    pub open spec fn shift(self) -> BufView
        recommends
            self.window.len() > 0,
            self.window[0] is Some,
    {
        BufView {
            start: self.start + BODY_LEN as nat,
            window: self.window.drop_first().push(None),
            written: self.written.push(self.window[0]->0.body.take(self.data_size() as int)),
            ..self
        }
    }

    /// The buffer after at most `n` entries were released, front first, up to
    /// the first empty entry.
    pub open spec fn drain(self, n: nat) -> BufView
        decreases n,
    {
        if n == 0 || self.window[0] is None {
            self
        } else {
            self.shift().drain((n - 1) as nat)
        }
    }

    /// The buffer after every body that is next in order was released.
    pub open spec fn flush(self) -> BufView {
        self.drain(WINDOW_SIZE as nat)
    }

    /// Whether the body at offset `seq` was released or waits in the window.
    pub open spec fn has(self, seq: u64) -> bool {
        seq < self.start || (self.index_of(seq) < WINDOW_SIZE && self.window[self.index_of(
            seq,
        )] is Some)
    }
}

/// The fresh buffer is well formed.
pub proof fn lemma_fresh_wf(filename: Seq<char>, size: nat)
    ensures
        BufView::fresh(filename, size).wf(),
{
    lemma_held_vacant(WINDOW_SIZE as nat);
    let s = BufView::fresh(filename, size);
    assert forall|i: int| 0 <= i < WINDOW_SIZE implies #[trigger] s.slot_wf(i) by {}
}

/// Offering a packet of the size of a datagram keeps the buffer well formed.
pub proof fn lemma_offer_wf(s: BufView, pkt: Seq<u8>)
    requires
        s.wf(),
        pkt.len() == MTU,
    ensures
        s.offer(pkt).wf(),
{
    if s.accepts(pkt) {
        let seq = seq_of(pkt);
        let i = s.index_of(seq);
        let t = s.offer(pkt);
        lemma_index_bounds(s.start, seq);
        lemma_held_update(s.window, i, Chunk { seq, body: body_of(pkt) });
        assert(held(t.window) * BODY_LEN == held(s.window) * BODY_LEN + BODY_LEN)
            by (nonlinear_arith)
            requires
                held(t.window) == held(s.window) + 1,
        ;
        assert forall|j: int| 0 <= j < WINDOW_SIZE implies #[trigger] t.slot_wf(j) by {
            assert(s.slot_wf(j));
        }
    }
}

/// The offset `seq` lies in the stretch of the window that its position
/// stands for.
pub proof fn lemma_index_bounds(start: nat, seq: u64)
    requires
        seq >= start,
    ensures
        0 <= (seq - start) / (BODY_LEN as int),
        start + ((seq - start) / (BODY_LEN as int)) * BODY_LEN <= seq,
        seq < start + ((seq - start) / (BODY_LEN as int) + 1) * BODY_LEN,
{
    let d = seq - start;
    assert(d == 1463 * (d / 1463) + d % 1463);
}

/// Releasing the first entry keeps the buffer well formed, and moves `start`
/// up by one body.
pub proof fn lemma_shift_wf(s: BufView)
    requires
        s.wf(),
        s.window[0] is Some,
    ensures
        s.shift().wf(),
        s.start + BODY_LEN <= s.received,
        s.shift().start == s.start + BODY_LEN,
{
    let t = s.shift();
    lemma_held_slide(s.window);
    lemma_body_multiple(0, s.written.len() as int);
    assert(s.slot_wf(0));
    assert(s.data_size() == piece_len(s.size, s.written.len() as int));
    assert forall|k: int| 0 <= k < t.written.len() implies (#[trigger] t.written[k]).len()
        == piece_len(t.size, k) by {
        if k < s.written.len() {
            assert(t.written[k] == s.written[k]);
        }
    }
    assert(held(s.window) * BODY_LEN == held(t.window) * BODY_LEN + BODY_LEN)
        by (nonlinear_arith)
        requires
            held(s.window) == held(t.window) + 1,
    ;
    assert forall|j: int| 0 <= j < WINDOW_SIZE implies #[trigger] t.slot_wf(j) by {
        if j + 1 < WINDOW_SIZE {
            assert(s.slot_wf(j + 1));
            assert(t.window[j] == s.window[j + 1]);
            assert((j + 1) * BODY_LEN == j * BODY_LEN + BODY_LEN) by (nonlinear_arith);
            assert((j + 2) * BODY_LEN == (j + 1) * BODY_LEN + BODY_LEN) by (nonlinear_arith);
        }
    }
}

/// Releasing entries keeps the buffer well formed, never lowers `start`,
/// only adds to what was written, and leaves the size and the count alone.
pub proof fn lemma_drain_wf(s: BufView, n: nat)
    requires
        s.wf(),
    ensures
        s.drain(n).wf(),
        s.drain(n).start >= s.start,
        s.drain(n).size == s.size,
        s.drain(n).filename == s.filename,
        s.drain(n).received == s.received,
        s.written.is_prefix_of(s.drain(n).written),
    decreases n,
{
    if n == 0 || s.window[0] is None {
    } else {
        lemma_shift_wf(s);
        lemma_drain_wf(s.shift(), (n - 1) as nat);
    }
}

/// `start` is a whole number of bodies, and what was written has the length
/// of the file up to `start`: nothing is written twice, and nothing beyond
/// the end of the file.
pub proof fn lemma_written_len(s: BufView)
    requires
        s.wf(),
    ensures
        s.start % (BODY_LEN as nat) == 0,
        s.written.flatten().len() == if s.start <= s.size {
            s.start
        } else {
            s.size
        },
{
    lemma_body_multiple(0, s.written.len() as int);
    lemma_written_len_of(s.size, s.written);
}

/// Chunks that have the lengths of the first bodies of a file have together
/// the length of the file up to the end of the last of them.
pub proof fn lemma_written_len_of(size: nat, written: Seq<Seq<u8>>)
    requires
        forall|k: int|
            0 <= k < written.len() ==> (#[trigger] written[k]).len() == piece_len(size, k),
    ensures
        written.flatten().len() == if written.len() * BODY_LEN <= size {
            written.len() * BODY_LEN
        } else {
            size as int
        },
    decreases written.len(),
{
    lemma_body_multiple(0, written.len() as int);
    if written.len() == 0 {
        assert(written.flatten() =~= Seq::<u8>::empty());
    } else {
        let front = written.drop_last();
        lemma_body_multiple(0, front.len() as int);
        assert forall|k: int| 0 <= k < front.len() implies (#[trigger] front[k]).len()
            == piece_len(size, k) by {
            assert(front[k] == written[k]);
        }
        lemma_written_len_of(size, front);
        front.lemma_flatten_push(written.last());
        assert(front.push(written.last()) =~= written);
        assert(written.last() == written[written.len() - 1]);
    }
}

/// A body in the window whose offset is a whole number of bodies lies
/// exactly at the offset of its entry.
pub proof fn lemma_aligned_slot(s: BufView, i: int)
    requires
        s.wf(),
        0 <= i < WINDOW_SIZE,
        s.window[i] is Some,
        s.window[i]->0.seq % (BODY_LEN as u64) == 0,
    ensures
        s.window[i]->0.seq == s.start + i * BODY_LEN,
{
    let seq = s.window[i]->0.seq;
    assert(s.slot_wf(i));
    lemma_body_multiple(0, s.written.len() as int);
    lemma_body_multiple(s.start as int, i);
    let base = s.start + i * 1463;
    assert(base <= seq < base + 1463);
    assert(seq % 1463 == 0 && base % 1463 == 0);
}

/// When the body at `start` waits in the window, releasing what is in order
/// moves `start` on by at least one body: the next acknowledgement is
/// higher.
pub proof fn lemma_flush_progress(s: BufView)
    requires
        s.wf(),
        s.window[0] is Some,
    ensures
        s.flush().start >= s.start + BODY_LEN,
{
    lemma_shift_wf(s);
    lemma_drain_wf(s.shift(), (WINDOW_SIZE - 1) as nat);
}

/// Something that happens to the buffer.
pub enum Event {
    /// A packet is offered.
    Deliver(Seq<u8>),
    /// Every body that is next in order is released.
    Flush,
}

/// The buffer after the event.
pub open spec fn apply(s: BufView, event: Event) -> BufView {
    match event {
        Event::Deliver(pkt) => s.offer(pkt),
        Event::Flush => s.flush(),
    }
}

/// The buffer after the events, first to last.
pub open spec fn run(s: BufView, events: Seq<Event>) -> BufView
    decreases events.len(),
{
    if events.len() == 0 {
        s
    } else {
        apply(run(s, events.drop_last()), events.last())
    }
}

/// Whether every packet among the events has the size of a datagram.
pub open spec fn sized(events: Seq<Event>) -> bool {
    forall|i: int|
        0 <= i < events.len() ==> (#[trigger] events[i] matches Event::Deliver(pkt) ==> pkt.len()
            == MTU)
}

/// Events keep the buffer well formed and never lower `start`, the value
/// that the receiver acknowledges; they only add to what was written.
pub proof fn lemma_run_wf(s: BufView, events: Seq<Event>)
    requires
        s.wf(),
        sized(events),
    ensures
        run(s, events).wf(),
        run(s, events).start >= s.start,
        s.written.is_prefix_of(run(s, events).written),
    decreases events.len(),
{
    if events.len() > 0 {
        let before = run(s, events.drop_last());
        assert(sized(events.drop_last())) by {
            assert forall|i: int| 0 <= i < events.drop_last().len() implies (
            #[trigger] events.drop_last()[i] matches Event::Deliver(pkt) ==> pkt.len() == MTU) by {
                assert(events.drop_last()[i] == events[i]);
            }
        }
        lemma_run_wf(s, events.drop_last());
        match events.last() {
            Event::Deliver(pkt) => {
                lemma_offer_wf(before, pkt);
            },
            Event::Flush => {
                lemma_drain_wf(before, WINDOW_SIZE as nat);
            },
        }
    }
}

/// A body that the buffer has is not accepted again.
pub proof fn lemma_has_rejects(s: BufView, pkt: Seq<u8>)
    requires
        s.has(seq_of(pkt)),
    ensures
        !s.accepts(pkt),
        s.offer(pkt) == s,
{
}

/// After a packet was accepted the buffer has its body.
pub proof fn lemma_offer_has(s: BufView, pkt: Seq<u8>)
    requires
        s.wf(),
        s.accepts(pkt),
    ensures
        s.offer(pkt).has(seq_of(pkt)),
{
    lemma_index_bounds(s.start, seq_of(pkt));
}

/// A body that the buffer has, it has after any one event.
pub proof fn lemma_has_is_stable(s: BufView, seq: u64, event: Event)
    requires
        s.wf(),
        s.has(seq),
        event matches Event::Deliver(pkt) ==> pkt.len() == MTU,
    ensures
        apply(s, event).has(seq),
{
    match event {
        Event::Deliver(pkt) => {},
        Event::Flush => {
            lemma_has_after_drain(s, seq, WINDOW_SIZE as nat);
        },
    }
}

/// A body that the buffer has, it has after entries were released.
pub proof fn lemma_has_after_drain(s: BufView, seq: u64, n: nat)
    requires
        s.wf(),
        s.has(seq),
    ensures
        s.drain(n).has(seq),
    decreases n,
{
    if n == 0 || s.window[0] is None {
    } else {
        let t = s.shift();
        lemma_shift_wf(s);
        if seq >= s.start {
            let i = s.index_of(seq);
            lemma_index_bounds(s.start, seq);
            assert(s.slot_wf(i));
            if i > 0 {
                let d = seq - s.start;
                lemma_body_multiple(s.start as int, i);
                assert(d >= 1463);
                assert(d == 1463 * (d / 1463) + d % 1463);
                assert((d - 1463) / 1463 == d / 1463 - 1);
                assert(t.index_of(seq) == i - 1);
                assert(t.window[i - 1] == s.window[i]);
            }
        }
        lemma_has_after_drain(t, seq, (n - 1) as nat);
    }
}

/// A body that the buffer has, it has after any events.
pub proof fn lemma_has_after_run(s: BufView, seq: u64, events: Seq<Event>)
    requires
        s.wf(),
        s.has(seq),
        sized(events),
    ensures
        run(s, events).has(seq),
    decreases events.len(),
{
    if events.len() > 0 {
        assert(sized(events.drop_last())) by {
            assert forall|i: int| 0 <= i < events.drop_last().len() implies (
            #[trigger] events.drop_last()[i] matches Event::Deliver(pkt) ==> pkt.len() == MTU) by {
                assert(events.drop_last()[i] == events[i]);
            }
        }
        lemma_has_after_run(s, seq, events.drop_last());
        lemma_run_wf(s, events.drop_last());
        lemma_has_is_stable(run(s, events.drop_last()), seq, events.last());
    }
}

/// Delivering a packet again changes nothing: a packet that was delivered
/// once is dropped whenever it comes again, whatever happened in between.
/// What is written and what is acknowledged are those of a single delivery.
/// This holds of every packet but a data packet that lay beyond the window
/// when it first came: that one was dropped then, and is taken when it comes
/// again after the window has reached it.
pub proof fn lemma_redelivery_changes_nothing(s: BufView, pkt: Seq<u8>, events: Seq<Event>)
    requires
        s.wf(),
        pkt.len() == MTU,
        sized(events),
        flags_of(pkt) == DATA ==> seq_of(pkt) < s.start + WINDOW_SIZE * BODY_LEN,
    ensures
        run(s.offer(pkt), events).offer(pkt) == run(s.offer(pkt), events),
{
    lemma_offer_wf(s, pkt);
    if flags_of(pkt) == DATA {
        if seq_of(pkt) >= s.start {
            lemma_index_bounds(s.start, seq_of(pkt));
            lemma_body_multiple(s.start as int, s.index_of(seq_of(pkt)));
            lemma_body_multiple(s.start as int, 5);
            assert(s.index_of(seq_of(pkt)) < WINDOW_SIZE);
        }
        if s.accepts(pkt) {
            lemma_offer_has(s, pkt);
        }
        lemma_has_after_run(s.offer(pkt), seq_of(pkt), events);
        lemma_has_rejects(run(s.offer(pkt), events), pkt);
    }
}

/// The window never holds more bodies than it has entries.
pub proof fn lemma_window_bound(s: BufView)
    requires
        s.wf(),
    ensures
        held(s.window) <= WINDOW_SIZE,
{
    lemma_held_bound(s.window);
}

/// The receiver's buffer.
pub struct Buf {
    filename: String,
    size: u64,
    received: u64,
    start: u64,
    window: Vec<Slot>,
    written: Ghost<Seq<Seq<u8>>>,
}

impl View for Buf {
    type V = BufView;

    closed spec fn view(&self) -> BufView {
        BufView {
            filename: self.filename@,
            size: self.size as nat,
            received: self.received as nat,
            start: self.start as nat,
            window: slots(self.window@),
            written: self.written@,
        }
    }
}

impl Buf {
    /// The invariant of the buffer.
    pub open spec fn wf(&self) -> bool {
        &&& self@.wf()
        &&& self@.size <= u64::MAX
        &&& self@.received <= u64::MAX
    }

    /// Create the buffer for a transfer of `s` bytes into the file `f`.
    pub fn new(f: String, s: u64) -> (buf: Buf)
        ensures
            buf.wf(),
            buf@ == BufView::fresh(f@, s as nat),
    {
        let mut window: Vec<Slot> = Vec::new();
        while window.len() < WINDOW_SIZE
            invariant
                window.len() <= WINDOW_SIZE,
                forall|i: int| 0 <= i < window.len() ==> window[i] is Empty,
            decreases WINDOW_SIZE - window.len(),
        {
            window.push(Slot::Empty);
        }
        let buf = Buf {
            filename: f,
            size: s,
            received: 0,
            start: 0,
            window,
            written: Ghost(Seq::empty()),
        };
        proof {
            assert(buf@.window =~= vacant(WINDOW_SIZE as nat));
            lemma_fresh_wf(f@, s as nat);
        }
        buf
    }

    /// Name of the file being received.
    pub fn filename(&self) -> (filename: &String)
        ensures
            filename@ == self@.filename,
    {
        &self.filename
    }

    /// Expected length of the file in bytes.
    pub fn size(&self) -> (size: u64)
        ensures
            size == self@.size,
    {
        self.size
    }

    /// One body length for each body admitted so far.
    pub fn received(&self) -> (received: u64)
        ensures
            received == self@.received,
    {
        self.received
    }

    /// Offset of the next body to release.
    pub fn start(&self) -> (start: u64)
        ensures
            start == self@.start,
    {
        self.start
    }

    /// Whether nothing was admitted yet.
    pub fn is_empty(&self) -> (empty: bool)
        ensures
            empty == self@.is_empty(),
    {
        !(self.received > 0)
    }

    /// Number of bytes to write of the body at `start`: a whole body, or less
    /// where the file ends within it.
    pub fn get_data_size(&self) -> (amt: usize)
        ensures
            amt == self@.data_size(),
    {
        if self.start >= self.size {
            0
        } else if self.size - self.start < BODY_LEN_U64 {
            (self.size - self.start) as usize
        } else {
            BODY_LEN
        }
    }

    /// The acknowledgement of every byte released so far.
    pub fn ack(&self) -> (pkt: [u8; MTU])
        ensures
            pkt@ == packet(ACK, self@.start as u64, zeros(BODY_LEN as nat)),
    {
        create_ack(self.start)
    }

    /// Offer a packet to the window. A data packet whose entry lies in the
    /// window and is empty is stored; any other packet is dropped. `DONE`
    /// tells that the packet was stored and that no more bodies are needed.
    pub fn add(&mut self, buf: &[u8; MTU]) -> (r: Result<ReadData, Serr>)
        requires
            old(self).wf(),
            old(self)@.received + BODY_LEN <= u64::MAX,
        ensures
            final(self).wf(),
            final(self)@ == old(self)@.offer(buf@),
            r == Ok::<ReadData, Serr>(
                if old(self)@.accepts(buf@) && final(self)@.complete() {
                    ReadData::DONE
                } else {
                    ReadData::MORE
                },
            ),
    {
        proof {
            lemma_offer_wf(self@, buf@);
        }
        if buf[0] != DATA {
            return Ok(ReadData::MORE);
        }
        let seq: u64 = get_seq(buf)?;

        if seq < self.start {
            return Ok(ReadData::MORE);
        }
        proof {
            lemma_index_bounds(self@.start, seq);
        }
        if (seq - self.start) / BODY_LEN_U64 >= WINDOW_SIZE as u64 {
            return Ok(ReadData::MORE);
        }
        let index: usize = calculate_index(seq, self.start);
        if let Slot::Pending { .. } = self.window[index] {
            return Ok(ReadData::MORE);
        }
        self.window[index] = Slot::Pending { seq, body: get_body(buf) };
        self.received += BODY_LEN_U64;
        assert(self@.window =~= old(self)@.offer(buf@).window);

        if self.received >= self.size {
            return Ok(ReadData::DONE);
        }
        Ok(ReadData::MORE)
    }

    /// Release every body that is next in order. Returns what to write to the
    /// file, chunk by chunk, and the offset to acknowledge.
    pub fn save_read_data(&mut self) -> (r: (Vec<Vec<u8>>, u64))
        requires
            old(self).wf(),
        ensures
            final(self).wf(),
            final(self)@ == old(self)@.flush(),
            final(self)@.written == old(self)@.written + contents(r.0@),
            r.1 == final(self)@.start,
            r.1 >= old(self)@.start,
    {
        let mut chunks: Vec<Vec<u8>> = Vec::new();
        let mut i: usize = 0;
        proof {
            lemma_drain_wf(self@, WINDOW_SIZE as nat);
            assert(self@.written + contents(chunks@) =~= self@.written);
        }
        while i < WINDOW_SIZE
            invariant
                i <= WINDOW_SIZE,
                self.wf(),
                self@.drain((WINDOW_SIZE - i) as nat) == old(self)@.flush(),
                self@.written == old(self)@.written + contents(chunks@),
                self@.start >= old(self)@.start,
            ensures
                self@ == old(self)@.flush(),
            decreases WINDOW_SIZE - i,
        {
            let ghost before = self@;
            let body: [u8; BODY_LEN] = match self.window[0] {
                Slot::Empty => {
                    break ;
                },
                Slot::Pending { seq: _, body } => body,
            };
            let amt: usize = self.get_data_size();
            let mut chunk: Vec<u8> = Vec::new();
            for k in 0..amt
                invariant
                    amt <= BODY_LEN,
                    chunk@ == body@.take(k as int),
            {
                chunk.push(body[k]);
                assert(chunk@ =~= body@.take(k + 1));
            }
            proof {
                lemma_shift_wf(before);
            }
            let ghost released = contents(chunks@);
            chunks.push(chunk);
            let _ = self.window.remove(0);
            self.window.push(Slot::Empty);
            self.written = Ghost(self.written@.push(chunk@));
            self.start += BODY_LEN_U64;
            i += 1;
            proof {
                assert(self@.window =~= before.shift().window);
                assert(self@ == before.shift());
                assert(contents(chunks@) =~= released.push(chunk@));
                assert(self@.written =~= old(self)@.written + contents(chunks@));
            }
        }
        (chunks, self.start)
    }
}

} // verus!
