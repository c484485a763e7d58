//! The sender's buffer: a window over the file being sent.
//!
//! The window holds the bodies that were read from the file and are not
//! yet acknowledged, packed to the left in the order of their offsets.

use vstd::prelude::*;

use crate::protocol::window::{
    held, lemma_body_multiple, lemma_held_bound, lemma_held_slide, lemma_held_update,
    lemma_held_vacant, lemma_held_zero, slots, vacant, Chunk, Slot,
};
use crate::protocol::{
    create_pkt, flags_of, get_seq, lemma_packet_round_trip, packet, seq_of, ACK, BODY_LEN,
    BODY_LEN_U64, DATA, WINDOW_SIZE,
};
use crate::MTU;

verus! {

/// The sender's buffer as a mathematical value.
pub struct BufView {
    /// Name of the file being sent.
    pub filename: Seq<char>,
    /// Length of the file in bytes.
    pub size: nat,
    /// Lowest byte offset that is not yet acknowledged.
    pub start: nat,
    /// The bodies that wait for their acknowledgement.
    pub window: Seq<Option<Chunk>>,
}

impl BufView {
    /// The buffer before anything was read from the file.
    pub open spec fn fresh(filename: Seq<char>, size: nat) -> BufView {
        BufView { filename, size, start: 0, window: vacant(WINDOW_SIZE as nat) }
    }

    /// Number of bodies that wait for their acknowledgement.
    pub open spec fn outstanding(self) -> nat {
        held(self.window)
    }

    /// Offset of the next body to read from the file.
    pub open spec fn next_seq(self) -> nat {
        self.start + self.outstanding() * (BODY_LEN as nat)
    }

    /// The entry at position `i` is held exactly if it is among the first
    /// `outstanding()`, and then it holds the whole body at its offset.
    pub open spec fn slot_wf(self, i: int) -> bool {
        &&& self.window[i] is Some <==> i < self.outstanding()
        &&& self.window[i] matches Some(chunk) ==> {
            &&& chunk.body.len() == BODY_LEN
            &&& chunk.seq == self.start + i * BODY_LEN
        }
    }

    /// The window has its fixed length, is packed to the left without a gap,
    /// and every entry carries the offset of its position.
    pub open spec fn wf(self) -> bool {
        &&& self.window.len() == WINDOW_SIZE
        &&& self.start % (BODY_LEN as nat) == 0
        &&& self.next_seq() <= u64::MAX
        &&& forall|i: int| 0 <= i < WINDOW_SIZE ==> #[trigger] self.slot_wf(i)
    }

    /// Whether every body was acknowledged.
    pub open spec fn is_done(self) -> bool {
        self.window[0] is None
    }

    /// Whether the window has an empty entry.
    pub open spec fn has_room(self) -> bool {
        self.outstanding() < WINDOW_SIZE
    }

    /// Whether `amt` bytes read from the file are stored as a body.
    pub open spec fn takes(self, amt: usize) -> bool {
        self.has_room() && amt > 0
    }

    /// The buffer after `amt` bytes were read from the file into `data`: the
    /// body goes to the first empty entry, unless nothing was read or the
    /// window is full.
    pub open spec fn load(self, data: Seq<u8>, amt: usize) -> BufView {
        if self.takes(amt) {
            BufView {
                window: self.window.update(
                    self.outstanding() as int,
                    Some(Chunk { seq: self.next_seq() as u64, body: data }),
                ),
                ..self
            }
        } else {
            self
        }
    }

    /// Whether reading goes on after `amt` bytes were read: a whole body was
    /// read and stored, and an entry is left for the next one.
    pub open spec fn wants_more(self, amt: usize) -> bool {
        self.has_room() && amt >= BODY_LEN && self.outstanding() + 1 < WINDOW_SIZE
    }

    /// The buffer after its first body was acknowledged.
    pub open spec fn pop(self) -> BufView
        recommends
            self.window.len() > 0,
    {
        BufView {
            start: self.start + BODY_LEN as nat,
            window: self.window.drop_first().push(None),
            ..self
        }
    }

    /// The buffer after at most `n` bodies were acknowledged, front first:
    /// those whose offset lies before `ack`.
    pub open spec fn slide(self, ack: u64, n: nat) -> BufView
        decreases n,
    {
        if n > 0 && self.window[0] is Some && self.window[0]->0.seq < ack {
            self.pop().slide(ack, (n - 1) as nat)
        } else {
            self
        }
    }

    /// The buffer after the reply `pkt` was applied: an acknowledgement of
    /// every byte before its sequence number removes the bodies that lie
    /// before that number; any other packet changes nothing.
    pub open spec fn adjust(self, pkt: Seq<u8>) -> BufView {
        if flags_of(pkt) >= ACK {
            self.slide(seq_of(pkt), WINDOW_SIZE as nat)
        } else {
            self
        }
    }

    /// The data packets of the bodies in the window, in the order of their
    /// offsets.
    pub open spec fn packets(self) -> Seq<Seq<u8>> {
        Seq::new(
            self.outstanding(),
            |i: int| packet(DATA, self.window[i]->0.seq, self.window[i]->0.body),
        )
    }
}

/// The contents of a list of packets.
pub open spec fn datagrams(pkts: Seq<[u8; MTU]>) -> Seq<Seq<u8>> {
    Seq::new(pkts.len(), |i: int| pkts[i]@)
}

/// The fresh buffer is well formed.
pub proof fn lemma_fresh_wf(filename: Seq<char>, size: nat)
    ensures
        BufView::fresh(filename, size).wf(),
        BufView::fresh(filename, size).outstanding() == 0,
        BufView::fresh(filename, size).next_seq() == 0,
{
    lemma_held_vacant(WINDOW_SIZE as nat);
    let s = BufView::fresh(filename, size);
    assert forall|i: int| 0 <= i < WINDOW_SIZE implies #[trigger] s.slot_wf(i) by {}
}

/// A well-formed buffer has at most a window of bodies outstanding, and is
/// done exactly when none is.
pub proof fn lemma_window_bound(s: BufView)
    requires
        s.wf(),
    ensures
        s.outstanding() <= WINDOW_SIZE,
        s.packets().len() <= WINDOW_SIZE,
        s.is_done() <==> s.outstanding() == 0,
{
    lemma_held_bound(s.window);
    assert(s.slot_wf(0));
}

/// The packets of the window are data packets of the size of a datagram, in
/// the order of their offsets: each lies one body after the one before it,
/// the first at `start`.
pub proof fn lemma_packets_in_order(s: BufView, i: int)
    requires
        s.wf(),
        0 <= i < s.packets().len(),
    ensures
        s.packets()[i].len() == MTU,
        flags_of(s.packets()[i]) == DATA,
        seq_of(s.packets()[i]) == s.start + i * BODY_LEN,
{
    lemma_held_bound(s.window);
    assert(s.slot_wf(i));
    lemma_packet_round_trip(DATA, s.window[i]->0.seq, s.window[i]->0.body);
}

/// Storing what was read keeps the buffer well formed, provided the offset
/// after the new body still fits in 64 bits.
pub proof fn lemma_load_wf(s: BufView, data: Seq<u8>, amt: usize)
    requires
        s.wf(),
        data.len() == BODY_LEN,
        s.takes(amt) ==> s.next_seq() + BODY_LEN <= u64::MAX,
    ensures
        s.load(data, amt).wf(),
        s.load(data, amt).outstanding() == s.outstanding() + if s.takes(amt) {
            1nat
        } else {
            0nat
        },
        s.load(data, amt).next_seq() == s.next_seq() + if s.takes(amt) {
            BODY_LEN as nat
        } else {
            0nat
        },
{
    if s.takes(amt) {
        let t = s.load(data, amt);
        let k = s.outstanding() as int;
        assert(s.slot_wf(k));
        lemma_held_update(s.window, k, Chunk { seq: s.next_seq() as u64, body: data });
        assert((k + 1) * BODY_LEN == k * BODY_LEN + BODY_LEN) by (nonlinear_arith);
        assert forall|i: int| 0 <= i < WINDOW_SIZE implies #[trigger] t.slot_wf(i) by {
            assert(s.slot_wf(i));
        }
    }
}

/// Acknowledging the first body keeps the buffer well formed.
pub proof fn lemma_pop_wf(s: BufView)
    requires
        s.wf(),
        s.window[0] is Some,
    ensures
        s.pop().wf(),
        s.pop().outstanding() + 1 == s.outstanding(),
        s.pop().next_seq() == s.next_seq(),
{
    let t = s.pop();
    lemma_held_slide(s.window);
    assert(t.start % 1463 == 0) by {
        assert(t.start == s.start + 1463 && s.start % 1463 == 0);
    }
    assert(held(s.window) * BODY_LEN == held(t.window) * BODY_LEN + BODY_LEN)
        by (nonlinear_arith)
        requires
            held(s.window) == held(t.window) + 1,
    ;
    lemma_held_bound(s.window);
    assert(t.window.len() == WINDOW_SIZE);
    assert forall|j: int| 0 <= j < WINDOW_SIZE implies #[trigger] t.slot_wf(j) by {
        if j + 1 < WINDOW_SIZE {
            assert(s.slot_wf(j + 1));
            assert(t.window[j] == s.window[j + 1]);
            assert((j + 1) * BODY_LEN == j * BODY_LEN + BODY_LEN) by (nonlinear_arith);
        } else {
            assert(t.window[j] is None);
        }
    }
}

/// Acknowledging bodies keeps the buffer well formed, never lowers `start`
/// and never adds a body.
pub proof fn lemma_slide_wf(s: BufView, ack: u64, n: nat)
    requires
        s.wf(),
    ensures
        s.slide(ack, n).wf(),
        s.slide(ack, n).start >= s.start,
        s.slide(ack, n).outstanding() <= s.outstanding(),
        s.slide(ack, n).next_seq() == s.next_seq(),
        s.slide(ack, n).size == s.size,
        s.slide(ack, n).filename == s.filename,
    decreases n,
{
    if n > 0 && s.window[0] is Some && s.window[0]->0.seq < ack {
        lemma_pop_wf(s);
        lemma_slide_wf(s.pop(), ack, (n - 1) as nat);
    }
}

/// An acknowledgement that names no byte beyond `start` leaves the buffer
/// untouched.
pub proof fn lemma_stale_ack(s: BufView, pkt: Seq<u8>)
    requires
        s.wf(),
        seq_of(pkt) <= s.start,
    ensures
        s.adjust(pkt) == s,
{
    assert(s.slot_wf(0));
}

/// After an acknowledgement was applied, the first body left in the window,
/// if any, is not covered by it.
pub proof fn lemma_slide_stops(s: BufView, ack: u64, n: nat)
    requires
        s.wf(),
        n >= s.outstanding(),
    ensures
        s.slide(ack, n).window[0] matches Some(chunk) ==> chunk.seq >= ack,
    decreases n,
{
    if n > 0 && s.window[0] is Some && s.window[0]->0.seq < ack {
        lemma_pop_wf(s);
        lemma_slide_stops(s.pop(), ack, (n - 1) as nat);
    } else if n == 0 {
        lemma_held_zero(s.window);
    }
}

/// An acknowledgement beyond `start` moves `start` on by at least one body,
/// unless no body is outstanding.
pub proof fn lemma_ack_progress(s: BufView, pkt: Seq<u8>)
    requires
        s.wf(),
        !s.is_done(),
        flags_of(pkt) >= ACK,
        seq_of(pkt) > s.start,
    ensures
        s.adjust(pkt).start >= s.start + BODY_LEN,
{
    assert(s.slot_wf(0));
    lemma_pop_wf(s);
    lemma_slide_wf(s.pop(), seq_of(pkt), (WINDOW_SIZE - 1) as nat);
}

/// An acknowledgement of every byte that was read leaves no body
/// outstanding.
pub proof fn lemma_ack_of_all(s: BufView, pkt: Seq<u8>)
    requires
        s.wf(),
        flags_of(pkt) >= ACK,
        seq_of(pkt) >= s.next_seq(),
    ensures
        s.adjust(pkt).is_done(),
{
    let t = s.adjust(pkt);
    lemma_window_bound(s);
    lemma_slide_wf(s, seq_of(pkt), WINDOW_SIZE as nat);
    lemma_slide_stops(s, seq_of(pkt), WINDOW_SIZE as nat);
    if t.window[0] is Some {
        assert(t.slot_wf(0));
        lemma_body_multiple(t.start as int, t.outstanding() as int);
    }
}

/// The sender's buffer.
pub struct Buf {
    filename: String,
    size: u64,
    start: u64,
    window: Vec<Slot>,
}

impl View for Buf {
    type V = BufView;

    closed spec fn view(&self) -> BufView {
        BufView {
            filename: self.filename@,
            size: self.size as nat,
            start: self.start as nat,
            window: slots(self.window@),
        }
    }
}

impl Buf {
    /// The invariant of the buffer.
    pub open spec fn wf(&self) -> bool {
        &&& self@.wf()
        &&& self@.size <= u64::MAX
    }

    /// Create the buffer for sending the file `filename` of `file_size`
    /// bytes. Its window is empty: the bodies come through `fill_window`.
    pub fn new(filename: &String, file_size: u64) -> (buf: Buf)
        ensures
            buf.wf(),
            buf@ == BufView::fresh(filename@, file_size as nat),
            buf@.next_seq() == 0,
    {
        let mut window: Vec<Slot> = Vec::new();
        while window.len() < WINDOW_SIZE
            invariant
                window.len() <= WINDOW_SIZE,
                forall|i: int| 0 <= i < window.len() ==> window[i] is Empty,
            decreases WINDOW_SIZE - window.len(),
        {
            window.push(Slot::Empty);
        }
        let buf = Buf { filename: filename.clone(), size: file_size, start: 0, window };
        proof {
            assert(buf@.window =~= vacant(WINDOW_SIZE as nat));
            lemma_fresh_wf(filename@, file_size as nat);
        }
        buf
    }

    /// Name of the file being sent.
    pub fn filename(&self) -> (filename: &String)
        ensures
            filename@ == self@.filename,
    {
        &self.filename
    }

    /// Length of the file in bytes.
    pub fn size(&self) -> (size: u64)
        ensures
            size == self@.size,
    {
        self.size
    }

    /// Lowest byte offset that is not yet acknowledged.
    pub fn start(&self) -> (start: u64)
        ensures
            start == self@.start,
    {
        self.start
    }

    /// Number of bodies in the window.
    fn outstanding(&self) -> (n: usize)
        requires
            self.wf(),
        ensures
            n == self@.outstanding(),
            n <= WINDOW_SIZE,
    {
        let mut n: usize = 0;
        proof {
            lemma_held_bound(self@.window);
        }
        while n < WINDOW_SIZE
            invariant
                self.wf(),
                n <= WINDOW_SIZE,
                n <= self@.outstanding() <= WINDOW_SIZE,
            ensures
                n == self@.outstanding(),
            decreases WINDOW_SIZE - n,
        {
            assert(self@.slot_wf(n as int));
            if let Slot::Empty = self.window[n] {
                break ;
            }
            n += 1;
        }
        n
    }

    /// Offset of the next body to read from the file.
    pub fn next_seq(&self) -> (seq: u64)
        requires
            self.wf(),
        ensures
            seq == self@.next_seq(),
    {
        let n = self.outstanding();
        assert(n * BODY_LEN == self@.outstanding() * BODY_LEN) by (nonlinear_arith)
            requires
                n == self@.outstanding(),
        ;
        self.start + (n as u64) * BODY_LEN_U64
    }

    /// Whether the window has an empty entry.
    pub fn has_room(&self) -> (room: bool)
        requires
            self.wf(),
        ensures
            room == self@.has_room(),
    {
        self.outstanding() < WINDOW_SIZE
    }

    /// Put what one read of the file returned into the window: `amt` bytes
    /// at the front of `data`. The body goes to the first empty entry, at
    /// the offset that follows the last body. Returns whether to read again:
    /// not after an empty read, after a short one, or when the window is
    /// full.
    pub fn fill_window(&mut self, data: &[u8; BODY_LEN], amt: usize) -> (more: bool)
        requires
            old(self).wf(),
            old(self)@.takes(amt) ==> old(self)@.next_seq() + BODY_LEN <= u64::MAX,
        ensures
            final(self).wf(),
            final(self)@ == old(self)@.load(data@, amt),
            final(self)@.next_seq() == old(self)@.next_seq() + if old(self)@.takes(amt) {
                BODY_LEN as nat
            } else {
                0nat
            },
            more == old(self)@.wants_more(amt),
    {
        proof {
            lemma_load_wf(self@, data@, amt);
        }
        let i: usize = self.outstanding();
        if i >= WINDOW_SIZE || amt == 0 {
            return false;
        }
        let index: u64 = self.next_seq();
        self.window[i] = Slot::Pending { seq: index, body: *data };
        assert(self@.window =~= old(self)@.load(data@, amt).window);

        amt >= BODY_LEN && i + 1 < WINDOW_SIZE
    }

    /// Determine if all data was acknowledged.
    pub fn is_done(&self) -> (done: bool)
        requires
            self.wf(),
        ensures
            done == self@.is_done(),
    {
        match self.window[0] {
            Slot::Empty => true,
            Slot::Pending { .. } => false,
        }
    }

    /// The data packets of all the bodies in the window, in the order of
    /// their offsets.
    pub fn send(&self) -> (pkts: Vec<[u8; MTU]>)
        requires
            self.wf(),
        ensures
            datagrams(pkts@) == self@.packets(),
            pkts.len() <= WINDOW_SIZE,
    {
        let mut pkts: Vec<[u8; MTU]> = Vec::new();
        proof {
            lemma_held_bound(self@.window);
        }
        for i in 0..WINDOW_SIZE
            invariant
                self.wf(),
                self@.outstanding() <= WINDOW_SIZE,
                pkts.len() == i <= self@.outstanding(),
                forall|j: int| 0 <= j < i ==> pkts[j]@ == self@.packets()[j],
        {
            assert(self@.slot_wf(i as int));
            match &self.window[i] {
                Slot::Empty => {
                    assert(datagrams(pkts@) =~= self@.packets());
                    return pkts;
                },
                Slot::Pending { seq, body } => {
                    pkts.push(create_pkt(DATA, *seq, body));
                },
            }
        }
        assert(self@.slot_wf(WINDOW_SIZE - 1));
        assert(datagrams(pkts@) =~= self@.packets());
        pkts
    }

    /// Slide the window with respect to the reply received: remove, front
    /// first, the bodies that the acknowledgement covers. A packet that is
    /// no acknowledgement changes nothing. Returns whether to read from the
    /// file next: the window held a body before and has room now.
    pub fn adjust(&mut self, buf: &[u8; MTU]) -> (refill: bool)
        requires
            old(self).wf(),
        ensures
            final(self).wf(),
            final(self)@ == old(self)@.adjust(buf@),
            final(self)@.next_seq() == old(self)@.next_seq(),
            final(self)@.start >= old(self)@.start,
            refill == (flags_of(buf@) >= ACK && !old(self)@.is_done() && final(self)@.has_room()),
    {
        proof {
            lemma_slide_wf(self@, seq_of(buf@), WINDOW_SIZE as nat);
        }
        if buf[0] < ACK {
            return false;
        }
        let seq: u64 = match get_seq(buf) {
            Ok(seq) => seq,
            Err(_) => {
                return false;
            },
        };
        if self.is_done() {
            return false;
        }
        let mut i: usize = 0;
        proof {
            lemma_slide_wf(self@, seq, WINDOW_SIZE as nat);
        }
        while i < WINDOW_SIZE
            invariant
                i <= WINDOW_SIZE,
                self.wf(),
                self@.slide(seq, (WINDOW_SIZE - i) as nat) == old(self)@.adjust(buf@),
            ensures
                self@ == old(self)@.adjust(buf@),
            decreases WINDOW_SIZE - i,
        {
            let ghost before = self@;
            match self.window[0] {
                Slot::Empty => {
                    break ;
                },
                Slot::Pending { seq: first, body: _ } => {
                    if first >= seq {
                        break ;
                    }
                },
            }
            proof {
                lemma_pop_wf(before);
            }
            let _ = self.window.remove(0);
            self.window.push(Slot::Empty);
            self.start += BODY_LEN_U64;
            i += 1;
            proof {
                assert(self@.window =~= before.pop().window);
                assert(self@ == before.pop());
            }
        }
        self.has_room()
    }

    /// The entries of the window: for each whether it holds a body, and the
    /// offset of that body.
    pub fn print_indicies(&self) -> (indicies: Vec<(bool, u64)>)
        ensures
            indicies.len() == self@.window.len(),
            forall|i: int|
                0 <= i < indicies.len() ==> indicies[i] == match #[trigger] self@.window[i] {
                    Some(chunk) => (true, chunk.seq),
                    None => (false, 0u64),
                },
    {
        let mut indicies: Vec<(bool, u64)> = Vec::new();
        for i in 0..self.window.len()
            invariant
                indicies.len() == i,
                forall|j: int|
                    0 <= j < i ==> indicies[j] == match #[trigger] self@.window[j] {
                        Some(chunk) => (true, chunk.seq),
                        None => (false, 0u64),
                    },
        {
            match self.window[i] {
                Slot::Empty => indicies.push((false, 0)),
                Slot::Pending { seq, body: _ } => indicies.push((true, seq)),
            }
        }
        indicies
    }
}

} // verus!
