//! The packet codec: a fixed layout of one flags byte, a big-endian 64-bit
//! sequence number and an opaque body; and the exchange that delivers a
//! control packet.

use vstd::prelude::*;
use vstd::string::*;
use vstd::utf8::encode_utf8;

use crate::{Serr, SerrView, MTU};

pub mod receive;
pub mod send;
pub mod transfer;
pub mod window;

verus! {

/// ASCII line feed.
pub const LF: u8 = 10;

/// ASCII carriage return.
pub const CR: u8 = 13;

/// Length of the flags field in bytes.
pub const FLAGS_LEN: usize = 1;

/// Length of the sequence number field in bytes.
pub const SEQ_LEN: usize = 8;

/// Length of the header in bytes.
pub const HEADER_LEN: usize = FLAGS_LEN + SEQ_LEN;

/// Length of the body field in bytes.
pub const BODY_LEN: usize = MTU - HEADER_LEN;

/// `BODY_LEN` as a sequence number distance.
pub const BODY_LEN_U64: u64 = 1463;

/// Position of the first body byte.
pub const BODY_START: usize = HEADER_LEN;

/// Number of entries in a window.
pub const WINDOW_SIZE: usize = 5;

/// Modifier: the connection is terminating.
pub const DONE: u8 = 0x01;

/// The peer failed.
pub const FLAG_500: u8 = 0x03;

/// The requested file does not exist.
pub const FLAG_404: u8 = 0x05;

/// Handshake.
pub const SYN: u8 = 0x20;

/// Request to download a file.
pub const GET: u8 = 0x28;

/// Request to upload a file.
pub const POST: u8 = 0x30;

/// A data body.
pub const DATA: u8 = 0x40;

/// Acknowledgement.
pub const ACK: u8 = 0x80;

/// Handshake reply.
pub const SYNACK: u8 = 0xa0;

/// End of a transfer.
pub const FIN: u8 = 0x81;

/// Time to wait for a reply, in milliseconds.
pub const WAIT_TIME: u64 = 250;

/// The composite flag values are the unions of the bits they are named after.
pub proof fn lemma_flag_layout()
    ensures
        FLAG_500 == 0x02 | DONE,
        FLAG_404 == 0x04 | DONE,
        GET == SYN | 0x08,
        POST == SYN | 0x10,
        SYNACK == ACK | SYN,
        FIN == ACK | DONE,
{
    assert(0x03u8 == 0x02u8 | 0x01u8) by (bit_vector);
    assert(0x05u8 == 0x04u8 | 0x01u8) by (bit_vector);
    assert(0x28u8 == 0x20u8 | 0x08u8) by (bit_vector);
    assert(0x30u8 == 0x20u8 | 0x10u8) by (bit_vector);
    assert(0xa0u8 == 0x80u8 | 0x20u8) by (bit_vector);
    assert(0x81u8 == 0x80u8 | 0x01u8) by (bit_vector);
}

/// `n` zero bytes.
pub open spec fn zeros(n: nat) -> Seq<u8> {
    Seq::new(n, |i: int| 0u8)
}

/// The eight bytes of `x`, most significant first.
pub open spec fn be_bytes(x: u64) -> Seq<u8> {
    seq![
        ((x / 0x100_0000_0000_0000) % 0x100) as u8,
        ((x / 0x1_0000_0000_0000) % 0x100) as u8,
        ((x / 0x100_0000_0000) % 0x100) as u8,
        ((x / 0x1_0000_0000) % 0x100) as u8,
        ((x / 0x100_0000) % 0x100) as u8,
        ((x / 0x1_0000) % 0x100) as u8,
        ((x / 0x100) % 0x100) as u8,
        (x % 0x100) as u8,
    ]
}

/// The number that eight bytes spell, most significant first.
pub open spec fn be_value(b: Seq<u8>) -> int
    recommends
        b.len() == SEQ_LEN,
{
    b[0] * 0x100_0000_0000_0000 + b[1] * 0x1_0000_0000_0000 + b[2] * 0x100_0000_0000 + b[3]
        * 0x1_0000_0000 + b[4] * 0x100_0000 + b[5] * 0x1_0000 + b[6] * 0x100 + b[7]
}

/// A packet: the flags byte, the sequence number, then the body.
pub open spec fn packet(flag: u8, seq: u64, body: Seq<u8>) -> Seq<u8> {
    seq![flag] + be_bytes(seq) + body
}

/// The flags byte of a packet.
pub open spec fn flags_of(pkt: Seq<u8>) -> u8 {
    pkt[0]
}

/// The sequence number of a packet.
pub open spec fn seq_of(pkt: Seq<u8>) -> u64 {
    be_value(pkt.subrange(FLAGS_LEN as int, HEADER_LEN as int)) as u64
}

/// The body of a packet.
pub open spec fn body_of(pkt: Seq<u8>) -> Seq<u8> {
    pkt.subrange(BODY_START as int, MTU as int)
}

/// Decoding the bytes of a number gives the number back.
pub proof fn lemma_be_value_of_bytes(x: u64)
    ensures
        be_bytes(x).len() == SEQ_LEN,
        be_value(be_bytes(x)) == x,
{
    assert(((x / 0x100_0000_0000_0000) % 0x100) as u8 * 0x100_0000_0000_0000 + ((x
        / 0x1_0000_0000_0000) % 0x100) as u8 * 0x1_0000_0000_0000 + ((x / 0x100_0000_0000)
        % 0x100) as u8 * 0x100_0000_0000 + ((x / 0x1_0000_0000) % 0x100) as u8 * 0x1_0000_0000 + ((x
        / 0x100_0000) % 0x100) as u8 * 0x100_0000 + ((x / 0x1_0000) % 0x100) as u8 * 0x1_0000 + ((x
        / 0x100) % 0x100) as u8 * 0x100 + (x % 0x100) as u8 == x) by (bit_vector);
}

/// Eight bytes spell a number that fits in 64 bits, and encoding that number
/// gives the bytes back.
pub proof fn lemma_be_bytes_of_value(b: Seq<u8>)
    requires
        b.len() == SEQ_LEN,
    ensures
        0 <= be_value(b) <= u64::MAX,
        be_bytes(be_value(b) as u64) == b,
{
    let (b0, b1, b2, b3, b4, b5, b6, b7) = (b[0], b[1], b[2], b[3], b[4], b[5], b[6], b[7]);
    let v: u64 = be_value(b) as u64;
    assert(v == b0 * 0x100_0000_0000_0000 + b1 * 0x1_0000_0000_0000 + b2 * 0x100_0000_0000 + b3
        * 0x1_0000_0000 + b4 * 0x100_0000 + b5 * 0x1_0000 + b6 * 0x100 + b7);
    assert(((v / 0x100_0000_0000_0000) % 0x100) as u8 == b0 && ((v / 0x1_0000_0000_0000)
        % 0x100) as u8 == b1 && ((v / 0x100_0000_0000) % 0x100) as u8 == b2 && ((v
        / 0x1_0000_0000) % 0x100) as u8 == b3 && ((v / 0x100_0000) % 0x100) as u8 == b4 && ((v
        / 0x1_0000) % 0x100) as u8 == b5 && ((v / 0x100) % 0x100) as u8 == b6 && (v
        % 0x100) as u8 == b7) by (bit_vector)
        requires
            v == b0 * 0x100_0000_0000_0000 + b1 * 0x1_0000_0000_0000 + b2 * 0x100_0000_0000 + b3
                * 0x1_0000_0000 + b4 * 0x100_0000 + b5 * 0x1_0000 + b6 * 0x100 + b7,
    ;
    assert(be_bytes(v) =~= b);
}

/// A packet has the size of a datagram, and its three fields read back as
/// they were written.
pub proof fn lemma_packet_round_trip(flag: u8, seq: u64, body: Seq<u8>)
    requires
        body.len() == BODY_LEN,
    ensures
        packet(flag, seq, body).len() == MTU,
        flags_of(packet(flag, seq, body)) == flag,
        seq_of(packet(flag, seq, body)) == seq,
        body_of(packet(flag, seq, body)) == body,
{
    let pkt = packet(flag, seq, body);
    assert(pkt.subrange(FLAGS_LEN as int, HEADER_LEN as int) =~= be_bytes(seq));
    assert(pkt.subrange(BODY_START as int, MTU as int) =~= body);
    lemma_be_value_of_bytes(seq);
}

/// Every datagram is the packet made of its own three fields.
pub proof fn lemma_packet_of_fields(pkt: Seq<u8>)
    requires
        pkt.len() == MTU,
    ensures
        packet(flags_of(pkt), seq_of(pkt), body_of(pkt)) == pkt,
{
    let header = pkt.subrange(FLAGS_LEN as int, HEADER_LEN as int);
    lemma_be_bytes_of_value(header);
    assert(packet(flags_of(pkt), seq_of(pkt), body_of(pkt)) =~= pkt);
}

/// Position of the first `byte` in `bytes`, or the length of `bytes` where
/// there is none.
pub open spec fn first_index(bytes: Seq<u8>, byte: u8) -> int
    decreases bytes.len(),
{
    if bytes.len() == 0 || bytes[0] == byte {
        0
    } else {
        1 + first_index(bytes.drop_first(), byte)
    }
}

/// The body of a frame that names a file: the name, a carriage return and a
/// line feed, then zeros.
pub open spec fn filename_body(name: Seq<u8>) -> Seq<u8>
    recommends
        name.len() <= BODY_LEN - 2,
{
    name + seq![CR, LF] + zeros((BODY_LEN - 2 - name.len()) as nat)
}

/// The name that a body carries: its bytes before the first carriage return.
pub open spec fn filename_of(body: Seq<u8>) -> Seq<u8> {
    body.subrange(0, first_index(body, CR))
}

/// `first_index` is the position of an occurrence that no occurrence
/// precedes, or the length.
pub proof fn lemma_first_index(bytes: Seq<u8>, byte: u8)
    ensures
        0 <= first_index(bytes, byte) <= bytes.len(),
        first_index(bytes, byte) < bytes.len() ==> bytes[first_index(bytes, byte)] == byte,
        forall|j: int| 0 <= j < first_index(bytes, byte) ==> bytes[j] != byte,
    decreases bytes.len(),
{
    if bytes.len() == 0 || bytes[0] == byte {
    } else {
        let rest = bytes.drop_first();
        lemma_first_index(rest, byte);
        assert forall|j: int| 0 <= j < first_index(bytes, byte) implies bytes[j] != byte by {
            if j > 0 {
                assert(bytes[j] == rest[j - 1]);
            }
        }
    }
}

/// An occurrence that no occurrence precedes is the first.
pub proof fn lemma_first_index_is(bytes: Seq<u8>, byte: u8, i: int)
    requires
        0 <= i <= bytes.len(),
        i < bytes.len() ==> bytes[i] == byte,
        forall|j: int| 0 <= j < i ==> bytes[j] != byte,
    ensures
        first_index(bytes, byte) == i,
{
    lemma_first_index(bytes, byte);
}

/// A name without a carriage return that fits in a body is read back from
/// the body that carries it.
pub proof fn lemma_filename_round_trip(name: Seq<u8>)
    requires
        name.len() <= BODY_LEN - 2,
        !name.contains(CR),
    ensures
        filename_body(name).len() == BODY_LEN,
        first_index(filename_body(name), CR) == name.len(),
        filename_of(filename_body(name)) == name,
{
    let body = filename_body(name);
    assert forall|j: int| 0 <= j < name.len() implies body[j] != CR by {
        assert(body[j] == name[j]);
        assert(name.contains(name[j]));
    }
    lemma_first_index_is(body, CR, name.len() as int);
    assert(body.subrange(0, name.len() as int) =~= name);
}

/// Write a file name into a body: its UTF-8 bytes followed by a carriage
/// return and a line feed. Fails when the name leaves no room for the two.
pub fn filename_as_body(filename: &String) -> (r: Result<[u8; BODY_LEN], Serr>)
    ensures
        match r {
            Ok(data) => encode_utf8(filename@).len() <= BODY_LEN - 2 && data@ == filename_body(
                encode_utf8(filename@),
            ),
            Err(e) => encode_utf8(filename@).len() > BODY_LEN - 2 && e@ == SerrView::SERVER(
                "filename exceeds 1461 bytes, cannot fit into packet"@,
            ),
        },
{
    let mut data: [u8; BODY_LEN] = [0u8; BODY_LEN];
    let file_bytes: &[u8] = filename.as_str().as_bytes();
    let length: usize = file_bytes.len();

    if length > (BODY_LEN - 2) {
        return Err(
            Serr::SERVER(String::from_str("filename exceeds 1461 bytes, cannot fit into packet")),
        );
    }
    for i in 0..length
        invariant
            length == file_bytes@.len(),
            length <= BODY_LEN - 2,
            forall|j: int| 0 <= j < i ==> data[j] == file_bytes@[j],
            forall|j: int| i <= j < BODY_LEN ==> data[j] == 0u8,
    {
        data[i] = file_bytes[i];
    }

    data[length] = CR;
    data[length + 1] = LF;

    assert(data@ =~= filename_body(file_bytes@));
    Ok(data)
}

/// The eight bytes of `seq`, most significant first.
fn seq_to_bytes(seq: u64) -> (bytes: [u8; SEQ_LEN])
    ensures
        bytes@ == be_bytes(seq),
{
    let bytes: [u8; SEQ_LEN] = [
        ((seq / 0x100_0000_0000_0000) % 0x100) as u8,
        ((seq / 0x1_0000_0000_0000) % 0x100) as u8,
        ((seq / 0x100_0000_0000) % 0x100) as u8,
        ((seq / 0x1_0000_0000) % 0x100) as u8,
        ((seq / 0x100_0000) % 0x100) as u8,
        ((seq / 0x1_0000) % 0x100) as u8,
        ((seq / 0x100) % 0x100) as u8,
        (seq % 0x100) as u8,
    ];
    assert(bytes@ =~= be_bytes(seq));
    bytes
}

/// Create a packet with the provided header fields and a zeroed body.
pub fn create_header(flag: u8, seq: u64) -> (pkt: [u8; MTU])
    ensures
        pkt@ == packet(flag, seq, zeros(BODY_LEN as nat)),
{
    let mut pkt: [u8; MTU] = [0u8; MTU];
    let seq_bytes: [u8; SEQ_LEN] = seq_to_bytes(seq);

    pkt[0] = flag;
    for i in 0..SEQ_LEN
        invariant
            seq_bytes@ == be_bytes(seq),
            pkt[0] == flag,
            forall|j: int| 0 <= j < i ==> pkt[FLAGS_LEN + j] == seq_bytes[j],
            forall|j: int| HEADER_LEN <= j < MTU ==> pkt[j] == 0u8,
    {
        pkt[FLAGS_LEN + i] = seq_bytes[i];
    }

    assert(pkt@ =~= packet(flag, seq, zeros(BODY_LEN as nat)));
    pkt
}

/// Build a packet from the provided flag, sequence number and body.
pub fn create_pkt(flag: u8, seq: u64, data: &[u8; BODY_LEN]) -> (pkt: [u8; MTU])
    ensures
        pkt@ == packet(flag, seq, data@),
{
    let mut pkt: [u8; MTU] = create_header(flag, seq);
    let index: usize = FLAGS_LEN + SEQ_LEN;

    for i in 0..BODY_LEN
        invariant
            index == HEADER_LEN,
            forall|j: int| 0 <= j < HEADER_LEN ==> pkt[j] == packet(flag, seq, data@)[j],
            forall|j: int| 0 <= j < i ==> pkt[index + j] == data[j],
    {
        pkt[index + i] = data[i];
    }

    assert(pkt@ =~= packet(flag, seq, data@));
    pkt
}

/// Create an acknowledgement of every byte before `seq`.
pub fn create_ack(seq: u64) -> (pkt: [u8; MTU])
    ensures
        pkt@ == packet(ACK, seq, zeros(BODY_LEN as nat)),
{
    create_header(ACK, seq)
}

/// Get the sequence number of a packet.
pub fn get_seq(buf: &[u8; MTU]) -> (r: Result<u64, Serr>)
    ensures
        r == Ok::<u64, Serr>(seq_of(buf@)),
{
    let mut seq: u64 = 0;

    proof {
        lemma_be_bytes_of_value(buf@.subrange(FLAGS_LEN as int, HEADER_LEN as int));
    }
    seq = seq * 0x100 + buf[1] as u64;
    seq = seq * 0x100 + buf[2] as u64;
    seq = seq * 0x100 + buf[3] as u64;
    seq = seq * 0x100 + buf[4] as u64;
    seq = seq * 0x100 + buf[5] as u64;
    seq = seq * 0x100 + buf[6] as u64;
    seq = seq * 0x100 + buf[7] as u64;
    seq = seq * 0x100 + buf[8] as u64;
    Ok(seq)
}

/// The position in a window that starts at `start` of the entry for `seq`.
pub fn calculate_index(seq: u64, start: u64) -> (index: usize)
    requires
        seq >= start,
        (seq - start) / (BODY_LEN as int) <= usize::MAX,
    ensures
        index == (seq - start) / (BODY_LEN as int),
{
    ((seq - start) / BODY_LEN_U64) as usize
}

/// Copy the body out of a packet.
pub fn get_body(pkt: &[u8; MTU]) -> (body: [u8; BODY_LEN])
    ensures
        body@ == body_of(pkt@),
{
    let mut body: [u8; BODY_LEN] = [0u8; BODY_LEN];
    for i in 0..BODY_LEN
        invariant
            forall|j: int| 0 <= j < i ==> body[j] == pkt[BODY_START + j],
    {
        body[i] = pkt[BODY_START + i];
    }
    assert(body@ =~= body_of(pkt@));
    body
}

/// A control packet to deliver, and the flags of the reply that confirms
/// its delivery.
pub struct Handshake {
    /// The packet to send until it is answered.
    pub packet: [u8; MTU],
    /// The flags of the reply to wait for.
    pub flags: u8,
}

/// What one attempt to read a datagram brought.
pub enum Incoming {
    /// Nothing arrived in time.
    Timeout,
    /// A datagram of `amt` bytes arrived; `bytes` is the read buffer after
    /// it was stored there.
    Datagram { amt: usize, bytes: [u8; MTU] },
}

/// What one attempt to read a datagram brought, as a mathematical value.
pub enum IncomingView {
    Timeout,
    Datagram { amt: usize, bytes: Seq<u8> },
}

impl View for Incoming {
    type V = IncomingView;

    open spec fn view(&self) -> IncomingView {
        match self {
            Incoming::Timeout => IncomingView::Timeout,
            Incoming::Datagram { amt, bytes } => IncomingView::Datagram {
                amt: *amt,
                bytes: bytes@,
            },
        }
    }
}

impl IncomingView {
    /// Whether a datagram with at least one byte arrived.
    pub open spec fn heard(self) -> bool {
        self matches IncomingView::Datagram { amt, .. } && amt > 0
    }

    /// Whether a datagram with at least a whole header arrived.
    pub open spec fn has_header(self) -> bool {
        self matches IncomingView::Datagram { amt, .. } && amt >= HEADER_LEN
    }

    /// The flags byte of what arrived.
    pub open spec fn flags(self) -> u8 {
        flags_of(self->bytes)
    }
}

/// What the reply to a control packet means, where `flags` is the flags
/// value waited for and `filename` the file that the exchange is about:
/// nothing when no usable reply came and the packet has to be sent again, else
/// the reply itself or the failure that it reports. A report of failure
/// counts whatever the flags waited for.
pub open spec fn control_reply(
    received: IncomingView,
    flags: u8,
    filename: Seq<char>,
) -> Option<Result<Seq<u8>, SerrView>> {
    if !received.has_header() {
        None
    } else if received.flags() == FLAG_404 {
        Some(Err(SerrView::DNE(filename + " does not exist"@)))
    } else if received.flags() == FLAG_500 {
        Some(Err(SerrView::SERVER("error with "@ + filename)))
    } else if received.flags() == flags {
        Some(Ok(received->bytes))
    } else {
        None
    }
}

/// One round of the exchange that delivers a control packet: the packet was
/// sent, and `received` is what the attempt to read its reply brought.
/// Returns nothing where the packet has to be sent again: after a timeout,
/// a datagram shorter than a header, or a reply with other flags than
/// `flags`. Returns the reply where its flags are `flags`, and the failure
/// where the reply reports that the file is missing or that the peer failed.
pub fn send_buf(received: &Incoming, flags: u8, filename: &String) -> (r: Option<
    Result<[u8; MTU], Serr>,
>)
    ensures
        match control_reply(received@, flags, filename@) {
            None => r is None,
            Some(Ok(bytes)) => r matches Some(Ok(reply)) && reply@ == bytes,
            Some(Err(failure)) => r matches Some(Err(e)) && e@ == failure,
        },
{
    match received {
        Incoming::Timeout => None,
        Incoming::Datagram { amt, bytes } => {
            if *amt < HEADER_LEN {
                None
            } else if bytes[0] == FLAG_404 {
                Some(Err(Serr::DNE(filename.clone().concat(" does not exist"))))
            } else if bytes[0] == FLAG_500 {
                Some(Err(Serr::SERVER(String::from_str("error with ").concat(filename.as_str()))))
            } else if bytes[0] == flags {
                Some(Ok(*bytes))
            } else {
                None
            }
        },
    }
}

} // verus!
