//! The dispatcher of the datastore: what to do with the datagram that opens
//! a connection.

use vstd::prelude::*;
use vstd::string::*;
use vstd::utf8::{encode_utf8, is_ascii_chars, is_ascii_chars_encode_utf8};

use crate::protocol::{
    body_of, create_header, create_pkt, filename_body, filename_of, first_index, flags_of,
    get_seq, lemma_filename_round_trip, lemma_first_index_is, lemma_packet_round_trip, packet,
    seq_of, zeros, ACK, BODY_LEN, BODY_START, CR, FIN, FLAG_404, FLAG_500, GET, POST,
};
use crate::text::{bytes_to_str, chars_of, decimal, decimal_string};
use crate::{Serr, SerrView, MTU};

verus! {

/// The operations between a proxy and the datastore.
#[derive(Debug, Clone, PartialEq, Eq)]
pub enum Op {
    /// Download the named file.
    GET(String),
    /// Upload the named file.
    POST(String),
    /// A termination left over from an earlier session.
    FIN,
    /// An acknowledgement left over from an earlier session.
    ACK,
    /// Anything else, with its flags and its sequence number.
    NA(u8, u64),
}

/// An operation as a mathematical value.
pub enum OpView {
    GET(Seq<char>),
    POST(Seq<char>),
    FIN,
    ACK,
    NA(u8, u64),
}

impl View for Op {
    type V = OpView;

    open spec fn view(&self) -> OpView {
        match self {
            Op::GET(f) => OpView::GET(f@),
            Op::POST(f) => OpView::POST(f@),
            Op::FIN => OpView::FIN,
            Op::ACK => OpView::ACK,
            Op::NA(flags, seq) => OpView::NA(*flags, *seq),
        }
    }
}

/// What the datastore does for the datagram that opened a connection.
pub enum Dispatch {
    /// Open the named file and send it to the peer.
    Get(String),
    /// Receive the named file from the peer.
    Post(String),
    /// Send this packet once; the connection is over.
    Reply([u8; MTU]),
}

/// A dispatch as a mathematical value.
pub enum DispatchView {
    Get(Seq<char>),
    Post(Seq<char>),
    Reply(Seq<u8>),
}

impl View for Dispatch {
    type V = DispatchView;

    open spec fn view(&self) -> DispatchView {
        match self {
            Dispatch::Get(f) => DispatchView::Get(f@),
            Dispatch::Post(f) => DispatchView::Post(f@),
            Dispatch::Reply(pkt) => DispatchView::Reply(pkt@),
        }
    }
}

/// The file name that a packet carries in its body: the characters before
/// the first carriage return, one for each byte. A body without a carriage
/// return names no file.
pub open spec fn filename_in(pkt: Seq<u8>) -> Result<Seq<char>, SerrView> {
    if first_index(body_of(pkt), CR) < BODY_LEN {
        Ok(chars_of(filename_of(body_of(pkt))))
    } else {
        Err(SerrView::SERVER("Cannot determine filename"@))
    }
}

/// The operation that a packet asks for, by its flags.
pub open spec fn op_of(pkt: Seq<u8>) -> Result<OpView, SerrView> {
    if flags_of(pkt) == GET {
        match filename_in(pkt) {
            Ok(f) => Ok(OpView::GET(f)),
            Err(e) => Err(e),
        }
    } else if flags_of(pkt) == POST {
        match filename_in(pkt) {
            Ok(f) => Ok(OpView::POST(f)),
            Err(e) => Err(e),
        }
    } else if flags_of(pkt) == FIN {
        Ok(OpView::FIN)
    } else if flags_of(pkt) == ACK {
        Ok(OpView::ACK)
    } else {
        Ok(OpView::NA(flags_of(pkt), seq_of(pkt)))
    }
}

/// What the datastore does for the packet that opened a connection: a
/// request is served, a stale termination is sent back as it came, a stale
/// acknowledgement is answered with a termination for the same sequence
/// number, and anything else is an error.
pub open spec fn dispatch_of(pkt: Seq<u8>) -> Result<DispatchView, SerrView> {
    match op_of(pkt) {
        Ok(OpView::GET(f)) => Ok(DispatchView::Get(f)),
        Ok(OpView::POST(f)) => Ok(DispatchView::Post(f)),
        Ok(OpView::FIN) => Ok(DispatchView::Reply(pkt)),
        Ok(OpView::ACK) => Ok(
            DispatchView::Reply(packet(FIN, seq_of(pkt), zeros(BODY_LEN as nat))),
        ),
        Ok(OpView::NA(flags, _)) => Err(
            SerrView::SERVER(
                "Invalid request initializing flag: "@ + chars_of(decimal(flags as nat)),
            ),
        ),
        Err(e) => Err(e),
    }
}

/// The packet that reports an error to the peer: a missing file as such,
/// any other error as a failure of the server.
pub open spec fn error_packet(serr: SerrView) -> Seq<u8> {
    if serr is DNE {
        packet(FLAG_404, 0, zeros(BODY_LEN as nat))
    } else {
        packet(FLAG_500, 0, zeros(BODY_LEN as nat))
    }
}

/// A file name of ASCII characters without a carriage return, which fits
/// into a body, is read back from every packet that carries it.
pub proof fn lemma_filename_recovered(flag: u8, seq: u64, name: Seq<char>)
    requires
        is_ascii_chars(name),
        name.len() <= BODY_LEN - 2,
        !name.contains('\r'),
    ensures
        filename_in(packet(flag, seq, filename_body(encode_utf8(name)))) == Ok::<
            Seq<char>,
            SerrView,
        >(name),
{
    let bytes = encode_utf8(name);
    is_ascii_chars_encode_utf8(name);
    assert forall|i: int| 0 <= i < bytes.len() implies bytes[i] != CR && bytes[i] as char
        == name[i] by {
        assert(name[i] as u8 == bytes[i]);
        assert(name.contains(name[i]));
        assert('\0' <= name[i] <= '\u{7f}');
    }
    assert(!bytes.contains(CR));
    lemma_filename_round_trip(bytes);
    lemma_packet_round_trip(flag, seq, filename_body(bytes));
    assert(chars_of(bytes) =~= name);
}

/// Read the file name out of the body of a packet.
pub fn get_filename(buf: &[u8; MTU]) -> (r: Result<String, Serr>)
    ensures
        match filename_in(buf@) {
            Ok(f) => r matches Ok(name) && name@ == f,
            Err(failure) => r matches Err(e) && e@ == failure,
        },
{
    let ghost body = body_of(buf@);
    let mut i: usize = BODY_START;
    while i < MTU
        invariant
            BODY_START <= i <= MTU,
            body == body_of(buf@),
            forall|j: int| 0 <= j < i - BODY_START ==> body[j] != CR,
        ensures
            BODY_START <= i <= MTU,
            i < MTU ==> body[i - BODY_START] == CR,
            forall|j: int| 0 <= j < i - BODY_START ==> body[j] != CR,
        decreases MTU - i,
    {
        if buf[i] == CR {
            break ;
        }
        i += 1;
    }
    proof {
        lemma_first_index_is(body, CR, i - BODY_START);
    }
    if i == MTU {
        return Err(Serr::SERVER(String::from_str("Cannot determine filename")));
    }
    let name = bytes_to_str(buf.as_slice(), BODY_START, i);
    assert(buf@.subrange(BODY_START as int, i as int) =~= filename_of(body));
    Ok(name)
}

/// Determine the operation that a packet asks for, and the file that it
/// names. `length` is the number of bytes that arrived.
pub fn determine_op(length: usize, buf: &[u8; MTU]) -> (r: Result<Op, Serr>)
    ensures
        match op_of(buf@) {
            Ok(op) => r matches Ok(found) && found@ == op,
            Err(failure) => r matches Err(e) && e@ == failure,
        },
{
    let flags: u8 = buf[0];

    if flags == GET {
        match get_filename(buf) {
            Ok(f) => Ok(Op::GET(f)),
            Err(e) => Err(e),
        }
    } else if flags == POST {
        match get_filename(buf) {
            Ok(f) => Ok(Op::POST(f)),
            Err(e) => Err(e),
        }
    } else if flags == FIN {
        Ok(Op::FIN)
    } else if flags == ACK {
        Ok(Op::ACK)
    } else {
        match get_seq(buf) {
            Ok(seq) => Ok(Op::NA(flags, seq)),
            Err(e) => Err(e),
        }
    }
}

/// Decide what to do with the datagram that opened a connection: `length`
/// bytes arrived in `buf`.
pub fn receive_connections(length: usize, buf: &[u8; MTU]) -> (r: Result<Dispatch, Serr>)
    ensures
        match dispatch_of(buf@) {
            Ok(dispatch) => r matches Ok(found) && found@ == dispatch,
            Err(failure) => r matches Err(e) && e@ == failure,
        },
{
    match determine_op(length, buf) {
        Ok(Op::GET(f)) => Ok(Dispatch::Get(f)),
        Ok(Op::POST(f)) => Ok(Dispatch::Post(f)),
        Ok(Op::FIN) => Ok(Dispatch::Reply(*buf)),
        Ok(Op::ACK) => {
            match get_seq(buf) {
                Ok(seq) => Ok(Dispatch::Reply(create_header(FIN, seq))),
                Err(e) => Err(e),
            }
        },
        Ok(Op::NA(flag, _)) => {
            let mut msg = String::from_str("Invalid request initializing flag: ");
            msg.append(decimal_string(flag as u64).as_str());
            Err(Serr::SERVER(msg))
        },
        Err(e) => Err(e),
    }
}

/// The packet that tells the peer that the file does not exist.
pub fn send_404_error() -> (pkt: [u8; MTU])
    ensures
        pkt@ == packet(FLAG_404, 0, zeros(BODY_LEN as nat)),
{
    let body: [u8; BODY_LEN] = [0u8; BODY_LEN];
    assert(body@ =~= zeros(BODY_LEN as nat));
    create_pkt(FLAG_404, 0, &body)
}

/// The packet that tells the peer that the server failed.
pub fn send_500_error() -> (pkt: [u8; MTU])
    ensures
        pkt@ == packet(FLAG_500, 0, zeros(BODY_LEN as nat)),
{
    let body: [u8; BODY_LEN] = [0u8; BODY_LEN];
    assert(body@ =~= zeros(BODY_LEN as nat));
    create_pkt(FLAG_500, 0, &body)
}

/// The packet that reports `serr` to the peer.
pub fn send_error(serr: &Serr) -> (pkt: [u8; MTU])
    ensures
        pkt@ == error_packet(serr@),
{
    match serr {
        Serr::DNE(_) => send_404_error(),
        _ => send_500_error(),
    }
}

/// The packet to send to the peer after a connection ended with `r`: none
/// after a success, the report of the error after a failure.
pub fn handle_error(r: &Result<(), Serr>) -> (pkt: Option<[u8; MTU]>)
    ensures
        match r {
            Ok(_) => pkt is None,
            Err(e) => pkt matches Some(p) && p@ == error_packet(e@),
        },
{
    match r {
        Ok(_) => None,
        Err(e) => Some(send_error(e)),
    }
}

} // verus!
