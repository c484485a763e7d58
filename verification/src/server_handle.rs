//! The proxy's side of a transfer: the request that opens it, and the
//! answer to the client after it.

use vstd::prelude::*;
use vstd::string::*;
use vstd::utf8::encode_utf8;

use crate::protocol::{
    create_pkt, filename_as_body, filename_body, packet, Handshake, ACK, BODY_LEN, GET, POST,
    SYNACK,
};
use crate::text::{decimal, push_decimal, push_str};
use crate::{Serr, SerrView};

verus! {

/// The request that opens a transfer, or the failure to build it when the
/// name of the file does not fit into a body: a packet with the flags
/// `flags`, the sequence number `seq` and the name in its body, to be
/// answered with the flags `reply`.
pub open spec fn request_of(flags: u8, seq: u64, filename: Seq<char>, reply: u8) -> Result<
    (Seq<u8>, u8),
    SerrView,
> {
    if encode_utf8(filename).len() <= BODY_LEN - 2 {
        Ok((packet(flags, seq, filename_body(encode_utf8(filename))), reply))
    } else {
        Err(SerrView::SERVER("filename exceeds 1461 bytes, cannot fit into packet"@))
    }
}

/// The head of the answer to a download of `size` bytes.
pub open spec fn get_response_of(size: u64) -> Seq<u8> {
    encode_utf8("HTTP/1.1 200 OK\r\n"@) + encode_utf8("Content-Length: "@) + decimal(size as nat)
        + encode_utf8("\r\n\r\n"@)
}

/// The head of the answer to an upload of `length` bytes to `filename`.
pub open spec fn post_response_of(filename: Seq<char>, length: u64) -> Seq<u8> {
    encode_utf8("HTTP/1.1 200 CREATED\r\n"@) + encode_utf8("Location: "@) + encode_utf8(filename)
        + encode_utf8("\r\n"@) + encode_utf8("Content-Length: "@) + decimal(length as nat)
        + encode_utf8("\r\n\r\n"@)
}

/// The request that opens a transfer.
fn request(flags: u8, seq: u64, filename: &String, reply: u8) -> (r: Result<Handshake, Serr>)
    ensures
        match request_of(flags, seq, filename@, reply) {
            Ok(expected) => r matches Ok(handshake) && handshake.packet@ == expected.0
                && handshake.flags == expected.1,
            Err(failure) => r matches Err(e) && e@ == failure,
        },
{
    match filename_as_body(filename) {
        Ok(data) => Ok(Handshake { packet: create_pkt(flags, seq, &data), flags: reply }),
        Err(e) => Err(e),
    }
}

/// Begin the download of `filename`: the request names the file and is
/// answered by a handshake reply, whose sequence number is the length of the
/// file.
pub fn handle_get(filename: &String) -> (r: Result<Handshake, Serr>)
    ensures
        match request_of(GET, 0, filename@, SYNACK) {
            Ok(expected) => r matches Ok(handshake) && handshake.packet@ == expected.0
                && handshake.flags == expected.1,
            Err(failure) => r matches Err(e) && e@ == failure,
        },
{
    request(GET, 0, filename, SYNACK)
}

/// Begin the upload of `length` bytes to `filename`: the request names the
/// file, carries its length as the sequence number, and is answered by an
/// acknowledgement.
pub fn handle_post(filename: &String, length: u64) -> (r: Result<Handshake, Serr>)
    ensures
        match request_of(POST, length, filename@, ACK) {
            Ok(expected) => r matches Ok(handshake) && handshake.packet@ == expected.0
                && handshake.flags == expected.1,
            Err(failure) => r matches Err(e) && e@ == failure,
        },
{
    request(POST, length, filename, ACK)
}

/// The head of the answer to the client after a download of `size` bytes;
/// the file follows it.
pub fn get_response(size: u64) -> (response: Vec<u8>)
    ensures
        response@ == get_response_of(size),
{
    let mut response: Vec<u8> = Vec::new();
    push_str(&mut response, "HTTP/1.1 200 OK\r\n");
    push_str(&mut response, "Content-Length: ");
    push_decimal(&mut response, size);
    push_str(&mut response, "\r\n\r\n");
    assert(response@ =~= get_response_of(size));
    response
}

/// The head of the answer to the client after an upload of `length` bytes
/// to `filename`; the file follows it.
pub fn post_response(filename: &String, length: u64) -> (response: Vec<u8>)
    ensures
        response@ == post_response_of(filename@, length),
{
    let mut response: Vec<u8> = Vec::new();
    push_str(&mut response, "HTTP/1.1 200 CREATED\r\n");
    push_str(&mut response, "Location: ");
    push_str(&mut response, filename.as_str());
    push_str(&mut response, "\r\n");
    push_str(&mut response, "Content-Length: ");
    push_decimal(&mut response, length);
    push_str(&mut response, "\r\n\r\n");
    assert(response@ =~= post_response_of(filename@, length));
    response
}

} // verus!
