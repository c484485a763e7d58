//! The proxy's side of a client's request: reading the head of an HTTP
//! request and answering a failure.

use vstd::prelude::*;
use vstd::string::*;
use vstd::utf8::encode_utf8;

use crate::protocol::{CR, LF};
use crate::text::{
    bytes_to_str, chars_of, decimal, decimal_string, holds_at, matches_at, parse_decimal, parsed,
    push_str,
};
use crate::{Serr, SerrView};

verus! {

/// Length of the name of an HTTP version.
pub const HTTP_LEN: usize = 8;

/// Length of `GET`.
pub const LEN_GET: usize = 3;

/// Length of `POST`.
pub const LEN_POST: usize = 4;

/// Length of the name of the header field that gives the length of the
/// body, with the colon and the space that follow it.
pub const CLEN_LEN: usize = 16;

/// The HTTP operations that the proxy supports.
#[derive(Debug, Clone, PartialEq, Eq)]
pub enum Op {
    /// Download the named file.
    GET(String),
    /// Upload the named file.
    POST(String),
    /// Anything else.
    NA,
}

/// An operation as a mathematical value.
pub enum OpView {
    GET(Seq<char>),
    POST(Seq<char>),
    NA,
}

impl View for Op {
    type V = OpView;

    open spec fn view(&self) -> OpView {
        match self {
            Op::GET(f) => OpView::GET(f@),
            Op::POST(f) => OpView::POST(f@),
            Op::NA => OpView::NA,
        }
    }
}

/// How far the head of a request was read.
pub enum Request {
    /// Nothing was read yet: the request line comes next.
    Start,
    /// The request line was read: header lines come next.
    Headers { operation: Op, content_length: u64 },
    /// The empty line that ends the head was read.
    Ready { operation: Op, content_length: u64 },
}

/// The progress of reading the head of a request, as a mathematical value.
pub enum RequestView {
    Start,
    Headers { operation: OpView, content_length: u64 },
    Ready { operation: OpView, content_length: u64 },
}

impl View for Request {
    type V = RequestView;

    open spec fn view(&self) -> RequestView {
        match self {
            Request::Start => RequestView::Start,
            Request::Headers { operation, content_length } => RequestView::Headers {
                operation: operation@,
                content_length: *content_length,
            },
            Request::Ready { operation, content_length } => RequestView::Ready {
                operation: operation@,
                content_length: *content_length,
            },
        }
    }
}

/// The operation that a request line asks for. The line ends with the
/// version of HTTP and two more bytes; the path stands between the method
/// and the space before the version, and names a file below the working
/// directory. A line too short for that, with another version or another
/// method, is not supported.
pub open spec fn protocol_of(data: Seq<u8>) -> OpView {
    let end = data.len() - 2;
    let path_end = end - HTTP_LEN - 1;
    if path_end < 0 {
        OpView::NA
    } else if !holds_at(data, end - HTTP_LEN, encode_utf8("HTTP/1.0"@)) && !holds_at(
        data,
        end - HTTP_LEN,
        encode_utf8("HTTP/1.1"@),
    ) {
        OpView::NA
    } else if holds_at(data, 0, encode_utf8("GET"@)) && encode_utf8("GET"@).len() + 1 <= path_end {
        OpView::GET(
            "."@ + chars_of(data.subrange(encode_utf8("GET"@).len() as int + 1, path_end)),
        )
    } else if holds_at(data, 0, encode_utf8("POST"@)) && encode_utf8("POST"@).len() + 1
        <= path_end {
        OpView::POST(
            "."@ + chars_of(data.subrange(encode_utf8("POST"@).len() as int + 1, path_end)),
        )
    } else {
        OpView::NA
    }
}

/// The length of the body after the header line `line` was read, where
/// `curr_cl` was the length before: a line that gives the length of the body
/// sets it, any other line leaves it. The number stands between the name of
/// the field and the two bytes that end the line.
pub open spec fn content_len_of(curr_cl: u64, line: Seq<u8>) -> Result<u64, SerrView> {
    let name = encode_utf8("Content-Length: "@);
    if !holds_at(line, 0, name) {
        Ok(curr_cl)
    } else if name.len() + 2 <= line.len() && parsed(
        line.subrange(name.len() as int, line.len() - 2),
    ) is Some {
        Ok(parsed(line.subrange(name.len() as int, line.len() - 2))->0)
    } else {
        Err(SerrView::SERVER("Invalid Content-Length received, terminating TCP stream."@))
    }
}

/// The progress after one more line of the head was read: `l` bytes were
/// read into `buf`.
pub open spec fn request_step(request: RequestView, l: usize, buf: Seq<u8>) -> Result<
    RequestView,
    SerrView,
> {
    match request {
        RequestView::Start => if l > 0 && !(protocol_of(buf) is NA) {
            Ok(RequestView::Headers { operation: protocol_of(buf), content_length: 0 })
        } else {
            Err(SerrView::NA)
        },
        RequestView::Headers { operation, content_length } => {
            let length = if l >= CLEN_LEN {
                content_len_of(content_length, buf)
            } else {
                Ok(content_length)
            };
            match length {
                Err(e) => Err(e),
                Ok(content_length) => if buf == seq![CR, LF] {
                    Ok(RequestView::Ready { operation, content_length })
                } else {
                    Ok(RequestView::Headers { operation, content_length })
                },
            }
        },
        RequestView::Ready { operation, content_length } => Ok(request),
    }
}

/// The answer to the client for a request that failed: none for a request
/// that is not supported.
pub open spec fn error_response(serr: SerrView) -> Option<Seq<u8>> {
    match serr {
        SerrView::DNE(_) => Some(encode_utf8("HTTP/1.1 404 NOT FOUND\r\n\r\n"@)),
        SerrView::SERVER(_) => Some(encode_utf8("HTTP/1.1 500 INTERNAL SERVER ERROR\r\n\r\n"@)),
        SerrView::NA => None,
    }
}

/// Determines the operation that a request line asks for, if it is HTTP.
pub fn determine_protocol(data: &Vec<u8>) -> (op: Op)
    ensures
        op@ == protocol_of(data@),
{
    if data.len() < 2 + HTTP_LEN + 1 {
        return Op::NA;
    }
    let end: usize = data.len() - 2;
    let path_end: usize = end - HTTP_LEN - 1;

    if !matches_at(data.as_slice(), end - HTTP_LEN, "HTTP/1.0".as_bytes()) && !matches_at(
        data.as_slice(),
        end - HTTP_LEN,
        "HTTP/1.1".as_bytes(),
    ) {
        return Op::NA;
    }
    let get: &[u8] = "GET".as_bytes();
    let post: &[u8] = "POST".as_bytes();
    if matches_at(data.as_slice(), 0, get) && get.len() < path_end {
        Op::GET(
            String::from_str(".").concat(
                bytes_to_str(data.as_slice(), get.len() + 1, path_end).as_str(),
            ),
        )
    } else if matches_at(data.as_slice(), 0, post) && post.len() < path_end {
        Op::POST(
            String::from_str(".").concat(
                bytes_to_str(data.as_slice(), post.len() + 1, path_end).as_str(),
            ),
        )
    } else {
        Op::NA
    }
}

/// Fetch the length of the body from a header line, if the line is the one
/// that gives it; `curr_cl` is the length known so far.
pub fn fetch_content_len(curr_cl: u64, buf: &Vec<u8>) -> (r: Result<u64, Serr>)
    ensures
        match content_len_of(curr_cl, buf@) {
            Ok(length) => r == Ok::<u64, Serr>(length),
            Err(failure) => r matches Err(e) && e@ == failure,
        },
{
    let name: &[u8] = "Content-Length: ".as_bytes();
    if !matches_at(buf.as_slice(), 0, name) {
        return Ok(curr_cl);
    }
    if buf.len() - name.len() >= 2 {
        if let Some(length) = parse_decimal(buf.as_slice(), name.len(), buf.len() - 2) {
            return Ok(length);
        }
    }
    Err(Serr::SERVER(String::from_str("Invalid Content-Length received, terminating TCP stream.")))
}

/// Take one more line of the head of a client's request: `l` bytes were
/// read into `buf`, up to and including a line feed. The first line is the
/// request line; the lines after it are header lines, of which the one that
/// gives the length of the body is read; the empty line ends the head.
pub fn handle_request(request: Request, l: usize, buf: &Vec<u8>) -> (r: Result<Request, Serr>)
    ensures
        match request_step(request@, l, buf@) {
            Ok(next) => r matches Ok(found) && found@ == next,
            Err(failure) => r matches Err(e) && e@ == failure,
        },
{
    match request {
        Request::Start => {
            if l > 0 {
                match determine_protocol(buf) {
                    Op::NA => Err(Serr::NA),
                    operation => Ok(Request::Headers { operation, content_length: 0 }),
                }
            } else {
                Err(Serr::NA)
            }
        },
        Request::Headers { operation, content_length } => {
            let mut content_length = content_length;
            if l >= CLEN_LEN {
                content_length =
                match fetch_content_len(content_length, buf) {
                    Ok(i) => i,
                    Err(e) => {
                        return Err(e);
                    },
                };
            }
            if buf.len() == 2 && buf[0] == CR && buf[1] == LF {
                assert(buf@ =~= seq![CR, LF]);
                Ok(Request::Ready { operation, content_length })
            } else {
                Ok(Request::Headers { operation, content_length })
            }
        },
        Request::Ready { operation, content_length } => Ok(
            Request::Ready { operation, content_length },
        ),
    }
}

/// The number of bytes of an upload that are staged after one more read of
/// the client's stream returned `amt` bytes, where `total_read` were staged
/// before and `content_length` are expected. Fails when the stream ends
/// before the expected number was reached.
pub fn stage_upload(total_read: u64, content_length: u64, amt: usize, filename: &String) -> (r:
    Result<u64, Serr>)
    requires
        total_read + amt <= u64::MAX,
    ensures
        match r {
            Ok(total) => !(amt == 0 && total_read != content_length) && total == total_read + amt,
            Err(e) => amt == 0 && total_read != content_length && e@ == SerrView::SERVER(
                "Invalid net amount of data read from stream ("@ + chars_of(
                    decimal(total_read as nat),
                ) + "), should be "@ + chars_of(decimal(content_length as nat)) + " for file "@
                    + filename@,
            ),
        },
{
    if amt == 0 && total_read != content_length {
        let mut msg = String::from_str("Invalid net amount of data read from stream (");
        msg.append(decimal_string(total_read).as_str());
        msg.append("), should be ");
        msg.append(decimal_string(content_length).as_str());
        msg.append(" for file ");
        msg.append(filename.as_str());
        return Err(Serr::SERVER(msg));
    }
    Ok(total_read + amt as u64)
}

/// The answer to send to the client for a request that failed with `serr`,
/// if any.
pub fn send_error(serr: &Serr) -> (response: Option<Vec<u8>>)
    ensures
        match error_response(serr@) {
            Some(bytes) => response matches Some(found) && found@ == bytes,
            None => response is None,
        },
{
    match serr {
        Serr::DNE(_) => Some(send_404_error()),
        Serr::SERVER(_) => Some(send_500_error()),
        Serr::NA => None,
    }
}

/// The answer that tells the client that the file does not exist.
pub fn send_404_error() -> (response: Vec<u8>)
    ensures
        response@ == encode_utf8("HTTP/1.1 404 NOT FOUND\r\n\r\n"@),
{
    let mut response: Vec<u8> = Vec::new();
    push_str(&mut response, "HTTP/1.1 404 NOT FOUND\r\n\r\n");
    assert(response@ =~= encode_utf8("HTTP/1.1 404 NOT FOUND\r\n\r\n"@));
    response
}

/// The answer that tells the client that the server failed.
pub fn send_500_error() -> (response: Vec<u8>)
    ensures
        response@ == encode_utf8("HTTP/1.1 500 INTERNAL SERVER ERROR\r\n\r\n"@),
{
    let mut response: Vec<u8> = Vec::new();
    push_str(&mut response, "HTTP/1.1 500 INTERNAL SERVER ERROR\r\n\r\n");
    assert(response@ =~= encode_utf8("HTTP/1.1 500 INTERNAL SERVER ERROR\r\n\r\n"@));
    response
}

} // verus!
