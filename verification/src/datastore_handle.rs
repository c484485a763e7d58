//! The datastore's side of a request: the handshake of a download and the
//! start of an upload.

use vstd::prelude::*;

use crate::protocol::receive::buffer::BufView;
use crate::protocol::receive::{Receiver, ReceiverView};
use crate::protocol::{
    create_pkt, get_seq, packet, seq_of, zeros, Handshake, ACK, BODY_LEN, SYNACK,
};
use crate::{Serr, SerrView, MTU};

verus! {

/// Turn any failure into the error `serr`.
pub fn handle_result<T, E>(serr: Serr, r: Result<T, E>) -> (out: Result<T, Serr>)
    ensures
        match r {
            Ok(i) => out == Ok::<T, Serr>(i),
            Err(_) => out == Err::<T, Serr>(serr),
        },
{
    match r {
        Ok(i) => Ok(i),
        Err(_) => Err(serr),
    }
}

/// Process a request to download a file of `file_size` bytes: the
/// handshake tells the peer the length of the file and waits for its
/// acknowledgement. After it the file is sent.
pub fn handle_get(file_size: u64) -> (handshake: Handshake)
    ensures
        handshake.packet@ == packet(SYNACK, file_size, zeros(BODY_LEN as nat)),
        handshake.flags == ACK,
{
    let data: [u8; BODY_LEN] = [0u8; BODY_LEN];
    assert(data@ =~= zeros(BODY_LEN as nat));
    Handshake { packet: create_pkt(SYNACK, file_size, &data), flags: ACK }
}

/// Process a request to upload the file `filename`: the sequence number of
/// the request `buf` is the length of the file. Returns the transfer to run.
/// Fails for a length so close to the largest number that counting one more
/// body would overflow.
pub fn handle_post(filename: String, buf: &[u8; MTU]) -> (r: Result<Receiver, Serr>)
    ensures
        match r {
            Ok(rx) => {
                &&& seq_of(buf@) + BODY_LEN <= u64::MAX
                &&& rx.wf()
                &&& rx@ == (ReceiverView {
                    buf: BufView::fresh(filename@, seq_of(buf@) as nat),
                    heard: 0,
                })
            },
            Err(e) => {
                &&& seq_of(buf@) + BODY_LEN > u64::MAX
                &&& e@ == SerrView::SERVER("File is too large to receive"@)
            },
        },
{
    match get_seq(buf) {
        Ok(size) => Receiver::open(filename, size),
        Err(e) => Err(e),
    }
}

} // verus!
