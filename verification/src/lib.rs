//! Core of a two-tier file-transfer gateway: the packet format, the control
//! exchange and the sliding-window engines of a reliable transport over
//! datagrams, together with the request handling of both tiers.
//!
//! Everything here works on plain values. Sockets, files and timers belong to
//! the program that drives these functions: it performs what a step asks for
//! and reports back what happened.

use vstd::prelude::*;

pub mod datastore;
pub mod datastore_handle;
pub mod protocol;
pub mod proxy;
pub mod server_handle;
pub mod text;

verus! {

/// Smallest payload an Ethernet frame is guaranteed to carry, in bytes.
pub const ETHER_MTU: usize = 1500;

/// Length of a UDP header in bytes.
pub const UDP_H_LEN: usize = 8;

/// Length of an IP header in bytes.
pub const IP_H_LEN: usize = 20;

/// Size in bytes of every datagram of the transport.
pub const MTU: usize = ETHER_MTU - UDP_H_LEN - IP_H_LEN;

/// Whether a transfer still waits for data.
#[derive(Debug, Clone, Copy, PartialEq, Eq)]
pub enum ReadData {
    /// More data is expected.
    MORE,
    /// Every expected byte has been admitted.
    DONE,
}

/// The ways a request can fail.
#[derive(Debug, Clone, PartialEq, Eq)]
pub enum Serr {
    /// The requested resource does not exist.
    DNE(String),
    /// Any other failure, local or reported by the peer.
    SERVER(String),
    /// The request is not one the gateway supports.
    NA,
}

/// An error with its message as a sequence of characters.
pub enum SerrView {
    DNE(Seq<char>),
    SERVER(Seq<char>),
    NA,
}

impl View for Serr {
    type V = SerrView;

    open spec fn view(&self) -> SerrView {
        match self {
            Serr::DNE(m) => SerrView::DNE(m@),
            Serr::SERVER(m) => SerrView::SERVER(m@),
            Serr::NA => SerrView::NA,
        }
    }
}

} // verus!
