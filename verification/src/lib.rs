//! A SYN-scan engine: the decisions of a raw-IP TCP port scanner, with the
//! packet codec they rest on.
//!
//! The crate holds no I/O. A caller owns the sockets, the clock and the tasks;
//! it hands every datagram and every silent window to a [`receiver::Receiver`]
//! and carries out what comes back.

use vstd::prelude::*;

pub mod cli;
pub mod driver;
pub mod net;
pub mod receiver;
pub mod trace;
pub mod text;
pub mod worker;

verus! {

/// A TCP port.
pub type Port = u16;

/// Where a port stands in the scan.
#[derive(Debug, Clone, Copy, PartialEq, Eq, Structural)]
pub enum PortStatus {
    /// The target answered the probe with SYN|ACK.
    Open,
    /// The target answered the probe with RST|ACK.
    Closed,
    /// Every allowed probe went unanswered.
    Filtered,
    /// No verdict yet.
    NotInspected,
}

/// What the scan knows of one port.
#[derive(Debug, Clone, Copy, PartialEq, Eq, Structural)]
pub struct PortInfo {
    pub status: PortStatus,
    /// How many payloads have carried this port so far.
    pub retried: usize,
}

/// What a message stands for: the ports of a payload as a set, since their
/// order carries no meaning.
pub enum MessageView {
    Payload(Set<Port>),
    Break,
}

/// What the receiver tells the driver.
#[derive(Debug, PartialEq, Eq)]
pub enum Message {
    /// Probe each of these ports once.
    Payload(Vec<Port>),
    /// The scan is over: stop consuming.
    Break,
}

impl View for Message {
    type V = MessageView;

    open spec fn view(&self) -> MessageView {
        match self {
            Message::Payload(ports) => MessageView::Payload(ports@.to_set()),
            Message::Break => MessageView::Break,
        }
    }
}

} // verus!
