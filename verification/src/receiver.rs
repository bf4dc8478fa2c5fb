//! The receiver: the table of port states, and what each answer from the
//! target and each silent window does to it.
//!
//! [`Scan`] is the mathematical state and [`Scan::step`] its transition;
//! [`Receiver`] is the executable state, and its methods are proved to follow
//! the model step by step. The caller waits on the socket: it turns each
//! datagram and each silent window into a call, sends the messages that come
//! back, and stops once it has sent [`Message::Break`].

use crate::cli::PortRange;
use crate::driver::{ascending, lists, seed_ports, seed_set};
use crate::net::{field, parse_tcp_from_ip, DecodeError};
use crate::text::{decimal, to_decimal};
use crate::{Message, MessageView, Port, PortInfo, PortStatus};
use std::collections::HashMap;
use vstd::prelude::*;
use vstd::string::*;

verus! {

broadcast use vstd::std_specs::hash::group_hash_axioms;

/// The TCP flags of an answer from an open port.
pub const SYNACK: u8 = 0x12;

/// The TCP flags of an answer from a closed port.
pub const RSTACK: u8 = 0x14;

/// How long the socket may stay silent, in milliseconds, before the silence
/// counts as an event.
pub const SILENT_WINDOW_MS: u64 = 300;

/// What the receiver's wait on the socket ends with.
#[derive(Debug, Clone, Copy, PartialEq, Eq, Structural)]
pub enum Event {
    /// A TCP segment came from `port` of the target, with these flags.
    Response { port: Port, flags: u8 },
    /// Nothing came for a whole silent window.
    Silence,
}

/// What the caller has to do after an event.
#[derive(Debug, PartialEq, Eq)]
pub enum Action {
    /// Nothing.
    Idle,
    /// Tell the user that this port is open.
    Announce(Port),
    /// Send this message to the driver.
    Send(Message),
}

/// The status of a port after an answer with `flags`: only a port without a
/// verdict takes one.
pub open spec fn verdict(status: PortStatus, flags: u8) -> PortStatus {
    if status != PortStatus::NotInspected {
        status
    } else if flags == SYNACK {
        PortStatus::Open
    } else if flags == RSTACK {
        PortStatus::Closed
    } else {
        status
    }
}

/// The state of a scan.
#[verifier::ext_equal]
pub struct Scan {
    /// What is known of each port of the seed set.
    pub table: Map<Port, PortInfo>,
    /// How many payloads may carry one port.
    pub max_retries: usize,
    /// Whether `Break` has been sent.
    pub stopped: bool,
}

impl Scan {
    /// The scan right after the first payload, which carries the whole seed
    /// set, has been handed out.
    pub open spec fn start(seed: Set<Port>, max_retries: usize) -> Scan {
        Scan {
            table: Map::new(
                |p: Port| seed.contains(p),
                |p: Port| PortInfo { status: PortStatus::NotInspected, retried: 1 },
            ),
            max_retries,
            stopped: false,
        }
    }

    /// The ports that still wait for a verdict and may be probed again.
    pub open spec fn pending(self) -> Set<Port> {
        Set::new(
            |p: Port|
                self.table.dom().contains(p) && self.table[p].status == PortStatus::NotInspected
                    && self.table[p].retried < self.max_retries,
        )
    }

    /// The scan after an answer from `port` with `flags`. An answer from a
    /// port outside the table, or after the end, changes nothing.
    pub open spec fn respond(self, port: Port, flags: u8) -> Scan {
        if self.stopped || !self.table.dom().contains(port) {
            self
        } else {
            Scan {
                table: self.table.insert(
                    port,
                    PortInfo {
                        status: verdict(self.table[port].status, flags),
                        retried: self.table[port].retried,
                    },
                ),
                max_retries: self.max_retries,
                stopped: self.stopped,
            }
        }
    }

    /// The scan after a silent window: it ends when no port is pending, else
    /// every pending port is counted once more.
    pub open spec fn retry(self) -> Scan {
        if self.stopped {
            self
        } else if self.pending() =~= Set::empty() {
            Scan { table: self.table, max_retries: self.max_retries, stopped: true }
        } else {
            Scan {
                table: Map::new(
                    |p: Port| self.table.dom().contains(p),
                    |p: Port|
                        if self.pending().contains(p) {
                            PortInfo {
                                status: self.table[p].status,
                                retried: (self.table[p].retried + 1) as usize,
                            }
                        } else {
                            self.table[p]
                        },
                ),
                max_retries: self.max_retries,
                stopped: false,
            }
        }
    }

    /// The scan after `event`.
    pub open spec fn step(self, event: Event) -> Scan {
        match event {
            Event::Response { port, flags } => self.respond(port, flags),
            Event::Silence => self.retry(),
        }
    }

    /// The message that `event` makes the receiver send, if any: a silent
    /// window before the end sends the pending ports, or `Break` when there
    /// are none.
    pub open spec fn emits(self, event: Event) -> Option<MessageView> {
        if event == Event::Silence && !self.stopped {
            if self.pending() =~= Set::empty() {
                Some(MessageView::Break)
            } else {
                Some(MessageView::Payload(self.pending()))
            }
        } else {
            None
        }
    }

    /// The port that `event` shows to be open, if it does: the first SYN|ACK
    /// of a port of the table.
    pub open spec fn announces(self, event: Event) -> Option<Port> {
        match event {
            Event::Response { port, flags } => if !self.stopped && self.table.dom().contains(port)
                && self.table[port].status == PortStatus::NotInspected && flags == SYNACK {
                Some(port)
            } else {
                None
            },
            Event::Silence => None,
        }
    }

    /// The ports found closed.
    pub open spec fn closed(self) -> Set<Port> {
        Set::new(
            |p: Port| self.table.dom().contains(p) && self.table[p].status == PortStatus::Closed,
        )
    }

    /// The ports found filtered.
    pub open spec fn filtered(self) -> Set<Port> {
        Set::new(
            |p: Port| self.table.dom().contains(p) && self.table[p].status == PortStatus::Filtered,
        )
    }

    /// The ports that more than one payload has carried.
    pub open spec fn retried_more_than_once(self) -> Set<Port> {
        Set::new(|p: Port| self.table.dom().contains(p) && self.table[p].retried > 1)
    }

    /// The scan with every port that is out of probes and still without a
    /// verdict set to `Filtered`.
    pub open spec fn settle(self) -> Scan {
        Scan {
            table: Map::new(
                |p: Port| self.table.dom().contains(p),
                |p: Port|
                    if self.table[p].status == PortStatus::NotInspected && self.table[p].retried
                        >= self.max_retries {
                        PortInfo { status: PortStatus::Filtered, retried: self.table[p].retried }
                    } else {
                        self.table[p]
                    },
            ),
            max_retries: self.max_retries,
            stopped: self.stopped,
        }
    }
}

/// The counts that close a scan.
#[derive(Debug, Clone, Copy, PartialEq, Eq, Structural)]
pub struct Report {
    /// How many ports were found closed.
    pub closed: usize,
    /// How many ports were found filtered.
    pub filtered: usize,
    /// How many ports more than one payload has carried.
    pub retried_more_than_once: usize,
}

/// The line that tells the user of an open port.
pub open spec fn open_text(port: Port) -> Seq<char> {
    decimal(port as nat) + ": open"@
}

/// Writes the line that tells the user of an open port.
pub fn open_line(port: Port) -> (line: String)
    ensures
        line@ == open_text(port),
{
    let mut line = to_decimal(port as u64);
    line.append(": open");
    line
}

impl Report {
    /// The three lines of the report.
    pub open spec fn text(self) -> Seq<Seq<char>> {
        seq![
            "ports closed: "@ + decimal(self.closed as nat),
            "ports filtered: "@ + decimal(self.filtered as nat),
            "ports retried more than once: "@ + decimal(self.retried_more_than_once as nat),
        ]
    }

    /// Writes the three lines of the report.
    pub fn lines(&self) -> (lines: Vec<String>)
        ensures
            lines@.map_values(|line: String| line@) == self.text(),
    {
        let mut closed = String::from_str("ports closed: ");
        closed.append(to_decimal(self.closed as u64).as_str());
        let mut filtered = String::from_str("ports filtered: ");
        filtered.append(to_decimal(self.filtered as u64).as_str());
        let mut retried = String::from_str("ports retried more than once: ");
        retried.append(to_decimal(self.retried_more_than_once as u64).as_str());
        let mut lines: Vec<String> = Vec::new();
        lines.push(closed);
        lines.push(filtered);
        lines.push(retried);
        assert(lines@.map_values(|line: String| line@) =~= self.text());
        lines
    }
}

/// The ports among the first `upto` of `ports` that `keep` holds of.
spec fn hits(ports: Seq<Port>, upto: int, keep: spec_fn(Port) -> bool) -> Set<Port> {
    Set::new(|p: Port| exists|k: int| 0 <= k < upto && ports[k] == p && keep(p))
}

/// One port more looked at is one hit more, or none.
proof fn lemma_hits_grow(ports: Seq<Port>, upto: int, keep: spec_fn(Port) -> bool)
    requires
        ascending(ports),
        0 <= upto < ports.len(),
        hits(ports, upto, keep).finite(),
    ensures
        hits(ports, upto + 1, keep).finite(),
        hits(ports, upto + 1, keep).len() == hits(ports, upto, keep).len() + if keep(
            ports[upto],
        ) {
            1nat
        } else {
            0nat
        },
{
    let before = hits(ports, upto, keep);
    let after = hits(ports, upto + 1, keep);
    if keep(ports[upto]) {
        assert(!before.contains(ports[upto]));
        assert(after =~= before.insert(ports[upto])) by {
            assert forall|p: Port| after.contains(p) implies before.insert(ports[upto]).contains(
                p,
            ) by {
                let k = choose|k: int| 0 <= k < upto + 1 && ports[k] == p && keep(p);
                if k < upto {
                    assert(before.contains(p));
                }
            }
            assert forall|p: Port| before.insert(ports[upto]).contains(p) implies after.contains(
                p,
            ) by {
                if p == ports[upto] {
                    assert(ports[upto] == p && keep(p));
                } else {
                    let k = choose|k: int| 0 <= k < upto && ports[k] == p && keep(p);
                    assert(0 <= k < upto + 1 && ports[k] == p && keep(p));
                }
            }
        }
    } else {
        assert(after =~= before) by {
            assert forall|p: Port| after.contains(p) implies before.contains(p) by {
                let k = choose|k: int| 0 <= k < upto + 1 && ports[k] == p && keep(p);
                assert(k < upto);
            }
            assert forall|p: Port| before.contains(p) implies after.contains(p) by {
                let k = choose|k: int| 0 <= k < upto && ports[k] == p && keep(p);
                assert(0 <= k < upto + 1 && ports[k] == p && keep(p));
            }
        }
    }
}

/// The table of port states, as the receiver holds it while it listens.
pub struct Receiver {
    ports: Vec<Port>,
    table: HashMap<Port, PortInfo>,
    max_retries: usize,
    stopped: bool,
}

impl View for Receiver {
    type V = Scan;

    closed spec fn view(&self) -> Scan {
        Scan { table: self.table@, max_retries: self.max_retries, stopped: self.stopped }
    }
}

impl Receiver {
    /// The receiver is well formed when its list of ports is the listing of
    /// the table's keys. Every method keeps it so.
    pub closed spec fn wf(&self) -> bool {
        lists(self.ports@, self.table@.dom())
    }

    /// Sets the table up for `seed` and hands out the first payload, which
    /// carries every port of `seed` once, smallest first. Each port starts
    /// without a verdict and counted once, for that payload.
    pub fn new(seed: &Vec<Port>, max_retries: usize) -> (begun: (Receiver, Message))
        ensures
            begun.0.wf(),
            begun.0@ == Scan::start(seed@.to_set(), max_retries),
            begun.1 matches Message::Payload(payload) && lists(payload@, seed@.to_set()),
    {
        let none: Vec<PortRange> = Vec::new();
        let ports = seed_ports(seed, &none);
        assert(seed_set(seed@, none@) =~= seed@.to_set());
        let mut table: HashMap<Port, PortInfo> = HashMap::new();
        let mut payload: Vec<Port> = Vec::new();
        let mut i: usize = 0;
        while i < ports.len()
            invariant
                i <= ports.len(),
                payload@ == ports@.take(i as int),
                table@.dom() =~= payload@.to_set(),
                forall|p: Port| #[trigger]
                    table@.dom().contains(p) ==> table@[p] == (PortInfo {
                        status: PortStatus::NotInspected,
                        retried: 1,
                    }),
            decreases ports.len() - i,
        {
            let port = ports[i];
            table.insert(port, PortInfo { status: PortStatus::NotInspected, retried: 1 });
            payload.push(port);
            assert(payload@ =~= ports@.take(i + 1));
            assert(payload@ =~= ports@.take(i as int).push(port));
            assert(table@.dom() =~= payload@.to_set()) by {
                assert forall|p: Port| payload@.to_set().contains(p) implies table@.dom().contains(
                    p,
                ) by {
                    let k = choose|k: int| 0 <= k < payload@.len() && payload@[k] == p;
                    if k < i {
                        assert(ports@.take(i as int)[k] == p);
                        assert(ports@.take(i as int).to_set().contains(p));
                    }
                }
                assert forall|p: Port| table@.dom().contains(p) implies payload@.to_set().contains(
                    p,
                ) by {
                    if p == port {
                        assert(payload@[i as int] == p);
                    } else {
                        assert(ports@.take(i as int).to_set().contains(p));
                        let k = choose|k: int|
                            0 <= k < ports@.take(i as int).len() && ports@.take(i as int)[k] == p;
                        assert(payload@[k] == p);
                    }
                }
            }
            i += 1;
        }
        assert(ports@.take(ports.len() as int) =~= ports@);
        let receiver = Receiver { ports, table, max_retries, stopped: false };
        assert(receiver@ =~= Scan::start(seed@.to_set(), max_retries));
        (receiver, Message::Payload(payload))
    }

    /// Whether `Break` has been sent.
    pub fn is_stopped(&self) -> (stopped: bool)
        ensures
            stopped == self@.stopped,
    {
        self.stopped
    }

    /// How many payloads may carry one port.
    pub fn max_retries(&self) -> (max_retries: usize)
        ensures
            max_retries == self@.max_retries,
    {
        self.max_retries
    }

    /// What is known of `port`; `None` for a port outside the seed set.
    pub fn info(&self, port: Port) -> (info: Option<PortInfo>)
        ensures
            info == if self@.table.dom().contains(port) {
                Some(self@.table[port])
            } else {
                None
            },
    {
        match self.table.get(&port) {
            Some(info) => Some(*info),
            None => None,
        }
    }

    /// The ports of the table, smallest first.
    pub fn ports(&self) -> (ports: &Vec<Port>)
        requires
            self.wf(),
        ensures
            lists(ports@, self@.table.dom()),
    {
        &self.ports
    }

    /// Takes in an answer from `port` with `flags`. The result is the port,
    /// if this answer is the one that shows it to be open.
    fn hear(&mut self, port: Port, flags: u8) -> (opened: Option<Port>)
        requires
            old(self).wf(),
        ensures
            final(self).wf(),
            final(self)@ == old(self)@.respond(port, flags),
            opened == old(self)@.announces(Event::Response { port, flags }),
    {
        if self.stopped {
            return None;
        }
        if let Some(known) = self.info(port) {
            if known.status == PortStatus::NotInspected {
                let ghost before = self.table@;
                if flags == SYNACK {
                    self.table.insert(
                        port,
                        PortInfo { status: PortStatus::Open, retried: known.retried },
                    );
                    assert(self.table@.dom() =~= before.dom());
                    return Some(port);
                }
                if flags == RSTACK {
                    self.table.insert(
                        port,
                        PortInfo { status: PortStatus::Closed, retried: known.retried },
                    );
                    assert(self.table@.dom() =~= before.dom());
                    return None;
                }
            }
            assert(self@ =~= old(self)@.respond(port, flags));
        }
        None
    }

    /// Takes in a silent window: picks the pending ports, smallest first,
    /// counts each once more and hands them out; with none pending, ends the
    /// scan. `None` once the scan has ended.
    fn lull(&mut self) -> (message: Option<Message>)
        requires
            old(self).wf(),
        ensures
            final(self).wf(),
            final(self)@ == old(self)@.retry(),
            old(self)@.emits(Event::Silence) == match message {
                Some(m) => Some(m@),
                None => None,
            },
            message matches Some(Message::Payload(payload)) ==> ascending(payload@),
    {
        if self.stopped {
            return None;
        }
        let ghost before = self@;
        let mut payload: Vec<Port> = Vec::new();
        let mut i: usize = 0;
        while i < self.ports.len()
            invariant
                i <= self.ports.len(),
                before == old(self)@,
                !before.stopped,
                self.ports == old(self).ports,
                self.max_retries == before.max_retries,
                self.stopped == before.stopped,
                lists(self.ports@, before.table.dom()),
                self.table@.dom() == before.table.dom(),
                forall|k: int|
                    0 <= k < self.ports.len() ==> self.table@[#[trigger] self.ports[k]] == if k < i
                        && before.pending().contains(self.ports[k]) {
                        PortInfo {
                            status: before.table[self.ports[k]].status,
                            retried: (before.table[self.ports[k]].retried + 1) as usize,
                        }
                    } else {
                        before.table[self.ports[k]]
                    },
                ascending(payload@),
                forall|j: int|
                    0 <= j < payload.len() ==> exists|k: int|
                        0 <= k < i && self.ports[k] == #[trigger] payload[j]
                            && before.pending().contains(self.ports[k]),
                forall|k: int|
                    0 <= k < i && before.pending().contains(#[trigger] self.ports[k])
                        ==> payload@.contains(self.ports[k]),
            decreases self.ports.len() - i,
        {
            let port = self.ports[i];
            assert(self.ports@.to_set().contains(port));
            if let Some(known) = self.info(port) {
                if known.status == PortStatus::NotInspected && known.retried < self.max_retries {
                    let ghost listed = payload@;
                    self.table.insert(
                        port,
                        PortInfo { status: known.status, retried: known.retried + 1 },
                    );
                    payload.push(port);
                    assert(self.table@.dom() =~= before.table.dom());
                    assert(ascending(payload@)) by {
                        assert forall|a: int, b: int| 0 <= a < b < payload.len() implies payload[a]
                            < payload[b] by {
                            if b == payload.len() - 1 {
                                let k = choose|k: int|
                                    0 <= k < i && self.ports[k] == listed[a]
                                        && before.pending().contains(self.ports[k]);
                                assert(self.ports[k] < self.ports[i as int]);
                            } else {
                                assert(listed[a] < listed[b]);
                            }
                        }
                    }
                    assert forall|j: int| 0 <= j < payload.len() implies exists|k: int|
                        0 <= k < i + 1 && self.ports[k] == #[trigger] payload[j]
                            && before.pending().contains(self.ports[k]) by {
                        if j < listed.len() {
                            let k = choose|k: int|
                                0 <= k < i && self.ports[k] == listed[j]
                                    && before.pending().contains(self.ports[k]);
                            assert(self.ports[k] == payload[j]);
                        } else {
                            assert(self.ports[i as int] == payload[j]);
                        }
                    }
                    assert forall|k: int|
                        0 <= k < i + 1 && before.pending().contains(
                            #[trigger] self.ports[k],
                        ) implies payload@.contains(self.ports[k]) by {
                        if k < i {
                            assert(listed.contains(self.ports[k]));
                            let j = choose|j: int|
                                0 <= j < listed.len() && listed[j] == self.ports[k];
                            assert(payload[j] == self.ports[k]);
                        } else {
                            assert(payload[payload.len() - 1] == self.ports[k]);
                        }
                    }
                }
            }
            i += 1;
        }
        assert(payload@.to_set() =~= before.pending()) by {
            assert forall|p: Port| before.pending().contains(p) implies payload@.to_set().contains(
                p,
            ) by {
                assert(self.ports@.to_set().contains(p));
                let k = choose|k: int| 0 <= k < self.ports.len() && self.ports[k] == p;
                assert(payload@.contains(self.ports[k]));
            }
            assert forall|p: Port| payload@.to_set().contains(p) implies before.pending().contains(
                p,
            ) by {
                let j = choose|j: int| 0 <= j < payload.len() && payload[j] == p;
            }
        }
        if payload.len() == 0 {
            assert(before.pending() =~= Set::empty());
            assert(self.table@ =~= before.table) by {
                assert forall|p: Port| self.table@.dom().contains(p) implies self.table@[p]
                    == before.table[p] by {
                    assert(self.ports@.to_set().contains(p));
                    let k = choose|k: int| 0 <= k < self.ports.len() && self.ports[k] == p;
                    assert(self.table@[self.ports[k]] == before.table[self.ports[k]]);
                }
            }
            self.stopped = true;
            Some(Message::Break)
        } else {
            assert(before.pending().contains(payload[0]));
            assert(self.table@ =~= before.retry().table) by {
                assert forall|p: Port| self.table@.dom().contains(p) implies self.table@[p]
                    == before.retry().table[p] by {
                    assert(self.ports@.to_set().contains(p));
                    let k = choose|k: int| 0 <= k < self.ports.len() && self.ports[k] == p;
                    assert(self.table@[self.ports[k]] == before.retry().table[self.ports[k]]);
                }
            }
            Some(Message::Payload(payload))
        }
    }

    /// Takes in one event: the table moves as [`Scan::step`] says, and the
    /// result is what the caller has to do. A payload lists its ports
    /// smallest first.
    pub fn step(&mut self, event: Event) -> (action: Action)
        requires
            old(self).wf(),
        ensures
            final(self).wf(),
            final(self)@ == old(self)@.step(event),
            old(self)@.announces(event) == match action {
                Action::Announce(port) => Some(port),
                _ => None,
            },
            old(self)@.emits(event) == match action {
                Action::Send(message) => Some(message@),
                _ => None,
            },
            action matches Action::Send(Message::Payload(payload)) ==> ascending(payload@),
    {
        match event {
            Event::Response { port, flags } => {
                match self.hear(port, flags) {
                    Some(opened) => Action::Announce(opened),
                    None => Action::Idle,
                }
            },
            Event::Silence => {
                match self.lull() {
                    Some(message) => Action::Send(message),
                    None => Action::Idle,
                }
            },
        }
    }

    /// Takes in one datagram as it came from the socket. A datagram too
    /// short to hold a TCP header is refused and changes nothing; any other
    /// is an answer from the source port it names, with the flags it carries.
    /// The result is the port that the answer shows to be open, if it does.
    pub fn on_datagram(&mut self, buf: &[u8]) -> (outcome: Result<Option<Port>, DecodeError>)
        requires
            old(self).wf(),
        ensures
            final(self).wf(),
            final(self)@ == if buf@.len() >= 40 {
                old(self)@.step(answer(buf@))
            } else {
                old(self)@
            },
            outcome == if buf@.len() >= 40 {
                Ok::<Option<Port>, DecodeError>(old(self)@.announces(answer(buf@)))
            } else {
                Err(DecodeError::TooShort)
            },
    {
        match parse_tcp_from_ip(buf) {
            Ok((port, flags)) => Ok(self.hear(port, flags)),
            Err(error) => Err(error),
        }
    }

    /// Ends the scan's bookkeeping: every port that is out of probes and
    /// still without a verdict becomes `Filtered`.
    pub fn finalize(&mut self)
        requires
            old(self).wf(),
        ensures
            final(self).wf(),
            final(self)@ == old(self)@.settle(),
    {
        let ghost before = self@;
        let mut i: usize = 0;
        while i < self.ports.len()
            invariant
                i <= self.ports.len(),
                before == old(self)@,
                self.ports == old(self).ports,
                self.max_retries == before.max_retries,
                self.stopped == before.stopped,
                lists(self.ports@, before.table.dom()),
                self.table@.dom() == before.table.dom(),
                forall|k: int|
                    0 <= k < self.ports.len() ==> self.table@[#[trigger] self.ports[k]] == if k
                        < i {
                        before.settle().table[self.ports[k]]
                    } else {
                        before.table[self.ports[k]]
                    },
            decreases self.ports.len() - i,
        {
            let port = self.ports[i];
            assert(self.ports@.to_set().contains(port));
            if let Some(known) = self.info(port) {
                if known.status == PortStatus::NotInspected && known.retried >= self.max_retries {
                    self.table.insert(
                        port,
                        PortInfo { status: PortStatus::Filtered, retried: known.retried },
                    );
                    assert(self.table@.dom() =~= before.table.dom());
                }
            }
            i += 1;
        }
        assert(self.table@ =~= before.settle().table) by {
            assert forall|p: Port| self.table@.dom().contains(p) implies self.table@[p]
                == before.settle().table[p] by {
                assert(self.ports@.to_set().contains(p));
                let k = choose|k: int| 0 <= k < self.ports.len() && self.ports[k] == p;
                assert(self.table@[self.ports[k]] == before.settle().table[self.ports[k]]);
            }
        }
    }

    /// Counts the ports found closed, the ports found filtered, and the
    /// ports that more than one payload has carried.
    pub fn report(&self) -> (report: Report)
        requires
            self.wf(),
        ensures
            report.closed == self@.closed().len(),
            report.filtered == self@.filtered().len(),
            report.retried_more_than_once == self@.retried_more_than_once().len(),
    {
        let ghost is_closed = |p: Port| self.table@[p].status == PortStatus::Closed;
        let ghost is_filtered = |p: Port| self.table@[p].status == PortStatus::Filtered;
        let ghost is_retried = |p: Port| self.table@[p].retried > 1;
        let mut closed: usize = 0;
        let mut filtered: usize = 0;
        let mut retried: usize = 0;
        let mut i: usize = 0;
        assert(hits(self.ports@, 0, is_closed) =~= Set::<Port>::empty());
        assert(hits(self.ports@, 0, is_filtered) =~= Set::<Port>::empty());
        assert(hits(self.ports@, 0, is_retried) =~= Set::<Port>::empty());
        while i < self.ports.len()
            invariant
                i <= self.ports.len(),
                lists(self.ports@, self.table@.dom()),
                is_closed == |p: Port| self.table@[p].status == PortStatus::Closed,
                is_filtered == |p: Port| self.table@[p].status == PortStatus::Filtered,
                is_retried == |p: Port| self.table@[p].retried > 1,
                hits(self.ports@, i as int, is_closed).finite(),
                hits(self.ports@, i as int, is_filtered).finite(),
                hits(self.ports@, i as int, is_retried).finite(),
                closed == hits(self.ports@, i as int, is_closed).len(),
                filtered == hits(self.ports@, i as int, is_filtered).len(),
                retried == hits(self.ports@, i as int, is_retried).len(),
                closed <= i,
                filtered <= i,
                retried <= i,
            decreases self.ports.len() - i,
        {
            let port = self.ports[i];
            assert(self.ports@.to_set().contains(port));
            proof {
                lemma_hits_grow(self.ports@, i as int, is_closed);
                lemma_hits_grow(self.ports@, i as int, is_filtered);
                lemma_hits_grow(self.ports@, i as int, is_retried);
            }
            if let Some(known) = self.info(port) {
                if known.status == PortStatus::Closed {
                    closed += 1;
                }
                if known.status == PortStatus::Filtered {
                    filtered += 1;
                }
                if known.retried > 1 {
                    retried += 1;
                }
            }
            i += 1;
        }
        proof {
            let all = self.ports@.len() as int;
            assert(hits(self.ports@, all, is_closed) =~= self@.closed()) by {
                assert forall|p: Port| self@.closed().contains(p) implies hits(
                    self.ports@,
                    all,
                    is_closed,
                ).contains(p) by {
                    assert(self.ports@.to_set().contains(p));
                    let k = choose|k: int| 0 <= k < self.ports.len() && self.ports[k] == p;
                    assert(0 <= k < all && self.ports@[k] == p && is_closed(p));
                }
            }
            assert(hits(self.ports@, all, is_filtered) =~= self@.filtered()) by {
                assert forall|p: Port| self@.filtered().contains(p) implies hits(
                    self.ports@,
                    all,
                    is_filtered,
                ).contains(p) by {
                    assert(self.ports@.to_set().contains(p));
                    let k = choose|k: int| 0 <= k < self.ports.len() && self.ports[k] == p;
                    assert(0 <= k < all && self.ports@[k] == p && is_filtered(p));
                }
            }
            assert(hits(self.ports@, all, is_retried) =~= self@.retried_more_than_once()) by {
                assert forall|p: Port| self@.retried_more_than_once().contains(p) implies hits(
                    self.ports@,
                    all,
                    is_retried,
                ).contains(p) by {
                    assert(self.ports@.to_set().contains(p));
                    let k = choose|k: int| 0 <= k < self.ports.len() && self.ports[k] == p;
                    assert(0 <= k < all && self.ports@[k] == p && is_retried(p));
                }
            }
        }
        Report { closed, filtered, retried_more_than_once: retried }
    }
}

/// The event that a datagram of forty bytes or more stands for.
pub open spec fn answer(buf: Seq<u8>) -> Event {
    Event::Response { port: field(buf[20], buf[21]), flags: buf[33] }
}

} // verus!
