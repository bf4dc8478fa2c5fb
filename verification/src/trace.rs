//! Whole runs of the receiver: the scan after any sequence of events, the
//! messages sent on the way, and what holds of every such run.

use crate::receiver::{Action, Event, Receiver, Scan, RSTACK, SYNACK};
use crate::{Message, MessageView, Port, PortStatus};
use vstd::prelude::*;

verus! {

/// The scan of `seed` after `events`, in the order they came.
pub open spec fn run(seed: Set<Port>, max_retries: usize, events: Seq<Event>) -> Scan
    decreases events.len(),
{
    if events.len() == 0 {
        Scan::start(seed, max_retries)
    } else {
        run(seed, max_retries, events.drop_last()).step(events.last())
    }
}

/// The messages sent up to the end of `events`: the first payload, which
/// carries the seed set, then what each event made the receiver send.
pub open spec fn sent(seed: Set<Port>, max_retries: usize, events: Seq<Event>) -> Seq<
    MessageView,
>
    decreases events.len(),
{
    if events.len() == 0 {
        seq![MessageView::Payload(seed)]
    } else {
        let earlier = sent(seed, max_retries, events.drop_last());
        match run(seed, max_retries, events.drop_last()).emits(events.last()) {
            Some(message) => earlier.push(message),
            None => earlier,
        }
    }
}

/// How many of `messages` are payloads.
pub open spec fn payloads(messages: Seq<MessageView>) -> nat
    decreases messages.len(),
{
    if messages.len() == 0 {
        0
    } else {
        payloads(messages.drop_last()) + if messages.last() is Payload {
            1nat
        } else {
            0nat
        }
    }
}

/// How many of `messages` are payloads that carry `port`.
pub open spec fn carried(messages: Seq<MessageView>, port: Port) -> nat
    decreases messages.len(),
{
    if messages.len() == 0 {
        0
    } else {
        carried(messages.drop_last(), port) + if messages.last() matches MessageView::Payload(ports)
            && ports.contains(port) {
            1nat
        } else {
            0nat
        }
    }
}

/// Whether some port of the scan may still be put into a payload.
pub open spec fn has_budget(scan: Scan) -> bool {
    exists|p: Port| scan.table.dom().contains(p) && (#[trigger] scan.table[p]).retried
        < scan.max_retries
}

/// How many silent windows of `events` found the scan running and with a
/// port that might still be put into a payload.
pub open spec fn budget_windows(seed: Set<Port>, max_retries: usize, events: Seq<Event>) -> nat
    decreases events.len(),
{
    if events.len() == 0 {
        0
    } else {
        let before = run(seed, max_retries, events.drop_last());
        budget_windows(seed, max_retries, events.drop_last()) + if events.last() == Event::Silence
            && !before.stopped && has_budget(before) {
            1nat
        } else {
            0nat
        }
    }
}

/// Whether an answer from `port` with `flags` came while the scan was
/// running.
pub open spec fn heard(
    seed: Set<Port>,
    max_retries: usize,
    events: Seq<Event>,
    port: Port,
    flags: u8,
) -> bool {
    exists|i: int|
        0 <= i < events.len() && #[trigger] events[i] == (Event::Response { port, flags }) && !run(
            seed,
            max_retries,
            events.take(i),
        ).stopped
}

/// The table always holds the seed set and nothing else, and the limit on
/// retries never changes.
pub proof fn lemma_table_keeps_its_ports(seed: Set<Port>, max_retries: usize, events: Seq<Event>)
    ensures
        run(seed, max_retries, events).table.dom() == seed,
        run(seed, max_retries, events).max_retries == max_retries,
    decreases events.len(),
{
    if events.len() == 0 {
        assert(run(seed, max_retries, events).table.dom() =~= seed);
    } else {
        lemma_table_keeps_its_ports(seed, max_retries, events.drop_last());
        let before = run(seed, max_retries, events.drop_last());
        assert(before.step(events.last()).table.dom() =~= before.table.dom());
    }
}

/// Every port has been in at least one payload, and in no more than the
/// limit allows once the limit is at least one.
pub proof fn lemma_retried_within_limit(
    seed: Set<Port>,
    max_retries: usize,
    events: Seq<Event>,
    port: Port,
)
    requires
        seed.contains(port),
        max_retries >= 1,
    ensures
        1 <= run(seed, max_retries, events).table[port].retried <= max_retries,
    decreases events.len(),
{
    if events.len() > 0 {
        lemma_retried_within_limit(seed, max_retries, events.drop_last(), port);
        lemma_table_keeps_its_ports(seed, max_retries, events.drop_last());
    }
}

/// A port's count is the number of payloads that carried it.
pub proof fn lemma_retried_counts_payloads(
    seed: Set<Port>,
    max_retries: usize,
    events: Seq<Event>,
    port: Port,
)
    requires
        seed.contains(port),
    ensures
        run(seed, max_retries, events).table[port].retried == carried(
            sent(seed, max_retries, events),
            port,
        ),
    decreases events.len(),
{
    if events.len() == 0 {
        let first = sent(seed, max_retries, events);
        assert(first.drop_last() =~= Seq::<MessageView>::empty());
        assert(carried(first.drop_last(), port) == 0);
    } else {
        lemma_retried_counts_payloads(seed, max_retries, events.drop_last(), port);
        lemma_table_keeps_its_ports(seed, max_retries, events.drop_last());
        let before = run(seed, max_retries, events.drop_last());
        let earlier = sent(seed, max_retries, events.drop_last());
        match before.emits(events.last()) {
            Some(message) => {
                assert(earlier.push(message).drop_last() =~= earlier);
            },
            None => {},
        }
    }
}

/// No more payloads are sent than one, plus one for each silent window that
/// found the scan running and a port with probes left.
pub proof fn lemma_payloads_bounded(seed: Set<Port>, max_retries: usize, events: Seq<Event>)
    ensures
        payloads(sent(seed, max_retries, events)) <= 1 + budget_windows(
            seed,
            max_retries,
            events,
        ),
    decreases events.len(),
{
    if events.len() == 0 {
        let first = sent(seed, max_retries, events);
        assert(first.drop_last() =~= Seq::<MessageView>::empty());
        assert(payloads(first.drop_last()) == 0);
    } else {
        lemma_payloads_bounded(seed, max_retries, events.drop_last());
        let before = run(seed, max_retries, events.drop_last());
        let earlier = sent(seed, max_retries, events.drop_last());
        match before.emits(events.last()) {
            Some(message) => {
                assert(earlier.push(message).drop_last() =~= earlier);
                if message is Payload {
                    let p = choose|p: Port| before.pending().contains(p);
                    assert(before.table.dom().contains(p) && before.table[p].retried
                        < before.max_retries);
                }
            },
            None => {},
        }
    }
}

/// `Break` is sent once, when the scan ends, and nothing is sent after it:
/// a message is `Break` exactly when the scan has ended and the message is
/// the last one.
pub proof fn lemma_break_is_last(seed: Set<Port>, max_retries: usize, events: Seq<Event>)
    ensures
        sent(seed, max_retries, events).len() >= 1,
        forall|i: int|
            0 <= i < sent(seed, max_retries, events).len() ==> (#[trigger] sent(
                seed,
                max_retries,
                events,
            )[i] is Break <==> run(seed, max_retries, events).stopped && i == sent(
                seed,
                max_retries,
                events,
            ).len() - 1),
    decreases events.len(),
{
    if events.len() > 0 {
        lemma_break_is_last(seed, max_retries, events.drop_last());
    }
}

/// A port found open was heard with SYN|ACK, a port found closed was heard
/// with RST|ACK, and a port without a verdict was heard with neither.
pub proof fn lemma_verdicts_were_heard(
    seed: Set<Port>,
    max_retries: usize,
    events: Seq<Event>,
    port: Port,
)
    requires
        seed.contains(port),
    ensures
        ({
            let status = run(seed, max_retries, events).table[port].status;
            &&& status != PortStatus::Filtered
            &&& status == PortStatus::Open ==> heard(seed, max_retries, events, port, SYNACK)
            &&& status == PortStatus::Closed ==> heard(seed, max_retries, events, port, RSTACK)
            &&& status == PortStatus::NotInspected ==> !heard(
                seed,
                max_retries,
                events,
                port,
                SYNACK,
            ) && !heard(seed, max_retries, events, port, RSTACK)
        }),
    decreases events.len(),
{
    if events.len() > 0 {
        let prefix = events.drop_last();
        let last = events.len() - 1;
        lemma_verdicts_were_heard(seed, max_retries, prefix, port);
        lemma_table_keeps_its_ports(seed, max_retries, prefix);
        let before = run(seed, max_retries, prefix);
        let after = run(seed, max_retries, events);
        assert(events.take(last) =~= prefix);
        assert forall|i: int| 0 <= i < last implies #[trigger] events.take(i) == prefix.take(i) by {
            assert(events.take(i) =~= prefix.take(i));
        }
        assert forall|flags: u8| heard(seed, max_retries, prefix, port, flags) implies heard(
            seed,
            max_retries,
            events,
            port,
            flags,
        ) by {
            let i = choose|i: int|
                0 <= i < prefix.len() && #[trigger] prefix[i] == (Event::Response { port, flags })
                    && !run(seed, max_retries, prefix.take(i)).stopped;
            assert(events[i] == prefix[i]);
            assert(events.take(i) == prefix.take(i));
        }
        assert forall|flags: u8|
            heard(seed, max_retries, events, port, flags) && !(events[last] == (Event::Response {
                port,
                flags,
            }) && !before.stopped) implies heard(seed, max_retries, prefix, port, flags) by {
            let i = choose|i: int|
                0 <= i < events.len() && #[trigger] events[i] == (Event::Response { port, flags })
                    && !run(seed, max_retries, events.take(i)).stopped;
            assert(i < last);
            assert(prefix[i] == events[i]);
            assert(events.take(i) == prefix.take(i));
        }
        if after.table[port].status != before.table[port].status {
            assert(events[last] is Response);
            assert(!before.stopped);
        }
    }
}

/// Once the scan has ended, settling leaves every port of the seed set
/// open, closed or filtered.
pub proof fn lemma_every_port_gets_a_verdict(
    seed: Set<Port>,
    max_retries: usize,
    events: Seq<Event>,
    port: Port,
)
    requires
        seed.contains(port),
        run(seed, max_retries, events).stopped,
    ensures
        run(seed, max_retries, events).settle().table[port].status != PortStatus::NotInspected,
    decreases events.len(),
{
    lemma_table_keeps_its_ports(seed, max_retries, events);
    if events.len() > 0 {
        let before = run(seed, max_retries, events.drop_last());
        lemma_table_keeps_its_ports(seed, max_retries, events.drop_last());
        if before.stopped {
            lemma_every_port_gets_a_verdict(seed, max_retries, events.drop_last(), port);
        } else {
            assert(events.last() == Event::Silence);
            assert(before.pending() =~= Set::<Port>::empty());
            assert(!before.pending().contains(port));
        }
    }
}

/// A port settled as filtered was heard with neither SYN|ACK nor RST|ACK,
/// and has been in as many payloads as the limit allows, or more.
pub proof fn lemma_filtered_means_silent(
    seed: Set<Port>,
    max_retries: usize,
    events: Seq<Event>,
    port: Port,
)
    requires
        seed.contains(port),
        run(seed, max_retries, events).settle().table[port].status == PortStatus::Filtered,
    ensures
        !heard(seed, max_retries, events, port, SYNACK),
        !heard(seed, max_retries, events, port, RSTACK),
        carried(sent(seed, max_retries, events), port) >= max_retries,
{
    lemma_table_keeps_its_ports(seed, max_retries, events);
    lemma_verdicts_were_heard(seed, max_retries, events, port);
    lemma_retried_counts_payloads(seed, max_retries, events, port);
}

/// An answer for a port that has its verdict changes nothing: a second
/// SYN|ACK leaves an open port open, and announces nothing.
pub proof fn lemma_late_answer_ignored(scan: Scan, port: Port, flags: u8)
    requires
        scan.table.dom().contains(port) ==> scan.table[port].status != PortStatus::NotInspected,
    ensures
        scan.respond(port, flags) == scan,
        scan.announces(Event::Response { port, flags }) is None,
{
    if !scan.stopped && scan.table.dom().contains(port) {
        assert(scan.respond(port, flags).table =~= scan.table);
    }
}

/// The same answer twice does what it does once.
pub proof fn lemma_answer_idempotent(scan: Scan, port: Port, flags: u8)
    ensures
        scan.respond(port, flags).respond(port, flags) == scan.respond(port, flags),
{
    let once = scan.respond(port, flags);
    assert(once.respond(port, flags).table =~= once.table);
}

/// With a limit of one, no port is put into a second payload: every count
/// stays at one, and the first payload is the only one.
pub proof fn lemma_single_try(seed: Set<Port>, events: Seq<Event>)
    ensures
        forall|p: Port|
            seed.contains(p) ==> (#[trigger] run(seed, 1, events).table[p]).retried == 1,
        payloads(sent(seed, 1, events)) == 1,
    decreases events.len(),
{
    if events.len() == 0 {
        let first = sent(seed, 1, events);
        assert(first.drop_last() =~= Seq::<MessageView>::empty());
        assert(payloads(first.drop_last()) == 0);
    } else {
        lemma_single_try(seed, events.drop_last());
        lemma_table_keeps_its_ports(seed, 1, events.drop_last());
        let before = run(seed, 1, events.drop_last());
        let earlier = sent(seed, 1, events.drop_last());
        assert(before.pending() =~= Set::<Port>::empty());
        match before.emits(events.last()) {
            Some(message) => {
                assert(earlier.push(message).drop_last() =~= earlier);
            },
            None => {},
        }
    }
}

/// Whether a message asks for something: a payload that carries a port, or
/// `Break`.
pub open spec fn carries_something(message: MessageView) -> bool {
    match message {
        MessageView::Payload(ports) => ports != Set::<Port>::empty(),
        MessageView::Break => true,
    }
}

/// A silent window never sends an empty payload: with no port pending it
/// sends `Break`. Only the first payload, of an empty seed set, can be empty.
pub proof fn lemma_no_empty_retry(seed: Set<Port>, max_retries: usize, events: Seq<Event>)
    ensures
        forall|i: int|
            1 <= i < sent(seed, max_retries, events).len() ==> carries_something(
                #[trigger] sent(seed, max_retries, events)[i],
            ),
    decreases events.len(),
{
    if events.len() > 0 {
        lemma_no_empty_retry(seed, max_retries, events.drop_last());
        let before = run(seed, max_retries, events.drop_last());
        let earlier = sent(seed, max_retries, events.drop_last());
        let all = sent(seed, max_retries, events);
        assert forall|i: int| 1 <= i < all.len() implies carries_something(#[trigger] all[i]) by {
            if i < earlier.len() {
                assert(all[i] == earlier[i]);
            } else if all[i] is Payload {
                assert(!(before.pending() =~= Set::<Port>::empty()));
            }
        }
    }
}

/// Runs a receiver through `events` and gives it back with every message
/// it sent, the first payload included.
pub fn replay(seed: &Vec<Port>, max_retries: usize, events: &Vec<Event>) -> (outcome: (
    Receiver,
    Vec<Message>,
))
    ensures
        outcome.0.wf(),
        outcome.0@ == run(seed@.to_set(), max_retries, events@),
        outcome.1@.map_values(|message: Message| message@) == sent(
            seed@.to_set(),
            max_retries,
            events@,
        ),
{
    let (mut receiver, first) = Receiver::new(seed, max_retries);
    let mut messages: Vec<Message> = Vec::new();
    messages.push(first);
    assert(events@.take(0) =~= Seq::<Event>::empty());
    assert(messages@.map_values(|message: Message| message@) =~= seq![
        MessageView::Payload(seed@.to_set()),
    ]);
    let mut i: usize = 0;
    while i < events.len()
        invariant
            i <= events.len(),
            receiver.wf(),
            receiver@ == run(seed@.to_set(), max_retries, events@.take(i as int)),
            messages@.map_values(|message: Message| message@) == sent(
                seed@.to_set(),
                max_retries,
                events@.take(i as int),
            ),
        decreases events.len() - i,
    {
        let ghost earlier = messages@.map_values(|message: Message| message@);
        assert(events@.take(i + 1).drop_last() =~= events@.take(i as int));
        assert(events@.take(i + 1).last() == events@[i as int]);
        match receiver.step(events[i]) {
            Action::Send(message) => {
                let ghost view = message@;
                messages.push(message);
                assert(messages@.map_values(|message: Message| message@) =~= earlier.push(view));
            },
            _ => {},
        }
        i += 1;
    }
    assert(events@.take(events.len() as int) =~= events@);
    (receiver, messages)
}

} // verus!
