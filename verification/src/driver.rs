//! What the driver computes: the set of ports to scan and the batches in
//! which a payload is probed.

use crate::cli::PortRange;
use crate::{Message, Port};
use vstd::prelude::*;
use vstd::slice::slice_to_vec;

verus! {

/// The ports a scan covers: every single port asked for, and every port of
/// every range.
pub open spec fn seed_set(ports: Seq<Port>, ranges: Seq<PortRange>) -> Set<Port> {
    Set::new(
        |p: Port|
            ports.contains(p) || exists|k: int|
                0 <= k < ranges.len() && (#[trigger] ranges[k]).contains(p),
    )
}

/// Each element is smaller than the next.
pub open spec fn ascending(s: Seq<Port>) -> bool {
    forall|i: int, j: int| 0 <= i < j < s.len() ==> s[i] < s[j]
}

/// `s` lists `set`: its ports and no others, each once, smallest first.
pub open spec fn lists(s: Seq<Port>, set: Set<Port>) -> bool {
    ascending(s) && s.to_set() == set
}

/// A set has one listing only.
pub proof fn lemma_listing_unique(a: Seq<Port>, b: Seq<Port>, set: Set<Port>)
    requires
        lists(a, set),
        lists(b, set),
    ensures
        a == b,
    decreases a.len(),
{
    if a.len() == 0 {
        if b.len() > 0 {
            assert(b.to_set().contains(b[0]));
            assert(a.to_set().contains(b[0]));
        }
        assert(a =~= b);
    } else {
        let top = a.last();
        assert(a.to_set().contains(top));
        assert(b.to_set().contains(top));
        assert(b.len() > 0);
        let k = choose|k: int| 0 <= k < b.len() && b[k] == top;
        // nothing in `b` is above `top`, so `top` closes `b` too
        if k < b.len() - 1 {
            let above = b.last();
            assert(b.to_set().contains(above));
            assert(a.to_set().contains(above));
            let i = choose|i: int| 0 <= i < a.len() && a[i] == above;
            assert(a[i] <= top);
            assert(b[k] < b[b.len() - 1]);
        }
        assert(b.last() == top);
        let rest = set.remove(top);
        assert(a.drop_last().to_set() =~= rest) by {
            assert forall|p: Port| rest.contains(p) implies a.drop_last().to_set().contains(p) by {
                assert(a.to_set().contains(p));
                let i = choose|i: int| 0 <= i < a.len() && a[i] == p;
                assert(a.drop_last()[i] == p);
            }
            assert forall|p: Port| a.drop_last().to_set().contains(p) implies rest.contains(p) by {
                let i = choose|i: int| 0 <= i < a.drop_last().len() && a.drop_last()[i] == p;
                assert(a[i] == p);
                assert(a.to_set().contains(p));
            }
        }
        assert(b.drop_last().to_set() =~= rest) by {
            assert forall|p: Port| rest.contains(p) implies b.drop_last().to_set().contains(p) by {
                assert(b.to_set().contains(p));
                let i = choose|i: int| 0 <= i < b.len() && b[i] == p;
                assert(b.drop_last()[i] == p);
            }
            assert forall|p: Port| b.drop_last().to_set().contains(p) implies rest.contains(p) by {
                let i = choose|i: int| 0 <= i < b.drop_last().len() && b.drop_last()[i] == p;
                assert(b[i] == p);
                assert(b.to_set().contains(p));
            }
        }
        lemma_listing_unique(a.drop_last(), b.drop_last(), rest);
        assert(a =~= a.drop_last().push(top));
        assert(b =~= b.drop_last().push(top));
    }
}

/// How many ports there are.
pub const PORT_COUNT: usize = 65536;

/// How many messages the channel from the receiver to the driver holds
/// before the receiver has to wait.
pub const CHANNEL_CAPACITY: usize = 8;

/// The listing of the ports marked in `marks`.
fn marked(marks: &Vec<bool>) -> (listing: Vec<Port>)
    requires
        marks.len() == PORT_COUNT,
    ensures
        ascending(listing@),
        forall|p: Port| listing@.contains(p) <==> marks[p as int],
{
    let mut listing: Vec<Port> = Vec::new();
    let mut next: usize = 0;
    while next < PORT_COUNT
        invariant
            marks.len() == PORT_COUNT,
            next <= PORT_COUNT,
            ascending(listing@),
            forall|i: int| 0 <= i < listing.len() ==> listing[i] < next,
            forall|p: Port| listing@.contains(p) <==> p < next && marks[p as int],
        decreases PORT_COUNT - next,
    {
        if marks[next] {
            let ghost before = listing@;
            listing.push(next as Port);
            assert forall|p: Port| listing@.contains(p) <==> p < next + 1 && marks[p as int] by {
                if listing@.contains(p) {
                    let i = choose|i: int| 0 <= i < listing.len() && listing[i] == p;
                    if i < before.len() {
                        assert(before.contains(p));
                    }
                }
                if p < next + 1 && marks[p as int] {
                    if p < next {
                        assert(before.contains(p));
                        let i = choose|i: int| 0 <= i < before.len() && before[i] == p;
                        assert(listing[i] == p);
                    } else {
                        assert(listing[listing.len() - 1] == p);
                    }
                }
            }
        }
        next += 1;
    }
    listing
}

/// Builds the seed set of a scan: the union of the single ports and of every
/// range, each port once, smallest first. A range that ends before it starts
/// adds nothing.
pub fn seed_ports(ports: &Vec<Port>, ranges: &Vec<PortRange>) -> (seed: Vec<Port>)
    ensures
        lists(seed@, seed_set(ports@, ranges@)),
{
    let mut marks: Vec<bool> = vec![false; PORT_COUNT];
    let mut i: usize = 0;
    while i < ports.len()
        invariant
            marks.len() == PORT_COUNT,
            i <= ports.len(),
            forall|p: Port| marks[p as int] <==> ports@.take(i as int).contains(p),
        decreases ports.len() - i,
    {
        let port = ports[i];
        let ghost before = marks@;
        marks.set(port as usize, true);
        assert forall|p: Port| marks[p as int] <==> ports@.take(i + 1).contains(p) by {
            let done = ports@.take(i as int);
            let more = ports@.take(i + 1);
            if more.contains(p) {
                let k = choose|k: int| 0 <= k < more.len() && more[k] == p;
                if k < i {
                    assert(done[k] == p);
                }
            }
            if before[p as int] {
                let k = choose|k: int| 0 <= k < done.len() && done[k] == p;
                assert(more[k] == p);
            }
            if p == port {
                assert(more[i as int] == p);
            }
        }
        i += 1;
    }
    assert(ports@.take(ports.len() as int) =~= ports@);
    let mut j: usize = 0;
    while j < ranges.len()
        invariant
            marks.len() == PORT_COUNT,
            j <= ranges.len(),
            forall|p: Port|
                marks[p as int] <==> ports@.contains(p) || exists|k: int|
                    0 <= k < j && (#[trigger] ranges[k]).contains(p),
        decreases ranges.len() - j,
    {
        let range = ranges[j];
        let ghost before = marks@;
        let mut next: usize = range.start as usize;
        while next <= range.end as usize
            invariant
                marks.len() == PORT_COUNT,
                before.len() == PORT_COUNT,
                range.start <= next,
                next <= range.end + 1 || next == range.start,
                forall|p: Port| marks[p as int] <==> before[p as int] || range.start <= p < next,
            decreases range.end + 1 - next,
        {
            marks.set(next, true);
            next += 1;
        }
        assert forall|p: Port|
            marks[p as int] <==> ports@.contains(p) || exists|k: int|
                0 <= k < j + 1 && (#[trigger] ranges[k]).contains(p) by {
            assert(marks[p as int] <==> before[p as int] || range.start <= p < next);
            assert(range.contains(p) <==> range.start <= p < next);
            if range.contains(p) {
                assert(ranges[j as int].contains(p));
            }
            if exists|k: int| 0 <= k < j + 1 && (#[trigger] ranges[k]).contains(p) {
                let k = choose|k: int| 0 <= k < j + 1 && (#[trigger] ranges[k]).contains(p);
                if k < j {
                    assert(before[p as int]);
                }
            }
        }
        j += 1;
    }
    let seed = marked(&marks);
    assert(seed@.to_set() =~= seed_set(ports@, ranges@));
    seed
}

/// `s` cut into batches of `size` ports, the last one as long as what is
/// left. Nothing makes no batch.
pub open spec fn chunks(s: Seq<Port>, size: int) -> Seq<Seq<Port>>
    decreases s.len(),
{
    if size <= 0 || s.len() == 0 {
        Seq::empty()
    } else if s.len() <= size {
        seq![s]
    } else {
        seq![s.take(size)] + chunks(s.skip(size), size)
    }
}

/// Cuts a payload into the batches in which it is probed: `batch_size`
/// ports each, in the payload's order, the last batch as long as what is left.
pub fn batches(payload: &Vec<Port>, batch_size: usize) -> (cut: Vec<Vec<Port>>)
    requires
        batch_size > 0,
    ensures
        cut@.map_values(|batch: Vec<Port>| batch@) == chunks(payload@, batch_size as int),
{
    let mut cut: Vec<Vec<Port>> = Vec::new();
    let mut start: usize = 0;
    assert(payload@.skip(0) =~= payload@);
    assert(cut@.map_values(|batch: Vec<Port>| batch@) =~= Seq::<Seq<Port>>::empty());
    while start < payload.len()
        invariant
            batch_size > 0,
            start <= payload.len(),
            chunks(payload@, batch_size as int) == cut@.map_values(|batch: Vec<Port>| batch@)
                + chunks(payload@.skip(start as int), batch_size as int),
        decreases payload.len() - start,
    {
        let left = payload.len() - start;
        let end = if left <= batch_size {
            payload.len()
        } else {
            start + batch_size
        };
        let batch = slice_to_vec(&payload[start..end]);
        let ghost rest = payload@.skip(start as int);
        let ghost done = cut@.map_values(|batch: Vec<Port>| batch@);
        assert(batch@ =~= rest.take(end - start));
        assert(rest.skip(end - start) =~= payload@.skip(end as int));
        assert(chunks(rest, batch_size as int) =~= seq![batch@] + chunks(
            payload@.skip(end as int),
            batch_size as int,
        )) by {
            if left <= batch_size {
                assert(rest.take(end - start) =~= rest);
                assert(payload@.skip(end as int).len() == 0);
            }
        }
        cut.push(batch);
        assert(cut@.map_values(|batch: Vec<Port>| batch@) =~= done.push(batch@));
        start = end;
    }
    assert(payload@.skip(start as int).len() == 0);
    cut
}

/// What the driver does with a message.
#[derive(Debug, PartialEq, Eq)]
pub enum Order {
    /// Probe these batches one after the other, each to its end before the
    /// next begins.
    Probe(Vec<Vec<Port>>),
    /// Stop consuming messages.
    Stop,
}

/// Decides what a message asks of the driver: a payload is cut into
/// batches, `Break` ends the work.
pub fn plan(message: &Message, batch_size: usize) -> (order: Order)
    requires
        batch_size > 0,
    ensures
        match message {
            Message::Payload(payload) => order matches Order::Probe(cut) && cut@.map_values(
                |batch: Vec<Port>| batch@,
            ) == chunks(payload@, batch_size as int),
            Message::Break => order == Order::Stop,
        },
{
    match message {
        Message::Payload(payload) => Order::Probe(batches(payload, batch_size)),
        Message::Break => Order::Stop,
    }
}

/// A payload that fits into one batch is probed as one batch.
pub proof fn lemma_single_batch(payload: Seq<Port>, batch_size: int)
    requires
        0 < payload.len() <= batch_size,
    ensures
        chunks(payload, batch_size) == seq![payload],
{
}

/// The batches of a payload, one after the other, are the payload: every
/// port is probed once, in its place. No batch is empty and none is longer
/// than the batch size.
pub proof fn lemma_batches_cover(payload: Seq<Port>, batch_size: int)
    requires
        batch_size > 0,
    ensures
        chunks(payload, batch_size).flatten() == payload,
        forall|k: int|
            0 <= k < chunks(payload, batch_size).len() ==> 0 < (#[trigger] chunks(
                payload,
                batch_size,
            )[k]).len() <= batch_size,
    decreases payload.len(),
{
    let cut = chunks(payload, batch_size);
    if payload.len() == 0 {
        assert(cut.flatten() =~= payload);
    } else if payload.len() <= batch_size {
        assert(cut.drop_first() =~= Seq::<Seq<Port>>::empty());
        assert(cut.drop_first().flatten() =~= Seq::<Port>::empty());
        assert(cut.first() == payload);
        assert(cut.flatten() =~= payload);
    } else {
        let rest = chunks(payload.skip(batch_size), batch_size);
        lemma_batches_cover(payload.skip(batch_size), batch_size);
        assert(cut.drop_first() =~= rest);
        assert(cut.flatten() =~= payload.take(batch_size) + rest.flatten());
        assert(cut.flatten() =~= payload);
        assert forall|k: int| 0 <= k < cut.len() implies 0 < (#[trigger] cut[k]).len()
            <= batch_size by {
            if k > 0 {
                assert(cut[k] == rest[k - 1]);
            }
        }
    }
}

/// A payload makes as many batches as its length divided by the batch size,
/// rounded up.
pub proof fn lemma_batch_count(payload: Seq<Port>, batch_size: int)
    requires
        batch_size > 0,
    ensures
        chunks(payload, batch_size).len() == (payload.len() + batch_size - 1) / batch_size,
    decreases payload.len(),
{
    let len = payload.len() as int;
    if len == 0 {
        assert((batch_size - 1) / batch_size == 0) by (nonlinear_arith)
            requires
                batch_size > 0,
        ;
    } else if len <= batch_size {
        assert((len + batch_size - 1) / batch_size == 1) by (nonlinear_arith)
            requires
                0 < len <= batch_size,
        ;
    } else {
        lemma_batch_count(payload.skip(batch_size), batch_size);
        vstd::arithmetic::div_mod::lemma_div_plus_one(len - 1, batch_size);
        assert(len - batch_size + batch_size - 1 == len - 1);
        assert(batch_size + (len - 1) == len + batch_size - 1);
    }
}

/// The seed set depends on which ports and which ranges are asked for, not
/// on their order nor on how often each is named.
pub proof fn lemma_seed_set_ignores_order(
    ports: Seq<Port>,
    ranges: Seq<PortRange>,
    other_ports: Seq<Port>,
    other_ranges: Seq<PortRange>,
)
    requires
        ports.to_set() == other_ports.to_set(),
        ranges.to_set() == other_ranges.to_set(),
    ensures
        seed_set(ports, ranges) == seed_set(other_ports, other_ranges),
{
    lemma_seed_set_within(ports, ranges, other_ports, other_ranges);
    lemma_seed_set_within(other_ports, other_ranges, ports, ranges);
    assert(seed_set(ports, ranges) =~= seed_set(other_ports, other_ranges));
}

/// Whatever one request covers, another request for the same ports and the
/// same ranges covers too.
proof fn lemma_seed_set_within(
    ports: Seq<Port>,
    ranges: Seq<PortRange>,
    other_ports: Seq<Port>,
    other_ranges: Seq<PortRange>,
)
    requires
        ports.to_set() == other_ports.to_set(),
        ranges.to_set() == other_ranges.to_set(),
    ensures
        seed_set(ports, ranges).subset_of(seed_set(other_ports, other_ranges)),
{
    assert forall|p: Port| seed_set(ports, ranges).contains(p) implies seed_set(
        other_ports,
        other_ranges,
    ).contains(p) by {
        if ports.contains(p) {
            assert(ports.to_set().contains(p));
            assert(other_ports.to_set().contains(p));
        } else {
            let k = choose|k: int| 0 <= k < ranges.len() && (#[trigger] ranges[k]).contains(p);
            assert(ranges.to_set().contains(ranges[k]));
            assert(other_ranges.to_set().contains(ranges[k]));
            let j = choose|j: int| 0 <= j < other_ranges.len() && other_ranges[j] == ranges[k];
            assert(other_ranges[j].contains(p));
        }
    }
}

/// Two requests for the same ports and the same ranges, in whatever order
/// and however often each is named, are listed alike.
pub proof fn lemma_same_request_same_listing(
    ports: Seq<Port>,
    ranges: Seq<PortRange>,
    other_ports: Seq<Port>,
    other_ranges: Seq<PortRange>,
    listing: Seq<Port>,
    other_listing: Seq<Port>,
)
    requires
        ports.to_set() == other_ports.to_set(),
        ranges.to_set() == other_ranges.to_set(),
        lists(listing, seed_set(ports, ranges)),
        lists(other_listing, seed_set(other_ports, other_ranges)),
    ensures
        listing == other_listing,
{
    lemma_seed_set_ignores_order(ports, ranges, other_ports, other_ranges);
    lemma_listing_unique(listing, other_listing, seed_set(ports, ranges));
}

/// The seed set built again from its own listing is the same set.
pub proof fn lemma_seed_set_idempotent(
    ports: Seq<Port>,
    ranges: Seq<PortRange>,
    listing: Seq<Port>,
)
    requires
        lists(listing, seed_set(ports, ranges)),
    ensures
        seed_set(listing, Seq::empty()) == seed_set(ports, ranges),
        lists(listing, seed_set(listing, Seq::empty())),
{
    assert(seed_set(listing, Seq::<PortRange>::empty()) =~= listing.to_set());
}

/// A range from a port to itself holds that port and no other.
pub proof fn lemma_single_port_range(port: Port)
    ensures
        (PortRange { start: port, end: port }).ports() == set![port],
        seed_set(Seq::empty(), seq![PortRange { start: port, end: port }]) == set![port],
{
    let range = PortRange { start: port, end: port };
    let ranges = seq![range];
    assert(range.ports() =~= set![port]);
    assert(seed_set(Seq::<Port>::empty(), ranges) =~= set![port]) by {
        assert(ranges[0].contains(port));
    }
}

} // verus!
