//! The worker's part that computes: the datagram of one probe.

use crate::net::{
    build_ipv4_packet, build_tcp_packet, fill_ipv4_packet, fill_tcp_packet, ipv4_packet,
    tcp_packet,
};
use crate::Port;
use vstd::prelude::*;

verus! {

/// The length of a probe: an IPv4 header and a TCP header, no more.
pub const PROBE_LEN: usize = 40;

/// `len` zero bytes.
pub open spec fn zeros(len: nat) -> Seq<u8> {
    Seq::new(len, |i: int| 0u8)
}

/// Copies `segment` into `datagram`, behind the IPv4 header.
fn splice(datagram: &mut Vec<u8>, segment: &Vec<u8>)
    requires
        old(datagram).len() == 40,
        segment.len() == 20,
    ensures
        final(datagram)@ == old(datagram)@.subrange(0, 20) + segment@,
{
    let mut i: usize = 0;
    while i < 20
        invariant
            i <= 20,
            datagram.len() == 40,
            segment.len() == 20,
            datagram@.subrange(0, 20) == old(datagram)@.subrange(0, 20),
            datagram@.subrange(20, 20 + i) == segment@.subrange(0, i as int),
        decreases 20 - i,
    {
        let ghost before = datagram@;
        datagram.set(20 + i, segment[i]);
        assert(datagram@.subrange(0, 20) =~= before.subrange(0, 20));
        assert(datagram@.subrange(20, 20 + i + 1) =~= before.subrange(20, 20 + i).push(
            segment[i as int],
        ));
        assert(segment@.subrange(0, i + 1) =~= segment@.subrange(0, i as int).push(
            segment[i as int],
        ));
        i += 1;
    }
    assert(segment@.subrange(0, 20) =~= segment@);
    assert(datagram@ =~= datagram@.subrange(0, 20) + datagram@.subrange(20, 40));
}

/// The probe for `port` of `dest`, sent from `src_ip_addr`: the IPv4
/// header that a buffer of zeros takes, then the TCP segment that a buffer of
/// zeros takes. The source address of the header stays zero, for the system
/// to fill in.
pub open spec fn probe_bytes(
    dest: Seq<u8>,
    port: Port,
    src_ip_addr: Seq<u8>,
    identification: u16,
    sequence: u32,
) -> Seq<u8> {
    ipv4_packet(zeros(40), dest, identification).subrange(0, 20) + tcp_packet(
        zeros(20),
        dest,
        port,
        src_ip_addr,
        sequence,
    )
}

/// Builds the probe for `port` of `dest` with the given identification and
/// sequence number.
pub fn probe_with(
    dest: [u8; 4],
    port: Port,
    src_ip_addr: [u8; 4],
    identification: u16,
    sequence: u32,
) -> (datagram: Vec<u8>)
    ensures
        datagram@ == probe_bytes(dest@, port, src_ip_addr@, identification, sequence),
{
    let mut datagram: Vec<u8> = vec![0u8; 40];
    assert(datagram@ =~= zeros(40));
    fill_ipv4_packet(&mut datagram, dest, identification);
    let mut segment: Vec<u8> = vec![0u8; 20];
    assert(segment@ =~= zeros(20));
    fill_tcp_packet(&mut segment, dest, port, src_ip_addr, sequence);
    splice(&mut datagram, &segment);
    datagram
}

/// Builds the probe for `port` of `dest`, with identification and sequence
/// number drawn at random.
pub fn probe(dest: [u8; 4], port: Port, src_ip_addr: [u8; 4]) -> (datagram: Vec<u8>)
    ensures
        exists|identification: u16, sequence: u32|
            datagram@ == probe_bytes(dest@, port, src_ip_addr@, identification, sequence),
{
    let mut datagram: Vec<u8> = vec![0u8; 40];
    assert(datagram@ =~= zeros(40));
    build_ipv4_packet(&mut datagram, dest);
    let ghost identification = choose|identification: u16|
        datagram@ == ipv4_packet(zeros(40), dest@, identification);
    let mut segment: Vec<u8> = vec![0u8; 20];
    assert(segment@ =~= zeros(20));
    build_tcp_packet(&mut segment, dest, port, src_ip_addr);
    let ghost sequence = choose|sequence: u32|
        segment@ == tcp_packet(zeros(20), dest@, port, src_ip_addr@, sequence);
    splice(&mut datagram, &segment);
    assert(datagram@ == probe_bytes(dest@, port, src_ip_addr@, identification, sequence));
    datagram
}

} // verus!
