//! The raw packet codec: the IPv4 header and the TCP SYN segment of a probe,
//! byte by byte, and what the receiver reads from an answer.
//!
//! The layout of both headers is proved here. The two checksums are pnet's:
//! each is known to the proofs by name only.

use crate::Port;
use pnet::packet::ipv4::Ipv4Packet;
use pnet::packet::tcp::TcpPacket;
use vstd::prelude::*;

verus! {

/// The length of an IPv4 header without options.
pub const IP_HDR_LEN: u16 = 20;

/// The length of a TCP header without options.
pub const TCP_HDR_LEN: u16 = 20;

/// The protocol number of TCP.
pub const IPPROTO_TCP: i32 = 6;

/// The protocol number that lets the sender write the IP header itself.
pub const IPPROTO_RAW: i32 = 255;

/// The source port of every probe.
pub const SOURCE_PORT: u16 = 0x1337;

/// The window that every probe advertises.
pub const WINDOW: u16 = 0x7110;

/// The high byte of a 16-bit field on the wire.
pub open spec fn high(value: u16) -> u8 {
    (value / 256) as u8
}

/// The low byte of a 16-bit field on the wire.
pub open spec fn low(value: u16) -> u8 {
    (value % 256) as u8
}

/// The 16-bit field that two bytes on the wire hold.
pub open spec fn field(high: u8, low: u8) -> u16 {
    (high * 256 + low) as u16
}

/// The checksum that pnet's `ipv4::checksum` gives for a header.
pub uninterp spec fn ipv4_header_checksum(header: Seq<u8>) -> u16;

/// The checksum that pnet's `tcp::ipv4_checksum` gives for a segment sent
/// from `source` to `destination`.
pub uninterp spec fn tcp_segment_checksum(
    segment: Seq<u8>,
    source: Seq<u8>,
    destination: Seq<u8>,
) -> u16;

/// Calls pnet's `ipv4::checksum` on `header`, read as an IPv4 packet. pnet
/// takes no less than twenty bytes for a packet. Of the checksum, all that is
/// claimed is that it depends on the bytes of `header` alone.
#[verifier::external_body]
fn header_checksum(header: &[u8]) -> (sum: Option<u16>)
    ensures
        sum == if header@.len() >= 20 {
            Some(ipv4_header_checksum(header@))
        } else {
            None
        },
{
    match Ipv4Packet::new(header) {
        Some(packet) => Some(pnet::packet::ipv4::checksum(&packet)),
        None => None,
    }
}

/// Calls pnet's `tcp::ipv4_checksum` on `segment`, read as a TCP packet, with
/// the two addresses of the pseudo-header. pnet takes no less than twenty
/// bytes for a packet. Of the checksum, all that is claimed is that it depends
/// on the segment and the two addresses alone. The segment may be no longer
/// than an IPv4 datagram can carry, so that pnet's 32-bit sum cannot overflow.
#[verifier::external_body]
fn segment_checksum(segment: &[u8], source: &[u8; 4], destination: &[u8; 4]) -> (sum: Option<u16>)
    requires
        segment@.len() <= 65535,
    ensures
        sum == if segment@.len() >= 20 {
            Some(tcp_segment_checksum(segment@, source@, destination@))
        } else {
            None
        },
{
    match TcpPacket::new(segment) {
        Some(packet) => Some(
            pnet::packet::tcp::ipv4_checksum(&packet, &(*source).into(), &(*destination).into()),
        ),
        None => None,
    }
}

/// Calls `rand::random::<u16>()`. Any value may come back.
#[verifier::external_body]
fn random_u16() -> u16 {
    rand::random::<u16>()
}

/// Calls `rand::random::<u32>()`. Any value may come back.
#[verifier::external_body]
fn random_u32() -> u32 {
    rand::random::<u32>()
}

/// `buf` with the fields of a probe's IPv4 header set, all but the checksum:
/// version 4, header length 5, total length 40, the identification, the
/// don't-fragment flag, TTL 255, protocol TCP and the destination. Type of
/// service, fragment offset and source address stay as they were.
pub open spec fn ipv4_fields(buf: Seq<u8>, dest: Seq<u8>, identification: u16) -> Seq<u8> {
    buf.update(0, 0x45).update(2, 0).update(3, 40).update(4, high(identification)).update(
        5,
        low(identification),
    ).update(6, (buf[6] & 0x1f) | 0x40).update(8, 255).update(9, 6).update(16, dest[0]).update(
        17,
        dest[1],
    ).update(18, dest[2]).update(19, dest[3])
}

/// `buf` with a probe's IPv4 header in its first twenty bytes: the fields
/// of [`ipv4_fields`], and the checksum of the header that holds them.
pub open spec fn ipv4_packet(buf: Seq<u8>, dest: Seq<u8>, identification: u16) -> Seq<u8> {
    let fields = ipv4_fields(buf, dest, identification);
    let sum = ipv4_header_checksum(fields.subrange(0, 20));
    fields.update(10, high(sum)).update(11, low(sum))
}

/// Writes the IPv4 header of a probe for `dest`, with the given
/// identification, into the first twenty bytes of `buf`.
pub fn fill_ipv4_packet(buf: &mut Vec<u8>, dest: [u8; 4], identification: u16)
    requires
        old(buf).len() >= 40,
    ensures
        final(buf)@ == ipv4_packet(old(buf)@, dest@, identification),
{
    let flags = (buf[6] & 0x1f) | 0x40;
    buf.set(0, 0x45);
    buf.set(2, 0);
    buf.set(3, 40);
    buf.set(4, (identification / 256) as u8);
    buf.set(5, (identification % 256) as u8);
    buf.set(6, flags);
    buf.set(8, 255);
    buf.set(9, 6);
    buf.set(16, dest[0]);
    buf.set(17, dest[1]);
    buf.set(18, dest[2]);
    buf.set(19, dest[3]);
    let sum = header_checksum(&buf[0..20]).unwrap();
    buf.set(10, (sum / 256) as u8);
    buf.set(11, (sum % 256) as u8);
}

/// Writes the IPv4 header of a probe for `dest` into the first twenty bytes
/// of `buf`, with an identification drawn at random.
pub fn build_ipv4_packet(buf: &mut Vec<u8>, dest: [u8; 4])
    requires
        old(buf).len() >= 40,
    ensures
        exists|identification: u16| final(buf)@ == ipv4_packet(old(buf)@, dest@, identification),
{
    let identification = random_u16();
    fill_ipv4_packet(buf, dest, identification);
}

/// `buf` with the fields of a probe's TCP header set, all but the checksum:
/// the fixed source port, the destination port, the sequence number, data
/// offset 5, the SYN flag alone and the fixed window. Acknowledgement,
/// reserved bits and urgent pointer stay as they were.
pub open spec fn tcp_fields(buf: Seq<u8>, port: Port, sequence: u32) -> Seq<u8> {
    buf.update(0, high(SOURCE_PORT)).update(1, low(SOURCE_PORT)).update(2, high(port)).update(
        3,
        low(port),
    ).update(4, (sequence / 0x100_0000) as u8).update(5, (sequence / 0x1_0000 % 256) as u8).update(
        6,
        (sequence / 0x100 % 256) as u8,
    ).update(7, (sequence % 256) as u8).update(12, (buf[12] & 0x0f) | 0x50).update(13, 0x02).update(
        14,
        high(WINDOW),
    ).update(15, low(WINDOW))
}

/// `buf` with a probe's TCP header in its first twenty bytes: the fields of
/// [`tcp_fields`], and the checksum of the segment that holds them, for the
/// way from `source` to `destination`.
pub open spec fn tcp_packet(
    buf: Seq<u8>,
    destination: Seq<u8>,
    port: Port,
    source: Seq<u8>,
    sequence: u32,
) -> Seq<u8> {
    let fields = tcp_fields(buf, port, sequence);
    let sum = tcp_segment_checksum(fields, source, destination);
    fields.update(16, high(sum)).update(17, low(sum))
}

/// Writes the TCP header of a SYN probe for `port`, with the given sequence
/// number, into the first twenty bytes of `buf`. The checksum covers all of
/// `buf`.
pub fn fill_tcp_packet(
    buf: &mut Vec<u8>,
    destination: [u8; 4],
    port: Port,
    src_ip_addr: [u8; 4],
    sequence: u32,
)
    requires
        20 <= old(buf).len() <= 65535,
    ensures
        final(buf)@ == tcp_packet(old(buf)@, destination@, port, src_ip_addr@, sequence),
{
    let offset = (buf[12] & 0x0f) | 0x50;
    buf.set(0, (SOURCE_PORT / 256) as u8);
    buf.set(1, (SOURCE_PORT % 256) as u8);
    buf.set(2, (port / 256) as u8);
    buf.set(3, (port % 256) as u8);
    buf.set(4, (sequence / 0x100_0000) as u8);
    buf.set(5, (sequence / 0x1_0000 % 256) as u8);
    buf.set(6, (sequence / 0x100 % 256) as u8);
    buf.set(7, (sequence % 256) as u8);
    buf.set(12, offset);
    buf.set(13, 0x02);
    buf.set(14, (WINDOW / 256) as u8);
    buf.set(15, (WINDOW % 256) as u8);
    let sum = segment_checksum(buf.as_slice(), &src_ip_addr, &destination).unwrap();
    buf.set(16, (sum / 256) as u8);
    buf.set(17, (sum % 256) as u8);
}

/// Writes the TCP header of a SYN probe for `port` into the first twenty
/// bytes of `buf`, with a sequence number drawn at random.
pub fn build_tcp_packet(
    buf: &mut Vec<u8>,
    destination: [u8; 4],
    port: Port,
    src_ip_addr: [u8; 4],
)
    requires
        20 <= old(buf).len() <= 65535,
    ensures
        exists|sequence: u32|
            final(buf)@ == tcp_packet(old(buf)@, destination@, port, src_ip_addr@, sequence),
{
    let sequence = random_u32();
    fill_tcp_packet(buf, destination, port, src_ip_addr, sequence);
}

/// Why a datagram could not be read.
#[derive(Debug, Clone, Copy, PartialEq, Eq, Structural)]
pub enum DecodeError {
    /// The datagram is too short to hold an IPv4 header and a TCP header.
    TooShort,
}

/// Reads the source port and the flags of the TCP segment that follows the
/// twenty bytes of IPv4 header in `buf`. It fails exactly when `buf` is too
/// short to hold both headers.
pub fn parse_tcp_from_ip(buf: &[u8]) -> (parsed: Result<(Port, u8), DecodeError>)
    ensures
        parsed == if buf@.len() >= 40 {
            Ok((field(buf@[20], buf@[21]), buf@[33]))
        } else {
            Err(DecodeError::TooShort)
        },
{
    if buf.len() < 40 {
        return Err(DecodeError::TooShort);
    }
    let port = (buf[20] as u16) * 256 + (buf[21] as u16);
    Ok((port, buf[33]))
}

/// What to ask the system for when a raw IPv4 socket is opened.
#[derive(Debug, Clone, Copy, PartialEq, Eq, Structural)]
pub struct RawSocketSpec {
    /// The protocol number of the socket.
    pub protocol: i32,
    /// Whether the sender writes the IP header itself.
    pub header_included: bool,
}

/// The socket that answers are read from: raw, and bound to TCP.
pub fn create_recv_sock() -> (spec: RawSocketSpec)
    ensures
        spec == (RawSocketSpec { protocol: IPPROTO_TCP, header_included: false }),
{
    RawSocketSpec { protocol: IPPROTO_TCP, header_included: false }
}

/// The socket that probes are sent on: raw, with the IP header written by
/// the sender.
pub fn create_send_sock() -> (spec: RawSocketSpec)
    ensures
        spec == (RawSocketSpec { protocol: IPPROTO_RAW, header_included: true }),
{
    RawSocketSpec { protocol: IPPROTO_RAW, header_included: true }
}

} // verus!
