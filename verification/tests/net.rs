use pnet::packet::ip::IpNextHeaderProtocols;
use pnet::packet::ipv4::{Ipv4Flags, Ipv4Packet, MutableIpv4Packet};
use pnet::packet::tcp::{MutableTcpPacket, TcpFlags, TcpPacket};
use pnet::packet::Packet;
use tsunami::net::{
    build_ipv4_packet, build_tcp_packet, create_recv_sock, create_send_sock, fill_ipv4_packet,
    fill_tcp_packet, parse_tcp_from_ip, DecodeError, RawSocketSpec, IPPROTO_RAW, IPPROTO_TCP,
    IP_HDR_LEN, TCP_HDR_LEN,
};
use tsunami::worker::{probe, probe_with, PROBE_LEN};

/// The sum of the 16-bit words of `data`, carries folded in.
fn ones_complement_sum(data: &[u8]) -> u16 {
    let mut sum: u32 = 0;
    for pair in data.chunks(2) {
        sum += ((pair[0] as u32) << 8) | (*pair.get(1).unwrap_or(&0) as u32);
    }
    while sum >> 16 != 0 {
        sum = (sum >> 16) + (sum & 0xffff);
    }
    sum as u16
}

#[test]
fn ipv4_header_of_a_zeroed_buffer() {
    let mut buf = vec![0u8; 40];
    fill_ipv4_packet(&mut buf, [192, 168, 1, 7], 0xbeef);
    assert_eq!(
        &buf[..20],
        &[
            0x45, 0x00, 0x00, 0x28, 0xbe, 0xef, 0x40, 0x00, 0xff, 0x06, 0xfb, 0x30, 0, 0, 0, 0,
            192, 168, 1, 7
        ]
    );
    assert_eq!(&buf[20..], &[0u8; 20]);
    assert_eq!(ones_complement_sum(&buf[..20]), 0xffff);
}

#[test]
fn ipv4_header_is_what_the_setters_write() {
    let mut ours: Vec<u8> = (0..48u8).map(|i| i.wrapping_mul(37).wrapping_add(11)).collect();
    let mut theirs = ours.clone();
    fill_ipv4_packet(&mut ours, [10, 0, 0, 254], 0x0102);
    {
        let mut packet = MutableIpv4Packet::new(&mut theirs).unwrap();
        packet.set_version(4);
        packet.set_ttl(u8::MAX);
        packet.set_header_length(5);
        packet.set_identification(0x0102);
        packet.set_next_level_protocol(IpNextHeaderProtocols::Tcp);
        packet.set_destination([10, 0, 0, 254].into());
        packet.set_flags(Ipv4Flags::DontFragment);
        packet.set_total_length(IP_HDR_LEN + TCP_HDR_LEN);
        let sum = pnet::packet::ipv4::checksum(&packet.to_immutable());
        packet.set_checksum(sum);
    }
    assert_eq!(ours, theirs);
}

#[test]
fn ipv4_header_reads_back() {
    let mut buf = vec![0u8; 40];
    build_ipv4_packet(&mut buf, [127, 0, 0, 1]);
    let packet = Ipv4Packet::new(&buf).unwrap();
    assert_eq!(packet.get_version(), 4);
    assert_eq!(packet.get_header_length(), 5);
    assert_eq!(packet.get_total_length(), 40);
    assert_eq!(packet.get_flags(), Ipv4Flags::DontFragment);
    assert_eq!(packet.get_fragment_offset(), 0);
    assert_eq!(packet.get_ttl(), 255);
    assert_eq!(packet.get_next_level_protocol(), IpNextHeaderProtocols::Tcp);
    assert_eq!(packet.get_destination().octets(), [127, 0, 0, 1]);
    assert_eq!(packet.get_checksum(), pnet::packet::ipv4::checksum(&packet));
    assert_eq!(ones_complement_sum(&buf[..20]), 0xffff);
}

#[test]
fn tcp_segment_of_a_zeroed_buffer() {
    let mut buf = vec![0u8; 20];
    fill_tcp_packet(&mut buf, [10, 0, 0, 2], 80, [10, 0, 0, 1], 0x01020304);
    assert_eq!(
        buf,
        vec![
            0x13, 0x37, 0x00, 0x50, 0x01, 0x02, 0x03, 0x04, 0, 0, 0, 0, 0x50, 0x02, 0x71, 0x10,
            0x13, 0x43, 0, 0
        ]
    );
    let mut pseudo = vec![10, 0, 0, 1, 10, 0, 0, 2, 0, 6, 0, 20];
    pseudo.extend_from_slice(&buf);
    assert_eq!(ones_complement_sum(&pseudo), 0xffff);
}

#[test]
fn tcp_segment_is_what_the_setters_write() {
    let mut ours: Vec<u8> = (0..27u8).map(|i| i.wrapping_mul(91).wrapping_add(5)).collect();
    let mut theirs = ours.clone();
    fill_tcp_packet(&mut ours, [8, 8, 4, 4], 65535, [172, 16, 0, 9], 0xdeadbeef);
    {
        let mut packet = MutableTcpPacket::new(&mut theirs).unwrap();
        packet.set_source(0x1337);
        packet.set_destination(65535);
        packet.set_sequence(0xdeadbeef);
        packet.set_data_offset(5);
        packet.set_flags(TcpFlags::SYN);
        packet.set_window(0x7110);
        let sum = pnet::packet::tcp::ipv4_checksum(
            &packet.to_immutable(),
            &[172, 16, 0, 9].into(),
            &[8, 8, 4, 4].into(),
        );
        packet.set_checksum(sum);
    }
    assert_eq!(ours, theirs);
}

#[test]
fn tcp_segment_reads_back() {
    let mut buf = vec![0u8; 20];
    build_tcp_packet(&mut buf, [10, 0, 0, 2], 443, [10, 0, 0, 1]);
    let packet = TcpPacket::new(&buf).unwrap();
    assert_eq!(packet.get_source(), 0x1337);
    assert_eq!(packet.get_destination(), 443);
    assert_eq!(packet.get_data_offset(), 5);
    assert_eq!(packet.get_flags(), TcpFlags::SYN);
    assert_eq!(packet.get_window(), 0x7110);
    assert_eq!(
        packet.get_checksum(),
        pnet::packet::tcp::ipv4_checksum(
            &packet,
            &[10, 0, 0, 1].into(),
            &[10, 0, 0, 2].into()
        )
    );
}

#[test]
fn probe_is_header_then_segment() {
    let datagram = probe_with([10, 0, 0, 2], 80, [10, 0, 0, 1], 0xbeef, 0x01020304);
    assert_eq!(datagram.len(), PROBE_LEN);
    let mut header = vec![0u8; 40];
    fill_ipv4_packet(&mut header, [10, 0, 0, 2], 0xbeef);
    let mut segment = vec![0u8; 20];
    fill_tcp_packet(&mut segment, [10, 0, 0, 2], 80, [10, 0, 0, 1], 0x01020304);
    assert_eq!(&datagram[..20], &header[..20]);
    assert_eq!(&datagram[20..], &segment[..]);
    let packet = Ipv4Packet::new(&datagram).unwrap();
    assert_eq!(packet.payload(), &segment[..]);
}

#[test]
fn probe_with_random_fields_is_well_formed() {
    let datagram = probe([93, 184, 216, 34], 8080, [192, 168, 0, 5]);
    assert_eq!(datagram.len(), 40);
    assert_eq!(ones_complement_sum(&datagram[..20]), 0xffff);
    assert_eq!(parse_tcp_from_ip(&datagram), Ok((0x1337, 0x02)));
    let segment = TcpPacket::new(&datagram[20..]).unwrap();
    assert_eq!(segment.get_destination(), 8080);
    let mut pseudo = vec![192, 168, 0, 5, 93, 184, 216, 34, 0, 6, 0, 20];
    pseudo.extend_from_slice(&datagram[20..]);
    assert_eq!(ones_complement_sum(&pseudo), 0xffff);
}

#[test]
fn parse_reads_source_port_and_flags() {
    let mut buf = vec![0u8; 576];
    buf[20] = 0x01;
    buf[21] = 0xbb;
    buf[33] = 0x12;
    assert_eq!(parse_tcp_from_ip(&buf), Ok((443, 0x12)));
    assert_eq!(parse_tcp_from_ip(&buf[..40]), Ok((443, 0x12)));
}

#[test]
fn parse_refuses_short_datagrams() {
    let buf = vec![0xffu8; 39];
    assert_eq!(parse_tcp_from_ip(&buf), Err(DecodeError::TooShort));
    assert_eq!(parse_tcp_from_ip(&buf[..20]), Err(DecodeError::TooShort));
    assert_eq!(parse_tcp_from_ip(&[]), Err(DecodeError::TooShort));
}

#[test]
fn sockets_are_raw_tcp_and_raw_ip() {
    assert_eq!(IPPROTO_TCP, 6);
    assert_eq!(IPPROTO_RAW, 255);
    assert_eq!(create_recv_sock(), RawSocketSpec { protocol: 6, header_included: false });
    assert_eq!(create_send_sock(), RawSocketSpec { protocol: 255, header_included: true });
}

#[test]
fn flags_are_what_pnet_calls_them() {
    assert_eq!(tsunami::receiver::SYNACK, TcpFlags::SYN | TcpFlags::ACK);
    assert_eq!(tsunami::receiver::RSTACK, TcpFlags::RST | TcpFlags::ACK);
    assert_eq!(IPPROTO_TCP, IpNextHeaderProtocols::Tcp.0 as i32);
}

#[test]
fn parse_reads_what_pnet_reads() {
    let datagram = probe([10, 1, 2, 3], 51234, [10, 1, 2, 4]);
    let segment = TcpPacket::new(&datagram[20..]).unwrap();
    assert_eq!(
        parse_tcp_from_ip(&datagram),
        Ok((segment.get_source(), segment.get_flags()))
    );
    let mut answer = vec![0xa5u8; 60];
    answer[20] = 0xc8;
    answer[21] = 0x22;
    let segment = TcpPacket::new(&answer[20..]).unwrap();
    assert_eq!(parse_tcp_from_ip(&answer), Ok((0xc822, 0xa5)));
    assert_eq!(parse_tcp_from_ip(&answer), Ok((segment.get_source(), segment.get_flags())));
}
