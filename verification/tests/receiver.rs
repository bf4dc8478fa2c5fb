use tsunami::net::DecodeError;
use tsunami::receiver::{open_line, Action, Event, Receiver, Report, RSTACK, SYNACK};
use tsunami::{Message, Port, PortInfo, PortStatus};

fn datagram(port: Port, flags: u8) -> Vec<u8> {
    let mut buf = vec![0u8; 40];
    buf[20] = (port >> 8) as u8;
    buf[21] = (port & 0xff) as u8;
    buf[33] = flags;
    buf
}

fn waiting(retried: usize) -> Option<PortInfo> {
    Some(PortInfo { status: PortStatus::NotInspected, retried })
}

#[test]
fn first_payload_is_the_seed_set() {
    let (receiver, first) = Receiver::new(&vec![443, 22, 80, 22], 3);
    assert_eq!(first, Message::Payload(vec![22, 80, 443]));
    assert_eq!(receiver.ports(), &vec![22, 80, 443]);
    assert_eq!(receiver.max_retries(), 3);
    assert!(!receiver.is_stopped());
    for port in [22, 80, 443] {
        assert_eq!(receiver.info(port), waiting(1));
    }
    assert_eq!(receiver.info(23), None);
}

#[test]
fn syn_ack_opens_and_rst_ack_closes() {
    let (mut receiver, _) = Receiver::new(&vec![22, 80], 3);
    assert_eq!(receiver.step(Event::Response { port: 22, flags: 0x12 }), Action::Announce(22));
    assert_eq!(receiver.step(Event::Response { port: 80, flags: 0x14 }), Action::Idle);
    assert_eq!(receiver.info(22), Some(PortInfo { status: PortStatus::Open, retried: 1 }));
    assert_eq!(receiver.info(80), Some(PortInfo { status: PortStatus::Closed, retried: 1 }));
    assert_eq!(SYNACK, 0x12);
    assert_eq!(RSTACK, 0x14);
}

#[test]
fn other_flags_and_stray_ports_change_nothing() {
    let (mut receiver, _) = Receiver::new(&vec![22], 3);
    for flags in [0x00, 0x02, 0x10, 0x04, 0x13, 0x16, 0xff] {
        assert_eq!(receiver.step(Event::Response { port: 22, flags }), Action::Idle);
    }
    assert_eq!(receiver.step(Event::Response { port: 23, flags: SYNACK }), Action::Idle);
    assert_eq!(receiver.info(22), waiting(1));
    assert_eq!(receiver.info(23), None);
}

#[test]
fn verdict_is_never_changed_by_later_answers() {
    let (mut receiver, _) = Receiver::new(&vec![22, 80], 3);
    assert_eq!(receiver.on_datagram(&datagram(22, SYNACK)), Ok(Some(22)));
    assert_eq!(receiver.on_datagram(&datagram(22, SYNACK)), Ok(None));
    assert_eq!(receiver.on_datagram(&datagram(22, RSTACK)), Ok(None));
    assert_eq!(receiver.on_datagram(&datagram(80, RSTACK)), Ok(None));
    assert_eq!(receiver.on_datagram(&datagram(80, SYNACK)), Ok(None));
    assert_eq!(receiver.info(22).unwrap().status, PortStatus::Open);
    assert_eq!(receiver.info(80).unwrap().status, PortStatus::Closed);
}

#[test]
fn short_datagram_is_refused_and_changes_nothing() {
    let (mut receiver, _) = Receiver::new(&vec![0], 3);
    assert_eq!(receiver.on_datagram(&[0u8; 39]), Err(DecodeError::TooShort));
    assert_eq!(receiver.on_datagram(&[]), Err(DecodeError::TooShort));
    assert_eq!(receiver.info(0), waiting(1));
    let mut long = vec![0u8; 576];
    long[33] = SYNACK;
    assert_eq!(receiver.on_datagram(&long), Ok(Some(0)));
}

#[test]
fn silence_sends_the_pending_ports_again() {
    let (mut receiver, _) = Receiver::new(&vec![1, 2, 3, 4], 3);
    receiver.step(Event::Response { port: 2, flags: SYNACK });
    receiver.step(Event::Response { port: 4, flags: RSTACK });
    assert_eq!(receiver.step(Event::Silence), Action::Send(Message::Payload(vec![1, 3])));
    assert_eq!(receiver.info(1), waiting(2));
    assert_eq!(receiver.info(3), waiting(2));
    assert_eq!(receiver.info(2).unwrap().retried, 1);
    assert_eq!(receiver.info(4).unwrap().retried, 1);
    receiver.step(Event::Response { port: 1, flags: RSTACK });
    assert_eq!(receiver.step(Event::Silence), Action::Send(Message::Payload(vec![3])));
    assert_eq!(receiver.info(3), waiting(3));
    assert_eq!(receiver.step(Event::Silence), Action::Send(Message::Break));
    assert!(receiver.is_stopped());
}

#[test]
fn nothing_pending_sends_break() {
    let (mut receiver, _) = Receiver::new(&vec![9], 5);
    receiver.step(Event::Response { port: 9, flags: RSTACK });
    assert_eq!(receiver.step(Event::Silence), Action::Send(Message::Break));
}

#[test]
fn empty_seed_set_ends_at_the_first_silence() {
    let (mut receiver, first) = Receiver::new(&Vec::new(), 3);
    assert_eq!(first, Message::Payload(Vec::new()));
    assert_eq!(receiver.step(Event::Silence), Action::Send(Message::Break));
    receiver.finalize();
    assert_eq!(receiver.report(), Report { closed: 0, filtered: 0, retried_more_than_once: 0 });
}

#[test]
fn after_break_nothing_is_sent_and_nothing_changes() {
    let (mut receiver, _) = Receiver::new(&vec![7, 8], 1);
    assert_eq!(receiver.step(Event::Silence), Action::Send(Message::Break));
    assert_eq!(receiver.step(Event::Silence), Action::Idle);
    assert_eq!(receiver.step(Event::Response { port: 7, flags: SYNACK }), Action::Idle);
    assert_eq!(receiver.on_datagram(&datagram(8, RSTACK)), Ok(None));
    assert_eq!(receiver.info(7), waiting(1));
    assert_eq!(receiver.info(8), waiting(1));
}

#[test]
fn limit_of_one_dispatches_each_port_once() {
    let (mut receiver, first) = Receiver::new(&vec![1, 2, 3], 1);
    assert_eq!(first, Message::Payload(vec![1, 2, 3]));
    receiver.step(Event::Response { port: 2, flags: SYNACK });
    assert_eq!(receiver.step(Event::Silence), Action::Send(Message::Break));
    receiver.finalize();
    assert_eq!(receiver.info(1), Some(PortInfo { status: PortStatus::Filtered, retried: 1 }));
    assert_eq!(receiver.info(2), Some(PortInfo { status: PortStatus::Open, retried: 1 }));
    assert_eq!(receiver.info(3), Some(PortInfo { status: PortStatus::Filtered, retried: 1 }));
    assert_eq!(receiver.report(), Report { closed: 0, filtered: 2, retried_more_than_once: 0 });
}

#[test]
fn limit_of_zero_still_sends_the_first_payload() {
    let (mut receiver, first) = Receiver::new(&vec![5], 0);
    assert_eq!(first, Message::Payload(vec![5]));
    assert_eq!(receiver.info(5), waiting(1));
    assert_eq!(receiver.step(Event::Silence), Action::Send(Message::Break));
    receiver.finalize();
    assert_eq!(receiver.info(5).unwrap().status, PortStatus::Filtered);
}

#[test]
fn retried_stays_between_one_and_the_limit() {
    let (mut receiver, _) = Receiver::new(&vec![10, 20, 30], 4);
    let mut payloads = 1;
    loop {
        for port in [10, 20, 30] {
            let retried = receiver.info(port).unwrap().retried;
            assert!(1 <= retried && retried <= 4);
        }
        match receiver.step(Event::Silence) {
            Action::Send(Message::Payload(_)) => payloads += 1,
            Action::Send(Message::Break) => break,
            other => panic!("unexpected {:?}", other),
        }
    }
    assert_eq!(payloads, 4);
    for port in [10, 20, 30] {
        assert_eq!(receiver.info(port), waiting(4));
    }
}

#[test]
fn finalize_filters_only_ports_out_of_probes() {
    let (mut receiver, _) = Receiver::new(&vec![1, 2, 3], 2);
    receiver.step(Event::Response { port: 1, flags: SYNACK });
    receiver.finalize();
    assert_eq!(receiver.info(1).unwrap().status, PortStatus::Open);
    assert_eq!(receiver.info(2), waiting(1));
    receiver.step(Event::Silence);
    receiver.step(Event::Response { port: 3, flags: RSTACK });
    receiver.finalize();
    assert_eq!(receiver.info(2), Some(PortInfo { status: PortStatus::Filtered, retried: 2 }));
    assert_eq!(receiver.info(3), Some(PortInfo { status: PortStatus::Closed, retried: 2 }));
    assert_eq!(receiver.report(), Report { closed: 1, filtered: 1, retried_more_than_once: 2 });
    assert_eq!(receiver.step(Event::Response { port: 2, flags: SYNACK }), Action::Idle);
    assert_eq!(receiver.info(2).unwrap().status, PortStatus::Filtered);
}

#[test]
fn report_in_lines() {
    let report = Report { closed: 12, filtered: 0, retried_more_than_once: 65536 };
    assert_eq!(
        report.lines(),
        vec!["ports closed: 12", "ports filtered: 0", "ports retried more than once: 65536"]
    );
    assert_eq!(open_line(80), "80: open");
    assert_eq!(open_line(0), "0: open");
    assert_eq!(open_line(65535), "65535: open");
}
