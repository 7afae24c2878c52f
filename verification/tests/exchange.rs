use autonomi_webrtc::endpoint::{
    advertised, announced, announcement, bootstrap, default_bootstrap, listen_multiaddr, mode,
    on_answer, on_drain, on_lookup, on_request, run, HostAction, HostEvent, IpAddress, Mode, Next,
    Segment,
};
use autonomi_webrtc::protocol::{
    drain_to_eof, read_request, write_found, write_status, Step, MAX_MESSAGE_PAYLOAD,
    MAX_RESPONSE_LEN, PROTOCOL, STATUS_NOT_FOUND, STATUS_OK, STATUS_REFUSED,
};

/// What a client receives from a list of steps.
fn written(steps: &[Step]) -> Vec<u8> {
    let mut out = Vec::new();
    for step in steps {
        if let Step::Write(bytes) = step {
            out.extend_from_slice(bytes);
        }
    }
    out
}

#[test]
fn the_protocol_has_its_constants() {
    assert_eq!(PROTOCOL, "/autonomi-fetch/0.1.0");
    assert_eq!((STATUS_OK, STATUS_NOT_FOUND, STATUS_REFUSED), (0, 1, 2));
    assert_eq!(MAX_MESSAGE_PAYLOAD, 16_320);
    assert_eq!(MAX_RESPONSE_LEN, 8_388_608);
}

#[test]
fn a_request_is_the_first_thirty_two_bytes() {
    let bytes: Vec<u8> = (0..40).collect();
    assert_eq!(read_request(&bytes).unwrap().to_vec(), bytes[..32].to_vec());
    assert_eq!(read_request(&bytes[..32]).unwrap().to_vec(), bytes[..32].to_vec());
    assert_eq!(read_request(&bytes[..31]).unwrap_err().message(), "unexpected end of file");
    assert_eq!(read_request(&[]).unwrap_err().message(), "unexpected end of file");
}

#[test]
fn a_short_answer_is_one_message() {
    assert_eq!(
        write_found(&[7, 8, 9]).unwrap(),
        vec![
            Step::Write(vec![0]),
            Step::Write(vec![0, 0, 0, 3]),
            Step::Write(vec![7, 8, 9]),
            Step::Flush,
            Step::Close,
        ]
    );
    assert_eq!(
        write_found(&[]).unwrap(),
        vec![Step::Write(vec![0]), Step::Write(vec![0, 0, 0, 0]), Step::Close]
    );
}

#[test]
fn a_long_answer_is_sent_message_by_message() {
    for len in [MAX_MESSAGE_PAYLOAD, MAX_MESSAGE_PAYLOAD + 1, 2 * MAX_MESSAGE_PAYLOAD, 70_000] {
        let data: Vec<u8> = (0..len).map(|i| (i % 253) as u8).collect();
        let steps = write_found(&data).unwrap();
        let pieces = (len + MAX_MESSAGE_PAYLOAD - 1) / MAX_MESSAGE_PAYLOAD;
        assert_eq!(steps.len(), 2 + 2 * pieces + 1);
        for pair in steps[2..steps.len() - 1].chunks(2) {
            assert!(matches!(&pair[0], Step::Write(b) if b.len() <= MAX_MESSAGE_PAYLOAD));
            assert_eq!(pair[1], Step::Flush);
        }
        assert_eq!(steps.last(), Some(&Step::Close));
        let mut expected = vec![STATUS_OK];
        expected.extend_from_slice(&(len as u32).to_be_bytes());
        expected.extend_from_slice(&data);
        assert_eq!(written(&steps), expected);
    }
}

#[test]
fn an_answer_that_is_too_long_is_not_sent() {
    let largest = vec![0u8; MAX_RESPONSE_LEN as usize];
    assert_eq!(written(&write_found(&largest).unwrap())[..5], [0, 0, 0x80, 0, 0]);
    let longer = vec![0u8; MAX_RESPONSE_LEN as usize + 1];
    assert_eq!(
        write_found(&longer).unwrap_err().message(),
        "chunk exceeds maximum response length"
    );
    match on_lookup(Ok(Some(longer))) {
        Next::Fail(error) => {
            assert_eq!(error.message(), "chunk exceeds maximum response length")
        }
        next => panic!("{next:?}"),
    }
}

#[test]
fn a_status_is_one_byte() {
    for status in [STATUS_NOT_FOUND, STATUS_REFUSED] {
        assert_eq!(write_status(status), vec![Step::Write(vec![status]), Step::Close]);
    }
}

#[test]
fn draining_ends_at_eof_or_failure() {
    assert!(drain_to_eof(Some(1)));
    assert!(drain_to_eof(Some(64)));
    assert!(!drain_to_eof(Some(0)));
    assert!(!drain_to_eof(None));
}

#[test]
fn a_stored_chunk_is_served() {
    assert_eq!(on_request(Ok(vec![5; 32])), Next::Look([5; 32]));
    match on_lookup(Ok(Some(vec![1, 2]))) {
        Next::Answer(steps) => assert_eq!(written(&steps), vec![0, 0, 0, 0, 2, 1, 2]),
        next => panic!("{next:?}"),
    }
    assert_eq!(on_answer(Ok(())), Next::Drain);
    assert_eq!(on_drain(Some(3)), Next::Drain);
    assert_eq!(on_drain(Some(0)), Next::Finish);
    assert_eq!(on_drain(None), Next::Finish);
}

#[test]
fn an_unknown_address_is_not_found() {
    assert_eq!(
        on_lookup(Ok(None)),
        Next::Answer(vec![Step::Write(vec![STATUS_NOT_FOUND]), Step::Close])
    );
}

#[test]
fn failures_end_the_exchange() {
    let text = |next: Next| match next {
        Next::Fail(error) => error.message().to_string(),
        next => panic!("{next:?}"),
    };
    assert_eq!(text(on_request(Ok(vec![5; 31]))), "unexpected end of file");
    assert_eq!(text(on_request(Err("reset".to_string()))), "reset");
    assert_eq!(text(on_lookup(Err("no peers".to_string()))), "no peers");
    assert_eq!(text(on_answer(Err("broken pipe".to_string()))), "broken pipe");
}

fn listen_address() -> Vec<Segment> {
    vec![
        Segment::Ip4([0, 0, 0, 0]),
        Segment::Other(vec![1, 2]),
        Segment::Ip6([0; 16]),
        Segment::Other(vec![3]),
    ]
}

#[test]
fn the_public_ip_replaces_those_of_its_version() {
    assert_eq!(advertised(listen_address(), None), listen_address());
    assert_eq!(
        advertised(listen_address(), Some(IpAddress::V4([1, 2, 3, 4]))),
        vec![
            Segment::Ip4([1, 2, 3, 4]),
            Segment::Other(vec![1, 2]),
            Segment::Ip6([0; 16]),
            Segment::Other(vec![3]),
        ]
    );
    assert_eq!(
        advertised(listen_address(), Some(IpAddress::V6([9; 16]))),
        vec![
            Segment::Ip4([0, 0, 0, 0]),
            Segment::Other(vec![1, 2]),
            Segment::Ip6([9; 16]),
            Segment::Other(vec![3]),
        ]
    );
}

#[test]
fn a_running_endpoint_announces_and_stops() {
    assert_eq!(run(HostEvent::Interrupted, None), HostAction::Stop);
    assert_eq!(run(HostEvent::Other, Some(IpAddress::V4([1; 4]))), HostAction::Wait);
    assert_eq!(
        run(HostEvent::Listening(listen_address()), Some(IpAddress::V4([8; 4]))),
        HostAction::Announce(advertised(listen_address(), Some(IpAddress::V4([8; 4]))))
    );
    assert_eq!(announcement("/x", None), vec!["", "  multiaddr : /x", ""]);
    assert_eq!(
        announcement("/x", Some([0xa0; 32])),
        vec![
            String::new(),
            "  multiaddr : /x".to_string(),
            format!("  fixture   : {}", "a0".repeat(32)),
            String::new(),
        ]
    );
    assert_eq!(listen_multiaddr("0.0.0.0", 4001), "/ip4/0.0.0.0/udp/4001/webrtc-direct");
}

#[test]
fn an_endpoint_is_started_for_what_was_given() {
    assert_eq!(mode(true, true), Mode::Dump);
    assert_eq!(mode(true, false), Mode::Fixture);
    assert_eq!(mode(false, false), Mode::Network);
    assert_eq!(bootstrap(vec![1, 2], vec![3]), vec![1, 2]);
    assert_eq!(bootstrap(vec![], vec![3]), vec![3]);
    let peers: Vec<String> = default_bootstrap()
        .iter()
        .map(|p| format!("{}.{}.{}.{}:{}", p.ip[0], p.ip[1], p.ip[2], p.ip[3], p.port))
        .collect();
    assert_eq!(
        peers,
        vec![
            "207.148.94.42:10000",
            "45.77.50.10:10000",
            "66.135.23.83:10000",
            "149.248.9.2:10000",
            "49.12.119.240:10000",
            "5.161.25.133:10000",
            "18.228.202.183:10000",
        ]
    );
}

#[test]
fn advertising_twice_is_advertising_once() {
    for ip in [IpAddress::V4([1, 2, 3, 4]), IpAddress::V6([7; 16])] {
        let again = match &ip {
            IpAddress::V4(octets) => IpAddress::V4(*octets),
            IpAddress::V6(octets) => IpAddress::V6(*octets),
        };
        let third = match &ip {
            IpAddress::V4(octets) => IpAddress::V4(*octets),
            IpAddress::V6(octets) => IpAddress::V6(*octets),
        };
        let once = advertised(listen_address(), Some(ip));
        assert_ne!(once, listen_address());
        assert_eq!(advertised(advertised(listen_address(), Some(again)), Some(third)), once);
    }
}

#[test]
fn an_announcement_names_the_peer() {
    let key = libp2p::identity::Keypair::generate_ed25519().public();
    let address: libp2p::Multiaddr = "/ip4/1.2.3.4/udp/4001/webrtc-direct".parse().unwrap();
    let udp = libp2p::Multiaddr::from(libp2p::multiaddr::Protocol::Udp(4001)).to_vec();
    let webrtc = libp2p::Multiaddr::from(libp2p::multiaddr::Protocol::WebRTCDirect).to_vec();
    let segments = vec![
        Segment::Ip4([1, 2, 3, 4]),
        Segment::Other(udp.clone()),
        Segment::Other(webrtc.clone()),
    ];
    let text = format!("{address}/p2p/{}", key.to_peer_id());
    assert_eq!(
        announced(&segments, &key.encode_protobuf(), Some([3; 32])),
        Some(announcement(&text, Some([3; 32])))
    );
    let six = vec![Segment::Ip6([0; 16]), Segment::Other(udp), Segment::Other(webrtc)];
    let text = format!("/ip6/::/udp/4001/webrtc-direct/p2p/{}", key.to_peer_id());
    assert_eq!(
        announced(&six, &key.encode_protobuf(), None),
        Some(announcement(&text, None))
    );
}

#[test]
fn an_address_of_another_peer_is_not_announced() {
    let key = libp2p::identity::Keypair::generate_ed25519().public();
    let other = libp2p::identity::Keypair::generate_ed25519().public();
    let p2p = libp2p::multiaddr::Protocol::P2p(other.to_peer_id());
    let segments = vec![Segment::Other(libp2p::Multiaddr::from(p2p).to_vec())];
    assert_eq!(announced(&segments, &key.encode_protobuf(), None), None);
    assert!(announced(&segments, &other.encode_protobuf(), None).is_some());
    assert_eq!(announced(&[].into(), b"no key", None), None);
    assert_eq!(announced(&vec![Segment::Other(vec![0xff])], &key.encode_protobuf(), None), None);
}
