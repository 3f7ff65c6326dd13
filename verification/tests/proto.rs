//! Tests of the wire types: hardware addresses, message kinds, options
//! and whole packets.

use dhcp_server::{DecodeError, DhcpMessageType, DhcpOption, DhcpPacket, Ipv4Address, MacAddress, MessageType};

#[test]
fn test_mac_from_bytes() {
    let mac = MacAddress::new([0xAA, 0xBB, 0xCC, 0xDD, 0xEE, 0xFF]);
    assert_eq!(mac.as_bytes(), &[0xAA, 0xBB, 0xCC, 0xDD, 0xEE, 0xFF]);
}

#[test]
fn test_mac_from_slice() {
    let slice = [0x11, 0x22, 0x33, 0x44, 0x55, 0x66, 0x77, 0x88];
    let mac = MacAddress::from_slice(&slice).unwrap();
    assert_eq!(mac.as_bytes(), &[0x11, 0x22, 0x33, 0x44, 0x55, 0x66]);
}

#[test]
fn test_mac_from_slice_too_short() {
    let slice = [0x11, 0x22, 0x33];
    assert!(MacAddress::from_slice(&slice).is_none());
}

#[test]
fn test_mac_to_string() {
    let mac = MacAddress::new([0xAA, 0xBB, 0xCC, 0xDD, 0xEE, 0xFF]);
    assert_eq!(mac.to_string(), "AA:BB:CC:DD:EE:FF");
}

#[test]
fn test_mac_from_string() {
    let mac = MacAddress::from_string("AA:BB:CC:DD:EE:FF").unwrap();
    assert_eq!(mac.as_bytes(), &[0xAA, 0xBB, 0xCC, 0xDD, 0xEE, 0xFF]);
}

#[test]
fn test_mac_from_string_lowercase() {
    let mac = MacAddress::from_string("aa:bb:cc:dd:ee:ff").unwrap();
    assert_eq!(mac.as_bytes(), &[0xAA, 0xBB, 0xCC, 0xDD, 0xEE, 0xFF]);
}

#[test]
fn test_mac_from_string_invalid() {
    assert!(MacAddress::from_string("AA:BB:CC:DD:EE").is_none());
    assert!(MacAddress::from_string("AA:BB:CC:DD:EE:GG").is_none());
    assert!(MacAddress::from_string("AABBCCDDEEFF").is_none());
}

#[test]
fn test_mac_text_round_trip() {
    let mac = MacAddress::new([0x01, 0x9F, 0x00, 0xC4, 0x5E, 0xFF]);
    let text = mac.to_string();
    assert_eq!(text, "01:9F:00:C4:5E:FF");
    let back = MacAddress::from_string(&text).unwrap();
    assert_eq!(back.as_bytes(), mac.as_bytes());
}

#[test]
fn test_message_type_to_u8() {
    assert_eq!(MessageType::Discover.to_u8(), 1);
    assert_eq!(MessageType::Offer.to_u8(), 2);
    assert_eq!(MessageType::Request.to_u8(), 3);
    assert_eq!(MessageType::Ack.to_u8(), 5);
}

#[test]
fn test_message_type_from_u8() {
    assert_eq!(MessageType::from_u8(1), Some(MessageType::Discover));
    assert_eq!(MessageType::from_u8(2), Some(MessageType::Offer));
    assert_eq!(MessageType::from_u8(5), Some(MessageType::Ack));
    assert_eq!(MessageType::from_u8(99), None);
}

#[test]
fn test_message_type_inverse() {
    let kinds = [
        MessageType::Discover,
        MessageType::Offer,
        MessageType::Request,
        MessageType::Decline,
        MessageType::Ack,
        MessageType::Nak,
        MessageType::Release,
        MessageType::Inform,
    ];
    for (i, k) in kinds.iter().enumerate() {
        assert_eq!(k.to_u8() as usize, i + 1);
        assert_eq!(MessageType::from_u8(k.to_u8()), Some(*k));
    }
    assert_eq!(MessageType::from_u8(0), None);
    assert_eq!(MessageType::from_u8(9), None);
    assert_eq!(MessageType::from_u8(255), None);
}

#[test]
fn test_compat_message_type_from_u8() {
    assert_eq!(DhcpMessageType::from_u8(1), Some(DhcpMessageType::Discover));
    assert_eq!(DhcpMessageType::from_u8(6), Some(DhcpMessageType::Nak));
    assert_eq!(DhcpMessageType::from_u8(0), None);
    assert_eq!(DhcpMessageType::from_u8(9), None);
}

#[test]
fn test_subnet_mask_parse() {
    let data = [255, 255, 255, 0];
    let opt = DhcpOption::parse(1, &data);
    assert_eq!(opt, DhcpOption::SubnetMask(Ipv4Address::new(255, 255, 255, 0)));
}

#[test]
fn test_message_type_parse() {
    let data = [1];
    let opt = DhcpOption::parse(53, &data);
    assert_eq!(opt, DhcpOption::MessageType(MessageType::Discover));
}

#[test]
fn test_lease_time_parse() {
    let data = [0, 0, 0x0E, 0x10]; // 3600 seconds
    let opt = DhcpOption::parse(51, &data);
    assert_eq!(opt, DhcpOption::LeaseTime(3600));
}

#[test]
fn test_option_round_trip() {
    let original = DhcpOption::SubnetMask(Ipv4Address::new(255, 255, 255, 0));
    let bytes = original.to_bytes();
    // bytes should be [1, 4, 255, 255, 255, 0]
    assert_eq!(bytes[0], 1); // code
    assert_eq!(bytes[1], 4); // length
    let parsed = DhcpOption::parse(bytes[0], &bytes[2..]);
    assert_eq!(parsed, original);
}

#[test]
fn test_hostname_parse() {
    let data = b"test-host";
    let opt = DhcpOption::parse(12, data);
    assert_eq!(opt, DhcpOption::Hostname(b"test-host".to_vec()));
}

#[test]
fn test_every_known_option_round_trips() {
    let samples = vec![
        DhcpOption::SubnetMask(Ipv4Address::new(255, 255, 0, 0)),
        DhcpOption::Router(vec![Ipv4Address::new(10, 0, 0, 1), Ipv4Address::new(10, 0, 0, 2)]),
        DhcpOption::DnsServer(vec![Ipv4Address::new(8, 8, 8, 8), Ipv4Address::new(8, 8, 4, 4)]),
        DhcpOption::DomainName(b"example.org".to_vec()),
        DhcpOption::RequestedIpAddress(Ipv4Address::new(192, 168, 1, 77)),
        DhcpOption::LeaseTime(86400),
        DhcpOption::MessageType(MessageType::Inform),
        DhcpOption::ServerIdentifier(Ipv4Address::new(192, 168, 1, 1)),
        DhcpOption::RenewalTime(43200),
        DhcpOption::RebindingTime(75600),
        DhcpOption::Hostname(b"client-9".to_vec()),
        DhcpOption::Unknown(200, vec![1, 2, 3]),
    ];
    for opt in &samples {
        let bytes = opt.to_bytes();
        let parsed = DhcpOption::parse(bytes[0], &bytes[2..]);
        assert_eq!(&parsed, opt);
        assert_eq!(bytes[1] as usize, bytes.len() - 2);
    }
}

#[test]
fn test_unknown_shape_kept_opaque() {
    // A known code with the wrong payload length stays opaque.
    let opt = DhcpOption::parse(1, &[255, 255, 255]);
    assert_eq!(opt, DhcpOption::Unknown(1, vec![255, 255, 255]));
    // A message-type byte outside 1..=8 stays opaque too.
    let opt = DhcpOption::parse(53, &[9]);
    assert_eq!(opt, DhcpOption::Unknown(53, vec![9]));
}

#[test]
fn test_packet_creation() {
    let packet = DhcpPacket::new();
    assert_eq!(packet.op, 1);
    assert_eq!(packet.htype, 1);
    assert_eq!(packet.hlen, 6);
}

#[test]
fn test_packet_too_small() {
    let data = vec![0u8; 100];
    assert!(DhcpPacket::parse(&data).is_err());
}

#[test]
fn test_packet_too_small_error_kind() {
    for len in [0usize, 1, 100, 239] {
        let data = vec![0u8; len];
        match DhcpPacket::parse(&data) {
            Err(e) => assert_eq!(e, DecodeError::TooSmall),
            Ok(_) => panic!("a packet shorter than the fixed header must not decode"),
        }
    }
    // 240 bytes is exactly enough.
    let data = vec![0u8; 240];
    assert!(DhcpPacket::parse(&data).is_ok());
}

#[test]
fn test_packet_round_trip() {
    let mut packet = DhcpPacket::new();
    packet.xid = 0x12345678;
    packet.chaddr = MacAddress::new([0xAA, 0xBB, 0xCC, 0xDD, 0xEE, 0xFF]);
    packet
        .options
        .push(DhcpOption::MessageType(MessageType::Discover));

    let bytes = packet.to_bytes();
    let parsed = DhcpPacket::parse(&bytes).unwrap();

    assert_eq!(parsed.xid, 0x12345678);
    assert_eq!(
        parsed.chaddr.as_bytes(),
        &[0xAA, 0xBB, 0xCC, 0xDD, 0xEE, 0xFF]
    );
    assert_eq!(parsed.get_message_type(), Some(MessageType::Discover));
}

#[test]
fn test_get_message_type() {
    let mut packet = DhcpPacket::new();
    assert_eq!(packet.get_message_type(), None);

    packet
        .options
        .push(DhcpOption::MessageType(MessageType::Request));
    assert_eq!(packet.get_message_type(), Some(MessageType::Request));
}

#[test]
fn test_packet_round_trip_full() {
    let mut packet = DhcpPacket::new();
    packet.op = 2;
    packet.hops = 3;
    packet.xid = 0xDEADBEEF;
    packet.secs = 17;
    packet.flags = 0x8000;
    packet.ciaddr = Ipv4Address::new(10, 1, 2, 3);
    packet.yiaddr = Ipv4Address::new(10, 1, 2, 4);
    packet.siaddr = Ipv4Address::new(10, 1, 2, 5);
    packet.giaddr = Ipv4Address::new(10, 1, 2, 6);
    packet.chaddr = MacAddress::new([1, 2, 3, 4, 5, 6]);
    packet.options.push(DhcpOption::MessageType(MessageType::Offer));
    packet
        .options
        .push(DhcpOption::Router(vec![Ipv4Address::new(10, 1, 2, 1)]));
    packet.options.push(DhcpOption::DomainName(b"lan".to_vec()));
    packet.options.push(DhcpOption::Unknown(130, vec![9, 9]));

    let bytes = packet.to_bytes();
    let parsed = DhcpPacket::parse(&bytes).unwrap();
    assert_eq!(parsed.op, 2);
    assert_eq!(parsed.hops, 3);
    assert_eq!(parsed.xid, 0xDEADBEEF);
    assert_eq!(parsed.secs, 17);
    assert_eq!(parsed.flags, 0x8000);
    assert_eq!(parsed.ciaddr, Ipv4Address::new(10, 1, 2, 3));
    assert_eq!(parsed.yiaddr, Ipv4Address::new(10, 1, 2, 4));
    assert_eq!(parsed.siaddr, Ipv4Address::new(10, 1, 2, 5));
    assert_eq!(parsed.giaddr, Ipv4Address::new(10, 1, 2, 6));
    assert_eq!(parsed.chaddr.as_bytes(), &[1, 2, 3, 4, 5, 6]);
    // The decoder appends the end marker it read as an explicit option.
    assert_eq!(parsed.options.len(), packet.options.len() + 1);
    for (i, opt) in packet.options.iter().enumerate() {
        assert_eq!(&parsed.options[i], opt);
    }
    assert_eq!(parsed.options.last(), Some(&DhcpOption::End));

    // A second encode of the decoded packet is byte-identical: a fixed
    // point of the codec.
    let bytes2 = parsed.to_bytes();
    assert_eq!(bytes2, bytes);
    let parsed2 = DhcpPacket::parse(&bytes2).unwrap();
    assert_eq!(parsed2.options.len(), parsed.options.len());
}

#[test]
fn test_packet_without_cookie_has_no_options() {
    let mut packet = DhcpPacket::new();
    packet.options.push(DhcpOption::MessageType(MessageType::Discover));
    let mut bytes = packet.to_bytes();
    // Corrupt the magic cookie: the option area must be ignored.
    bytes[236] = 0;
    let parsed = DhcpPacket::parse(&bytes).unwrap();
    assert!(parsed.options.is_empty());
    assert_eq!(parsed.get_message_type(), None);
}

#[test]
fn test_truncated_option_stops_scan_silently() {
    let mut packet = DhcpPacket::new();
    packet.options.push(DhcpOption::MessageType(MessageType::Discover));
    let mut bytes = packet.to_bytes();
    // Replace the end marker with a declared length running past the end.
    let n = bytes.len();
    bytes[n - 1] = 50;
    bytes.push(200);
    let parsed = DhcpPacket::parse(&bytes).unwrap();
    assert_eq!(
        parsed.options,
        vec![DhcpOption::MessageType(MessageType::Discover)]
    );
}

#[test]
fn test_pad_bytes_are_skipped() {
    let mut bytes = vec![0u8; 240];
    bytes[236] = 99;
    bytes[237] = 130;
    bytes[238] = 83;
    bytes[239] = 99;
    bytes.extend_from_slice(&[0, 0, 0, 53, 1, 3, 0, 255]);
    let parsed = DhcpPacket::parse(&bytes).unwrap();
    assert_eq!(
        parsed.options,
        vec![
            DhcpOption::MessageType(MessageType::Request),
            DhcpOption::End
        ]
    );
}
