//! Tests of the allocation engine and the lease store: discovery through
//! static assignments, live leases and dynamic ranges, requests and
//! refusals, release, and the single-winner guarantee.

use dhcp_server::engine::{
    handle_discover, handle_packet, handle_release, handle_request, netmask_from_prefix,
};
use dhcp_server::{
    DhcpConfig, DhcpOption, DhcpPacket, DynamicRange, Ipv4Address, Lease, LeaseStore, MacAddress,
    MessageType, StaticIP, Subnet,
};

fn test_config() -> DhcpConfig {
    DhcpConfig {
        default_lease_time: 86400,
        max_lease_time: 604800,
    }
}

fn test_subnet() -> Subnet {
    Subnet {
        id: Some(1),
        network: Ipv4Address::new(192, 168, 1, 0),
        netmask: 24,
        gateway: Ipv4Address::new(192, 168, 1, 1),
        dns_servers: vec![Ipv4Address::new(8, 8, 8, 8), Ipv4Address::new(8, 8, 4, 4)],
        domain_name: Some(b"test.local".to_vec()),
        enabled: true,
    }
}

fn test_range() -> DynamicRange {
    DynamicRange {
        id: Some(1),
        subnet_id: 1,
        range_start: Ipv4Address::new(192, 168, 1, 100),
        range_end: Ipv4Address::new(192, 168, 1, 150),
        enabled: true,
    }
}

fn discover_packet(mac: &str) -> DhcpPacket {
    let mut packet = DhcpPacket::new();
    packet.op = 1;
    packet.xid = 12345;
    packet.chaddr = MacAddress::from_string(mac).unwrap();
    packet
        .options
        .push(DhcpOption::MessageType(MessageType::Discover));
    packet
}

fn request_packet(mac: &str, requested_ip: Ipv4Address) -> DhcpPacket {
    let mut packet = DhcpPacket::new();
    packet.op = 1;
    packet.xid = 67890;
    packet.chaddr = MacAddress::from_string(mac).unwrap();
    packet
        .options
        .push(DhcpOption::MessageType(MessageType::Request));
    packet
        .options
        .push(DhcpOption::RequestedIpAddress(requested_ip));
    packet
}

fn release_packet(mac: &str) -> DhcpPacket {
    let mut packet = DhcpPacket::new();
    packet.op = 1;
    packet.xid = 11111;
    packet.chaddr = MacAddress::from_string(mac).unwrap();
    packet
        .options
        .push(DhcpOption::MessageType(MessageType::Release));
    packet
}

fn static_entry(mac: &str, ip: Ipv4Address) -> StaticIP {
    StaticIP {
        id: None,
        subnet_id: 1,
        mac_address: MacAddress::from_string(mac).unwrap(),
        ip_address: ip,
        hostname: Some(b"test-host".to_vec()),
        enabled: true,
    }
}

fn store_with_subnet() -> LeaseStore {
    let mut store = LeaseStore::new();
    store.add_subnet(test_subnet());
    store
}

const NOW: i64 = 1_700_000_000;

#[test]
fn test_handle_discover_with_static_ip() {
    let config = test_config();
    let mut store = store_with_subnet();
    store.add_static_ip(static_entry("AA:BB:CC:DD:EE:FF", Ipv4Address::new(192, 168, 1, 50)));

    let packet = discover_packet("AA:BB:CC:DD:EE:FF");
    let response = handle_discover(&packet, &config, &store, NOW);

    let offer = response.expect("static assignment must be offered");
    assert_eq!(offer.yiaddr, Ipv4Address::new(192, 168, 1, 50));
    assert_eq!(offer.xid, 12345);
    assert_eq!(offer.op, 2);
    assert_eq!(offer.get_message_type(), Some(MessageType::Offer));
    assert_eq!(offer.chaddr.as_bytes(), packet.chaddr.as_bytes());
}

#[test]
fn test_handle_discover_with_existing_lease() {
    let config = test_config();
    let mut store = store_with_subnet();
    let mac = MacAddress::from_string("11:22:33:44:55:66").unwrap();
    let ok = store.create_or_extend_lease(
        &mac,
        1,
        Ipv4Address::new(192, 168, 1, 100),
        NOW,
        NOW + 86400,
    );
    assert!(ok.is_ok());

    let packet = discover_packet("11:22:33:44:55:66");
    let response = handle_discover(&packet, &config, &store, NOW);

    let offer = response.expect("a live lease must be re-offered");
    assert_eq!(offer.yiaddr, Ipv4Address::new(192, 168, 1, 100));
    assert_eq!(offer.get_message_type(), Some(MessageType::Offer));
}

#[test]
fn test_handle_discover_static_ip_takes_precedence() {
    let config = test_config();
    let mut store = store_with_subnet();
    store.add_static_ip(static_entry("AA:BB:CC:DD:EE:00", Ipv4Address::new(192, 168, 1, 50)));
    let mac = MacAddress::from_string("AA:BB:CC:DD:EE:00").unwrap();
    store
        .create_or_extend_lease(&mac, 1, Ipv4Address::new(192, 168, 1, 100), NOW, NOW + 86400)
        .unwrap();

    let packet = discover_packet("AA:BB:CC:DD:EE:00");
    let response = handle_discover(&packet, &config, &store, NOW);

    let offer = response.unwrap();
    assert_eq!(offer.yiaddr, Ipv4Address::new(192, 168, 1, 50));
}

#[test]
fn test_handle_discover_no_allocation() {
    let config = test_config();
    let store = store_with_subnet();

    let packet = discover_packet("99:88:77:66:55:44");
    let response = handle_discover(&packet, &config, &store, NOW);
    assert!(response.is_none());
}

#[test]
fn test_discover_dynamic_range() {
    let config = test_config();
    let mut store = store_with_subnet();
    store.add_range(test_range());

    let packet = discover_packet("99:88:77:66:55:44");
    let response = handle_discover(&packet, &config, &store, NOW);

    let offer = response.expect("a free dynamic address must be offered");
    let got = offer.yiaddr;
    let lo = Ipv4Address::new(192, 168, 1, 100).to_u32();
    let hi = Ipv4Address::new(192, 168, 1, 150).to_u32();
    assert!(lo <= got.to_u32() && got.to_u32() <= hi);
    assert_ne!(got, Ipv4Address::new(192, 168, 1, 1));
    assert_ne!(got, Ipv4Address::new(192, 168, 1, 0));
    // The first free address of the range, in ascending order.
    assert_eq!(got, Ipv4Address::new(192, 168, 1, 100));
}

#[test]
fn test_discover_dynamic_skips_taken_addresses() {
    let config = test_config();
    let mut store = store_with_subnet();
    store.add_range(test_range());
    store.add_static_ip(static_entry("AA:AA:AA:AA:AA:01", Ipv4Address::new(192, 168, 1, 100)));
    let other = MacAddress::from_string("AA:AA:AA:AA:AA:02").unwrap();
    store
        .create_or_extend_lease(&other, 1, Ipv4Address::new(192, 168, 1, 101), NOW, NOW + 86400)
        .unwrap();

    let packet = discover_packet("99:88:77:66:55:44");
    let offer = handle_discover(&packet, &config, &store, NOW).unwrap();
    assert_eq!(offer.yiaddr, Ipv4Address::new(192, 168, 1, 102));
}

#[test]
fn test_offer_options_content() {
    let config = test_config();
    let mut store = store_with_subnet();
    store.add_static_ip(static_entry("AA:BB:CC:DD:EE:FF", Ipv4Address::new(192, 168, 1, 50)));

    let packet = discover_packet("AA:BB:CC:DD:EE:FF");
    let offer = handle_discover(&packet, &config, &store, NOW).unwrap();
    assert!(offer
        .options
        .contains(&DhcpOption::ServerIdentifier(Ipv4Address::new(192, 168, 1, 1))));
    assert!(offer.options.contains(&DhcpOption::LeaseTime(86400)));
    assert!(offer
        .options
        .contains(&DhcpOption::SubnetMask(Ipv4Address::new(255, 255, 255, 0))));
    assert!(offer
        .options
        .contains(&DhcpOption::Router(vec![Ipv4Address::new(192, 168, 1, 1)])));
    assert!(offer.options.contains(&DhcpOption::DnsServer(vec![
        Ipv4Address::new(8, 8, 8, 8),
        Ipv4Address::new(8, 8, 4, 4)
    ])));
    assert!(offer
        .options
        .contains(&DhcpOption::DomainName(b"test.local".to_vec())));
}

#[test]
fn test_handle_request_with_static_ip() {
    let config = test_config();
    let mut store = store_with_subnet();
    store.add_static_ip(static_entry("AA:BB:CC:DD:EE:FF", Ipv4Address::new(192, 168, 1, 50)));

    let packet = request_packet("AA:BB:CC:DD:EE:FF", Ipv4Address::new(192, 168, 1, 50));
    let response = handle_request(&packet, &config, &mut store, NOW);

    let ack = response.expect("a matching static assignment is acknowledged");
    assert_eq!(ack.yiaddr, Ipv4Address::new(192, 168, 1, 50));
    assert_eq!(ack.xid, 67890);
    assert_eq!(ack.op, 2);
    assert_eq!(ack.get_message_type(), Some(MessageType::Ack));
    // A statically assigned client gets no lease record.
    assert!(store.leases.is_empty());
}

#[test]
fn test_handle_request_without_requested_ip() {
    let config = test_config();
    let mut store = store_with_subnet();

    let mut packet = DhcpPacket::new();
    packet.op = 1;
    packet.xid = 67890;
    packet.chaddr = MacAddress::from_string("AA:BB:CC:DD:EE:FF").unwrap();
    packet
        .options
        .push(DhcpOption::MessageType(MessageType::Request));

    let response = handle_request(&packet, &config, &mut store, NOW);
    assert!(response.is_none());
}

#[test]
fn test_handle_request_with_wrong_static_ip() {
    let config = test_config();
    let mut store = store_with_subnet();
    store.add_static_ip(static_entry("AA:BB:CC:DD:EE:FF", Ipv4Address::new(192, 168, 1, 50)));

    // The client requests an address other than its static assignment,
    // and that address is in no enabled range: the request is refused,
    // so the client restarts its discovery promptly.
    let packet = request_packet("AA:BB:CC:DD:EE:FF", Ipv4Address::new(192, 168, 1, 100));
    let response = handle_request(&packet, &config, &mut store, NOW);
    assert_eq!(
        response.unwrap().get_message_type(),
        Some(MessageType::Nak)
    );
    assert!(store.leases.is_empty());
}

#[test]
fn test_request_for_other_clients_static_is_refused() {
    let config = test_config();
    let mut store = store_with_subnet();
    store.add_range(test_range());
    store.add_static_ip(static_entry("AA:BB:CC:DD:EE:FF", Ipv4Address::new(192, 168, 1, 50)));

    // A different client requests the statically assigned address.
    let packet = request_packet("11:22:33:44:55:66", Ipv4Address::new(192, 168, 1, 50));
    let response = handle_request(&packet, &config, &mut store, NOW);

    let nak = response.expect("a conflicting request is refused, not ignored");
    assert_eq!(nak.get_message_type(), Some(MessageType::Nak));
    assert!(store.leases.is_empty());
}

#[test]
fn test_request_in_range_is_granted() {
    let config = test_config();
    let mut store = store_with_subnet();
    store.add_range(test_range());

    let packet = request_packet("11:22:33:44:55:66", Ipv4Address::new(192, 168, 1, 120));
    let response = handle_request(&packet, &config, &mut store, NOW);

    let ack = response.unwrap();
    assert_eq!(ack.get_message_type(), Some(MessageType::Ack));
    assert_eq!(ack.yiaddr, Ipv4Address::new(192, 168, 1, 120));
    assert!(ack.options.contains(&DhcpOption::LeaseTime(86400)));
    assert!(ack.options.contains(&DhcpOption::RenewalTime(43200)));
    assert!(ack.options.contains(&DhcpOption::RebindingTime(75600)));

    // The lease was recorded.
    assert_eq!(store.leases.len(), 1);
    let lease = &store.leases[0];
    assert_eq!(lease.ip_address, Ipv4Address::new(192, 168, 1, 120));
    assert_eq!(lease.lease_start, NOW);
    assert_eq!(lease.lease_end, NOW + 86400);
    assert!(lease.active);
}

#[test]
fn test_request_renewal_extends_lease() {
    let config = test_config();
    let mut store = store_with_subnet();
    store.add_range(test_range());

    let packet = request_packet("11:22:33:44:55:66", Ipv4Address::new(192, 168, 1, 120));
    handle_request(&packet, &config, &mut store, NOW).unwrap();
    let later = NOW + 1000;
    let response = handle_request(&packet, &config, &mut store, later);
    assert_eq!(response.unwrap().get_message_type(), Some(MessageType::Ack));

    // Still a single lease, extended rather than duplicated.
    assert_eq!(store.leases.len(), 1);
    assert_eq!(store.leases[0].lease_start, later);
    assert_eq!(store.leases[0].lease_end, later + 86400);
}

#[test]
fn test_request_outside_ranges_is_refused() {
    let config = test_config();
    let mut store = store_with_subnet();
    store.add_range(test_range());

    let packet = request_packet("11:22:33:44:55:66", Ipv4Address::new(192, 168, 1, 200));
    let response = handle_request(&packet, &config, &mut store, NOW);
    assert_eq!(
        response.unwrap().get_message_type(),
        Some(MessageType::Nak)
    );
}

#[test]
fn test_request_outside_all_subnets_is_ignored() {
    let config = test_config();
    let mut store = store_with_subnet();
    store.add_range(test_range());

    let packet = request_packet("11:22:33:44:55:66", Ipv4Address::new(10, 0, 0, 5));
    let response = handle_request(&packet, &config, &mut store, NOW);
    assert!(response.is_none());
}

#[test]
fn test_concurrent_requests_single_winner() {
    let config = test_config();
    let mut store = store_with_subnet();
    store.add_range(test_range());
    let addr = Ipv4Address::new(192, 168, 1, 130);

    // Several clients race for the same previously free address; the
    // store serializes them. Exactly the first wins.
    let macs = [
        "02:00:00:00:00:01",
        "02:00:00:00:00:02",
        "02:00:00:00:00:03",
        "02:00:00:00:00:04",
    ];
    let mut acks = 0;
    let mut naks = 0;
    for mac in &macs {
        let packet = request_packet(mac, addr);
        match handle_request(&packet, &config, &mut store, NOW) {
            Some(reply) => match reply.get_message_type() {
                Some(MessageType::Ack) => acks += 1,
                Some(MessageType::Nak) => naks += 1,
                other => panic!("unexpected reply kind {:?}", other),
            },
            None => {},
        }
    }
    assert_eq!(acks, 1);
    assert_eq!(naks, macs.len() - 1);

    // Never two simultaneously active leases for one address.
    let active: Vec<&Lease> = store
        .leases
        .iter()
        .filter(|l| l.active && l.ip_address == addr)
        .collect();
    assert_eq!(active.len(), 1);
    assert_eq!(
        active[0].mac_address.as_bytes(),
        MacAddress::from_string(macs[0]).unwrap().as_bytes()
    );
}

#[test]
fn test_store_conflict_rejected() {
    let mut store = store_with_subnet();
    let mac1 = MacAddress::from_string("02:00:00:00:00:01").unwrap();
    let mac2 = MacAddress::from_string("02:00:00:00:00:02").unwrap();
    let addr = Ipv4Address::new(192, 168, 1, 140);
    assert!(store.create_or_extend_lease(&mac1, 1, addr, NOW, NOW + 3600).is_ok());
    assert!(store.create_or_extend_lease(&mac2, 1, addr, NOW, NOW + 3600).is_err());
    // After the holder's lease lapses, the address can move on.
    let later = NOW + 7200;
    assert!(store
        .create_or_extend_lease(&mac2, 1, addr, later, later + 3600)
        .is_ok());
    let active: Vec<&Lease> = store.leases.iter().filter(|l| l.active).collect();
    assert_eq!(active.len(), 1);
    assert_eq!(active[0].mac_address.as_bytes(), mac2.as_bytes());
}

#[test]
fn test_handle_release_with_active_lease() {
    let config = test_config();
    let mut store = store_with_subnet();
    store.add_range(test_range());

    let packet = request_packet("11:22:33:44:55:66", Ipv4Address::new(192, 168, 1, 100));
    handle_request(&packet, &config, &mut store, NOW).unwrap();
    let mac = MacAddress::from_string("11:22:33:44:55:66").unwrap();
    assert!(store.get_active_lease(&mac, NOW).is_some());

    handle_release(&release_packet("11:22:33:44:55:66"), &mut store, NOW);
    assert!(store.get_active_lease(&mac, NOW).is_none());

    // A later discover does not get the released address preferentially:
    // allocation starts over from the bottom of the range.
    let other = request_packet("77:77:77:77:77:77", Ipv4Address::new(192, 168, 1, 100));
    let reply = handle_request(&other, &config, &mut store, NOW);
    assert_eq!(reply.unwrap().get_message_type(), Some(MessageType::Ack));
}

#[test]
fn test_handle_release_without_lease() {
    let mut store = store_with_subnet();
    handle_release(&release_packet("99:88:77:66:55:44"), &mut store, NOW);
    assert!(store.leases.is_empty());
}

#[test]
fn test_handle_packet_dispatch() {
    let config = test_config();
    let mut store = store_with_subnet();
    store.add_static_ip(static_entry("AA:BB:CC:DD:EE:FF", Ipv4Address::new(192, 168, 1, 50)));

    // A discover is offered.
    let reply = handle_packet(&discover_packet("AA:BB:CC:DD:EE:FF"), &config, &mut store, NOW);
    assert_eq!(
        reply.unwrap().get_message_type(),
        Some(MessageType::Offer)
    );

    // A release is silent.
    let reply = handle_packet(&release_packet("AA:BB:CC:DD:EE:FF"), &config, &mut store, NOW);
    assert!(reply.is_none());

    // A packet without a message type is ignored.
    let mut bare = DhcpPacket::new();
    bare.chaddr = MacAddress::from_string("AA:BB:CC:DD:EE:FF").unwrap();
    let reply = handle_packet(&bare, &config, &mut store, NOW);
    assert!(reply.is_none());

    // An inform is ignored in the minimal policy.
    let mut inform = DhcpPacket::new();
    inform.chaddr = MacAddress::from_string("AA:BB:CC:DD:EE:FF").unwrap();
    inform
        .options
        .push(DhcpOption::MessageType(MessageType::Inform));
    let reply = handle_packet(&inform, &config, &mut store, NOW);
    assert!(reply.is_none());
}

#[test]
fn test_expired_lease_not_reoffered() {
    let config = test_config();
    let mut store = store_with_subnet();
    let mac = MacAddress::from_string("11:22:33:44:55:66").unwrap();
    store
        .create_or_extend_lease(&mac, 1, Ipv4Address::new(192, 168, 1, 100), NOW - 7200, NOW - 3600)
        .unwrap();

    // The lease has lapsed: no range configured, so nothing to offer.
    let response = handle_discover(&discover_packet("11:22:33:44:55:66"), &config, &store, NOW);
    assert!(response.is_none());
}

#[test]
fn test_lease_time_capped_by_maximum() {
    let config = DhcpConfig {
        default_lease_time: 999_999_999,
        max_lease_time: 3600,
    };
    let mut store = store_with_subnet();
    store.add_range(test_range());

    let packet = request_packet("11:22:33:44:55:66", Ipv4Address::new(192, 168, 1, 120));
    let ack = handle_request(&packet, &config, &mut store, NOW).unwrap();
    assert!(ack.options.contains(&DhcpOption::LeaseTime(3600)));
    assert_eq!(store.leases[0].lease_end, NOW + 3600);
}

#[test]
fn test_netmask_from_prefix() {
    assert_eq!(netmask_from_prefix(0), Ipv4Address::new(0, 0, 0, 0));
    assert_eq!(netmask_from_prefix(8), Ipv4Address::new(255, 0, 0, 0));
    assert_eq!(netmask_from_prefix(19), Ipv4Address::new(255, 255, 224, 0));
    assert_eq!(netmask_from_prefix(24), Ipv4Address::new(255, 255, 255, 0));
    assert_eq!(netmask_from_prefix(32), Ipv4Address::new(255, 255, 255, 255));
}

#[test]
fn test_gateway_and_network_never_offered() {
    let config = test_config();
    let mut store = LeaseStore::new();
    let mut subnet = test_subnet();
    subnet.gateway = Ipv4Address::new(192, 168, 1, 100);
    store.add_subnet(subnet);
    store.add_range(test_range());

    // The gateway address sits at the bottom of the range: it is skipped.
    let offer = handle_discover(&discover_packet("99:88:77:66:55:44"), &config, &store, NOW)
        .unwrap();
    assert_eq!(offer.yiaddr, Ipv4Address::new(192, 168, 1, 101));

    // Requesting the gateway address outright is refused.
    let nak = handle_request(
        &request_packet("99:88:77:66:55:44", Ipv4Address::new(192, 168, 1, 100)),
        &config,
        &mut store,
        NOW,
    );
    assert_eq!(nak.unwrap().get_message_type(), Some(MessageType::Nak));
}

#[test]
fn test_list_enabled_ranges() {
    let mut store = store_with_subnet();
    store.add_range(test_range());
    let mut disabled = test_range();
    disabled.enabled = false;
    disabled.range_start = Ipv4Address::new(192, 168, 1, 200);
    disabled.range_end = Ipv4Address::new(192, 168, 1, 210);
    store.add_range(disabled);
    let mut other_subnet = test_range();
    other_subnet.subnet_id = 2;
    store.add_range(other_subnet);

    let ranges = store.list_enabled_ranges(1);
    assert_eq!(ranges.len(), 1);
    assert_eq!(ranges[0].range_start, Ipv4Address::new(192, 168, 1, 100));
    assert_eq!(ranges[0].range_end, Ipv4Address::new(192, 168, 1, 150));
    assert!(store.list_enabled_ranges(3).is_empty());
}
