//! The allocation engine: per-packet decisions from the incoming message
//! kind and the current store state to a reply and a lease action.
//!
//! The engine is stateless across packets except through the lease store,
//! and it never mutates the subnet, range or static tables. Time enters as
//! an explicit Unix timestamp, so every decision is a function of its
//! arguments.

use crate::addr::{addr_of_num, Ipv4Address};
use crate::config::DhcpConfig;
use crate::mac::MacAddress;
use crate::message_type::MessageType;
use crate::models::{DynamicRange, Lease, StaticIP, Subnet};
use crate::options::{DhcpOption, OptionModel};
use crate::packet::{first_message_type, option_views, DhcpPacket, PacketModel};
use crate::store::{
    addr_live_leased, addr_live_leased_to_other, find_active_on, first_enabled_static,
    first_live_lease, lemma_first_enabled_static_elem, lemma_first_live_lease_elem,
    lemma_subnet_with_id_elem, new_lease, static_on_addr, subnet_with_id, LeaseStore,
};
use vstd::prelude::*;
use vstd::slice::slice_to_vec;

verus! {

/// The mask byte with the first `p` bits set, for `p` clamped to 0..=8.
pub open spec fn mask_octet(p: int) -> u8 {
    if p <= 0 {
        0
    } else if p == 1 {
        0x80
    } else if p == 2 {
        0xC0
    } else if p == 3 {
        0xE0
    } else if p == 4 {
        0xF0
    } else if p == 5 {
        0xF8
    } else if p == 6 {
        0xFC
    } else if p == 7 {
        0xFE
    } else {
        0xFF
    }
}

/// The subnet mask for a prefix length: the first `prefix` bits set.
pub open spec fn mask_addr(prefix: int) -> Ipv4Address {
    Ipv4Address {
        o0: mask_octet(prefix),
        o1: mask_octet(prefix - 8),
        o2: mask_octet(prefix - 16),
        o3: mask_octet(prefix - 24),
    }
}

/// Whether an address lies in a subnet: equal to the network address under
/// the subnet's prefix mask.
pub open spec fn in_subnet(a: Ipv4Address, s: Subnet) -> bool {
    let m = mask_addr(s.netmask as int);
    &&& (a.o0 & m.o0) == (s.network.o0 & m.o0)
    &&& (a.o1 & m.o1) == (s.network.o1 & m.o1)
    &&& (a.o2 & m.o2) == (s.network.o2 & m.o2)
    &&& (a.o3 & m.o3) == (s.network.o3 & m.o3)
}

/// Whether an address may be dynamically allocated in a subnet: claimed by
/// no enabled static assignment, bound by no lease that is still live, and
/// neither the subnet's network nor its gateway address.
pub open spec fn addr_eligible(
    statics: Seq<StaticIP>,
    leases: Seq<Lease>,
    subnet: Subnet,
    now: i64,
    a: Ipv4Address,
) -> bool {
    &&& static_on_addr(statics, a) is None
    &&& !addr_live_leased(leases, a, now)
    &&& a != subnet.network
    &&& a != subnet.gateway
}

/// The first eligible address with numeric value in `lo ..= hi`.
pub open spec fn first_free_from(
    statics: Seq<StaticIP>,
    leases: Seq<Lease>,
    subnet: Subnet,
    now: i64,
    lo: int,
    hi: int,
) -> Option<Ipv4Address>
    decreases (if lo <= hi { hi + 1 - lo } else { 0 }),
{
    if lo > hi {
        None
    } else if addr_eligible(statics, leases, subnet, now, addr_of_num(lo)) {
        Some(addr_of_num(lo))
    } else {
        first_free_from(statics, leases, subnet, now, lo + 1, hi)
    }
}

/// The first eligible address in the subnet's enabled ranges, ranges in
/// configuration order, addresses ascending within a range.
pub open spec fn first_free_in_ranges(
    ranges: Seq<DynamicRange>,
    statics: Seq<StaticIP>,
    leases: Seq<Lease>,
    subnet: Subnet,
    sid: i64,
    now: i64,
) -> Option<Ipv4Address>
    decreases ranges.len(),
{
    if ranges.len() == 0 {
        None
    } else {
        let here = if ranges[0].enabled && ranges[0].subnet_id == sid {
            first_free_from(
                statics,
                leases,
                subnet,
                now,
                ranges[0].range_start.num(),
                ranges[0].range_end.num(),
            )
        } else {
            None
        };
        if here is Some {
            here
        } else {
            first_free_in_ranges(ranges.drop_first(), statics, leases, subnet, sid, now)
        }
    }
}

/// The first enabled subnet that can offer a dynamic address, with that
/// address.
pub open spec fn discover_dynamic(
    subnets: Seq<Subnet>,
    ranges: Seq<DynamicRange>,
    statics: Seq<StaticIP>,
    leases: Seq<Lease>,
    now: i64,
) -> Option<(Subnet, Ipv4Address)>
    decreases subnets.len(),
{
    if subnets.len() == 0 {
        None
    } else {
        let s = subnets[0];
        let here = if s.enabled && s.id is Some {
            match first_free_in_ranges(ranges, statics, leases, s, s.id->0, now) {
                Some(a) => Some((s, a)),
                None => None,
            }
        } else {
            None
        };
        if here is Some {
            here
        } else {
            discover_dynamic(subnets.drop_first(), ranges, statics, leases, now)
        }
    }
}

/// The first enabled subnet containing an address.
pub open spec fn first_subnet_containing(subnets: Seq<Subnet>, a: Ipv4Address) -> Option<Subnet>
    decreases subnets.len(),
{
    if subnets.len() == 0 {
        None
    } else if subnets[0].enabled && subnets[0].id is Some && in_subnet(a, subnets[0]) {
        Some(subnets[0])
    } else {
        first_subnet_containing(subnets.drop_first(), a)
    }
}

/// Whether an enabled range of the subnet contains the address.
pub open spec fn addr_in_ranges(ranges: Seq<DynamicRange>, sid: i64, a: Ipv4Address) -> bool {
    exists|i: int|
        0 <= i < ranges.len() && (#[trigger] ranges[i]).enabled && ranges[i].subnet_id == sid
            && ranges[i].contains(a)
}

/// The mask byte for the first `p` bits, for `p` clamped to 0..=8.
fn mask_octet_exec(p: i32) -> (r: u8)
    ensures
        r == mask_octet(p as int),
{
    if p <= 0 {
        0
    } else if p == 1 {
        0x80
    } else if p == 2 {
        0xC0
    } else if p == 3 {
        0xE0
    } else if p == 4 {
        0xF0
    } else if p == 5 {
        0xF8
    } else if p == 6 {
        0xFC
    } else if p == 7 {
        0xFE
    } else {
        0xFF
    }
}

/// The subnet mask for a prefix length.
pub fn netmask_from_prefix(prefix: u8) -> (r: Ipv4Address)
    requires
        prefix <= 32,
    ensures
        r == mask_addr(prefix as int),
{
    let p = prefix as i32;
    Ipv4Address {
        o0: mask_octet_exec(p),
        o1: mask_octet_exec(p - 8),
        o2: mask_octet_exec(p - 16),
        o3: mask_octet_exec(p - 24),
    }
}

/// Whether an address lies in a subnet.
pub fn addr_in_subnet(a: Ipv4Address, s: &Subnet) -> (r: bool)
    requires
        s.netmask <= 32,
    ensures
        r == in_subnet(a, *s),
{
    let m = netmask_from_prefix(s.netmask);
    (a.o0 & m.o0) == (s.network.o0 & m.o0) && (a.o1 & m.o1) == (s.network.o1 & m.o1) && (a.o2
        & m.o2) == (s.network.o2 & m.o2) && (a.o3 & m.o3) == (s.network.o3 & m.o3)
}

/// Whether any enabled static assignment claims the address.
fn has_static_on_addr(statics: &Vec<StaticIP>, a: Ipv4Address) -> (r: bool)
    ensures
        r == (static_on_addr(statics@, a) is Some),
{
    let n = statics.len();
    let mut i: usize = 0;
    proof {
        assert(statics@.skip(0) =~= statics@);
    }
    while i < n
        invariant
            i <= n == statics@.len(),
            static_on_addr(statics@.skip(i as int), a) == static_on_addr(statics@, a),
        decreases n - i,
    {
        let s = &statics[i];
        proof {
            assert(statics@.skip(i as int)[0] == statics@[i as int]);
            assert(statics@.skip(i as int).drop_first() =~= statics@.skip(i + 1));
        }
        if s.enabled && s.ip_address == a {
            return true;
        }
        i = i + 1;
    }
    proof {
        assert(static_on_addr(statics@.skip(n as int), a) is None);
    }
    false
}

/// Whether some lease binds the address at the given time.
fn is_addr_live_leased(leases: &Vec<Lease>, a: Ipv4Address, now: i64) -> (r: bool)
    ensures
        r == addr_live_leased(leases@, a, now),
{
    let n = leases.len();
    let mut i: usize = 0;
    while i < n
        invariant
            i <= n == leases@.len(),
            forall|k: int|
                0 <= k < i ==> !((#[trigger] leases@[k]).ip_address == a && leases@[k].live_at(
                    now,
                )),
        decreases n - i,
    {
        let l = &leases[i];
        if l.ip_address == a && l.active && l.lease_end > now {
            proof {
                assert(leases@[i as int].ip_address == a && leases@[i as int].live_at(now));
            }
            return true;
        }
        i = i + 1;
    }
    false
}

/// Whether some lease binds the address at the time for a hardware address
/// other than the given one.
fn is_addr_live_leased_to_other(
    leases: &Vec<Lease>,
    a: Ipv4Address,
    mac: &crate::mac::MacAddress,
    now: i64,
) -> (r: bool)
    ensures
        r == addr_live_leased_to_other(leases@, a, mac@, now),
{
    let n = leases.len();
    let mut i: usize = 0;
    while i < n
        invariant
            i <= n == leases@.len(),
            forall|k: int|
                0 <= k < i ==> !((#[trigger] leases@[k]).ip_address == a && leases@[k].live_at(now)
                    && leases@[k].mac_address@ != mac@),
        decreases n - i,
    {
        let l = &leases[i];
        if l.ip_address == a && l.active && l.lease_end > now && !(l.mac_address == *mac) {
            proof {
                assert(leases@[i as int].ip_address == a && leases@[i as int].live_at(now)
                    && leases@[i as int].mac_address@ != mac@);
            }
            return true;
        }
        i = i + 1;
    }
    false
}

/// Whether an enabled range of the subnet contains the address.
fn is_addr_in_ranges(ranges: &Vec<DynamicRange>, sid: i64, a: Ipv4Address) -> (r: bool)
    ensures
        r == addr_in_ranges(ranges@, sid, a),
{
    let n = ranges.len();
    let an = a.to_u32();
    let mut i: usize = 0;
    while i < n
        invariant
            i <= n == ranges@.len(),
            an == a.num(),
            forall|k: int|
                0 <= k < i ==> !((#[trigger] ranges@[k]).enabled && ranges@[k].subnet_id == sid
                    && ranges@[k].contains(a)),
        decreases n - i,
    {
        let g = &ranges[i];
        if g.enabled && g.subnet_id == sid && g.range_start.to_u32() <= an && an
            <= g.range_end.to_u32() {
            proof {
                assert((ranges@[i as int]).enabled && ranges@[i as int].subnet_id == sid
                    && ranges@[i as int].contains(a));
            }
            return true;
        }
        i = i + 1;
    }
    false
}

/// Whether an address may be dynamically allocated in a subnet.
fn is_addr_eligible(
    statics: &Vec<StaticIP>,
    leases: &Vec<Lease>,
    subnet: &Subnet,
    now: i64,
    a: Ipv4Address,
) -> (r: bool)
    ensures
        r == addr_eligible(statics@, leases@, *subnet, now, a),
{
    !has_static_on_addr(statics, a) && !is_addr_live_leased(leases, a, now) && !(a
        == subnet.network) && !(a == subnet.gateway)
}

/// The first eligible address with numeric value in `lo ..= hi`.
fn find_free_from(
    statics: &Vec<StaticIP>,
    leases: &Vec<Lease>,
    subnet: &Subnet,
    now: i64,
    lo: u32,
    hi: u32,
) -> (r: Option<Ipv4Address>)
    ensures
        r == first_free_from(statics@, leases@, *subnet, now, lo as int, hi as int),
{
    if lo > hi {
        return None;
    }
    let mut a: u32 = lo;
    while a < hi
        invariant
            lo <= a <= hi,
            first_free_from(statics@, leases@, *subnet, now, a as int, hi as int)
                == first_free_from(statics@, leases@, *subnet, now, lo as int, hi as int),
        decreases hi - a,
    {
        let cand = Ipv4Address::from_u32(a);
        if is_addr_eligible(statics, leases, subnet, now, cand) {
            return Some(cand);
        }
        a = a + 1;
    }
    let cand = Ipv4Address::from_u32(hi);
    proof {
        assert(first_free_from(statics@, leases@, *subnet, now, hi + 1, hi as int) is None);
    }
    if is_addr_eligible(statics, leases, subnet, now, cand) {
        Some(cand)
    } else {
        None
    }
}

/// The first eligible address in the subnet's enabled ranges.
fn find_free_in_ranges(
    ranges: &Vec<DynamicRange>,
    statics: &Vec<StaticIP>,
    leases: &Vec<Lease>,
    subnet: &Subnet,
    sid: i64,
    now: i64,
) -> (r: Option<Ipv4Address>)
    requires
        forall|i: int| 0 <= i < ranges@.len() ==> (#[trigger] ranges@[i]).wf(),
    ensures
        r == first_free_in_ranges(ranges@, statics@, leases@, *subnet, sid, now),
{
    let n = ranges.len();
    let mut i: usize = 0;
    proof {
        assert(ranges@.skip(0) =~= ranges@);
    }
    while i < n
        invariant
            i <= n == ranges@.len(),
            first_free_in_ranges(ranges@.skip(i as int), statics@, leases@, *subnet, sid, now)
                == first_free_in_ranges(ranges@, statics@, leases@, *subnet, sid, now),
        decreases n - i,
    {
        let g = &ranges[i];
        proof {
            assert(ranges@.skip(i as int)[0] == ranges@[i as int]);
            assert(ranges@.skip(i as int).drop_first() =~= ranges@.skip(i + 1));
        }
        if g.enabled && g.subnet_id == sid {
            let found = find_free_from(
                statics,
                leases,
                subnet,
                now,
                g.range_start.to_u32(),
                g.range_end.to_u32(),
            );
            if let Some(a) = found {
                return Some(a);
            }
        }
        i = i + 1;
    }
    None
}

/// The position of the first enabled subnet that can offer a dynamic
/// address, with that address.
fn find_dynamic(store: &LeaseStore, now: i64) -> (r: Option<(usize, Ipv4Address)>)
    requires
        store.wf(),
    ensures
        ({
            let d = discover_dynamic(store.subnets@, store.ranges@, store.static_ips@,
                store.leases@, now);
            match r {
                Some(p) => p.0 < store.subnets@.len() && d == Some(
                    (store.subnets@[p.0 as int], p.1),
                ),
                None => d is None,
            }
        }),
{
    let n = store.subnets.len();
    let mut i: usize = 0;
    proof {
        assert(store.subnets@.skip(0) =~= store.subnets@);
    }
    while i < n
        invariant
            store.wf(),
            i <= n == store.subnets@.len(),
            discover_dynamic(store.subnets@.skip(i as int), store.ranges@, store.static_ips@,
                store.leases@, now) == discover_dynamic(store.subnets@, store.ranges@,
                store.static_ips@, store.leases@, now),
        decreases n - i,
    {
        let s = &store.subnets[i];
        proof {
            assert(store.subnets@.skip(i as int)[0] == store.subnets@[i as int]);
            assert(store.subnets@.skip(i as int).drop_first() =~= store.subnets@.skip(i + 1));
        }
        let sid_opt = match s.id {
            Some(sid) => if s.enabled {
                Some(sid)
            } else {
                None
            },
            None => None,
        };
        if let Some(sid) = sid_opt {
            let found = find_free_in_ranges(
                &store.ranges,
                &store.static_ips,
                &store.leases,
                s,
                sid,
                now,
            );
            if let Some(a) = found {
                return Some((i, a));
            }
        }
        i = i + 1;
    }
    None
}

/// The zero address, as replies leave untouched address fields.
pub open spec fn zero_addr() -> Ipv4Address {
    Ipv4Address { o0: 0, o1: 0, o2: 0, o3: 0 }
}

/// The first requested-address option in a list, if any.
pub open spec fn first_requested_ip(opts: Seq<OptionModel>) -> Option<Ipv4Address>
    decreases opts.len(),
{
    if opts.len() == 0 {
        None
    } else if opts[0] is RequestedIpAddress {
        Some(opts[0]->RequestedIpAddress_0)
    } else {
        first_requested_ip(opts.drop_first())
    }
}

/// The network parameters every offer carries, in wire order.
pub open spec fn offer_options(subnet: Subnet, ls: u32) -> Seq<OptionModel> {
    let base = seq![
        OptionModel::MessageType(MessageType::Offer),
        OptionModel::ServerIdentifier(subnet.gateway),
        OptionModel::LeaseTime(ls),
        OptionModel::SubnetMask(mask_addr(subnet.netmask as int)),
        OptionModel::Router(seq![subnet.gateway]),
        OptionModel::DnsServer(subnet.dns_servers@),
    ];
    match subnet.domain_name {
        Some(d) => base.push(OptionModel::DomainName(d@)),
        None => base,
    }
}

/// The options an acknowledgement carries: as an offer, plus the renewal
/// time (half the lease) and the rebinding time (seven eighths of it).
pub open spec fn ack_options(subnet: Subnet, ls: u32) -> Seq<OptionModel> {
    let base = seq![
        OptionModel::MessageType(MessageType::Ack),
        OptionModel::ServerIdentifier(subnet.gateway),
        OptionModel::LeaseTime(ls),
        OptionModel::RenewalTime((ls / 2) as u32),
        OptionModel::RebindingTime(((ls as int) * 7 / 8) as u32),
        OptionModel::SubnetMask(mask_addr(subnet.netmask as int)),
        OptionModel::Router(seq![subnet.gateway]),
        OptionModel::DnsServer(subnet.dns_servers@),
    ];
    match subnet.domain_name {
        Some(d) => base.push(OptionModel::DomainName(d@)),
        None => base,
    }
}

/// A reply's fixed header: a BOOTP reply echoing the request's transaction
/// id and hardware address, with the assigned address in `yiaddr`.
pub open spec fn reply_model(
    req: PacketModel,
    yiaddr: Ipv4Address,
    siaddr: Ipv4Address,
    opts: Seq<OptionModel>,
) -> PacketModel {
    PacketModel {
        op: 2,
        htype: 1,
        hlen: 6,
        hops: 0,
        xid: req.xid,
        secs: 0,
        flags: 0,
        ciaddr: zero_addr(),
        yiaddr,
        siaddr,
        giaddr: zero_addr(),
        chaddr: req.chaddr,
        options: opts,
    }
}

/// The offer answering a discover: the offered address, the subnet's
/// gateway as server, and the offer options.
pub open spec fn offer_model(req: PacketModel, ip: Ipv4Address, subnet: Subnet, ls: u32) -> PacketModel {
    reply_model(req, ip, subnet.gateway, offer_options(subnet, ls))
}

/// The acknowledgement answering a request.
pub open spec fn ack_model(req: PacketModel, ip: Ipv4Address, subnet: Subnet, ls: u32) -> PacketModel {
    reply_model(req, ip, subnet.gateway, ack_options(subnet, ls))
}

/// The refusal answering an unsatisfiable request: no address, only the
/// message type and the server identifier.
pub open spec fn nak_model(req: PacketModel, subnet: Subnet) -> PacketModel {
    reply_model(
        req,
        zero_addr(),
        zero_addr(),
        seq![
            OptionModel::MessageType(MessageType::Nak),
            OptionModel::ServerIdentifier(subnet.gateway),
        ],
    )
}

/// Every option an offer carries fits its one-byte wire length, for a
/// well-formed subnet.
pub proof fn lemma_offer_options_len_ok(subnet: Subnet, ls: u32)
    requires
        subnet.wf(),
    ensures
        forall|j: int|
            0 <= j < offer_options(subnet, ls).len() ==> (#[trigger] offer_options(subnet, ls)[j]).len_ok(),
{
    let opts = offer_options(subnet, ls);
    crate::options::lemma_addrs_round_trip(seq![subnet.gateway]);
    crate::options::lemma_addrs_round_trip(subnet.dns_servers@);
    assert forall|j: int| 0 <= j < opts.len() implies (#[trigger] opts[j]).len_ok() by {
        if j == 0 || j == 1 || j == 2 || j == 3 || j == 4 || j == 5 {
        } else {
            assert(opts[j] == OptionModel::DomainName(subnet.domain_name->0@));
        }
    }
}

/// Every option an acknowledgement carries fits its one-byte wire length,
/// for a well-formed subnet.
pub proof fn lemma_ack_options_len_ok(subnet: Subnet, ls: u32)
    requires
        subnet.wf(),
    ensures
        forall|j: int|
            0 <= j < ack_options(subnet, ls).len() ==> (#[trigger] ack_options(subnet, ls)[j]).len_ok(),
{
    let opts = ack_options(subnet, ls);
    crate::options::lemma_addrs_round_trip(seq![subnet.gateway]);
    crate::options::lemma_addrs_round_trip(subnet.dns_servers@);
    assert forall|j: int| 0 <= j < opts.len() implies (#[trigger] opts[j]).len_ok() by {
        if 0 <= j <= 7 {
        } else {
            assert(opts[j] == OptionModel::DomainName(subnet.domain_name->0@));
        }
    }
}

/// Every option a refusal carries fits its one-byte wire length.
pub proof fn lemma_nak_options_len_ok(req: PacketModel, subnet: Subnet)
    ensures
        forall|j: int|
            0 <= j < nak_model(req, subnet).options.len() ==> (#[trigger] nak_model(
                req,
                subnet,
            ).options[j]).len_ok(),
{
}

/// The first requested-address option of a packet, if any.
fn get_requested_ip(packet: &DhcpPacket) -> (r: Option<Ipv4Address>)
    ensures
        r == first_requested_ip(packet@.options),
{
    let mut i: usize = 0;
    proof {
        assert(option_views(packet.options@).skip(0) =~= option_views(packet.options@));
    }
    while i < packet.options.len()
        invariant
            i <= packet.options.len(),
            first_requested_ip(option_views(packet.options@).skip(i as int))
                == first_requested_ip(option_views(packet.options@)),
        decreases packet.options.len() - i,
    {
        let ghost views = option_views(packet.options@);
        proof {
            assert(views.skip(i as int)[0] == views[i as int]);
            assert(views.skip(i as int).drop_first() =~= views.skip(i + 1));
        }
        if let DhcpOption::RequestedIpAddress(ip) = &packet.options[i] {
            return Some(*ip);
        }
        i = i + 1;
    }
    proof {
        assert(option_views(packet.options@).skip(packet.options@.len() as int) =~= Seq::<
            OptionModel,
        >::empty());
    }
    None
}

/// Build the offer answering a discover.
pub fn create_offer(
    request: &DhcpPacket,
    offered_ip: Ipv4Address,
    subnet: &Subnet,
    config: &DhcpConfig,
) -> (r: DhcpPacket)
    requires
        subnet.wf(),
    ensures
        r@ == offer_model(request@, offered_ip, *subnet, config.lease_secs()),
        forall|j: int| 0 <= j < r@.options.len() ==> (#[trigger] r@.options[j]).len_ok(),
{
    proof {
        lemma_offer_options_len_ok(*subnet, config.lease_secs());
    }
    let ls = config.issued_lease_time();
    let mut options: Vec<DhcpOption> = Vec::new();
    options.push(DhcpOption::MessageType(MessageType::Offer));
    options.push(DhcpOption::ServerIdentifier(subnet.gateway));
    options.push(DhcpOption::LeaseTime(ls));
    options.push(DhcpOption::SubnetMask(netmask_from_prefix(subnet.netmask)));
    let mut routers: Vec<Ipv4Address> = Vec::new();
    routers.push(subnet.gateway);
    proof {
        assert(routers@ =~= seq![subnet.gateway]);
    }
    options.push(DhcpOption::Router(routers));
    options.push(DhcpOption::DnsServer(slice_to_vec(subnet.dns_servers.as_slice())));
    if let Some(domain) = &subnet.domain_name {
        options.push(DhcpOption::DomainName(slice_to_vec(domain.as_slice())));
    }
    let packet = DhcpPacket {
        op: 2,
        htype: 1,
        hlen: 6,
        hops: 0,
        xid: request.xid,
        secs: 0,
        flags: 0,
        ciaddr: Ipv4Address::zero(),
        yiaddr: offered_ip,
        siaddr: subnet.gateway,
        giaddr: Ipv4Address::zero(),
        chaddr: request.chaddr,
        options,
    };
    proof {
        assert(option_views(packet.options@) =~~= offer_options(*subnet, config.lease_secs()));
        assert(packet@ == offer_model(request@, offered_ip, *subnet, config.lease_secs()));
    }
    packet
}

/// Build the acknowledgement answering a request.
pub fn create_ack(
    request: &DhcpPacket,
    assigned_ip: Ipv4Address,
    subnet: &Subnet,
    config: &DhcpConfig,
) -> (r: DhcpPacket)
    requires
        subnet.wf(),
    ensures
        r@ == ack_model(request@, assigned_ip, *subnet, config.lease_secs()),
        forall|j: int| 0 <= j < r@.options.len() ==> (#[trigger] r@.options[j]).len_ok(),
{
    proof {
        lemma_ack_options_len_ok(*subnet, config.lease_secs());
    }
    let ls = config.issued_lease_time();
    let rebinding = ((ls as u64) * 7 / 8) as u32;
    proof {
        assert(ls as int * 7 / 8 <= ls as int) by (nonlinear_arith);
        assert(rebinding == ((ls as int) * 7 / 8) as u32);
    }
    let mut options: Vec<DhcpOption> = Vec::new();
    options.push(DhcpOption::MessageType(MessageType::Ack));
    options.push(DhcpOption::ServerIdentifier(subnet.gateway));
    options.push(DhcpOption::LeaseTime(ls));
    options.push(DhcpOption::RenewalTime(ls / 2));
    options.push(DhcpOption::RebindingTime(rebinding));
    options.push(DhcpOption::SubnetMask(netmask_from_prefix(subnet.netmask)));
    let mut routers: Vec<Ipv4Address> = Vec::new();
    routers.push(subnet.gateway);
    proof {
        assert(routers@ =~= seq![subnet.gateway]);
    }
    options.push(DhcpOption::Router(routers));
    options.push(DhcpOption::DnsServer(slice_to_vec(subnet.dns_servers.as_slice())));
    if let Some(domain) = &subnet.domain_name {
        options.push(DhcpOption::DomainName(slice_to_vec(domain.as_slice())));
    }
    let packet = DhcpPacket {
        op: 2,
        htype: 1,
        hlen: 6,
        hops: 0,
        xid: request.xid,
        secs: 0,
        flags: 0,
        ciaddr: Ipv4Address::zero(),
        yiaddr: assigned_ip,
        siaddr: subnet.gateway,
        giaddr: Ipv4Address::zero(),
        chaddr: request.chaddr,
        options,
    };
    proof {
        assert(option_views(packet.options@) =~~= ack_options(*subnet, config.lease_secs()));
        assert(packet@ == ack_model(request@, assigned_ip, *subnet, config.lease_secs()));
    }
    packet
}

/// Build the refusal answering an unsatisfiable request.
pub fn create_nak(request: &DhcpPacket, subnet: &Subnet) -> (r: DhcpPacket)
    ensures
        r@ == nak_model(request@, *subnet),
        forall|j: int| 0 <= j < r@.options.len() ==> (#[trigger] r@.options[j]).len_ok(),
{
    proof {
        lemma_nak_options_len_ok(request@, *subnet);
    }
    let mut options: Vec<DhcpOption> = Vec::new();
    options.push(DhcpOption::MessageType(MessageType::Nak));
    options.push(DhcpOption::ServerIdentifier(subnet.gateway));
    let packet = DhcpPacket {
        op: 2,
        htype: 1,
        hlen: 6,
        hops: 0,
        xid: request.xid,
        secs: 0,
        flags: 0,
        ciaddr: Ipv4Address::zero(),
        yiaddr: Ipv4Address::zero(),
        siaddr: Ipv4Address::zero(),
        giaddr: Ipv4Address::zero(),
        chaddr: request.chaddr,
        options,
    };
    proof {
        assert(option_views(packet.options@) =~~= nak_model(request@, *subnet).options);
        assert(packet@ == nak_model(request@, *subnet));
    }
    packet
}

/// What a discover is answered with: the client's static assignment first,
/// its still-live lease second (a valid lease is re-offered, never
/// reassigned), a fresh dynamic address third; silence when none exists or
/// the matching subnet is unknown.
pub open spec fn discover_reply(
    packet: PacketModel,
    config: DhcpConfig,
    subnets: Seq<Subnet>,
    ranges: Seq<DynamicRange>,
    statics: Seq<StaticIP>,
    leases: Seq<Lease>,
    now: i64,
) -> Option<PacketModel> {
    match first_enabled_static(statics, packet.chaddr) {
        Some(st) => match subnet_with_id(subnets, st.subnet_id) {
            Some(sub) => Some(offer_model(packet, st.ip_address, sub, config.lease_secs())),
            None => None,
        },
        None => match first_live_lease(leases, packet.chaddr, now) {
            Some(le) => match subnet_with_id(subnets, le.subnet_id) {
                Some(sub) => Some(offer_model(packet, le.ip_address, sub, config.lease_secs())),
                None => None,
            },
            None => match discover_dynamic(subnets, ranges, statics, leases, now) {
                Some(p) => Some(offer_model(packet, p.1, p.0, config.lease_secs())),
                None => None,
            },
        },
    }
}

/// Answer a discover: offer the client's static assignment, else its
/// still-live lease, else the first free dynamic address; stay silent when
/// nothing can be offered.
pub fn handle_discover(
    packet: &DhcpPacket,
    config: &DhcpConfig,
    store: &LeaseStore,
    now: i64,
) -> (r: Option<DhcpPacket>)
    requires
        store.wf(),
    ensures
        ({
            let d = discover_reply(packet@, *config, store.subnets@, store.ranges@,
                store.static_ips@, store.leases@, now);
            match r {
                Some(p) => d == Some(p@),
                None => d is None,
            }
        }),
        ({
            match r {
                Some(p) => forall|j: int|
                    0 <= j < p@.options.len() ==> (#[trigger] p@.options[j]).len_ok(),
                None => true,
            }
        }),
{
    let mac = packet.chaddr;
    if let Some(st) = store.get_static_by_mac(&mac) {
        let ip = st.ip_address;
        let sid = st.subnet_id;
        return match store.get_subnet(sid) {
            Some(sub) => {
                proof {
                    lemma_subnet_with_id_elem(store.subnets@, sid);
                }
                Some(create_offer(packet, ip, sub, config))
            },
            None => None,
        };
    }
    if let Some(le) = store.get_active_lease(&mac, now) {
        let ip = le.ip_address;
        let sid = le.subnet_id;
        return match store.get_subnet(sid) {
            Some(sub) => {
                proof {
                    lemma_subnet_with_id_elem(store.subnets@, sid);
                }
                Some(create_offer(packet, ip, sub, config))
            },
            None => None,
        };
    }
    match find_dynamic(store, now) {
        Some((idx, a)) => Some(create_offer(packet, a, &store.subnets[idx], config)),
        None => None,
    }
}

/// Process a release: deactivate the client's live lease, if it has one.
/// A release is never answered on the wire.
pub fn handle_release(packet: &DhcpPacket, store: &mut LeaseStore, now: i64)
    requires
        old(store).wf(),
    ensures
        final(store).wf(),
        final(store).subnets@ == old(store).subnets@,
        final(store).ranges@ == old(store).ranges@,
        final(store).static_ips@ == old(store).static_ips@,
        final(store).next_lease_id == old(store).next_lease_id,
        final(store).leases@ == release_effect(packet@.chaddr, old(store).leases@, now),
{
    let mac = packet.chaddr;
    let ghost ls0 = store.leases@;
    let lease_id: Option<i64> = match store.get_active_lease(&mac, now) {
        Some(l) => {
            proof {
                lemma_first_live_lease_elem(store.leases@, mac@, now);
                let j = choose|i: int|
                    0 <= i < ls0.len() && ls0[i] == first_live_lease(ls0, mac@, now)->0;
                assert(ls0[j].wf());
            }
            l.id
        },
        None => None,
    };
    if let Some(id) = lease_id {
        store.expire_lease(id);
        proof {
            assert(store.leases@ =~= release_effect(mac@, ls0, now));
        }
    } else {
        proof {
            assert(store.leases@ =~= release_effect(mac@, ls0, now));
        }
    }
}

/// The position of the first enabled subnet containing an address.
fn find_subnet_containing(subnets: &Vec<Subnet>, a: Ipv4Address) -> (r: Option<usize>)
    requires
        forall|i: int| 0 <= i < subnets@.len() ==> (#[trigger] subnets@[i]).wf(),
    ensures
        match r {
            Some(i) => i < subnets@.len() && first_subnet_containing(subnets@, a) == Some(
                subnets@[i as int],
            ),
            None => first_subnet_containing(subnets@, a) is None,
        },
{
    let n = subnets.len();
    let mut i: usize = 0;
    proof {
        assert(subnets@.skip(0) =~= subnets@);
    }
    while i < n
        invariant
            forall|k: int| 0 <= k < subnets@.len() ==> (#[trigger] subnets@[k]).wf(),
            i <= n == subnets@.len(),
            first_subnet_containing(subnets@.skip(i as int), a) == first_subnet_containing(
                subnets@,
                a,
            ),
        decreases n - i,
    {
        let s = &subnets[i];
        proof {
            assert(subnets@.skip(i as int)[0] == subnets@[i as int]);
            assert(subnets@.skip(i as int).drop_first() =~= subnets@.skip(i + 1));
        }
        let has_id = match s.id {
            Some(_) => true,
            None => false,
        };
        if s.enabled && has_id && addr_in_subnet(a, s) {
            return Some(i);
        }
        i = i + 1;
    }
    proof {
        assert(first_subnet_containing(subnets@.skip(n as int), a) is None);
    }
    None
}

/// What a found subnet looks like: an enabled, well-formed element of the
/// list, with an id, containing the address.
pub proof fn lemma_first_subnet_containing(subnets: Seq<Subnet>, a: Ipv4Address)
    requires
        first_subnet_containing(subnets, a) is Some,
    ensures
        exists|i: int|
            0 <= i < subnets.len() && subnets[i] == first_subnet_containing(subnets, a)->0,
        first_subnet_containing(subnets, a)->0.enabled,
        first_subnet_containing(subnets, a)->0.id is Some,
        in_subnet(a, first_subnet_containing(subnets, a)->0),
    decreases subnets.len(),
{
    if subnets.len() > 0 && !(subnets[0].enabled && subnets[0].id is Some && in_subnet(
        a,
        subnets[0],
    )) {
        lemma_first_subnet_containing(subnets.drop_first(), a);
        let j = choose|i: int|
            0 <= i < subnets.drop_first().len() && subnets.drop_first()[i]
                == first_subnet_containing(subnets.drop_first(), a)->0;
        assert(subnets[j + 1] == subnets.drop_first()[j]);
    }
}

/// What a request is answered with, and why.
pub ghost enum RequestDecision {
    /// Silence: no requested address, or no subnet context resolves.
    NoReply,
    /// The client's own static assignment, acknowledged authoritatively.
    StaticAck(StaticIP, Subnet),
    /// The requested address is unavailable: refuse, so the client
    /// restarts its discovery promptly.
    Deny(Subnet),
    /// The requested address is free for this client: lease it and
    /// acknowledge.
    Grant(Subnet, Ipv4Address),
}

/// The decision for a request: a matching static assignment is
/// authoritative; otherwise the requested address must lie in a known
/// subnet and an enabled range, claim no static assignment or reserved
/// address, and be bound by no other client's live lease.
pub open spec fn request_decision(
    packet: PacketModel,
    subnets: Seq<Subnet>,
    ranges: Seq<DynamicRange>,
    statics: Seq<StaticIP>,
    leases: Seq<Lease>,
    now: i64,
) -> RequestDecision {
    match first_requested_ip(packet.options) {
        None => RequestDecision::NoReply,
        Some(req) => {
            let st = first_enabled_static(statics, packet.chaddr);
            if st is Some && st->0.ip_address == req {
                match subnet_with_id(subnets, st->0.subnet_id) {
                    Some(sub) => RequestDecision::StaticAck(st->0, sub),
                    None => RequestDecision::NoReply,
                }
            } else {
                match first_subnet_containing(subnets, req) {
                    None => RequestDecision::NoReply,
                    Some(sub) => {
                        if static_on_addr(statics, req) is Some {
                            RequestDecision::Deny(sub)
                        } else if !addr_in_ranges(ranges, sub.id->0, req) {
                            RequestDecision::Deny(sub)
                        } else if req == sub.network || req == sub.gateway {
                            RequestDecision::Deny(sub)
                        } else if addr_live_leased_to_other(leases, req, packet.chaddr, now) {
                            RequestDecision::Deny(sub)
                        } else {
                            RequestDecision::Grant(sub, req)
                        }
                    },
                }
            }
        },
    }
}

/// The whole effect of a request on the lease table: the new lease
/// records, the next lease id, and the reply.
pub open spec fn request_effect(
    packet: PacketModel,
    mac: MacAddress,
    config: DhcpConfig,
    subnets: Seq<Subnet>,
    ranges: Seq<DynamicRange>,
    statics: Seq<StaticIP>,
    leases: Seq<Lease>,
    next: i64,
    now: i64,
) -> (Seq<Lease>, i64, Option<PacketModel>) {
    match request_decision(packet, subnets, ranges, statics, leases, now) {
        RequestDecision::NoReply => (leases, next, None),
        RequestDecision::StaticAck(st, sub) => (
            leases,
            next,
            Some(ack_model(packet, st.ip_address, sub, config.lease_secs())),
        ),
        RequestDecision::Deny(sub) => (leases, next, Some(nak_model(packet, sub))),
        RequestDecision::Grant(sub, a) => {
            let end = (now + config.lease_secs()) as i64;
            let k = find_active_on(leases, a);
            let reply = Some(ack_model(packet, a, sub, config.lease_secs()));
            if k < leases.len() && leases[k].mac_address@ == packet.chaddr {
                (leases.update(k, Lease { lease_start: now, lease_end: end, ..leases[k] }),
                next, reply)
            } else if k < leases.len() {
                (leases.update(k, Lease { active: false, ..leases[k] }).push(
                    new_lease(next, sub.id->0, mac, a, now, end),
                ), (next + 1) as i64, reply)
            } else {
                (leases.push(new_lease(next, sub.id->0, mac, a, now, end)), (next + 1) as i64, reply)
            }
        },
    }
}

/// Answer a request. A request must carry a requested address; the
/// client's matching static assignment is acknowledged without touching
/// lease state; an available dynamic address is leased and acknowledged
/// with renewal and rebinding times; an unavailable one is refused; only a
/// request that resolves no subnet context is ignored.
pub fn handle_request(
    packet: &DhcpPacket,
    config: &DhcpConfig,
    store: &mut LeaseStore,
    now: i64,
) -> (r: Option<DhcpPacket>)
    requires
        old(store).wf(),
        old(store).next_lease_id < i64::MAX,
        0 <= now,
        now + config.max_lease_time < i64::MAX,
    ensures
        final(store).wf(),
        final(store).subnets@ == old(store).subnets@,
        final(store).ranges@ == old(store).ranges@,
        final(store).static_ips@ == old(store).static_ips@,
        ({
            let eff = request_effect(packet@, packet.chaddr, *config, old(store).subnets@,
                old(store).ranges@, old(store).static_ips@, old(store).leases@,
                old(store).next_lease_id, now);
            &&& final(store).leases@ == eff.0
            &&& final(store).next_lease_id == eff.1
            &&& match r {
                Some(p) => eff.2 == Some(p@),
                None => eff.2 is None,
            }
        }),
        ({
            match r {
                Some(p) => forall|j: int|
                    0 <= j < p@.options.len() ==> (#[trigger] p@.options[j]).len_ok(),
                None => true,
            }
        }),
{
    let req = match get_requested_ip(packet) {
        Some(x) => x,
        None => {
            return None;
        },
    };
    let mac = packet.chaddr;
    let static_hit: Option<(Ipv4Address, i64)> = match store.get_static_by_mac(&mac) {
        Some(st) => Some((st.ip_address, st.subnet_id)),
        None => None,
    };
    if let Some((sip, ssid)) = static_hit {
        if sip == req {
            return match store.get_subnet(ssid) {
                Some(sub) => {
                    proof {
                        lemma_subnet_with_id_elem(store.subnets@, ssid);
                    }
                    Some(create_ack(packet, req, sub, config))
                },
                None => None,
            };
        }
    }
    let sub_idx = match find_subnet_containing(&store.subnets, req) {
        Some(i) => i,
        None => {
            return None;
        },
    };
    proof {
        lemma_first_subnet_containing(store.subnets@, req);
    }
    let sid = match store.subnets[sub_idx].id {
        Some(x) => x,
        None => {
            return None;
        },
    };
    if has_static_on_addr(&store.static_ips, req) {
        return Some(create_nak(packet, &store.subnets[sub_idx]));
    }
    if !is_addr_in_ranges(&store.ranges, sid, req) {
        return Some(create_nak(packet, &store.subnets[sub_idx]));
    }
    if req == store.subnets[sub_idx].network || req == store.subnets[sub_idx].gateway {
        return Some(create_nak(packet, &store.subnets[sub_idx]));
    }
    if is_addr_live_leased_to_other(&store.leases, req, &mac, now) {
        return Some(create_nak(packet, &store.subnets[sub_idx]));
    }
    let ls = config.issued_lease_time();
    let end = now + (ls as i64);
    let ghost ls0 = store.leases@;
    let result = store.create_or_extend_lease(&mac, sid, req, now, end);
    proof {
        let k = find_active_on(ls0, req);
        crate::store::lemma_find_active_on(ls0, req);
        if k < ls0.len() && ls0[k].mac_address@ != mac@ && ls0[k].lease_end > now {
            assert(ls0[k].live_at(now));
            assert(addr_live_leased_to_other(ls0, req, mac@, now));
        }
    }
    match result {
        Ok(()) => Some(create_ack(packet, req, &store.subnets[sub_idx], config)),
        Err(()) => None,
    }
}

/// What a release does to the lease table: the client's live lease, if it
/// has one, is deactivated; everything else stays.
pub open spec fn release_effect(chaddr: Seq<u8>, leases: Seq<Lease>, now: i64) -> Seq<Lease> {
    match first_live_lease(leases, chaddr, now) {
        Some(l) => leases.map_values(
            |x: Lease|
                if x.id == l.id {
                    Lease { active: false, ..x }
                } else {
                    x
                },
        ),
        None => leases,
    }
}

/// Dispatch one inbound packet by its message kind: a discover may be
/// offered an address, a request acknowledged or refused, a release
/// deactivates the client's lease silently, and everything else — an
/// unparseable message kind included — is ignored.
pub fn handle_packet(
    packet: &DhcpPacket,
    config: &DhcpConfig,
    store: &mut LeaseStore,
    now: i64,
) -> (r: Option<DhcpPacket>)
    requires
        old(store).wf(),
        old(store).next_lease_id < i64::MAX,
        0 <= now,
        now + config.max_lease_time < i64::MAX,
    ensures
        final(store).wf(),
        final(store).subnets@ == old(store).subnets@,
        final(store).ranges@ == old(store).ranges@,
        final(store).static_ips@ == old(store).static_ips@,
        ({
            let mt = first_message_type(packet@.options);
            if mt == Some(MessageType::Discover) {
                &&& final(store).leases@ == old(store).leases@
                &&& final(store).next_lease_id == old(store).next_lease_id
                &&& ({
                    let d = discover_reply(packet@, *config, old(store).subnets@,
                        old(store).ranges@, old(store).static_ips@, old(store).leases@, now);
                    match r {
                        Some(p) => d == Some(p@),
                        None => d is None,
                    }
                })
            } else if mt == Some(MessageType::Request) {
                let eff = request_effect(packet@, packet.chaddr, *config, old(store).subnets@,
                    old(store).ranges@, old(store).static_ips@, old(store).leases@,
                    old(store).next_lease_id, now);
                &&& final(store).leases@ == eff.0
                &&& final(store).next_lease_id == eff.1
                &&& match r {
                    Some(p) => eff.2 == Some(p@),
                    None => eff.2 is None,
                }
            } else if mt == Some(MessageType::Release) {
                &&& final(store).leases@ == release_effect(packet@.chaddr, old(store).leases@,
                    now)
                &&& final(store).next_lease_id == old(store).next_lease_id
                &&& r is None
            } else {
                &&& final(store).leases@ == old(store).leases@
                &&& final(store).next_lease_id == old(store).next_lease_id
                &&& r is None
            }
        }),
        ({
            match r {
                Some(p) => forall|j: int|
                    0 <= j < p@.options.len() ==> (#[trigger] p@.options[j]).len_ok(),
                None => true,
            }
        }),
{
    let mt = match packet.get_message_type() {
        Some(m) => m,
        None => {
            return None;
        },
    };
    match mt {
        MessageType::Discover => handle_discover(packet, config, store, now),
        MessageType::Request => handle_request(packet, config, store, now),
        MessageType::Release => {
            handle_release(packet, store, now);
            None
        },
        _ => None,
    }
}

/// An address's numeric value lies below 2^32.
pub proof fn lemma_num_bounds(a: Ipv4Address)
    ensures
        0 <= a.num() < 0x100000000,
{
}

/// An address found free in `lo ..= hi` lies in that range and is
/// eligible.
proof fn lemma_first_free_from_props(
    statics: Seq<StaticIP>,
    leases: Seq<Lease>,
    subnet: Subnet,
    now: i64,
    lo: int,
    hi: int,
)
    requires
        0 <= lo,
        hi < 0x100000000,
        first_free_from(statics, leases, subnet, now, lo, hi) is Some,
    ensures
        ({
            let a = first_free_from(statics, leases, subnet, now, lo, hi)->0;
            &&& lo <= a.num() <= hi
            &&& addr_eligible(statics, leases, subnet, now, a)
        }),
    decreases (if lo <= hi { hi + 1 - lo } else { 0 }),
{
    if lo <= hi {
        if addr_eligible(statics, leases, subnet, now, addr_of_num(lo)) {
            crate::addr::lemma_addr_of_num(lo as u32);
        } else {
            lemma_first_free_from_props(statics, leases, subnet, now, lo + 1, hi);
        }
    }
}

/// An address found free in a subnet's ranges lies in one of its enabled
/// ranges and is eligible.
proof fn lemma_first_free_in_ranges_props(
    ranges: Seq<DynamicRange>,
    statics: Seq<StaticIP>,
    leases: Seq<Lease>,
    subnet: Subnet,
    sid: i64,
    now: i64,
)
    requires
        first_free_in_ranges(ranges, statics, leases, subnet, sid, now) is Some,
    ensures
        ({
            let a = first_free_in_ranges(ranges, statics, leases, subnet, sid, now)->0;
            &&& addr_eligible(statics, leases, subnet, now, a)
            &&& addr_in_ranges(ranges, sid, a)
        }),
    decreases ranges.len(),
{
    let a = first_free_in_ranges(ranges, statics, leases, subnet, sid, now)->0;
    let here = if ranges[0].enabled && ranges[0].subnet_id == sid {
        first_free_from(
            statics,
            leases,
            subnet,
            now,
            ranges[0].range_start.num(),
            ranges[0].range_end.num(),
        )
    } else {
        None
    };
    if here is Some {
        lemma_num_bounds(ranges[0].range_start);
        lemma_num_bounds(ranges[0].range_end);
        lemma_first_free_from_props(
            statics,
            leases,
            subnet,
            now,
            ranges[0].range_start.num(),
            ranges[0].range_end.num(),
        );
        assert(ranges[0].enabled && ranges[0].subnet_id == sid && ranges[0].contains(a));
    } else {
        lemma_first_free_in_ranges_props(ranges.drop_first(), statics, leases, subnet, sid, now);
        let j = choose|i: int|
            0 <= i < ranges.drop_first().len() && (#[trigger] ranges.drop_first()[i]).enabled
                && ranges.drop_first()[i].subnet_id == sid && ranges.drop_first()[i].contains(a);
        assert(ranges[j + 1] == ranges.drop_first()[j]);
        assert(ranges[j + 1].enabled && ranges[j + 1].subnet_id == sid && ranges[j + 1].contains(
            a,
        ));
    }
}

/// A dynamically chosen address is sound: it comes from an enabled subnet
/// of the configuration, lies in one of that subnet's enabled ranges, and
/// is eligible — claimed by no enabled static assignment, bound by no live
/// lease, and neither the subnet's network nor its gateway address.
pub proof fn lemma_dynamic_choice_sound(
    subnets: Seq<Subnet>,
    ranges: Seq<DynamicRange>,
    statics: Seq<StaticIP>,
    leases: Seq<Lease>,
    now: i64,
)
    requires
        discover_dynamic(subnets, ranges, statics, leases, now) is Some,
    ensures
        ({
            let p = discover_dynamic(subnets, ranges, statics, leases, now)->0;
            &&& exists|i: int| 0 <= i < subnets.len() && subnets[i] == p.0
            &&& p.0.enabled
            &&& p.0.id is Some
            &&& addr_eligible(statics, leases, p.0, now, p.1)
            &&& addr_in_ranges(ranges, p.0.id->0, p.1)
        }),
    decreases subnets.len(),
{
    let p = discover_dynamic(subnets, ranges, statics, leases, now)->0;
    let s = subnets[0];
    let here = if s.enabled && s.id is Some {
        match first_free_in_ranges(ranges, statics, leases, s, s.id->0, now) {
            Some(a) => Some((s, a)),
            None => None,
        }
    } else {
        None
    };
    if here is Some {
        lemma_first_free_in_ranges_props(ranges, statics, leases, s, s.id->0, now);
    } else {
        lemma_dynamic_choice_sound(subnets.drop_first(), ranges, statics, leases, now);
        let j = choose|i: int| 0 <= i < subnets.drop_first().len() && subnets.drop_first()[i] == p.0;
        assert(subnets[j + 1] == subnets.drop_first()[j]);
    }
}

/// When no lease in the list is live for the hardware address, none is
/// found.
proof fn lemma_first_live_lease_none(leases: Seq<Lease>, mac: Seq<u8>, now: i64)
    requires
        forall|i: int|
            0 <= i < leases.len() ==> !((#[trigger] leases[i]).mac_address@ == mac
                && leases[i].live_at(now)),
    ensures
        first_live_lease(leases, mac, now) is None,
    decreases leases.len(),
{
    if leases.len() > 0 {
        assert forall|i: int| 0 <= i < leases.drop_first().len() implies !((
        #[trigger] leases.drop_first()[i]).mac_address@ == mac && leases.drop_first()[i].live_at(
            now,
        )) by {
            assert(leases.drop_first()[i] == leases[i + 1]);
        }
        lemma_first_live_lease_none(leases.drop_first(), mac, now);
    }
}

/// When no enabled static assignment claims the address, none is found.
proof fn lemma_static_on_addr_none(statics: Seq<StaticIP>, a: Ipv4Address)
    requires
        static_on_addr(statics, a) is None,
    ensures
        forall|i: int|
            0 <= i < statics.len() ==> !((#[trigger] statics[i]).enabled && statics[i].ip_address
                == a),
    decreases statics.len(),
{
    if statics.len() > 0 {
        lemma_static_on_addr_none(statics.drop_first(), a);
        assert forall|i: int| 0 <= i < statics.len() implies !((#[trigger] statics[i]).enabled
            && statics[i].ip_address == a) by {
            if i > 0 {
                assert(statics[i] == statics.drop_first()[i - 1]);
            }
        }
    }
}

/// Releasing clears the client's binding: when the client holds at most
/// one live lease, then after a release no live lease remains for it.
pub proof fn lemma_release_clears_lease(chaddr: Seq<u8>, leases: Seq<Lease>, now: i64)
    requires
        forall|i: int, j: int|
            0 <= i < leases.len() && 0 <= j < leases.len() && (#[trigger] leases[i]).live_at(now)
                && leases[i].mac_address@ == chaddr && (#[trigger] leases[j]).live_at(now)
                && leases[j].mac_address@ == chaddr ==> i == j,
    ensures
        first_live_lease(release_effect(chaddr, leases, now), chaddr, now) is None,
{
    let after = release_effect(chaddr, leases, now);
    match first_live_lease(leases, chaddr, now) {
        Some(l) => {
            crate::store::lemma_first_live_lease_elem(leases, chaddr, now);
            let i0 = choose|i: int| 0 <= i < leases.len() && leases[i] == l;
            assert forall|i: int| 0 <= i < after.len() implies !((#[trigger] after[i]).mac_address@
                == chaddr && after[i].live_at(now)) by {
                if after[i].mac_address@ == chaddr && after[i].live_at(now) {
                    assert(after[i] == (if leases[i].id == l.id {
                        Lease { active: false, ..leases[i] }
                    } else {
                        leases[i]
                    }));
                    assert(leases[i].id != l.id);
                    assert(leases[i].mac_address@ == chaddr && leases[i].live_at(now));
                    assert(i == i0);
                }
            }
            lemma_first_live_lease_none(after, chaddr, now);
        },
        None => {
            lemma_first_live_lease_none_inv(leases, chaddr, now);
            lemma_first_live_lease_none(after, chaddr, now);
        },
    }
}

/// When no lease is found for a hardware address, none in the list is
/// live for it.
proof fn lemma_first_live_lease_none_inv(leases: Seq<Lease>, mac: Seq<u8>, now: i64)
    requires
        first_live_lease(leases, mac, now) is None,
    ensures
        forall|i: int|
            0 <= i < leases.len() ==> !((#[trigger] leases[i]).mac_address@ == mac
                && leases[i].live_at(now)),
    decreases leases.len(),
{
    if leases.len() > 0 {
        lemma_first_live_lease_none_inv(leases.drop_first(), mac, now);
        assert forall|i: int| 0 <= i < leases.len() implies !((#[trigger] leases[i]).mac_address@
            == mac && leases[i].live_at(now)) by {
            if i > 0 {
                assert(leases[i] == leases.drop_first()[i - 1]);
            }
        }
    }
}

/// First writer wins: when a request is granted a free address, a second
/// request for the same address from a different client, against the
/// store the grant produced, is refused — never acknowledged. Together
/// with the store invariant this is why racing requests for one address
/// serialize to exactly one acknowledgement.
pub proof fn lemma_request_single_winner(
    p1: PacketModel,
    mac1: MacAddress,
    p2: PacketModel,
    config: DhcpConfig,
    subnets: Seq<Subnet>,
    ranges: Seq<DynamicRange>,
    statics: Seq<StaticIP>,
    leases: Seq<Lease>,
    next: i64,
    now: i64,
)
    requires
        mac1@ == p1.chaddr,
        p1.chaddr != p2.chaddr,
        first_requested_ip(p2.options) == first_requested_ip(p1.options),
        request_decision(p1, subnets, ranges, statics, leases, now) is Grant,
        config.lease_secs() >= 1,
        0 <= now,
        now + config.lease_secs() <= i64::MAX,
    ensures
        ({
            let eff = request_effect(p1, mac1, config, subnets, ranges, statics, leases, next,
                now);
            request_decision(p2, subnets, ranges, statics, eff.0, now) is Deny
        }),
{
    let d1 = request_decision(p1, subnets, ranges, statics, leases, now);
    let a = first_requested_ip(p1.options)->0;
    let sub = first_subnet_containing(subnets, a)->0;
    assert(d1 == RequestDecision::Grant(sub, a));
    let eff = request_effect(p1, mac1, config, subnets, ranges, statics, leases, next, now);
    let after = eff.0;
    let end = (now + config.lease_secs()) as i64;
    assert(end > now);
    let k = find_active_on(leases, a);
    crate::store::lemma_find_active_on(leases, a);

    // After the grant some lease is live on the address for the first
    // client.
    assert(addr_live_leased_to_other(after, a, p2.chaddr, now)) by {
        if k < leases.len() && leases[k].mac_address@ == p1.chaddr {
            let w = after[k];
            assert(w == Lease { lease_start: now, lease_end: end, ..leases[k] });
            assert(w.ip_address == a && w.live_at(now) && w.mac_address@ != p2.chaddr);
        } else {
            let w = after[after.len() - 1];
            assert(w == new_lease(next, sub.id->0, mac1, a, now, end));
            assert(w.ip_address == a && w.live_at(now) && w.mac_address@ != p2.chaddr);
        }
    }

    // The second client has no matching static assignment on the address,
    // so it takes the dynamic path and meets the live lease.
    assert(static_on_addr(statics, a) is None);
    lemma_static_on_addr_none(statics, a);
    let st2 = first_enabled_static(statics, p2.chaddr);
    if st2 is Some && st2->0.ip_address == a {
        crate::store::lemma_first_enabled_static_elem(statics, p2.chaddr);
        let j = choose|i: int| 0 <= i < statics.len() && statics[i] == st2->0;
        assert(!(statics[j].enabled && statics[j].ip_address == a));
        assert(false);
    }
}

/// A request for an address that enabled static assignments reserve for
/// other clients only is never acknowledged: it is refused wherever a
/// subnet context resolves, and ignored otherwise.
pub proof fn lemma_conflicting_static_never_acked(
    p: PacketModel,
    subnets: Seq<Subnet>,
    ranges: Seq<DynamicRange>,
    statics: Seq<StaticIP>,
    leases: Seq<Lease>,
    now: i64,
)
    requires
        first_requested_ip(p.options) is Some,
        static_on_addr(statics, first_requested_ip(p.options)->0) is Some,
        forall|i: int|
            0 <= i < statics.len() && (#[trigger] statics[i]).enabled && statics[i].ip_address
                == first_requested_ip(p.options)->0 ==> statics[i].mac_address@ != p.chaddr,
    ensures
        !(request_decision(p, subnets, ranges, statics, leases, now) is Grant),
        !(request_decision(p, subnets, ranges, statics, leases, now) is StaticAck),
        first_subnet_containing(subnets, first_requested_ip(p.options)->0) is Some
            ==> request_decision(p, subnets, ranges, statics, leases, now) is Deny,
{
    let req = first_requested_ip(p.options)->0;
    let st = first_enabled_static(statics, p.chaddr);
    if st is Some && st->0.ip_address == req {
        crate::store::lemma_first_enabled_static_elem(statics, p.chaddr);
        let j = choose|i: int| 0 <= i < statics.len() && statics[i] == st->0;
        assert(statics[j].enabled && statics[j].ip_address == req);
        assert(statics[j].mac_address@ != p.chaddr);
        assert(false);
    }
}

} // verus!
