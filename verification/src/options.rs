//! DHCP options (RFC 2132): the closed set of payload shapes this server
//! interprets, their wire codec, and the facts that make the codec a
//! round trip.
//!
//! On the wire an option is a code byte, a length byte, and that many
//! payload bytes. A code whose payload does not match its known shape is
//! kept opaque as `Unknown`, so a packet survives an encode/decode cycle
//! even when it carries options this server does not understand.

use crate::addr::Ipv4Address;
use crate::message_type::{message_type_code, message_type_of_code, MessageType};
use vstd::prelude::*;
use vstd::slice::slice_to_vec;

verus! {

/// A decoded DHCP option: a known payload shape, or an opaque code plus
/// raw bytes. Text-valued options carry their raw (UTF-8) bytes.
#[derive(Debug, Clone)]
pub enum DhcpOption {
    SubnetMask(Ipv4Address),
    Router(Vec<Ipv4Address>),
    DnsServer(Vec<Ipv4Address>),
    DomainName(Vec<u8>),
    RequestedIpAddress(Ipv4Address),
    LeaseTime(u32),
    MessageType(MessageType),
    ServerIdentifier(Ipv4Address),
    RenewalTime(u32),
    RebindingTime(u32),
    Hostname(Vec<u8>),
    End,
    Unknown(u8, Vec<u8>),
}

/// The mathematical shape of an option, with sequences in place of vectors.
pub ghost enum OptionModel {
    SubnetMask(Ipv4Address),
    Router(Seq<Ipv4Address>),
    DnsServer(Seq<Ipv4Address>),
    DomainName(Seq<u8>),
    RequestedIpAddress(Ipv4Address),
    LeaseTime(u32),
    MessageType(MessageType),
    ServerIdentifier(Ipv4Address),
    RenewalTime(u32),
    RebindingTime(u32),
    Hostname(Seq<u8>),
    End,
    Unknown(u8, Seq<u8>),
}

impl View for DhcpOption {
    type V = OptionModel;

    open spec fn view(&self) -> OptionModel {
        match self {
            DhcpOption::SubnetMask(a) => OptionModel::SubnetMask(*a),
            DhcpOption::Router(v) => OptionModel::Router(v@),
            DhcpOption::DnsServer(v) => OptionModel::DnsServer(v@),
            DhcpOption::DomainName(d) => OptionModel::DomainName(d@),
            DhcpOption::RequestedIpAddress(a) => OptionModel::RequestedIpAddress(*a),
            DhcpOption::LeaseTime(t) => OptionModel::LeaseTime(*t),
            DhcpOption::MessageType(m) => OptionModel::MessageType(*m),
            DhcpOption::ServerIdentifier(a) => OptionModel::ServerIdentifier(*a),
            DhcpOption::RenewalTime(t) => OptionModel::RenewalTime(*t),
            DhcpOption::RebindingTime(t) => OptionModel::RebindingTime(*t),
            DhcpOption::Hostname(d) => OptionModel::Hostname(d@),
            DhcpOption::End => OptionModel::End,
            DhcpOption::Unknown(c, d) => OptionModel::Unknown(*c, d@),
        }
    }
}

impl PartialEq for DhcpOption {
    fn eq(&self, other: &DhcpOption) -> (r: bool) {
        match (self, other) {
            (DhcpOption::SubnetMask(x), DhcpOption::SubnetMask(y)) => x == y,
            (DhcpOption::Router(x), DhcpOption::Router(y)) => eq_addr_list(x, y),
            (DhcpOption::DnsServer(x), DhcpOption::DnsServer(y)) => eq_addr_list(x, y),
            (DhcpOption::DomainName(x), DhcpOption::DomainName(y)) => eq_bytes(x, y),
            (DhcpOption::RequestedIpAddress(x), DhcpOption::RequestedIpAddress(y)) => x == y,
            (DhcpOption::LeaseTime(x), DhcpOption::LeaseTime(y)) => x == y,
            (DhcpOption::MessageType(x), DhcpOption::MessageType(y)) => x == y,
            (DhcpOption::ServerIdentifier(x), DhcpOption::ServerIdentifier(y)) => x == y,
            (DhcpOption::RenewalTime(x), DhcpOption::RenewalTime(y)) => x == y,
            (DhcpOption::RebindingTime(x), DhcpOption::RebindingTime(y)) => x == y,
            (DhcpOption::Hostname(x), DhcpOption::Hostname(y)) => eq_bytes(x, y),
            (DhcpOption::End, DhcpOption::End) => true,
            (DhcpOption::Unknown(c1, d1), DhcpOption::Unknown(c2, d2)) => *c1 == *c2 && eq_bytes(
                d1,
                d2,
            ),
            _ => false,
        }
    }
}

impl vstd::std_specs::cmp::PartialEqSpecImpl for DhcpOption {
    open spec fn obeys_eq_spec() -> bool {
        true
    }

    open spec fn eq_spec(&self, other: &DhcpOption) -> bool {
        self@ == other@
    }
}

/// Whether two byte vectors hold the same bytes.
fn eq_bytes(a: &Vec<u8>, b: &Vec<u8>) -> (r: bool)
    ensures
        r == (a@ == b@),
{
    if a.len() != b.len() {
        return false;
    }
    let n = a.len();
    let mut i: usize = 0;
    while i < n
        invariant
            i <= n == a@.len() == b@.len(),
            forall|k: int| 0 <= k < i ==> a@[k] == b@[k],
        decreases n - i,
    {
        if a[i] != b[i] {
            return false;
        }
        i = i + 1;
    }
    proof {
        assert(a@ =~= b@);
    }
    true
}

/// Whether two address vectors hold the same addresses.
fn eq_addr_list(a: &Vec<Ipv4Address>, b: &Vec<Ipv4Address>) -> (r: bool)
    ensures
        r == (a@ == b@),
{
    if a.len() != b.len() {
        return false;
    }
    let n = a.len();
    let mut i: usize = 0;
    while i < n
        invariant
            i <= n == a@.len() == b@.len(),
            forall|k: int| 0 <= k < i ==> a@[k] == b@[k],
        decreases n - i,
    {
        if !(a[i] == b[i]) {
            return false;
        }
        i = i + 1;
    }
    proof {
        assert(a@ =~= b@);
    }
    true
}

/// A 32-bit value as its four big-endian bytes.
pub open spec fn u32_bytes(x: u32) -> Seq<u8> {
    seq![(x >> 24) as u8, (x >> 16) as u8, (x >> 8) as u8, x as u8]
}

/// The 32-bit value of four big-endian bytes.
pub open spec fn bytes_u32(b: Seq<u8>) -> u32 {
    ((b[0] as u32) << 24) | ((b[1] as u32) << 16) | ((b[2] as u32) << 8) | (b[3] as u32)
}

/// The address whose octets are the first four bytes of a sequence.
pub open spec fn addr4(d: Seq<u8>) -> Ipv4Address {
    Ipv4Address { o0: d[0], o1: d[1], o2: d[2], o3: d[3] }
}

/// A list of addresses as their concatenated octets.
pub open spec fn addrs_bytes(xs: Seq<Ipv4Address>) -> Seq<u8>
    decreases xs.len(),
{
    if xs.len() == 0 {
        seq![]
    } else {
        xs[0].bytes() + addrs_bytes(xs.drop_first())
    }
}

/// The addresses read from a byte sequence four bytes at a time; a trailing
/// remainder of fewer than four bytes is dropped.
pub open spec fn parse_addrs(d: Seq<u8>) -> Seq<Ipv4Address>
    decreases d.len(),
{
    if d.len() < 4 {
        seq![]
    } else {
        seq![addr4(d)] + parse_addrs(d.skip(4))
    }
}

/// What a code byte and a payload decode to. Total: any combination that
/// matches no known shape decodes to `Unknown`.
pub open spec fn parse_option_model(code: u8, d: Seq<u8>) -> OptionModel {
    if code == 1 && d.len() == 4 {
        OptionModel::SubnetMask(addr4(d))
    } else if code == 3 {
        OptionModel::Router(parse_addrs(d))
    } else if code == 6 {
        OptionModel::DnsServer(parse_addrs(d))
    } else if code == 12 {
        OptionModel::Hostname(d)
    } else if code == 15 {
        OptionModel::DomainName(d)
    } else if code == 50 && d.len() == 4 {
        OptionModel::RequestedIpAddress(addr4(d))
    } else if code == 51 && d.len() == 4 {
        OptionModel::LeaseTime(bytes_u32(d))
    } else if code == 53 && d.len() == 1 {
        match message_type_of_code(d[0]) {
            Some(m) => OptionModel::MessageType(m),
            None => OptionModel::Unknown(code, d),
        }
    } else if code == 54 && d.len() == 4 {
        OptionModel::ServerIdentifier(addr4(d))
    } else if code == 58 && d.len() == 4 {
        OptionModel::RenewalTime(bytes_u32(d))
    } else if code == 59 && d.len() == 4 {
        OptionModel::RebindingTime(bytes_u32(d))
    } else {
        OptionModel::Unknown(code, d)
    }
}

impl OptionModel {
    /// The option's code byte.
    pub open spec fn code(self) -> u8 {
        match self {
            OptionModel::SubnetMask(_) => 1,
            OptionModel::Router(_) => 3,
            OptionModel::DnsServer(_) => 6,
            OptionModel::DomainName(_) => 15,
            OptionModel::RequestedIpAddress(_) => 50,
            OptionModel::LeaseTime(_) => 51,
            OptionModel::MessageType(_) => 53,
            OptionModel::ServerIdentifier(_) => 54,
            OptionModel::RenewalTime(_) => 58,
            OptionModel::RebindingTime(_) => 59,
            OptionModel::Hostname(_) => 12,
            OptionModel::End => 255,
            OptionModel::Unknown(c, _) => c,
        }
    }

    /// The option's payload bytes.
    pub open spec fn payload(self) -> Seq<u8> {
        match self {
            OptionModel::SubnetMask(a) => a.bytes(),
            OptionModel::Router(xs) => addrs_bytes(xs),
            OptionModel::DnsServer(xs) => addrs_bytes(xs),
            OptionModel::DomainName(d) => d,
            OptionModel::RequestedIpAddress(a) => a.bytes(),
            OptionModel::LeaseTime(t) => u32_bytes(t),
            OptionModel::MessageType(m) => seq![message_type_code(m)],
            OptionModel::ServerIdentifier(a) => a.bytes(),
            OptionModel::RenewalTime(t) => u32_bytes(t),
            OptionModel::RebindingTime(t) => u32_bytes(t),
            OptionModel::Hostname(d) => d,
            OptionModel::End => seq![],
            OptionModel::Unknown(_, d) => d,
        }
    }

    /// The option's wire bytes: code, length, payload. The end marker has no
    /// body of its own; the packet encoder writes its single byte itself.
    pub open spec fn wire(self) -> Seq<u8> {
        if self is End {
            seq![]
        } else {
            seq![self.code(), self.payload().len() as u8] + self.payload()
        }
    }

    /// Whether the payload fits the one-byte wire length.
    pub open spec fn len_ok(self) -> bool {
        self.payload().len() <= 255
    }

    /// Whether the option re-decodes to itself from its own code and
    /// payload, and its code cannot be mistaken for a pad or end marker.
    /// Every option produced by decoding satisfies this; it is what makes
    /// encode-then-decode the identity.
    pub open spec fn canonical(self) -> bool {
        &&& self.len_ok()
        &&& !(self is End)
        &&& self.code() != 0
        &&& self.code() != 255
        &&& parse_option_model(self.code(), self.payload()) == self
    }
}

/// Reading addresses back from concatenated octets gives the list back.
pub proof fn lemma_addrs_round_trip(xs: Seq<Ipv4Address>)
    ensures
        addrs_bytes(xs).len() == 4 * xs.len(),
        parse_addrs(addrs_bytes(xs)) == xs,
    decreases xs.len(),
{
    if xs.len() == 0 {
        assert(parse_addrs(addrs_bytes(xs)) =~= xs);
    } else {
        lemma_addrs_round_trip(xs.drop_first());
        let d = addrs_bytes(xs);
        assert(d.skip(4) =~= addrs_bytes(xs.drop_first()));
        assert(addr4(d) == xs[0]);
        assert(parse_addrs(d) =~= xs);
    }
}

/// Splitting a 32-bit value into big-endian bytes and reassembling them
/// gives the value back.
pub proof fn lemma_u32_round_trip(x: u32)
    ensures
        bytes_u32(u32_bytes(x)) == x,
{
    assert((((x >> 24) as u8 as u32) << 24) | (((x >> 16) as u8 as u32) << 16) | (((x
        >> 8) as u8 as u32) << 8) | (x as u8 as u32) == x) by (bit_vector);
}

/// Every known-shape option whose payload fits the wire length re-decodes
/// to itself from its own code and payload bytes.
pub proof fn lemma_encoded_option_parses_back(o: OptionModel)
    requires
        o.len_ok(),
        !(o is End),
        !(o is Unknown),
    ensures
        parse_option_model(o.code(), o.payload()) == o,
        o.canonical(),
{
    match o {
        OptionModel::Router(xs) => {
            lemma_addrs_round_trip(xs);
        },
        OptionModel::DnsServer(xs) => {
            lemma_addrs_round_trip(xs);
        },
        OptionModel::LeaseTime(t) => {
            lemma_u32_round_trip(t);
        },
        OptionModel::RenewalTime(t) => {
            lemma_u32_round_trip(t);
        },
        OptionModel::RebindingTime(t) => {
            lemma_u32_round_trip(t);
        },
        _ => {},
    }
}

/// Whatever a code byte outside the pad and end markers decodes to is
/// canonical: decoding is idempotent from the first round on.
pub proof fn lemma_parse_option_canonical(code: u8, d: Seq<u8>)
    requires
        code != 0,
        code != 255,
        d.len() <= 255,
    ensures
        parse_option_model(code, d).canonical(),
{
    let o = parse_option_model(code, d);
    match o {
        OptionModel::Router(xs) => {
            lemma_addrs_round_trip(xs);
            lemma_parse_addrs_reparse(d);
        },
        OptionModel::DnsServer(xs) => {
            lemma_addrs_round_trip(xs);
            lemma_parse_addrs_reparse(d);
        },
        OptionModel::LeaseTime(t) => {
            lemma_u32_round_trip(t);
            lemma_bytes_u32_bytes(d);
        },
        OptionModel::RenewalTime(t) => {
            lemma_u32_round_trip(t);
            lemma_bytes_u32_bytes(d);
        },
        OptionModel::RebindingTime(t) => {
            lemma_u32_round_trip(t);
            lemma_bytes_u32_bytes(d);
        },
        _ => {},
    }
}

/// The octet concatenation of the addresses read from a byte sequence is at
/// most as long as the sequence, and reads back to the same addresses.
proof fn lemma_parse_addrs_reparse(d: Seq<u8>)
    ensures
        addrs_bytes(parse_addrs(d)).len() <= d.len(),
    decreases d.len(),
{
    if d.len() >= 4 {
        lemma_parse_addrs_reparse(d.skip(4));
        let rest = parse_addrs(d.skip(4));
        assert(parse_addrs(d) == seq![addr4(d)] + rest);
        assert((seq![addr4(d)] + rest)[0] == addr4(d));
        assert((seq![addr4(d)] + rest).drop_first() =~= rest);
        assert(addrs_bytes(parse_addrs(d)) == addr4(d).bytes() + addrs_bytes(rest));
    }
}

/// Four big-endian bytes survive being read as a 32-bit value and split
/// again.
proof fn lemma_bytes_u32_bytes(d: Seq<u8>)
    requires
        d.len() == 4,
    ensures
        u32_bytes(bytes_u32(d)) =~= d,
{
    let (b0, b1, b2, b3) = (d[0], d[1], d[2], d[3]);
    let x = bytes_u32(d);
    assert((((b0 as u32) << 24) | ((b1 as u32) << 16) | ((b2 as u32) << 8) | (b3 as u32)) >> 24
        == b0 as u32) by (bit_vector);
    assert((((b0 as u32) << 24) | ((b1 as u32) << 16) | ((b2 as u32) << 8) | (b3 as u32)) >> 16
        == ((((b0 as u32) << 24) | ((b1 as u32) << 16) | ((b2 as u32) << 8) | (b3 as u32)) >> 16)
        as u8 as u32 + ((b0 as u32) << 8)) by (bit_vector);
    assert(((((b0 as u32) << 24) | ((b1 as u32) << 16) | ((b2 as u32) << 8) | (b3 as u32)) >> 16)
        as u8 == b1) by (bit_vector);
    assert(((((b0 as u32) << 24) | ((b1 as u32) << 16) | ((b2 as u32) << 8) | (b3 as u32)) >> 8)
        as u8 == b2) by (bit_vector);
    assert((((b0 as u32) << 24) | ((b1 as u32) << 16) | ((b2 as u32) << 8) | (b3 as u32)) as u8
        == b3) by (bit_vector);
}

impl DhcpOption {
    /// Decode one option from its code byte and payload bytes. Total: any
    /// combination that matches no known shape is kept opaque as `Unknown`.
    pub fn parse(code: u8, data: &[u8]) -> (r: Self)
        ensures
            r@ == parse_option_model(code, data@),
    {
        if code == 1 && data.len() == 4 {
            DhcpOption::SubnetMask(Ipv4Address::new(data[0], data[1], data[2], data[3]))
        } else if code == 3 {
            DhcpOption::Router(parse_addr_list(data))
        } else if code == 6 {
            DhcpOption::DnsServer(parse_addr_list(data))
        } else if code == 12 {
            DhcpOption::Hostname(slice_to_vec(data))
        } else if code == 15 {
            DhcpOption::DomainName(slice_to_vec(data))
        } else if code == 50 && data.len() == 4 {
            DhcpOption::RequestedIpAddress(Ipv4Address::new(data[0], data[1], data[2], data[3]))
        } else if code == 51 && data.len() == 4 {
            DhcpOption::LeaseTime(read_u32(data))
        } else if code == 53 && data.len() == 1 {
            match MessageType::from_u8(data[0]) {
                Some(m) => DhcpOption::MessageType(m),
                None => DhcpOption::Unknown(code, slice_to_vec(data)),
            }
        } else if code == 54 && data.len() == 4 {
            DhcpOption::ServerIdentifier(Ipv4Address::new(data[0], data[1], data[2], data[3]))
        } else if code == 58 && data.len() == 4 {
            DhcpOption::RenewalTime(read_u32(data))
        } else if code == 59 && data.len() == 4 {
            DhcpOption::RebindingTime(read_u32(data))
        } else {
            DhcpOption::Unknown(code, slice_to_vec(data))
        }
    }

    /// Encode the option as code, length, payload; the end marker encodes
    /// to nothing (the packet encoder writes its byte itself).
    pub fn to_bytes(&self) -> (r: Vec<u8>)
        requires
            self@.len_ok(),
        ensures
            r@ == self@.wire(),
    {
        let mut bytes: Vec<u8> = Vec::new();
        match self {
            DhcpOption::SubnetMask(a) => {
                bytes.push(1);
                bytes.push(4);
                push_addr(&mut bytes, *a);
            },
            DhcpOption::Router(addrs) => {
                bytes.push(3);
                proof {
                    lemma_addrs_round_trip(addrs@);
                }
                bytes.push((addrs.len() * 4) as u8);
                push_addr_list(&mut bytes, addrs);
            },
            DhcpOption::DnsServer(addrs) => {
                bytes.push(6);
                proof {
                    lemma_addrs_round_trip(addrs@);
                }
                bytes.push((addrs.len() * 4) as u8);
                push_addr_list(&mut bytes, addrs);
            },
            DhcpOption::DomainName(d) => {
                bytes.push(15);
                bytes.push(d.len() as u8);
                bytes.extend_from_slice(d.as_slice());
            },
            DhcpOption::RequestedIpAddress(a) => {
                bytes.push(50);
                bytes.push(4);
                push_addr(&mut bytes, *a);
            },
            DhcpOption::LeaseTime(t) => {
                bytes.push(51);
                bytes.push(4);
                push_u32(&mut bytes, *t);
            },
            DhcpOption::MessageType(m) => {
                bytes.push(53);
                bytes.push(1);
                bytes.push(m.to_u8());
            },
            DhcpOption::ServerIdentifier(a) => {
                bytes.push(54);
                bytes.push(4);
                push_addr(&mut bytes, *a);
            },
            DhcpOption::RenewalTime(t) => {
                bytes.push(58);
                bytes.push(4);
                push_u32(&mut bytes, *t);
            },
            DhcpOption::RebindingTime(t) => {
                bytes.push(59);
                bytes.push(4);
                push_u32(&mut bytes, *t);
            },
            DhcpOption::Hostname(d) => {
                bytes.push(12);
                bytes.push(d.len() as u8);
                bytes.extend_from_slice(d.as_slice());
            },
            DhcpOption::End => {},
            DhcpOption::Unknown(code, d) => {
                bytes.push(*code);
                bytes.push(d.len() as u8);
                bytes.extend_from_slice(d.as_slice());
            },
        }
        proof {
            assert(bytes@ =~= self@.wire());
        }
        bytes
    }
}

/// Read the addresses of a payload four bytes at a time, dropping a short
/// trailing remainder.
fn parse_addr_list(data: &[u8]) -> (r: Vec<Ipv4Address>)
    ensures
        r@ == parse_addrs(data@),
{
    let ghost d = data@;
    let mut v: Vec<Ipv4Address> = Vec::new();
    let mut i: usize = 0;
    proof {
        assert(d.skip(0) =~= d);
        assert(v@ + parse_addrs(d) =~= parse_addrs(d));
    }
    while data.len() - i >= 4
        invariant
            i <= data.len(),
            data@ == d,
            i % 4 == 0,
            v@ + parse_addrs(d.skip(i as int)) == parse_addrs(d),
        decreases data.len() - i,
    {
        let a = Ipv4Address::new(data[i], data[i + 1], data[i + 2], data[i + 3]);
        proof {
            assert(d.skip(i as int).skip(4) =~= d.skip(i + 4));
            assert(addr4(d.skip(i as int)) == a);
            assert(v@.push(a) + parse_addrs(d.skip(i + 4)) =~= v@ + parse_addrs(d.skip(i as int)));
        }
        v.push(a);
        i = i + 4;
    }
    proof {
        assert(parse_addrs(d.skip(i as int)) =~= seq![]);
        assert(v@ =~= parse_addrs(d));
    }
    v
}

/// Read a 32-bit big-endian value from the first four payload bytes.
pub(crate) fn read_u32(data: &[u8]) -> (r: u32)
    requires
        data@.len() == 4,
    ensures
        r == bytes_u32(data@),
{
    ((data[0] as u32) << 24) | ((data[1] as u32) << 16) | ((data[2] as u32) << 8) | (data[3] as u32)
}

/// Append an address's four octets.
pub(crate) fn push_addr(bytes: &mut Vec<u8>, a: Ipv4Address)
    ensures
        final(bytes)@ == old(bytes)@ + a.bytes(),
{
    bytes.push(a.o0);
    bytes.push(a.o1);
    bytes.push(a.o2);
    bytes.push(a.o3);
    proof {
        assert(bytes@ =~= old(bytes)@ + a.bytes());
    }
}

/// Append each address's octets in order.
fn push_addr_list(bytes: &mut Vec<u8>, addrs: &Vec<Ipv4Address>)
    ensures
        final(bytes)@ == old(bytes)@ + addrs_bytes(addrs@),
{
    let mut i: usize = 0;
    while i < addrs.len()
        invariant
            i <= addrs.len(),
            bytes@ == old(bytes)@ + addrs_bytes(addrs@.take(i as int)),
        decreases addrs.len() - i,
    {
        proof {
            lemma_addrs_bytes_snoc(addrs@.take(i as int), addrs@[i as int]);
            assert(addrs@.take(i as int).push(addrs@[i as int]) =~= addrs@.take(i + 1));
        }
        push_addr(bytes, addrs[i]);
        i = i + 1;
    }
    proof {
        assert(addrs@.take(addrs@.len() as int) =~= addrs@);
    }
}

/// Append a 32-bit value's four big-endian bytes.
pub(crate) fn push_u32(bytes: &mut Vec<u8>, x: u32)
    ensures
        final(bytes)@ == old(bytes)@ + u32_bytes(x),
{
    bytes.push((x >> 24) as u8);
    bytes.push((x >> 16) as u8);
    bytes.push((x >> 8) as u8);
    bytes.push(x as u8);
    proof {
        assert(bytes@ =~= old(bytes)@ + u32_bytes(x));
    }
}

/// Appending one address to a list appends its octets to the encoding.
proof fn lemma_addrs_bytes_snoc(xs: Seq<Ipv4Address>, x: Ipv4Address)
    ensures
        addrs_bytes(xs.push(x)) == addrs_bytes(xs) + x.bytes(),
    decreases xs.len(),
{
    if xs.len() == 0 {
        assert(xs.push(x)[0] == x);
        assert(xs.push(x).drop_first() =~= Seq::<Ipv4Address>::empty());
        assert(addrs_bytes(xs.push(x)) == x.bytes() + addrs_bytes(Seq::<Ipv4Address>::empty()));
        assert(addrs_bytes(xs.push(x)) =~= addrs_bytes(xs) + x.bytes());
    } else {
        lemma_addrs_bytes_snoc(xs.drop_first(), x);
        assert(xs.push(x)[0] == xs[0]);
        assert(xs.push(x).drop_first() =~= xs.drop_first().push(x));
        assert(addrs_bytes(xs.push(x)) == xs[0].bytes() + addrs_bytes(xs.drop_first().push(x)));
        assert(addrs_bytes(xs.push(x)) =~= addrs_bytes(xs) + x.bytes());
    }
}

} // verus!
