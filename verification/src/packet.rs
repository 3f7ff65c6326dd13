//! The DHCP packet: the 240-byte fixed BOOTP header followed by the option
//! area, and the byte codec for the whole packet.
//!
//! The decoder accepts any input of at least 240 bytes. Options are read
//! only when the magic cookie stands at offset 236; a truncated trailing
//! option stops the scan silently instead of failing the packet, so garbage
//! after well-formed options cannot make an otherwise good packet
//! undeliverable.

use crate::addr::Ipv4Address;
use crate::mac::MacAddress;
use crate::message_type::MessageType;
use crate::options::{
    addr4, bytes_u32, lemma_parse_option_canonical, lemma_u32_round_trip, parse_option_model,
    push_addr, push_u32, read_u32, u32_bytes, DhcpOption, OptionModel,
};
use vstd::prelude::*;
use vstd::slice::slice_subrange;

verus! {

/// Why a byte string failed to decode as a packet.
#[derive(Debug, Clone, Copy, PartialEq, Eq, Structural)]
pub enum DecodeError {
    /// Fewer than the 240 bytes of the fixed header were supplied.
    TooSmall,
    /// The six hardware-address bytes could not be extracted.
    InvalidHardwareAddress,
}

/// A DHCP packet: the fixed header fields and the decoded option list.
#[derive(Debug, Clone)]
pub struct DhcpPacket {
    /// Message op code: 1 for a request, 2 for a reply.
    pub op: u8,
    /// Hardware address type; 1 for Ethernet.
    pub htype: u8,
    /// Hardware address length; 6 for Ethernet.
    pub hlen: u8,
    /// Relay hop count; clients set zero.
    pub hops: u8,
    /// Transaction id chosen by the client.
    pub xid: u32,
    /// Seconds elapsed since the client began acquiring an address.
    pub secs: u16,
    /// Flags; bit 15 is the broadcast bit.
    pub flags: u16,
    /// Client's current address, when it has one.
    pub ciaddr: Ipv4Address,
    /// "Your" address: the address the server assigns.
    pub yiaddr: Ipv4Address,
    /// Server address.
    pub siaddr: Ipv4Address,
    /// Relay gateway address.
    pub giaddr: Ipv4Address,
    /// Client hardware address.
    pub chaddr: MacAddress,
    /// The options, in wire order.
    pub options: Vec<DhcpOption>,
}

/// The mathematical shape of a packet, with sequences in place of vectors.
pub ghost struct PacketModel {
    pub op: u8,
    pub htype: u8,
    pub hlen: u8,
    pub hops: u8,
    pub xid: u32,
    pub secs: u16,
    pub flags: u16,
    pub ciaddr: Ipv4Address,
    pub yiaddr: Ipv4Address,
    pub siaddr: Ipv4Address,
    pub giaddr: Ipv4Address,
    pub chaddr: Seq<u8>,
    pub options: Seq<OptionModel>,
}

/// The views of a list of options.
pub open spec fn option_views(v: Seq<DhcpOption>) -> Seq<OptionModel> {
    v.map_values(|o: DhcpOption| o@)
}

impl View for DhcpPacket {
    type V = PacketModel;

    open spec fn view(&self) -> PacketModel {
        PacketModel {
            op: self.op,
            htype: self.htype,
            hlen: self.hlen,
            hops: self.hops,
            xid: self.xid,
            secs: self.secs,
            flags: self.flags,
            ciaddr: self.ciaddr,
            yiaddr: self.yiaddr,
            siaddr: self.siaddr,
            giaddr: self.giaddr,
            chaddr: self.chaddr@,
            options: option_views(self.options@),
        }
    }
}

/// A 16-bit value as its two big-endian bytes.
pub open spec fn u16_bytes(x: u16) -> Seq<u8> {
    seq![(x >> 8) as u8, x as u8]
}

/// The 16-bit value of two big-endian bytes.
pub open spec fn bytes_u16(b: Seq<u8>) -> u16 {
    (((b[0] as u16) << 8) | (b[1] as u16)) as u16
}

/// The four fixed bytes that announce the option area (RFC 2131).
pub open spec fn magic_cookie() -> Seq<u8> {
    seq![99u8, 130u8, 83u8, 99u8]
}

/// The 236 bytes of the fixed header before the magic cookie: the fields at
/// their fixed offsets, then zeros through the unused sname and file areas.
pub open spec fn header_bytes(m: PacketModel) -> Seq<u8> {
    seq![m.op, m.htype, m.hlen, m.hops] + u32_bytes(m.xid) + u16_bytes(m.secs) + u16_bytes(m.flags)
        + m.ciaddr.bytes() + m.yiaddr.bytes() + m.siaddr.bytes() + m.giaddr.bytes() + m.chaddr
        + Seq::new(202, |i: int| 0u8)
}

/// The concatenated wire bytes of a list of options.
pub open spec fn opts_wire(opts: Seq<OptionModel>) -> Seq<u8>
    decreases opts.len(),
{
    if opts.len() == 0 {
        seq![]
    } else {
        opts[0].wire() + opts_wire(opts.drop_first())
    }
}

/// The encoded bytes of a whole packet: fixed header, magic cookie, each
/// option's wire bytes, and the trailing end marker.
pub open spec fn packet_bytes(m: PacketModel) -> Seq<u8> {
    header_bytes(m) + magic_cookie() + opts_wire(m.options) + seq![255u8]
}

/// The options read from the option area, scanning from position `i`: an
/// end marker stops the scan (and is kept), a pad byte is skipped, and a
/// declared length that runs past the input stops the scan silently.
pub open spec fn scan_options(d: Seq<u8>, i: int) -> Seq<OptionModel>
    decreases d.len() - i
        when 0 <= i <= d.len()
{
    if i >= d.len() {
        seq![]
    } else if d[i] == 255 {
        seq![OptionModel::End]
    } else if d[i] == 0 {
        scan_options(d, i + 1)
    } else if i + 1 >= d.len() {
        seq![]
    } else if i + 2 + d[i + 1] > d.len() {
        seq![]
    } else {
        seq![parse_option_model(d[i], d.subrange(i + 2, i + 2 + d[i + 1]))] + scan_options(
            d,
            i + 2 + d[i + 1],
        )
    }
}

/// Whether the option area is present: more than the fixed 240 bytes, and
/// the magic cookie at offset 236.
pub open spec fn has_option_area(d: Seq<u8>) -> bool {
    d.len() > 240 && d.subrange(236, 240) == magic_cookie()
}

/// The packet denoted by a byte string of at least 240 bytes.
pub open spec fn packet_model_of(d: Seq<u8>) -> PacketModel {
    PacketModel {
        op: d[0],
        htype: d[1],
        hlen: d[2],
        hops: d[3],
        xid: bytes_u32(d.subrange(4, 8)),
        secs: bytes_u16(d.subrange(8, 10)),
        flags: bytes_u16(d.subrange(10, 12)),
        ciaddr: addr4(d.subrange(12, 16)),
        yiaddr: addr4(d.subrange(16, 20)),
        siaddr: addr4(d.subrange(20, 24)),
        giaddr: addr4(d.subrange(24, 28)),
        chaddr: d.subrange(28, 34),
        options: if has_option_area(d) {
            scan_options(d, 240)
        } else {
            seq![]
        },
    }
}

/// The first message-type option in a list, if any.
pub open spec fn first_message_type(opts: Seq<OptionModel>) -> Option<MessageType>
    decreases opts.len(),
{
    if opts.len() == 0 {
        None
    } else if opts[0] is MessageType {
        Some(opts[0]->MessageType_0)
    } else {
        first_message_type(opts.drop_first())
    }
}

impl DhcpPacket {
    /// An empty packet: a fresh Ethernet BOOTP request with every field
    /// zero apart from the hardware type and length, and no options.
    pub fn new() -> (r: Self)
        ensures
            r@ == (PacketModel {
                op: 1u8,
                htype: 1u8,
                hlen: 6u8,
                hops: 0u8,
                xid: 0u32,
                secs: 0u16,
                flags: 0u16,
                ciaddr: Ipv4Address { o0: 0u8, o1: 0u8, o2: 0u8, o3: 0u8 },
                yiaddr: Ipv4Address { o0: 0u8, o1: 0u8, o2: 0u8, o3: 0u8 },
                siaddr: Ipv4Address { o0: 0u8, o1: 0u8, o2: 0u8, o3: 0u8 },
                giaddr: Ipv4Address { o0: 0u8, o1: 0u8, o2: 0u8, o3: 0u8 },
                chaddr: seq![0u8, 0u8, 0u8, 0u8, 0u8, 0u8],
                options: seq![],
            }),
    {
        let r = DhcpPacket {
            op: 1,
            htype: 1,
            hlen: 6,
            hops: 0,
            xid: 0,
            secs: 0,
            flags: 0,
            ciaddr: Ipv4Address::zero(),
            yiaddr: Ipv4Address::zero(),
            siaddr: Ipv4Address::zero(),
            giaddr: Ipv4Address::zero(),
            chaddr: MacAddress::new([0; 6]),
            options: Vec::new(),
        };
        proof {
            assert(r.chaddr@ =~= seq![0u8, 0u8, 0u8, 0u8, 0u8, 0u8]);
            assert(option_views(r.options@) =~= Seq::<OptionModel>::empty());
        }
        r
    }

    /// The first message-type option, if any; a packet without one carries
    /// no interpretable DHCP request.
    pub fn get_message_type(&self) -> (r: Option<MessageType>)
        ensures
            r == first_message_type(self@.options),
    {
        let mut i: usize = 0;
        proof {
            assert(option_views(self.options@).skip(0) =~= option_views(self.options@));
        }
        while i < self.options.len()
            invariant
                i <= self.options.len(),
                first_message_type(option_views(self.options@).skip(i as int))
                    == first_message_type(option_views(self.options@)),
                forall|k: int|
                    0 <= k < i ==> !(#[trigger] option_views(self.options@)[k] is MessageType),
            decreases self.options.len() - i,
        {
            let ghost views = option_views(self.options@);
            if let DhcpOption::MessageType(m) = &self.options[i] {
                proof {
                    assert(views.skip(i as int)[0] == views[i as int]);
                    assert(views[i as int] is MessageType);
                }
                return Some(*m);
            }
            proof {
                assert(views.skip(i as int)[0] == views[i as int]);
                assert(views.skip(i as int).drop_first() =~= views.skip(i + 1));
            }
            i = i + 1;
        }
        proof {
            assert(option_views(self.options@).skip(self.options@.len() as int) =~= Seq::<
                OptionModel,
            >::empty());
        }
        None
    }

    /// Decode a packet from raw bytes. Exactly the inputs shorter than the
    /// 240-byte fixed header are rejected, as too small; everything else
    /// decodes, options included when the magic cookie is present.
    pub fn parse(data: &[u8]) -> (r: Result<Self, DecodeError>)
        ensures
            match r {
                Ok(p) => data@.len() >= 240 && p@ == packet_model_of(data@),
                Err(e) => data@.len() < 240 && e == DecodeError::TooSmall,
            },
    {
        let ghost d = data@;
        if data.len() < 240 {
            return Err(DecodeError::TooSmall);
        }
        let xid = read_u32(slice_subrange(data, 4, 8));
        let secs = read_u16(slice_subrange(data, 8, 10));
        let flags = read_u16(slice_subrange(data, 10, 12));
        let ciaddr = Ipv4Address::new(data[12], data[13], data[14], data[15]);
        let yiaddr = Ipv4Address::new(data[16], data[17], data[18], data[19]);
        let siaddr = Ipv4Address::new(data[20], data[21], data[22], data[23]);
        let giaddr = Ipv4Address::new(data[24], data[25], data[26], data[27]);
        let chaddr = match MacAddress::from_slice(slice_subrange(data, 28, 34)) {
            Some(mac) => mac,
            None => {
                return Err(DecodeError::InvalidHardwareAddress);
            },
        };
        proof {
            assert(chaddr@ =~= d.subrange(28, 34));
        }

        let mut options: Vec<DhcpOption> = Vec::new();
        if data.len() > 240 && data[236] == 99 && data[237] == 130 && data[238] == 83 && data[239]
            == 99 {
            proof {
                assert(d.subrange(236, 240) =~= magic_cookie());
            }
            scan_option_area(data, &mut options);
        } else {
            proof {
                if d.len() > 240 {
                    if d.subrange(236, 240) == magic_cookie() {
                        assert(d[236] == 99 && d[237] == 130 && d[238] == 83 && d[239] == 99);
                    }
                }
                assert(!has_option_area(d));
            }
        }

        let p = DhcpPacket {
            op: data[0],
            htype: data[1],
            hlen: data[2],
            hops: data[3],
            xid,
            secs,
            flags,
            ciaddr,
            yiaddr,
            siaddr,
            giaddr,
            chaddr,
            options,
        };
        proof {
            let m = packet_model_of(d);
            assert(p@.ciaddr == m.ciaddr);
            assert(p@.yiaddr == m.yiaddr);
            assert(p@.siaddr == m.siaddr);
            assert(p@.giaddr == m.giaddr);
            assert(p@.xid == m.xid);
            assert(p@.secs == m.secs);
            assert(p@.flags == m.flags);
            assert(p@.chaddr == m.chaddr);
            if !has_option_area(d) {
                assert(p@.options =~= Seq::<OptionModel>::empty());
                assert(m.options =~= Seq::<OptionModel>::empty());
            }
            assert(p@.options == m.options);
            assert(p@ == m);
        }
        Ok(p)
    }
}

impl DhcpPacket {
    /// Encode the packet: the 240-byte fixed header (fields at their fixed
    /// offsets, zeros through the unused name areas, then the magic
    /// cookie), each option's wire bytes, and the trailing end marker.
    /// Requires each option's payload to fit its one-byte wire length.
    pub fn to_bytes(&self) -> (r: Vec<u8>)
        requires
            forall|j: int|
                0 <= j < self@.options.len() ==> (#[trigger] self@.options[j]).len_ok(),
        ensures
            r@ == packet_bytes(self@),
    {
        let mut bytes: Vec<u8> = Vec::new();
        bytes.push(self.op);
        bytes.push(self.htype);
        bytes.push(self.hlen);
        bytes.push(self.hops);
        push_u32(&mut bytes, self.xid);
        push_u16(&mut bytes, self.secs);
        push_u16(&mut bytes, self.flags);
        push_addr(&mut bytes, self.ciaddr);
        push_addr(&mut bytes, self.yiaddr);
        push_addr(&mut bytes, self.siaddr);
        push_addr(&mut bytes, self.giaddr);
        let cb = self.chaddr.as_bytes();
        bytes.push(cb[0]);
        bytes.push(cb[1]);
        bytes.push(cb[2]);
        bytes.push(cb[3]);
        bytes.push(cb[4]);
        bytes.push(cb[5]);
        let ghost fixed = seq![self.op, self.htype, self.hlen, self.hops] + u32_bytes(self.xid)
            + u16_bytes(self.secs) + u16_bytes(self.flags) + self.ciaddr.bytes()
            + self.yiaddr.bytes() + self.siaddr.bytes() + self.giaddr.bytes() + self.chaddr@;
        proof {
            assert(bytes@ =~= fixed);
        }
        let mut z: usize = 0;
        while z < 202
            invariant
                z <= 202,
                bytes@ == fixed + Seq::new(z as nat, |i: int| 0u8),
            decreases 202 - z,
        {
            proof {
                assert(Seq::new((z + 1) as nat, |i: int| 0u8) =~= Seq::new(
                    z as nat,
                    |i: int| 0u8,
                ).push(0u8));
                assert(bytes@.push(0u8) =~= fixed + Seq::new(z as nat, |i: int| 0u8).push(0u8));
            }
            bytes.push(0);
            z = z + 1;
        }
        bytes.push(99);
        bytes.push(130);
        bytes.push(83);
        bytes.push(99);
        let ghost hc = header_bytes(self@) + magic_cookie();
        proof {
            assert(bytes@ =~= hc);
        }
        let mut oi: usize = 0;
        proof {
            assert(opts_wire(option_views(self.options@).take(0)) =~= Seq::<u8>::empty());
            assert(bytes@ =~= hc + opts_wire(option_views(self.options@).take(0)));
        }
        while oi < self.options.len()
            invariant
                oi <= self.options.len(),
                forall|j: int|
                    0 <= j < self@.options.len() ==> (#[trigger] self@.options[j]).len_ok(),
                bytes@ == hc + opts_wire(option_views(self.options@).take(oi as int)),
            decreases self.options.len() - oi,
        {
            let ghost views = option_views(self.options@);
            proof {
                assert(views[oi as int] == self.options@[oi as int]@);
                assert(self@.options[oi as int].len_ok());
            }
            let mut ob = self.options[oi].to_bytes();
            proof {
                lemma_opts_wire_snoc(views.take(oi as int), views[oi as int]);
                assert(views.take(oi as int).push(views[oi as int]) =~= views.take(oi + 1));
            }
            bytes.append(&mut ob);
            oi = oi + 1;
        }
        proof {
            assert(option_views(self.options@).take(self.options@.len() as int) =~= option_views(
                self.options@,
            ));
            assert(bytes@.push(255u8) =~= packet_bytes(self@));
        }
        bytes.push(255);
        bytes
    }
}

/// The option list without its end markers: what a packet semantically
/// carries, since the end marker only frames the wire form.
pub open spec fn strip_end(opts: Seq<OptionModel>) -> Seq<OptionModel>
    decreases opts.len(),
{
    if opts.len() == 0 {
        seq![]
    } else if opts[0] is End {
        strip_end(opts.drop_first())
    } else {
        seq![opts[0]] + strip_end(opts.drop_first())
    }
}

/// End markers carry no wire bytes, so stripping them leaves the encoding
/// unchanged.
proof fn lemma_strip_end_wire(opts: Seq<OptionModel>)
    ensures
        opts_wire(strip_end(opts)) == opts_wire(opts),
    decreases opts.len(),
{
    if opts.len() > 0 {
        lemma_strip_end_wire(opts.drop_first());
        if opts[0] is End {
            assert(opts_wire(opts) =~= opts_wire(opts.drop_first()));
        } else {
            let s = seq![opts[0]] + strip_end(opts.drop_first());
            assert(s[0] == opts[0]);
            assert(s.drop_first() =~= strip_end(opts.drop_first()));
            assert(opts_wire(s) == opts[0].wire() + opts_wire(strip_end(opts.drop_first())));
        }
    }
}

/// A stripped list holds no end marker.
proof fn lemma_strip_end_no_end(opts: Seq<OptionModel>)
    ensures
        forall|k: int| 0 <= k < strip_end(opts).len() ==> !((#[trigger] strip_end(opts)[k]) is End),
    decreases opts.len(),
{
    if opts.len() > 0 {
        lemma_strip_end_no_end(opts.drop_first());
        if !(opts[0] is End) {
            let s = seq![opts[0]] + strip_end(opts.drop_first());
            assert forall|k: int| 0 <= k < s.len() implies !((#[trigger] s[k]) is End) by {
                if k > 0 {
                    assert(s[k] == strip_end(opts.drop_first())[k - 1]);
                }
            }
        }
    }
}

/// Stripping keeps only elements of the list, so canonicity carries over.
proof fn lemma_strip_end_canonical(opts: Seq<OptionModel>)
    requires
        forall|k: int| 0 <= k < opts.len() ==> (#[trigger] opts[k]).canonical() || opts[k] is End,
    ensures
        forall|k: int| 0 <= k < strip_end(opts).len() ==> (#[trigger] strip_end(opts)[k]).canonical(),
    decreases opts.len(),
{
    if opts.len() > 0 {
        assert forall|k: int| 0 <= k < opts.drop_first().len() implies (#[trigger] opts.drop_first()[k]).canonical()
            || opts.drop_first()[k] is End by {
            assert(opts.drop_first()[k] == opts[k + 1]);
        }
        lemma_strip_end_canonical(opts.drop_first());
        if !(opts[0] is End) {
            let s = seq![opts[0]] + strip_end(opts.drop_first());
            assert forall|k: int| 0 <= k < s.len() implies (#[trigger] s[k]).canonical() by {
                if k > 0 {
                    assert(s[k] == strip_end(opts.drop_first())[k - 1]);
                }
            }
        }
    }
}

/// A list without end markers strips to itself.
proof fn lemma_strip_end_identity(opts: Seq<OptionModel>)
    requires
        forall|k: int| 0 <= k < opts.len() ==> !((#[trigger] opts[k]) is End),
    ensures
        strip_end(opts) == opts,
    decreases opts.len(),
{
    if opts.len() > 0 {
        assert forall|k: int| 0 <= k < opts.drop_first().len() implies !((#[trigger] opts.drop_first()[k]) is End) by {
            assert(opts.drop_first()[k] == opts[k + 1]);
        }
        lemma_strip_end_identity(opts.drop_first());
        assert(strip_end(opts) =~= opts);
    } else {
        assert(strip_end(opts) =~= opts);
    }
}

/// A trailing end marker disappears under stripping.
proof fn lemma_strip_end_append_end(opts: Seq<OptionModel>)
    ensures
        strip_end(opts + seq![OptionModel::End]) == strip_end(opts),
    decreases opts.len(),
{
    let w = opts + seq![OptionModel::End];
    if opts.len() == 0 {
        assert(w[0] is End);
        assert(w.drop_first() =~= Seq::<OptionModel>::empty());
        assert(strip_end(w) == strip_end(Seq::<OptionModel>::empty()));
        assert(strip_end(Seq::<OptionModel>::empty()) == Seq::<OptionModel>::empty());
        assert(strip_end(opts) == Seq::<OptionModel>::empty());
    } else {
        lemma_strip_end_append_end(opts.drop_first());
        assert(w[0] == opts[0]);
        assert(w.drop_first() =~= opts.drop_first() + seq![OptionModel::End]);
        if opts[0] is End {
            assert(strip_end(w) == strip_end(opts.drop_first() + seq![OptionModel::End]));
        } else {
            assert(strip_end(w) =~= seq![opts[0]] + strip_end(
                opts.drop_first() + seq![OptionModel::End],
            ));
            assert(strip_end(opts) =~= seq![opts[0]] + strip_end(opts.drop_first()));
        }
    }
}

/// Splitting a 16-bit value into big-endian bytes and reassembling them
/// gives the value back.
proof fn lemma_u16_round_trip(x: u16)
    ensures
        bytes_u16(u16_bytes(x)) == x,
{
    assert((((x >> 8) as u8 as u16) << 8) | (x as u8 as u16) == x) by (bit_vector);
}

/// Scanning the wire bytes of canonical options followed by the end marker
/// reads exactly those options back, with the end marker kept last.
proof fn lemma_scan_of_encoded(d: Seq<u8>, i: int, opts: Seq<OptionModel>)
    requires
        0 <= i <= d.len(),
        d.skip(i) == opts_wire(opts) + seq![255u8],
        forall|k: int| 0 <= k < opts.len() ==> (#[trigger] opts[k]).canonical(),
    ensures
        scan_options(d, i) == opts + seq![OptionModel::End],
    decreases opts.len(),
{
    let sk = d.skip(i);
    if opts.len() == 0 {
        assert(sk.len() == 1);
        assert(i < d.len());
        assert(d[i] == sk[0]);
        assert(sk[0] == 255u8);
        assert(scan_options(d, i) == seq![OptionModel::End]);
        assert(seq![OptionModel::End] =~= opts + seq![OptionModel::End]);
    } else {
        let o = opts[0];
        assert(o.canonical());
        let rest = opts.drop_first();
        let pw = o.payload();
        let len = pw.len() as int;
        assert(opts_wire(opts) == o.wire() + opts_wire(rest));
        assert(o.wire() == seq![o.code(), pw.len() as u8] + pw);
        assert(sk.len() == 2 + len + opts_wire(rest).len() + 1);
        assert(d[i] == sk[0]);
        assert(sk[0] == o.code());
        assert(d[i] != 0 && d[i] != 255);
        assert(i + 1 < d.len());
        assert(d[i + 1] == sk[1]);
        assert(sk[1] == pw.len() as u8);
        assert(d[i + 1] as int == len);
        assert(i + 2 + d[i + 1] <= d.len());
        assert(d.subrange(i + 2, i + 2 + len) =~= pw) by {
            assert forall|j: int| 0 <= j < len implies d.subrange(i + 2, i + 2 + len)[j] == pw[j] by {
                assert(d.subrange(i + 2, i + 2 + len)[j] == d[i + 2 + j]);
                assert(d[i + 2 + j] == sk[2 + j]);
                assert(sk[2 + j] == o.wire()[2 + j]);
                assert(o.wire()[2 + j] == pw[j]);
            }
        };
        assert(parse_option_model(d[i], d.subrange(i + 2, i + 2 + len)) == o);
        assert(d.skip(i + 2 + len) =~= opts_wire(rest) + seq![255u8]) by {
            assert forall|j: int| 0 <= j < d.len() - (i + 2 + len) implies d.skip(i + 2 + len)[j]
                == (opts_wire(rest) + seq![255u8])[j] by {
                assert(d.skip(i + 2 + len)[j] == d[i + 2 + len + j]);
                assert(d[i + 2 + len + j] == sk[2 + len + j]);
                assert(sk[2 + len + j] == (opts_wire(rest) + seq![255u8])[j]);
            }
        };
        assert forall|k: int| 0 <= k < rest.len() implies (#[trigger] rest[k]).canonical() by {
            assert(rest[k] == opts[k + 1]);
        }
        lemma_scan_of_encoded(d, i + 2 + len, rest);
        assert(scan_options(d, i) == seq![o] + scan_options(d, i + 2 + len));
        assert(seq![o] + (rest + seq![OptionModel::End]) =~= opts + seq![OptionModel::End]);
    }
}

/// Every option a scan produces is canonical, apart from the end marker.
pub proof fn lemma_scan_canonical_shape(d: Seq<u8>, i: int)
    requires
        0 <= i <= d.len(),
    ensures
        forall|k: int|
            0 <= k < scan_options(d, i).len() ==> (#[trigger] scan_options(d, i)[k]).canonical()
                || scan_options(d, i)[k] is End,
    decreases d.len() - i,
{
    if i >= d.len() {
    } else if d[i] == 255 {
    } else if d[i] == 0 {
        lemma_scan_canonical_shape(d, i + 1);
    } else if i + 1 >= d.len() {
    } else if i + 2 + d[i + 1] > d.len() {
    } else {
        let len = d[i + 1] as int;
        let o = parse_option_model(d[i], d.subrange(i + 2, i + 2 + len));
        lemma_parse_option_canonical(d[i], d.subrange(i + 2, i + 2 + len));
        lemma_scan_canonical_shape(d, i + 2 + len);
        let s = scan_options(d, i);
        let rest = scan_options(d, i + 2 + len);
        assert(s == seq![o] + rest);
        assert forall|k: int| 0 <= k < s.len() implies (#[trigger] s[k]).canonical()
            || s[k] is End by {
            if k == 0 {
                assert(s[k] == o);
            } else {
                assert(s[k] == rest[k - 1]);
            }
        }
    }
}

/// Encoding any packet model whose options are canonical (or end markers)
/// and decoding the bytes again gives the same header fields back, and the
/// same options, normalized to end with a single end marker.
pub proof fn lemma_encode_decode(m: PacketModel)
    requires
        m.chaddr.len() == 6,
        forall|k: int|
            0 <= k < m.options.len() ==> (#[trigger] m.options[k]).canonical()
                || m.options[k] is End,
    ensures
        ({
            let d2 = packet_bytes(m);
            let m2 = packet_model_of(d2);
            &&& d2.len() > 240
            &&& m2.op == m.op
            &&& m2.htype == m.htype
            &&& m2.hlen == m.hlen
            &&& m2.hops == m.hops
            &&& m2.xid == m.xid
            &&& m2.secs == m.secs
            &&& m2.flags == m.flags
            &&& m2.ciaddr == m.ciaddr
            &&& m2.yiaddr == m.yiaddr
            &&& m2.siaddr == m.siaddr
            &&& m2.giaddr == m.giaddr
            &&& m2.chaddr == m.chaddr
            &&& m2.options == strip_end(m.options) + seq![OptionModel::End]
            &&& strip_end(m2.options) == strip_end(m.options)
        }),
{
    let d2 = packet_bytes(m);
    let m2 = packet_model_of(d2);
    lemma_packet_bytes_layout(m);
    lemma_u32_round_trip(m.xid);
    lemma_u16_round_trip(m.secs);
    lemma_u16_round_trip(m.flags);
    assert(m2.ciaddr == m.ciaddr && m2.yiaddr == m.yiaddr && m2.siaddr == m.siaddr && m2.giaddr
        == m.giaddr);
    let s = strip_end(m.options);
    lemma_strip_end_wire(m.options);
    lemma_strip_end_canonical(m.options);
    lemma_strip_end_no_end(m.options);
    assert(d2.skip(240) == opts_wire(s) + seq![255u8]);
    lemma_scan_of_encoded(d2, 240, s);
    assert(m2.options == s + seq![OptionModel::End]);
    lemma_strip_end_append_end(s);
    lemma_strip_end_identity(s);
}

/// Where each field of a packet model stands in its encoded bytes.
#[verifier::rlimit(100)]
proof fn lemma_packet_bytes_layout(m: PacketModel)
    requires
        m.chaddr.len() == 6,
    ensures
        ({
            let d2 = packet_bytes(m);
            &&& header_bytes(m).len() == 236
            &&& d2.len() == 241 + opts_wire(m.options).len()
            &&& d2.subrange(236, 240) == magic_cookie()
            &&& has_option_area(d2)
            &&& d2[0] == m.op
            &&& d2[1] == m.htype
            &&& d2[2] == m.hlen
            &&& d2[3] == m.hops
            &&& d2.subrange(4, 8) == u32_bytes(m.xid)
            &&& d2.subrange(8, 10) == u16_bytes(m.secs)
            &&& d2.subrange(10, 12) == u16_bytes(m.flags)
            &&& d2.subrange(12, 16) == m.ciaddr.bytes()
            &&& d2.subrange(16, 20) == m.yiaddr.bytes()
            &&& d2.subrange(20, 24) == m.siaddr.bytes()
            &&& d2.subrange(24, 28) == m.giaddr.bytes()
            &&& d2.subrange(28, 34) == m.chaddr
            &&& d2.skip(240) == opts_wire(m.options) + seq![255u8]
        }),
{
    let h = header_bytes(m);
    assert(h.len() == 236);
    let d2 = packet_bytes(m);
    let w = opts_wire(m.options);
    assert(d2.len() == 241 + w.len());
    assert(d2.subrange(236, 240) =~= magic_cookie());
    assert(d2[0] == m.op && d2[1] == m.htype && d2[2] == m.hlen && d2[3] == m.hops);
    assert(d2.subrange(4, 8) =~= u32_bytes(m.xid));
    assert(d2.subrange(8, 10) =~= u16_bytes(m.secs));
    assert(d2.subrange(10, 12) =~= u16_bytes(m.flags));
    assert(d2.subrange(12, 16) =~= m.ciaddr.bytes());
    assert(d2.subrange(16, 20) =~= m.yiaddr.bytes());
    assert(d2.subrange(20, 24) =~= m.siaddr.bytes());
    assert(d2.subrange(24, 28) =~= m.giaddr.bytes());
    assert(d2.subrange(28, 34) =~= m.chaddr);
    assert(d2.skip(240) =~= w + seq![255u8]);
}

/// The codec round trip: decoding any accepted byte string, re-encoding
/// the packet, and decoding again preserves every header field and the
/// option set (normalized to end with a single end marker), and the
/// re-encoded bytes are a fixed point — encoding the re-decoded packet
/// gives the same bytes again.
#[verifier::rlimit(100)]
pub proof fn lemma_round_trip(d: Seq<u8>)
    requires
        d.len() >= 240,
    ensures
        ({
            let m = packet_model_of(d);
            let d2 = packet_bytes(m);
            let m2 = packet_model_of(d2);
            &&& d2.len() > 240
            &&& m2.op == m.op
            &&& m2.htype == m.htype
            &&& m2.hlen == m.hlen
            &&& m2.hops == m.hops
            &&& m2.xid == m.xid
            &&& m2.secs == m.secs
            &&& m2.flags == m.flags
            &&& m2.ciaddr == m.ciaddr
            &&& m2.yiaddr == m.yiaddr
            &&& m2.siaddr == m.siaddr
            &&& m2.giaddr == m.giaddr
            &&& m2.chaddr == m.chaddr
            &&& strip_end(m2.options) == strip_end(m.options)
            &&& packet_bytes(m2) == d2
        }),
{
    let m = packet_model_of(d);
    assert(m.chaddr.len() == 6);
    if has_option_area(d) {
        lemma_scan_canonical_shape(d, 240);
    }
    lemma_encode_decode(m);
    let d2 = packet_bytes(m);
    let m2 = packet_model_of(d2);
    let s = strip_end(m.options);
    lemma_opts_wire_snoc(s, OptionModel::End);
    assert(s.push(OptionModel::End) =~= s + seq![OptionModel::End]);
    assert(opts_wire(s) + OptionModel::End.wire() =~= opts_wire(s));
    assert(opts_wire(m2.options) == opts_wire(s));
    lemma_strip_end_wire(m.options);
    lemma_reencode_same(m, m2);
}

/// Two packet models with the same fields and the same encoded option
/// bytes encode to the same bytes.
proof fn lemma_reencode_same(m: PacketModel, m2: PacketModel)
    requires
        m2.op == m.op,
        m2.htype == m.htype,
        m2.hlen == m.hlen,
        m2.hops == m.hops,
        m2.xid == m.xid,
        m2.secs == m.secs,
        m2.flags == m.flags,
        m2.ciaddr == m.ciaddr,
        m2.yiaddr == m.yiaddr,
        m2.siaddr == m.siaddr,
        m2.giaddr == m.giaddr,
        m2.chaddr == m.chaddr,
        opts_wire(m2.options) == opts_wire(m.options),
    ensures
        packet_bytes(m2) == packet_bytes(m),
{
    assert(seq![m2.op, m2.htype, m2.hlen, m2.hops] =~= seq![m.op, m.htype, m.hlen, m.hops]);
    assert(header_bytes(m2) == header_bytes(m));
}

/// Appending one option to a list appends its wire bytes to the encoding.
proof fn lemma_opts_wire_snoc(opts: Seq<OptionModel>, o: OptionModel)
    ensures
        opts_wire(opts.push(o)) == opts_wire(opts) + o.wire(),
    decreases opts.len(),
{
    if opts.len() == 0 {
        assert(opts.push(o)[0] == o);
        assert(opts.push(o).drop_first() =~= Seq::<OptionModel>::empty());
        assert(opts_wire(opts.push(o)) == o.wire() + opts_wire(Seq::<OptionModel>::empty()));
        assert(opts_wire(opts.push(o)) =~= opts_wire(opts) + o.wire());
    } else {
        lemma_opts_wire_snoc(opts.drop_first(), o);
        assert(opts.push(o)[0] == opts[0]);
        assert(opts.push(o).drop_first() =~= opts.drop_first().push(o));
        assert(opts_wire(opts.push(o)) == opts[0].wire() + opts_wire(opts.drop_first().push(o)));
        assert(opts_wire(opts.push(o)) =~= opts_wire(opts) + o.wire());
    }
}

impl Default for DhcpPacket {
    /// The same empty packet as `new`.
    fn default() -> (r: Self)
        ensures
            r@ == (PacketModel {
                op: 1u8,
                htype: 1u8,
                hlen: 6u8,
                hops: 0u8,
                xid: 0u32,
                secs: 0u16,
                flags: 0u16,
                ciaddr: Ipv4Address { o0: 0u8, o1: 0u8, o2: 0u8, o3: 0u8 },
                yiaddr: Ipv4Address { o0: 0u8, o1: 0u8, o2: 0u8, o3: 0u8 },
                siaddr: Ipv4Address { o0: 0u8, o1: 0u8, o2: 0u8, o3: 0u8 },
                giaddr: Ipv4Address { o0: 0u8, o1: 0u8, o2: 0u8, o3: 0u8 },
                chaddr: seq![0u8, 0u8, 0u8, 0u8, 0u8, 0u8],
                options: seq![],
            }),
    {
        DhcpPacket::new()
    }
}

/// Read a 16-bit big-endian value from a two-byte slice.
fn read_u16(data: &[u8]) -> (r: u16)
    requires
        data@.len() == 2,
    ensures
        r == bytes_u16(data@),
{
    ((data[0] as u16) << 8) | (data[1] as u16)
}

/// Append a 16-bit value's two big-endian bytes.
fn push_u16(bytes: &mut Vec<u8>, x: u16)
    ensures
        final(bytes)@ == old(bytes)@ + u16_bytes(x),
{
    bytes.push((x >> 8) as u8);
    bytes.push(x as u8);
    proof {
        assert(bytes@ =~= old(bytes)@ + u16_bytes(x));
    }
}

/// Scan the option area from offset 240, appending each decoded option,
/// with the stop conditions of `scan_options`.
fn scan_option_area(data: &[u8], options: &mut Vec<DhcpOption>)
    requires
        old(options)@.len() == 0,
        data@.len() > 240,
    ensures
        option_views(final(options)@) == scan_options(data@, 240),
{
    let ghost d = data@;
    let mut i: usize = 240;
    let mut stop = false;
    proof {
        assert(option_views(options@) =~= Seq::<OptionModel>::empty());
        assert(option_views(options@) + scan_options(d, 240) =~= scan_options(d, 240));
    }
    while !stop && i < data.len()
        invariant
            240 <= i,
            data@ == d,
            stop ==> option_views(options@) == scan_options(d, 240),
            !stop ==> i <= d.len() && option_views(options@) + scan_options(d, i as int)
                == scan_options(d, 240),
        decreases d.len() - i, (if stop { 0int } else { 1int }),
    {
        let ghost views = option_views(options@);
        let code = data[i];
        if code == 255 {
            proof {
                assert(scan_options(d, i as int) == seq![OptionModel::End]);
                assert(option_views(options@.push(DhcpOption::End)) =~= views.push(
                    OptionModel::End,
                ));
                assert(views.push(OptionModel::End) =~= views + seq![OptionModel::End]);
            }
            options.push(DhcpOption::End);
            stop = true;
        } else if code == 0 {
            proof {
                assert(scan_options(d, i as int) == scan_options(d, i + 1));
            }
            i = i + 1;
        } else if i + 1 >= data.len() {
            proof {
                assert(scan_options(d, i as int) =~= Seq::<OptionModel>::empty());
                assert(views + Seq::<OptionModel>::empty() =~= views);
            }
            stop = true;
        } else {
            let optlen = data[i + 1] as usize;
            if optlen > data.len() - (i + 2) {
                proof {
                    assert(i + 2 + d[i + 1] > d.len());
                    assert(scan_options(d, i as int) =~= Seq::<OptionModel>::empty());
                    assert(views + Seq::<OptionModel>::empty() =~= views);
                }
                stop = true;
            } else {
                let payload = slice_subrange(data, i + 2, i + 2 + optlen);
                let opt = DhcpOption::parse(code, payload);
                proof {
                    let o = parse_option_model(d[i as int], d.subrange(i + 2, i + 2 + d[i + 1]));
                    assert(opt@ == o);
                    assert(scan_options(d, i as int) == seq![o] + scan_options(
                        d,
                        i + 2 + d[i + 1],
                    ));
                    assert(option_views(options@.push(opt)) =~= views.push(o));
                    assert(views.push(o) + scan_options(d, i + 2 + d[i + 1]) =~= views + (seq![o]
                        + scan_options(d, i + 2 + d[i + 1])));
                }
                options.push(opt);
                i = i + 2 + optlen;
            }
        }
    }
    proof {
        if !stop {
            assert(i >= d.len());
            assert(scan_options(d, i as int) =~= Seq::<OptionModel>::empty());
            assert(option_views(options@) + Seq::<OptionModel>::empty() =~= option_views(
                options@,
            ));
        }
    }
}

} // verus!
