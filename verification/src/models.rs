//! The configuration records the allocation engine reads — subnets, dynamic
//! ranges, static assignments — and the lease records it writes.

use crate::addr::Ipv4Address;
use crate::mac::MacAddress;
use vstd::prelude::*;

verus! {

/// A subnet: its network address and prefix length, the gateway the server
/// answers for, and the name-service parameters handed to clients.
#[derive(Debug, Clone)]
pub struct Subnet {
    /// Record id; a stored subnet always has one.
    pub id: Option<i64>,
    /// Network address, e.g. `192.168.1.0`.
    pub network: Ipv4Address,
    /// Prefix length, 0 through 32.
    pub netmask: u8,
    /// Gateway (router) address; also used as the server identifier.
    pub gateway: Ipv4Address,
    /// DNS servers, in the order handed to clients.
    pub dns_servers: Vec<Ipv4Address>,
    /// Domain name as raw (UTF-8) bytes, if configured.
    pub domain_name: Option<Vec<u8>>,
    /// Whether the engine may serve this subnet.
    pub enabled: bool,
}

impl Subnet {
    /// A well-formed subnet has a prefix length of at most 32 and, once
    /// stored, an id; its name-service parameters fit a reply's one-byte
    /// option lengths: at most 63 DNS servers, a domain name of at most
    /// 255 bytes.
    pub open spec fn wf(self) -> bool {
        &&& self.netmask <= 32
        &&& self.id is Some
        &&& self.dns_servers@.len() <= 63
        &&& match self.domain_name {
            Some(d) => d@.len() <= 255,
            None => true,
        }
    }
}

/// A pool of addresses within a subnet available for on-demand leasing.
#[derive(Debug, Clone, Copy)]
pub struct DynamicRange {
    /// Record id.
    pub id: Option<i64>,
    /// The subnet this range belongs to.
    pub subnet_id: i64,
    /// First address of the range, inclusive.
    pub range_start: Ipv4Address,
    /// Last address of the range, inclusive.
    pub range_end: Ipv4Address,
    /// Whether the engine may allocate from this range.
    pub enabled: bool,
}

impl DynamicRange {
    /// A well-formed range runs forward: start at most end.
    pub open spec fn wf(self) -> bool {
        self.range_start.num() <= self.range_end.num()
    }

    /// Whether an address lies inside the range.
    pub open spec fn contains(self, a: Ipv4Address) -> bool {
        self.range_start.num() <= a.num() <= self.range_end.num()
    }
}

/// An administrator-configured permanent MAC-to-address binding.
#[derive(Debug, Clone)]
pub struct StaticIP {
    /// Record id.
    pub id: Option<i64>,
    /// The subnet the assignment belongs to.
    pub subnet_id: i64,
    /// The client's hardware address.
    pub mac_address: MacAddress,
    /// The fixed address assigned to that client.
    pub ip_address: Ipv4Address,
    /// Client hostname as raw (UTF-8) bytes, if known.
    pub hostname: Option<Vec<u8>>,
    /// Whether the assignment is in force.
    pub enabled: bool,
}

/// A time-bounded binding of an address to a client's hardware address.
#[derive(Debug, Clone)]
pub struct Lease {
    /// Record id; a stored lease always has one.
    pub id: Option<i64>,
    /// The subnet the lease belongs to.
    pub subnet_id: i64,
    /// The client's hardware address.
    pub mac_address: MacAddress,
    /// The leased address.
    pub ip_address: Ipv4Address,
    /// Unix timestamp at which the lease began.
    pub lease_start: i64,
    /// Unix timestamp at which the lease ends.
    pub lease_end: i64,
    /// Client hostname as raw (UTF-8) bytes, if known.
    pub hostname: Option<Vec<u8>>,
    /// Whether the lease is in force; a released or superseded lease is
    /// deactivated, never deleted.
    pub active: bool,
}

impl Lease {
    /// A well-formed lease runs forward and, once stored, has an id.
    pub open spec fn wf(self) -> bool {
        &&& self.lease_start <= self.lease_end
        &&& self.id is Some
    }

    /// Whether the lease binds its address at the given time: still marked
    /// active and not yet past its end.
    pub open spec fn live_at(self, now: i64) -> bool {
        self.active && self.lease_end > now
    }
}

} // verus!
