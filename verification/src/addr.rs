//! IPv4 addresses as plain values: four octets, with a numeric view for
//! range comparisons and prefix arithmetic.

use vstd::prelude::*;

verus! {

/// An IPv4 address held as its four dotted-quad octets, most significant
/// first: `192.168.1.50` is `{ o0: 192, o1: 168, o2: 1, o3: 50 }`.
#[derive(Debug, Clone, Copy, PartialEq, Eq, Hash, Structural)]
pub struct Ipv4Address {
    pub o0: u8,
    pub o1: u8,
    pub o2: u8,
    pub o3: u8,
}

/// The numeric (big-endian) value of four octets.
pub open spec fn addr_num_of(o0: u8, o1: u8, o2: u8, o3: u8) -> int {
    o0 * 0x1000000 + o1 * 0x10000 + o2 * 0x100 + o3
}

impl Ipv4Address {
    /// The address's numeric value, as used for range membership.
    pub open spec fn num(self) -> int {
        addr_num_of(self.o0, self.o1, self.o2, self.o3)
    }

    /// The address's four bytes in wire order.
    pub open spec fn bytes(self) -> Seq<u8> {
        seq![self.o0, self.o1, self.o2, self.o3]
    }

    /// Build an address from its four dotted-quad octets.
    pub fn new(o0: u8, o1: u8, o2: u8, o3: u8) -> (r: Self)
        ensures
            r == (Ipv4Address { o0, o1, o2, o3 }),
    {
        Ipv4Address { o0, o1, o2, o3 }
    }

    /// The numeric (big-endian) value of the address.
    pub fn to_u32(self) -> (r: u32)
        ensures
            r == self.num(),
    {
        (self.o0 as u32) * 0x1000000 + (self.o1 as u32) * 0x10000 + (self.o2 as u32) * 0x100 + (
        self.o3 as u32)
    }

    /// The address with the given numeric value.
    pub fn from_u32(n: u32) -> (r: Self)
        ensures
            r == addr_of_num(n as int),
            r.num() == n,
    {
        let o0 = (n / 0x1000000) as u8;
        let o1 = ((n / 0x10000) % 0x100) as u8;
        let o2 = ((n / 0x100) % 0x100) as u8;
        let o3 = (n % 0x100) as u8;
        proof {
            assert(addr_num_of(o0, o1, o2, o3) == n) by {
                assert(n / 0x1000000 * 0x1000000 + (n / 0x10000) % 0x100 * 0x10000 + (n / 0x100)
                    % 0x100 * 0x100 + n % 0x100 == n) by (bit_vector);
            };
        }
        Ipv4Address { o0, o1, o2, o3 }
    }

    /// The address's four bytes in wire order.
    pub fn to_octets(self) -> (r: [u8; 4])
        ensures
            r@ == self.bytes(),
    {
        let r = [self.o0, self.o1, self.o2, self.o3];
        proof {
            assert(r@ =~= self.bytes());
        }
        r
    }

    /// The all-zero address `0.0.0.0`.
    pub fn zero() -> (r: Self)
        ensures
            r == (Ipv4Address { o0: 0u8, o1: 0u8, o2: 0u8, o3: 0u8 }),
            r.num() == 0,
    {
        Ipv4Address { o0: 0, o1: 0, o2: 0, o3: 0 }
    }
}

/// The address with the given numeric value, for values below 2^32.
pub open spec fn addr_of_num(n: int) -> Ipv4Address {
    Ipv4Address {
        o0: (n / 0x1000000) as u8,
        o1: ((n / 0x10000) % 0x100) as u8,
        o2: ((n / 0x100) % 0x100) as u8,
        o3: (n % 0x100) as u8,
    }
}

/// For values below 2^32, taking the address of a number gives that number
/// back as the address's numeric value.
pub proof fn lemma_addr_of_num(n: u32)
    ensures
        addr_of_num(n as int).num() == n,
{
    assert(n / 0x1000000 * 0x1000000 + (n / 0x10000) % 0x100 * 0x10000 + (n / 0x100) % 0x100
        * 0x100 + n % 0x100 == n) by (bit_vector);
}

} // verus!
