//! The lease store: the configuration tables the engine reads and the lease
//! records it writes, with the invariant that makes concurrent allocation
//! safe — at most one active lease per address, so the conditional
//! create-or-extend operation is single-writer-wins per address.
//!
//! The engine consumes this store through the narrow contract below; a
//! deployment keeps the same records in whatever persistence it likes and
//! serializes calls (for instance behind a mutex), which is exactly the
//! single serialization point the invariant needs.

use crate::addr::Ipv4Address;
use crate::mac::MacAddress;
use crate::models::{DynamicRange, Lease, StaticIP, Subnet};
use vstd::prelude::*;

verus! {

/// The first enabled static assignment for a hardware address, if any.
pub open spec fn first_enabled_static(statics: Seq<StaticIP>, mac: Seq<u8>) -> Option<StaticIP>
    decreases statics.len(),
{
    if statics.len() == 0 {
        None
    } else if statics[0].enabled && statics[0].mac_address@ == mac {
        Some(statics[0])
    } else {
        first_enabled_static(statics.drop_first(), mac)
    }
}

/// The first lease binding an address for a hardware address at a time:
/// marked active and not yet past its end.
pub open spec fn first_live_lease(leases: Seq<Lease>, mac: Seq<u8>, now: i64) -> Option<Lease>
    decreases leases.len(),
{
    if leases.len() == 0 {
        None
    } else if leases[0].mac_address@ == mac && leases[0].live_at(now) {
        Some(leases[0])
    } else {
        first_live_lease(leases.drop_first(), mac, now)
    }
}

/// The subnet with the given record id, if any.
pub open spec fn subnet_with_id(subnets: Seq<Subnet>, id: i64) -> Option<Subnet>
    decreases subnets.len(),
{
    if subnets.len() == 0 {
        None
    } else if subnets[0].id == Some(id) {
        Some(subnets[0])
    } else {
        subnet_with_id(subnets.drop_first(), id)
    }
}

/// The first enabled static assignment of an address, if any.
pub open spec fn static_on_addr(statics: Seq<StaticIP>, a: Ipv4Address) -> Option<StaticIP>
    decreases statics.len(),
{
    if statics.len() == 0 {
        None
    } else if statics[0].enabled && statics[0].ip_address == a {
        Some(statics[0])
    } else {
        static_on_addr(statics.drop_first(), a)
    }
}

/// Whether some lease binds the address at the given time.
pub open spec fn addr_live_leased(leases: Seq<Lease>, a: Ipv4Address, now: i64) -> bool {
    exists|i: int|
        0 <= i < leases.len() && (#[trigger] leases[i]).ip_address == a && leases[i].live_at(now)
}

/// Whether some lease binds the address at the time for a hardware address
/// other than the given one.
pub open spec fn addr_live_leased_to_other(
    leases: Seq<Lease>,
    a: Ipv4Address,
    mac: Seq<u8>,
    now: i64,
) -> bool {
    exists|i: int|
        0 <= i < leases.len() && (#[trigger] leases[i]).ip_address == a && leases[i].live_at(now)
            && leases[i].mac_address@ != mac
}

/// The position of the first active-marked lease on an address, or the
/// length when there is none. Under the store invariant an active lease on
/// an address is unique, so "the first" is "the one".
pub open spec fn find_active_on(leases: Seq<Lease>, a: Ipv4Address) -> int
    decreases leases.len(),
{
    if leases.len() == 0 {
        0
    } else if leases[0].active && leases[0].ip_address == a {
        0
    } else {
        1 + find_active_on(leases.drop_first(), a)
    }
}

/// What `find_active_on` finds: a position within bounds holds the first
/// active lease on the address; the length means there is none.
pub proof fn lemma_find_active_on(leases: Seq<Lease>, a: Ipv4Address)
    ensures
        0 <= find_active_on(leases, a) <= leases.len(),
        find_active_on(leases, a) < leases.len() ==> {
            let k = find_active_on(leases, a);
            leases[k].active && leases[k].ip_address == a
        },
        forall|i: int|
            0 <= i < find_active_on(leases, a) ==> !((#[trigger] leases[i]).active
                && leases[i].ip_address == a),
        find_active_on(leases, a) == leases.len() ==> forall|i: int|
            0 <= i < leases.len() ==> !((#[trigger] leases[i]).active && leases[i].ip_address
                == a),
    decreases leases.len(),
{
    if leases.len() > 0 && !(leases[0].active && leases[0].ip_address == a) {
        lemma_find_active_on(leases.drop_first(), a);
        let k = find_active_on(leases, a);
        assert forall|i: int| 0 <= i < k implies !((#[trigger] leases[i]).active
            && leases[i].ip_address == a) by {
            if i > 0 {
                assert(leases[i] == leases.drop_first()[i - 1]);
            }
        }
        if k == leases.len() {
            assert forall|i: int| 0 <= i < leases.len() implies !((#[trigger] leases[i]).active
                && leases[i].ip_address == a) by {
                if i > 0 {
                    assert(leases[i] == leases.drop_first()[i - 1]);
                }
            }
        }
    }
}

/// A subnet found by id is an element of the list.
pub proof fn lemma_subnet_with_id_elem(subnets: Seq<Subnet>, id: i64)
    requires
        subnet_with_id(subnets, id) is Some,
    ensures
        exists|i: int|
            0 <= i < subnets.len() && subnets[i] == subnet_with_id(subnets, id)->0,
    decreases subnets.len(),
{
    if subnets.len() > 0 && !(subnets[0].id == Some(id)) {
        lemma_subnet_with_id_elem(subnets.drop_first(), id);
        let j = choose|i: int|
            0 <= i < subnets.drop_first().len() && subnets.drop_first()[i] == subnet_with_id(
                subnets.drop_first(),
                id,
            )->0;
        assert(subnets[j + 1] == subnets.drop_first()[j]);
    }
}

/// A live lease found for a hardware address is an element of the list.
pub proof fn lemma_first_live_lease_elem(leases: Seq<Lease>, mac: Seq<u8>, now: i64)
    requires
        first_live_lease(leases, mac, now) is Some,
    ensures
        exists|i: int|
            0 <= i < leases.len() && leases[i] == first_live_lease(leases, mac, now)->0,
        first_live_lease(leases, mac, now)->0.mac_address@ == mac,
        first_live_lease(leases, mac, now)->0.live_at(now),
    decreases leases.len(),
{
    if leases.len() > 0 && !(leases[0].mac_address@ == mac && leases[0].live_at(now)) {
        lemma_first_live_lease_elem(leases.drop_first(), mac, now);
        let j = choose|i: int|
            0 <= i < leases.drop_first().len() && leases.drop_first()[i] == first_live_lease(
                leases.drop_first(),
                mac,
                now,
            )->0;
        assert(leases[j + 1] == leases.drop_first()[j]);
    }
}

/// A static assignment found for a hardware address is an element of the
/// list, is enabled, and belongs to that address.
pub proof fn lemma_first_enabled_static_elem(statics: Seq<StaticIP>, mac: Seq<u8>)
    requires
        first_enabled_static(statics, mac) is Some,
    ensures
        exists|i: int|
            0 <= i < statics.len() && statics[i] == first_enabled_static(statics, mac)->0,
        first_enabled_static(statics, mac)->0.enabled,
        first_enabled_static(statics, mac)->0.mac_address@ == mac,
    decreases statics.len(),
{
    if statics.len() > 0 && !(statics[0].enabled && statics[0].mac_address@ == mac) {
        lemma_first_enabled_static_elem(statics.drop_first(), mac);
        let j = choose|i: int|
            0 <= i < statics.drop_first().len() && statics.drop_first()[i] == first_enabled_static(
                statics.drop_first(),
                mac,
            )->0;
        assert(statics[j + 1] == statics.drop_first()[j]);
    }
}

/// A fresh lease record.
pub open spec fn new_lease(
    id: i64,
    subnet_id: i64,
    mac: MacAddress,
    a: Ipv4Address,
    start: i64,
    end: i64,
) -> Lease {
    Lease {
        id: Some(id),
        subnet_id,
        mac_address: mac,
        ip_address: a,
        lease_start: start,
        lease_end: end,
        hostname: None,
        active: true,
    }
}

/// The enabled ranges of a subnet, in order.
pub open spec fn enabled_ranges_of(ranges: Seq<DynamicRange>, sid: i64) -> Seq<DynamicRange>
    decreases ranges.len(),
{
    if ranges.len() == 0 {
        seq![]
    } else if ranges[0].enabled && ranges[0].subnet_id == sid {
        seq![ranges[0]] + enabled_ranges_of(ranges.drop_first(), sid)
    } else {
        enabled_ranges_of(ranges.drop_first(), sid)
    }
}

/// The lease store: read-only configuration tables, and the lease records
/// the engine creates, extends and deactivates.
pub struct LeaseStore {
    /// The subnets served.
    pub subnets: Vec<Subnet>,
    /// The dynamic ranges, in allocation-preference order.
    pub ranges: Vec<DynamicRange>,
    /// The static assignments.
    pub static_ips: Vec<StaticIP>,
    /// Every lease ever issued; deactivated ones stay.
    pub leases: Vec<Lease>,
    /// The id the next created lease receives.
    pub next_lease_id: i64,
}

impl LeaseStore {
    /// The store invariant: configuration records are well formed, lease
    /// ids are unique and below the next id, and — the allocation-safety
    /// core — no two active leases bind the same address.
    pub open spec fn wf(self) -> bool {
        &&& forall|i: int| 0 <= i < self.subnets@.len() ==> (#[trigger] self.subnets@[i]).wf()
        &&& forall|i: int| 0 <= i < self.ranges@.len() ==> (#[trigger] self.ranges@[i]).wf()
        &&& forall|i: int| 0 <= i < self.leases@.len() ==> (#[trigger] self.leases@[i]).wf()
        &&& forall|i: int, j: int|
            0 <= i < self.leases@.len() && 0 <= j < self.leases@.len() && i != j ==> (
            #[trigger] self.leases@[i]).id != (#[trigger] self.leases@[j]).id
        &&& forall|i: int|
            0 <= i < self.leases@.len() ==> (#[trigger] self.leases@[i]).id->0
                < self.next_lease_id
        &&& forall|i: int, j: int|
            0 <= i < self.leases@.len() && 0 <= j < self.leases@.len() && i != j && (
            #[trigger] self.leases@[i]).active && (#[trigger] self.leases@[j]).active
                ==> self.leases@[i].ip_address != self.leases@[j].ip_address
    }

    /// An empty store.
    pub fn new() -> (r: Self)
        ensures
            r.wf(),
            r.subnets@.len() == 0,
            r.ranges@.len() == 0,
            r.static_ips@.len() == 0,
            r.leases@.len() == 0,
    {
        LeaseStore {
            subnets: Vec::new(),
            ranges: Vec::new(),
            static_ips: Vec::new(),
            leases: Vec::new(),
            next_lease_id: 1,
        }
    }

    /// Add a subnet to the configuration.
    pub fn add_subnet(&mut self, s: Subnet)
        requires
            old(self).wf(),
            s.wf(),
        ensures
            final(self).wf(),
            final(self).subnets@ == old(self).subnets@.push(s),
            final(self).ranges@ == old(self).ranges@,
            final(self).static_ips@ == old(self).static_ips@,
            final(self).leases@ == old(self).leases@,
    {
        self.subnets.push(s);
    }

    /// Add a dynamic range to the configuration.
    pub fn add_range(&mut self, r: DynamicRange)
        requires
            old(self).wf(),
            r.wf(),
        ensures
            final(self).wf(),
            final(self).ranges@ == old(self).ranges@.push(r),
            final(self).subnets@ == old(self).subnets@,
            final(self).static_ips@ == old(self).static_ips@,
            final(self).leases@ == old(self).leases@,
    {
        self.ranges.push(r);
    }

    /// Add a static assignment to the configuration.
    pub fn add_static_ip(&mut self, s: StaticIP)
        requires
            old(self).wf(),
        ensures
            final(self).wf(),
            final(self).static_ips@ == old(self).static_ips@.push(s),
            final(self).subnets@ == old(self).subnets@,
            final(self).ranges@ == old(self).ranges@,
            final(self).leases@ == old(self).leases@,
    {
        self.static_ips.push(s);
    }

    /// The first enabled static assignment for a hardware address.
    pub fn get_static_by_mac(&self, mac: &MacAddress) -> (r: Option<&StaticIP>)
        ensures
            match r {
                Some(s) => first_enabled_static(self.static_ips@, mac@) == Some(*s),
                None => first_enabled_static(self.static_ips@, mac@) is None,
            },
    {
        let n = self.static_ips.len();
        let mut i: usize = 0;
        proof {
            assert(self.static_ips@.skip(0) =~= self.static_ips@);
        }
        while i < n
            invariant
                i <= n == self.static_ips@.len(),
                first_enabled_static(self.static_ips@.skip(i as int), mac@) == first_enabled_static(
                    self.static_ips@,
                    mac@,
                ),
            decreases n - i,
        {
            let s = &self.static_ips[i];
            proof {
                assert(self.static_ips@.skip(i as int)[0] == self.static_ips@[i as int]);
                assert(self.static_ips@.skip(i as int).drop_first() =~= self.static_ips@.skip(
                    i + 1,
                ));
            }
            if s.enabled && s.mac_address == *mac {
                return Some(s);
            }
            i = i + 1;
        }
        proof {
            assert(self.static_ips@.skip(n as int) =~= Seq::<StaticIP>::empty());
        }
        None
    }

    /// The lease currently binding an address for a hardware address, if
    /// any: marked active and not yet past its end at the given time.
    pub fn get_active_lease(&self, mac: &MacAddress, now: i64) -> (r: Option<&Lease>)
        ensures
            match r {
                Some(l) => first_live_lease(self.leases@, mac@, now) == Some(*l),
                None => first_live_lease(self.leases@, mac@, now) is None,
            },
    {
        let n = self.leases.len();
        let mut i: usize = 0;
        proof {
            assert(self.leases@.skip(0) =~= self.leases@);
        }
        while i < n
            invariant
                i <= n == self.leases@.len(),
                first_live_lease(self.leases@.skip(i as int), mac@, now) == first_live_lease(
                    self.leases@,
                    mac@,
                    now,
                ),
            decreases n - i,
        {
            let l = &self.leases[i];
            proof {
                assert(self.leases@.skip(i as int)[0] == self.leases@[i as int]);
                assert(self.leases@.skip(i as int).drop_first() =~= self.leases@.skip(i + 1));
            }
            if l.mac_address == *mac && l.active && l.lease_end > now {
                return Some(l);
            }
            i = i + 1;
        }
        proof {
            assert(self.leases@.skip(n as int) =~= Seq::<Lease>::empty());
        }
        None
    }

    /// The subnet with the given record id.
    pub fn get_subnet(&self, id: i64) -> (r: Option<&Subnet>)
        ensures
            match r {
                Some(s) => subnet_with_id(self.subnets@, id) == Some(*s),
                None => subnet_with_id(self.subnets@, id) is None,
            },
    {
        let n = self.subnets.len();
        let mut i: usize = 0;
        proof {
            assert(self.subnets@.skip(0) =~= self.subnets@);
        }
        while i < n
            invariant
                i <= n == self.subnets@.len(),
                subnet_with_id(self.subnets@.skip(i as int), id) == subnet_with_id(
                    self.subnets@,
                    id,
                ),
            decreases n - i,
        {
            let s = &self.subnets[i];
            proof {
                assert(self.subnets@.skip(i as int)[0] == self.subnets@[i as int]);
                assert(self.subnets@.skip(i as int).drop_first() =~= self.subnets@.skip(i + 1));
            }
            let matches_id = match s.id {
                Some(sid) => sid == id,
                None => false,
            };
            if matches_id {
                return Some(s);
            }
            i = i + 1;
        }
        proof {
            assert(self.subnets@.skip(n as int) =~= Seq::<Subnet>::empty());
        }
        None
    }

    /// The enabled ranges of a subnet, in configuration order.
    pub fn list_enabled_ranges(&self, subnet_id: i64) -> (r: Vec<DynamicRange>)
        ensures
            r@ == enabled_ranges_of(self.ranges@, subnet_id),
    {
        let n = self.ranges.len();
        let mut out: Vec<DynamicRange> = Vec::new();
        let mut i: usize = 0;
        proof {
            assert(self.ranges@.skip(0) =~= self.ranges@);
            assert(out@ + enabled_ranges_of(self.ranges@, subnet_id) =~= enabled_ranges_of(
                self.ranges@,
                subnet_id,
            ));
        }
        while i < n
            invariant
                i <= n == self.ranges@.len(),
                out@ + enabled_ranges_of(self.ranges@.skip(i as int), subnet_id)
                    == enabled_ranges_of(self.ranges@, subnet_id),
            decreases n - i,
        {
            let g = self.ranges[i];
            proof {
                assert(self.ranges@.skip(i as int)[0] == self.ranges@[i as int]);
                assert(self.ranges@.skip(i as int).drop_first() =~= self.ranges@.skip(i + 1));
            }
            if g.enabled && g.subnet_id == subnet_id {
                proof {
                    assert(out@.push(g) + enabled_ranges_of(self.ranges@.skip(i + 1), subnet_id)
                        =~= out@ + enabled_ranges_of(self.ranges@.skip(i as int), subnet_id));
                }
                out.push(g);
            }
            i = i + 1;
        }
        proof {
            assert(enabled_ranges_of(self.ranges@.skip(n as int), subnet_id) =~= Seq::<
                DynamicRange,
            >::empty());
            assert(out@ =~= enabled_ranges_of(self.ranges@, subnet_id));
        }
        out
    }

    /// Mark the lease with the given id inactive; every other record is
    /// untouched. Deactivation is end-of-life: the record stays.
    pub fn expire_lease(&mut self, id: i64)
        requires
            old(self).wf(),
        ensures
            final(self).wf(),
            final(self).subnets@ == old(self).subnets@,
            final(self).ranges@ == old(self).ranges@,
            final(self).static_ips@ == old(self).static_ips@,
            final(self).next_lease_id == old(self).next_lease_id,
            final(self).leases@.len() == old(self).leases@.len(),
            forall|i: int|
                0 <= i < old(self).leases@.len() ==> (#[trigger] final(self).leases@[i]) == (
                if old(self).leases@[i].id == Some(id) {
                    Lease { active: false, ..old(self).leases@[i] }
                } else {
                    old(self).leases@[i]
                }),
    {
        let n = self.leases.len();
        let mut i: usize = 0;
        while i < n
            invariant
                i <= n == self.leases@.len(),
                old(self).wf(),
                self.subnets@ == old(self).subnets@,
                self.ranges@ == old(self).ranges@,
                self.static_ips@ == old(self).static_ips@,
                self.next_lease_id == old(self).next_lease_id,
                self.leases@.len() == old(self).leases@.len(),
                forall|k: int|
                    0 <= k < i ==> (#[trigger] self.leases@[k]) == (
                    if old(self).leases@[k].id == Some(id) {
                        Lease { active: false, ..old(self).leases@[k] }
                    } else {
                        old(self).leases@[k]
                    }),
                forall|k: int|
                    i <= k < self.leases@.len() ==> (#[trigger] self.leases@[k]) == old(
                        self,
                    ).leases@[k],
            decreases n - i,
        {
            let matches_id = match self.leases[i].id {
                Some(lid) => lid == id,
                None => false,
            };
            if matches_id {
                let l = &mut self.leases[i];
                l.active = false;
            }
            i = i + 1;
        }
        proof {
            assert forall|a: int, b: int|
                0 <= a < self.leases@.len() && 0 <= b < self.leases@.len() && a != b && (
                #[trigger] self.leases@[a]).active && (#[trigger] self.leases@[b]).active implies
                self.leases@[a].ip_address != self.leases@[b].ip_address by {
                assert(old(self).leases@[a].active && old(self).leases@[b].active);
            }
        }
    }

    /// The conditional create-or-extend at the heart of allocation safety.
    /// If another client's lease still binds the address, nothing changes
    /// and the call reports the conflict: of two racing requests for one
    /// address, serialized here, only the first can succeed. Otherwise the
    /// caller's own lease on the address is extended, or a stale holder is
    /// deactivated and a fresh lease created.
    pub fn create_or_extend_lease(
        &mut self,
        mac: &MacAddress,
        subnet_id: i64,
        address: Ipv4Address,
        start: i64,
        end: i64,
    ) -> (r: Result<(), ()>)
        requires
            old(self).wf(),
            start <= end,
            old(self).next_lease_id < i64::MAX,
        ensures
            final(self).wf(),
            final(self).subnets@ == old(self).subnets@,
            final(self).ranges@ == old(self).ranges@,
            final(self).static_ips@ == old(self).static_ips@,
            ({
                let ls = old(self).leases@;
                let k = find_active_on(ls, address);
                if k < ls.len() && ls[k].mac_address@ != mac@ && ls[k].lease_end > start {
                    &&& r is Err
                    &&& final(self).leases@ == ls
                    &&& final(self).next_lease_id == old(self).next_lease_id
                } else if k < ls.len() && ls[k].mac_address@ == mac@ {
                    &&& r is Ok
                    &&& final(self).leases@ == ls.update(
                        k,
                        Lease { lease_start: start, lease_end: end, ..ls[k] },
                    )
                    &&& final(self).next_lease_id == old(self).next_lease_id
                } else if k < ls.len() {
                    &&& r is Ok
                    &&& final(self).leases@ == ls.update(
                        k,
                        Lease { active: false, ..ls[k] },
                    ).push(
                        new_lease(old(self).next_lease_id, subnet_id, *mac, address, start, end),
                    )
                    &&& final(self).next_lease_id == old(self).next_lease_id + 1
                } else {
                    &&& r is Ok
                    &&& final(self).leases@ == ls.push(
                        new_lease(old(self).next_lease_id, subnet_id, *mac, address, start, end),
                    )
                    &&& final(self).next_lease_id == old(self).next_lease_id + 1
                }
            }),
    {
        let ghost ls = self.leases@;
        proof {
            lemma_find_active_on(ls, address);
        }
        let n = self.leases.len();
        let mut i: usize = 0;
        while i < n
            invariant
                old(self).wf(),
                start <= end,
                old(self).next_lease_id < i64::MAX,
                *self == *old(self),
                i <= n == self.leases@.len(),
                self.leases@ == ls,
                i <= find_active_on(ls, address),
            decreases n - i,
        {
            proof {
                lemma_find_active_on(ls, address);
            }
            let l = &self.leases[i];
            if l.active && l.ip_address.o0 == address.o0 && l.ip_address.o1 == address.o1
                && l.ip_address.o2 == address.o2 && l.ip_address.o3 == address.o3 {
                proof {
                    assert(l.ip_address == address);
                    assert(ls[i as int].active && ls[i as int].ip_address == address);
                    assert(find_active_on(ls, address) == i);
                }
                if !(l.mac_address == *mac) {
                    if l.lease_end > start {
                        return Err(());
                    }
                    let stale = &mut self.leases[i];
                    stale.active = false;
                    let id = self.next_lease_id;
                    self.next_lease_id = id + 1;
                    let fresh = Lease {
                        id: Some(id),
                        subnet_id,
                        mac_address: *mac,
                        ip_address: address,
                        lease_start: start,
                        lease_end: end,
                        hostname: None,
                        active: true,
                    };
                    proof {
                        lemma_wf_after_create(
                            *old(self),
                            ls.update(i as int, Lease { active: false, ..ls[i as int] }),
                            i as int,
                            address,
                            fresh,
                        );
                    }
                    self.leases.push(fresh);
                    return Ok(());
                } else {
                    proof {
                        assert(l.mac_address@ == mac@);
                    }
                    let own = &mut self.leases[i];
                    own.lease_start = start;
                    own.lease_end = end;
                    proof {
                        lemma_wf_after_update_same_addr(*old(self), i as int, start, end);
                    }
                    return Ok(());
                }
            }
            proof {
                if find_active_on(ls, address) == i {
                    assert(ls[i as int].active && ls[i as int].ip_address == address);
                }
            }
            i = i + 1;
        }
        proof {
            lemma_find_active_on(ls, address);
            assert(find_active_on(ls, address) == ls.len());
        }
        let id = self.next_lease_id;
        self.next_lease_id = id + 1;
        let fresh = Lease {
            id: Some(id),
            subnet_id,
            mac_address: *mac,
            ip_address: address,
            lease_start: start,
            lease_end: end,
            hostname: None,
            active: true,
        };
        self.leases.push(fresh);
        proof {
            assert forall|a: int, b: int|
                0 <= a < self.leases@.len() && 0 <= b < self.leases@.len() && a != b && (
                #[trigger] self.leases@[a]).active && (#[trigger] self.leases@[b]).active implies
                self.leases@[a].ip_address != self.leases@[b].ip_address by {
                if a < ls.len() && b < ls.len() {
                } else if a == ls.len() {
                    assert(!(ls[b].active && ls[b].ip_address == address));
                } else {
                    assert(!(ls[a].active && ls[a].ip_address == address));
                }
            }
        }
        Ok(())
    }
}

/// After deactivating the active holder at position `k` and appending a
/// fresh active lease on the same address, the store invariant holds.
proof fn lemma_wf_after_create(
    old_store: LeaseStore,
    updated: Seq<Lease>,
    k: int,
    address: Ipv4Address,
    fresh: Lease,
)
    requires
        old_store.wf(),
        0 <= k < old_store.leases@.len(),
        updated == old_store.leases@.update(
            k,
            Lease { active: false, ..old_store.leases@[k] },
        ),
        old_store.leases@[k].ip_address == address,
        old_store.leases@[k].active,
        fresh.ip_address == address,
        fresh.active,
        fresh.wf(),
        fresh.id == Some(old_store.next_lease_id),
    ensures
        ({
            let ls2 = updated.push(fresh);
            &&& forall|i: int| 0 <= i < ls2.len() ==> (#[trigger] ls2[i]).wf()
            &&& forall|i: int, j: int|
                0 <= i < ls2.len() && 0 <= j < ls2.len() && i != j ==> (#[trigger] ls2[i]).id != (
                #[trigger] ls2[j]).id
            &&& forall|i: int|
                0 <= i < ls2.len() ==> (#[trigger] ls2[i]).id->0 < old_store.next_lease_id + 1
            &&& forall|i: int, j: int|
                0 <= i < ls2.len() && 0 <= j < ls2.len() && i != j && (#[trigger] ls2[i]).active
                    && (#[trigger] ls2[j]).active ==> ls2[i].ip_address != ls2[j].ip_address
        }),
{
    let ls = old_store.leases@;
    let ls2 = updated.push(fresh);
    assert forall|i: int, j: int|
        0 <= i < ls2.len() && 0 <= j < ls2.len() && i != j && (#[trigger] ls2[i]).active && (
        #[trigger] ls2[j]).active implies ls2[i].ip_address != ls2[j].ip_address by {
        if i < ls.len() && j < ls.len() {
            assert(ls2[i] == (if i == k {
                Lease { active: false, ..ls[k] }
            } else {
                ls[i]
            }));
            assert(ls2[j] == (if j == k {
                Lease { active: false, ..ls[k] }
            } else {
                ls[j]
            }));
        } else if i == ls.len() {
            assert(ls2[j].active);
            assert(j != k);
            assert(ls2[j] == ls[j]);
            assert(ls[j].active && ls[k].active);
            assert(ls[j].ip_address != address);
        } else {
            assert(j == ls.len());
            assert(i != k);
            assert(ls2[i] == ls[i]);
            assert(ls[i].ip_address != address);
        }
    }
}

/// Extending the lease at position `k` in place — same address, same
/// holder, new times — keeps the store invariant.
proof fn lemma_wf_after_update_same_addr(old_store: LeaseStore, k: int, start: i64, end: i64)
    requires
        old_store.wf(),
        0 <= k < old_store.leases@.len(),
        start <= end,
    ensures
        ({
            let ls2 = old_store.leases@.update(
                k,
                Lease { lease_start: start, lease_end: end, ..old_store.leases@[k] },
            );
            &&& forall|i: int| 0 <= i < ls2.len() ==> (#[trigger] ls2[i]).wf()
            &&& forall|i: int, j: int|
                0 <= i < ls2.len() && 0 <= j < ls2.len() && i != j ==> (#[trigger] ls2[i]).id != (
                #[trigger] ls2[j]).id
            &&& forall|i: int|
                0 <= i < ls2.len() ==> (#[trigger] ls2[i]).id->0 < old_store.next_lease_id
            &&& forall|i: int, j: int|
                0 <= i < ls2.len() && 0 <= j < ls2.len() && i != j && (#[trigger] ls2[i]).active
                    && (#[trigger] ls2[j]).active ==> ls2[i].ip_address != ls2[j].ip_address
        }),
{
    let ls = old_store.leases@;
    let ls2 = ls.update(k, Lease { lease_start: start, lease_end: end, ..ls[k] });
    assert forall|i: int, j: int|
        0 <= i < ls2.len() && 0 <= j < ls2.len() && i != j && (#[trigger] ls2[i]).active && (
        #[trigger] ls2[j]).active implies ls2[i].ip_address != ls2[j].ip_address by {
        assert(ls2[i].active == ls[i].active && ls2[i].ip_address == ls[i].ip_address);
        assert(ls2[j].active == ls[j].active && ls2[j].ip_address == ls[j].ip_address);
    }
}

} // verus!
