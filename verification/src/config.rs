//! Server configuration as plain values. Loading and saving these from a
//! configuration file is the surrounding application's concern.

use crate::addr::Ipv4Address;
use vstd::prelude::*;

verus! {

/// The whole server configuration.
#[derive(Debug, Clone)]
pub struct Config {
    /// Addresses the DHCP listener binds, one loop each.
    pub listen_addresses: Vec<Ipv4Address>,
    /// Path of the lease database file.
    pub database_path: String,
    /// Management API settings.
    pub api: ApiConfig,
    /// Protocol-engine settings.
    pub dhcp: DhcpConfig,
}

/// Settings of the management API; the engine itself never reads them.
#[derive(Debug, Clone)]
pub struct ApiConfig {
    /// Address the API listens on.
    pub listen_address: String,
    /// Port the API listens on.
    pub port: u16,
    /// Unix socket path for local access, if any.
    pub unix_socket: Option<String>,
    /// Whether TCP API calls must carry a token.
    pub require_authentication: Option<bool>,
}

/// The timing policy of the allocation engine.
#[derive(Debug, Clone)]
pub struct DhcpConfig {
    /// Lease duration handed out, in seconds.
    pub default_lease_time: u32,
    /// Upper bound on any lease duration, in seconds: the engine never
    /// issues a lease that lasts longer.
    pub max_lease_time: u32,
}

impl DhcpConfig {
    /// The lease duration the engine actually issues: the default, capped
    /// by the maximum.
    pub open spec fn lease_secs(self) -> u32 {
        if self.default_lease_time <= self.max_lease_time {
            self.default_lease_time
        } else {
            self.max_lease_time
        }
    }

    /// The issued lease duration, in seconds.
    pub fn issued_lease_time(&self) -> (r: u32)
        ensures
            r == self.lease_secs(),
    {
        if self.default_lease_time <= self.max_lease_time {
            self.default_lease_time
        } else {
            self.max_lease_time
        }
    }
}

} // verus!
