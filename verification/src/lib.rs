//! A DHCP (RFC 2131/2132) protocol engine: a binary packet codec for the
//! fixed BOOTP header and the TLV option area, and an allocation engine that
//! turns an inbound packet plus the current lease state into a reply and a
//! lease decision.

pub mod addr;
pub mod config;
pub mod mac;
pub mod engine;
pub mod message_type;
pub mod models;
pub mod options;
pub mod packet;
pub mod store;

pub use addr::Ipv4Address;
pub use config::{ApiConfig, Config, DhcpConfig};
pub use mac::MacAddress;
pub use message_type::{DhcpMessageType, MessageType};
pub use models::{DynamicRange, Lease, StaticIP, Subnet};
pub use options::DhcpOption;
pub use packet::{DecodeError, DhcpPacket};
pub use store::LeaseStore;
