//! Identities, addresses and storage settings shared by every module.

use rand::Rng;
use vstd::prelude::*;
use crate::text::{parse_u16, unsigned_value};

verus! {

/// Identity of a replica.
pub type Pid = u128;

/// Draws a fresh identity with [`rand::Rng::random`]. Every value can come
/// back, so nothing is claimed of it.
#[verifier::external_body]
pub fn new_pid() -> (pid: Pid) {
    rand::rng().random()
}

/// Draws a number between the two bounds, both of them included, with
/// [`rand::Rng::random_range`], which refuses an empty range. Which of the
/// numbers comes back is left to chance.
#[verifier::external_body]
pub(crate) fn random_between(lower: u128, upper: u128) -> (drawn: u128)
    requires
        lower <= upper,
    ensures
        lower <= drawn <= upper,
{
    rand::rng().random_range(lower..=upper)
}

/// An IP address, as the number that its octets make up in network order.
#[derive(Debug, Clone, Copy, PartialEq, Eq, PartialOrd, Ord, Hash, Structural)]
pub enum IpAddress {
    V4(u32),
    V6(u128),
}

/// An IP address with a port, and for one of version 6 its flow information and
/// its scope.
#[derive(Debug, Clone, Copy, PartialEq, Eq, Hash, Structural)]
pub struct SocketAddress {
    pub ip: IpAddress,
    pub port: u16,
    pub flow_info: u32,
    pub scope_id: u32,
}

/// The place of an address in the order of addresses: version 4 before
/// version 6, then by address, by port, by flow information and by scope.
pub open spec fn address_rank(address: SocketAddress) -> (bool, u128, u16, u32, u32) {
    let (six, bits) = match address.ip {
        IpAddress::V4(bits) => (false, bits as u128),
        IpAddress::V6(bits) => (true, bits),
    };
    (six, bits, address.port, address.flow_info, address.scope_id)
}

/// Whether the address `a` comes before the address `b`.
pub open spec fn address_precedes(a: SocketAddress, b: SocketAddress) -> bool {
    let (a_six, a_bits, a_port, a_flow, a_scope) = address_rank(a);
    let (b_six, b_bits, b_port, b_flow, b_scope) = address_rank(b);
    if a_six != b_six {
        b_six
    } else if a_bits != b_bits {
        a_bits < b_bits
    } else if a_port != b_port {
        a_port < b_port
    } else if a_flow != b_flow {
        a_flow < b_flow
    } else {
        a_scope < b_scope
    }
}

impl SocketAddress {
    /// An address with a port, without flow information and scope.
    pub fn new(ip: IpAddress, port: u16) -> (address: Self)
        ensures
            address == (SocketAddress { ip, port, flow_info: 0, scope_id: 0 }),
    {
        SocketAddress { ip, port, flow_info: 0, scope_id: 0 }
    }

    /// Whether `self` comes before `other`.
    pub fn precedes(&self, other: &SocketAddress) -> (before: bool)
        ensures
            before == address_precedes(*self, *other),
    {
        match (self.ip, other.ip) {
            (IpAddress::V4(_), IpAddress::V6(_)) => true,
            (IpAddress::V6(_), IpAddress::V4(_)) => false,
            (IpAddress::V4(a), IpAddress::V4(b)) => if a != b {
                a < b
            } else {
                self.ends_before(other)
            },
            (IpAddress::V6(a), IpAddress::V6(b)) => if a != b {
                a < b
            } else {
                self.ends_before(other)
            },
        }
    }

    /// Whether `self` comes before `other` by what follows the IP address.
    fn ends_before(&self, other: &SocketAddress) -> (before: bool)
        ensures
            before == if self.port != other.port {
                self.port < other.port
            } else if self.flow_info != other.flow_info {
                self.flow_info < other.flow_info
            } else {
                self.scope_id < other.scope_id
            },
    {
        if self.port != other.port {
            self.port < other.port
        } else if self.flow_info != other.flow_info {
            self.flow_info < other.flow_info
        } else {
            self.scope_id < other.scope_id
        }
    }
}

/// Of two different addresses exactly one comes before the other, and no
/// address comes before itself.
pub proof fn law_addresses_are_ordered(a: SocketAddress, b: SocketAddress, c: SocketAddress)
    ensures
        !address_precedes(a, a),
        a != b ==> (address_precedes(a, b) <==> !address_precedes(b, a)),
        address_precedes(a, b) && address_precedes(b, c) ==> address_precedes(a, c),
{
}

/// The address of a replica, with the port that clients use and the one that
/// its peers use.
#[derive(Debug, Clone, Copy, PartialEq, Eq, Structural)]
pub struct ServerAddr {
    pub ip: IpAddress,
    pub http_port: u16,
    pub internal_port: u16,
}

impl ServerAddr {
    /// Where clients connect.
    pub fn http(&self) -> (address: SocketAddress)
        ensures
            address == (SocketAddress {
                ip: self.ip,
                port: self.http_port,
                flow_info: 0,
                scope_id: 0,
            }),
    {
        SocketAddress::new(self.ip, self.http_port)
    }

    /// Where peers connect.
    pub fn internal(&self) -> (address: SocketAddress)
        ensures
            address == (SocketAddress {
                ip: self.ip,
                port: self.internal_port,
                flow_info: 0,
                scope_id: 0,
            }),
    {
        SocketAddress::new(self.ip, self.internal_port)
    }

    /// Keep the configured ports while replacing the bind/published IP.
    pub fn with_ip(self, ip: IpAddress) -> (address: ServerAddr)
        ensures
            address == (ServerAddr { ip, ..self }),
    {
        ServerAddr { ip, http_port: self.http_port, internal_port: self.internal_port }
    }

    /// An address whose ports are given as text.
    pub fn from_values(ip: IpAddress, http_port: &Vec<char>, internal_port: &Vec<char>) -> (address:
        Option<ServerAddr>)
        ensures
            address == match (port_value(http_port@), port_value(internal_port@)) {
                (Some(http_port), Some(internal_port)) => Some(
                    ServerAddr { ip, http_port, internal_port },
                ),
                _ => None,
            },
    {
        match (parse_u16(http_port), parse_u16(internal_port)) {
            (Some(http_port), Some(internal_port)) => Some(
                ServerAddr { ip, http_port, internal_port },
            ),
            _ => None,
        }
    }

    /// Returns a new copy with incremented ports.
    pub fn increment_ports(&self, increment: u16) -> (address: ServerAddr)
        requires
            self.http_port + increment <= u16::MAX,
            self.internal_port + increment <= u16::MAX,
        ensures
            address.ip == self.ip,
            address.http_port == self.http_port + increment,
            address.internal_port == self.internal_port + increment,
    {
        ServerAddr {
            ip: self.ip,
            http_port: self.http_port + increment,
            internal_port: self.internal_port + increment,
        }
    }
}

/// The port that a text denotes.
pub open spec fn port_value(text: Seq<char>) -> Option<u16> {
    match unsigned_value(text) {
        Some(n) => if n <= u16::MAX {
            Some(n as u16)
        } else {
            None
        },
        None => None,
    }
}

impl Default for ServerAddr {
    /// Every interface, with the customary ports.
    fn default() -> (address: Self)
        ensures
            address == (ServerAddr { ip: IpAddress::V4(0), http_port: 9090, internal_port: 8080 }),
    {
        ServerAddr { ip: IpAddress::V4(0), http_port: 9090, internal_port: 8080 }
    }
}

/// Where the shared state and the membership directory are kept.
#[derive(Debug, Clone)]
pub struct ObjectStorageConfig {
    pub local_dir: Option<String>,
    pub url: Option<String>,
    pub region: String,
    pub bucket: String,
    pub access_key: Option<String>,
    pub secret_key: Option<String>,
    pub session_token: Option<String>,
    pub persistent_replica_path: String,
    pub membership_directory_path: String,
    pub discovery_interval_ms: u64,
}

} // verus!
