//! The settings of a replica, read from the values of its environment.

use vstd::prelude::*;
use crate::prelude::{port_value, IpAddress, ObjectStorageConfig, ServerAddr};
use crate::replica_helpers::{blank, flag_value, is_blank, parse_flag};
use crate::text::{chars_of, parse_u16, parse_u64, text_of, trim_chars, trimmed, unsigned_value};

pub mod operations;

verus! {

/// The interval between deltas that are pulled, in milliseconds.
pub const DEFAULT_SYNC_INTERVAL_MS: u64 = 1000;

/// The interval between garbage-collection rounds, in milliseconds.
pub const DEFAULT_GC_INTERVAL_MS: u64 = 60000;

/// The interval between readings of the membership directory, in milliseconds.
pub const DEFAULT_DISCOVERY_INTERVAL_MS: u64 = 1000;

/// The settings of a replica.
#[derive(Debug, Clone)]
pub struct ReplicaConfig {
    /// Address on which the local HTTP and replication listeners bind.
    pub address: ServerAddr,
    /// Address published in membership descriptors. This defaults to `address`,
    /// but may differ when a replica binds `0.0.0.0` behind NAT or a tunnel.
    pub advertised_address: ServerAddr,
    pub sync_interval_ms: u64,
    pub gc_interval_ms: u64,
    pub durability_path: Option<String>,
    pub object_storage_config: ObjectStorageConfig,
}

/// The values of the environment variables that a replica reads. Those that
/// name an IP address come with the address that they denote, if they do.
#[derive(Debug, Clone)]
pub struct ReplicaEnv {
    pub durable: Option<String>,
    pub addr: Option<String>,
    pub addr_ip: Option<IpAddress>,
    pub http_port: Option<String>,
    pub internal_port: Option<String>,
    pub advertise_addr: Option<String>,
    pub advertise_ip: Option<IpAddress>,
    pub durability_path: Option<String>,
    pub sync_interval_ms: Option<String>,
    pub gc_interval_ms: Option<String>,
    pub local_dir: Option<String>,
    pub url: Option<String>,
    pub region: Option<String>,
    pub bucket: Option<String>,
    pub access_key: Option<String>,
    pub secret_key: Option<String>,
    pub session_token: Option<String>,
    pub persistent_replica_path: Option<String>,
    pub membership_directory_path: Option<String>,
    pub discovery_interval_ms: Option<String>,
}

/// Why an environment makes no configuration.
#[derive(Debug, Clone, Copy, PartialEq, Eq, Structural)]
pub enum ConfigError {
    DurableIsNoFlag,
    AddressIsMissing,
    AddressIsNoIp,
    HttpPortIsNoPort,
    InternalPortIsNoPort,
    AdvertisedAddressIsNoIp,
    DurabilityPathIsMissing,
    SyncIntervalIsNoInteger,
    GcIntervalIsNoInteger,
    PersistentReplicaPathIsMissing,
    MembershipDirectoryPathIsMissing,
    DiscoveryIntervalIsNoInteger,
}

/// The number of milliseconds that a text denotes.
pub open spec fn millis_value(text: Seq<char>) -> Option<u64> {
    match unsigned_value(text) {
        Some(n) => if n <= u64::MAX {
            Some(n as u64)
        } else {
            None
        },
        None => None,
    }
}

/// The characters of an optional text.
pub open spec fn text_view(text: Option<String>) -> Option<Seq<char>> {
    match text {
        Some(text) => Some(text@),
        None => None,
    }
}

/// A variable that counts only if it is not blank.
pub open spec fn unless_blank(text: Option<Seq<char>>) -> Option<Seq<char>> {
    match text {
        Some(text) => if is_blank(text) {
            None
        } else {
            Some(text)
        },
        None => None,
    }
}

/// A variable without the white space around it, if anything is left.
pub open spec fn trimmed_unless_blank(text: Option<Seq<char>>) -> Option<Seq<char>> {
    match text {
        Some(text) => if is_blank(text) {
            None
        } else {
            Some(trimmed(text))
        },
        None => None,
    }
}

/// A variable, or what stands for it where it is not set.
pub open spec fn text_or(text: Option<Seq<char>>, default: Seq<char>) -> Seq<char> {
    match text {
        Some(text) => text,
        None => default,
    }
}

/// An interval: the given one, or the default where none is given.
pub open spec fn interval_value(text: Option<Seq<char>>, default: u64) -> Option<u64> {
    match text {
        Some(text) => millis_value(text),
        None => Some(default),
    }
}

impl ReplicaEnv {
    /// What the flag for durability says; unset is off.
    pub open spec fn wants_durability(self) -> Option<bool> {
        match self.durable {
            Some(text) => flag_value(trimmed(text@)),
            None => Some(false),
        }
    }

    /// The first thing that is wrong, in the order in which the variables are
    /// looked at.
    pub open spec fn error(self) -> Option<ConfigError> {
        if self.wants_durability() is None {
            Some(ConfigError::DurableIsNoFlag)
        } else if self.addr is None || self.http_port is None || self.internal_port is None {
            Some(ConfigError::AddressIsMissing)
        } else if self.addr_ip is None {
            Some(ConfigError::AddressIsNoIp)
        } else if port_value(self.http_port->0@) is None {
            Some(ConfigError::HttpPortIsNoPort)
        } else if port_value(self.internal_port->0@) is None {
            Some(ConfigError::InternalPortIsNoPort)
        } else if unless_blank(text_view(self.advertise_addr)) is Some && self.advertise_ip is None {
            Some(ConfigError::AdvertisedAddressIsNoIp)
        } else if self.wants_durability() == Some(true) && self.durability_path is None {
            Some(ConfigError::DurabilityPathIsMissing)
        } else if interval_value(text_view(self.sync_interval_ms), DEFAULT_SYNC_INTERVAL_MS) is None {
            Some(ConfigError::SyncIntervalIsNoInteger)
        } else if interval_value(text_view(self.gc_interval_ms), DEFAULT_GC_INTERVAL_MS) is None {
            Some(ConfigError::GcIntervalIsNoInteger)
        } else if self.persistent_replica_path is None {
            Some(ConfigError::PersistentReplicaPathIsMissing)
        } else if self.membership_directory_path is None {
            Some(ConfigError::MembershipDirectoryPathIsMissing)
        } else if interval_value(
            text_view(self.discovery_interval_ms),
            DEFAULT_DISCOVERY_INTERVAL_MS,
        ) is None {
            Some(ConfigError::DiscoveryIntervalIsNoInteger)
        } else {
            None
        }
    }

    /// The address to bind.
    pub open spec fn bind_address(self) -> ServerAddr {
        ServerAddr {
            ip: self.addr_ip->0,
            http_port: port_value(self.http_port->0@)->0,
            internal_port: port_value(self.internal_port->0@)->0,
        }
    }

    /// The address to publish.
    pub open spec fn published_address(self) -> ServerAddr {
        if unless_blank(text_view(self.advertise_addr)) is Some {
            ServerAddr { ip: self.advertise_ip->0, ..self.bind_address() }
        } else {
            self.bind_address()
        }
    }

    /// Whether `config` is what an environment without errors says.
    pub open spec fn configures(self, config: ReplicaConfig) -> bool {
        &&& config.address == self.bind_address()
        &&& config.advertised_address == self.published_address()
        &&& text_view(config.durability_path) == if self.wants_durability() == Some(true) {
            text_view(self.durability_path)
        } else {
            None
        }
        &&& Some(config.sync_interval_ms) == interval_value(
            text_view(self.sync_interval_ms),
            DEFAULT_SYNC_INTERVAL_MS,
        )
        &&& Some(config.gc_interval_ms) == interval_value(
            text_view(self.gc_interval_ms),
            DEFAULT_GC_INTERVAL_MS,
        )
        &&& self.configures_storage(config.object_storage_config)
    }

    /// Whether `storage` is what the environment says of the object storage.
    pub open spec fn configures_storage(self, storage: ObjectStorageConfig) -> bool {
        &&& text_view(storage.local_dir) == trimmed_unless_blank(text_view(self.local_dir))
        &&& text_view(storage.url) == unless_blank(text_view(self.url))
        &&& storage.region@ == text_or(text_view(self.region), "us-east-1"@)
        &&& storage.bucket@ == text_or(text_view(self.bucket), "gresse"@)
        &&& text_view(storage.access_key) == unless_blank(text_view(self.access_key))
        &&& text_view(storage.secret_key) == unless_blank(text_view(self.secret_key))
        &&& text_view(storage.session_token) == unless_blank(text_view(self.session_token))
        &&& Some(storage.persistent_replica_path@) == text_view(self.persistent_replica_path)
        &&& Some(storage.membership_directory_path@) == text_view(self.membership_directory_path)
        &&& Some(storage.discovery_interval_ms) == interval_value(
            text_view(self.discovery_interval_ms),
            DEFAULT_DISCOVERY_INTERVAL_MS,
        )
    }
}

/// A flag that may be unset.
fn flag_or_off(value: &Option<String>) -> (flag: Option<bool>)
    ensures
        flag == match *value {
            Some(text) => flag_value(trimmed(text@)),
            None => Some(false),
        },
{
    match value {
        Some(text) => parse_flag(&trim_chars(&chars_of(text.as_str()))),
        None => Some(false),
    }
}

/// A variable that counts only if it is not blank.
fn optional_text(value: &Option<String>) -> (text: Option<String>)
    ensures
        text_view(text) == unless_blank(text_view(*value)),
{
    match value {
        Some(text) => if blank(text.as_str()) {
            None
        } else {
            Some(text.clone())
        },
        None => None,
    }
}

/// A path that counts only if it is not blank.
fn optional_path(value: &Option<String>) -> (path: Option<String>)
    ensures
        text_view(path) == trimmed_unless_blank(text_view(*value)),
{
    match value {
        Some(text) => {
            let path = trim_chars(&chars_of(text.as_str()));
            if path.len() == 0 {
                None
            } else {
                Some(text_of(&path))
            }
        },
        None => None,
    }
}

/// A variable with a default.
fn text_or_default(value: &Option<String>, default: &str) -> (text: String)
    ensures
        text@ == text_or(text_view(*value), default@),
{
    match value {
        Some(text) => text.clone(),
        None => default.to_owned(),
    }
}

/// An interval with a default.
fn interval_or(value: &Option<String>, default: u64) -> (interval: Option<u64>)
    ensures
        interval == interval_value(text_view(*value), default),
{
    match value {
        Some(text) => parse_u64(&chars_of(text.as_str())),
        None => Some(default),
    }
}

impl ReplicaConfig {
    /// Load replica, storage, durability, synchronization, and GC settings
    /// from the values of the environment.
    pub fn from_values(env: &ReplicaEnv) -> (config: Result<ReplicaConfig, ConfigError>)
        ensures
            match config {
                Ok(config) => env.error() is None && env.configures(config),
                Err(error) => env.error() == Some(error),
            },
    {
        let durable = match flag_or_off(&env.durable) {
            Some(durable) => durable,
            None => {
                return Err(ConfigError::DurableIsNoFlag);
            },
        };
        let (http_port, internal_port) = match (&env.addr, &env.http_port, &env.internal_port) {
            (Some(_), Some(http_port), Some(internal_port)) => (http_port, internal_port),
            _ => {
                return Err(ConfigError::AddressIsMissing);
            },
        };
        let ip = match env.addr_ip {
            Some(ip) => ip,
            None => {
                return Err(ConfigError::AddressIsNoIp);
            },
        };
        let http_port: u16 = match parse_u16(&chars_of(http_port.as_str())) {
            Some(port) => port,
            None => {
                return Err(ConfigError::HttpPortIsNoPort);
            },
        };
        let internal_port: u16 = match parse_u16(&chars_of(internal_port.as_str())) {
            Some(port) => port,
            None => {
                return Err(ConfigError::InternalPortIsNoPort);
            },
        };
        let address = ServerAddr { ip, http_port, internal_port };
        let advertised_address = if optional_text(&env.advertise_addr).is_some() {
            match env.advertise_ip {
                Some(ip) => address.with_ip(ip),
                None => {
                    return Err(ConfigError::AdvertisedAddressIsNoIp);
                },
            }
        } else {
            address
        };
        let durability_path = if durable {
            match &env.durability_path {
                Some(path) => Some(path.clone()),
                None => {
                    return Err(ConfigError::DurabilityPathIsMissing);
                },
            }
        } else {
            None
        };
        let sync_interval_ms: u64 = match interval_or(
            &env.sync_interval_ms,
            DEFAULT_SYNC_INTERVAL_MS,
        ) {
            Some(interval) => interval,
            None => {
                return Err(ConfigError::SyncIntervalIsNoInteger);
            },
        };
        let gc_interval_ms: u64 = match interval_or(&env.gc_interval_ms, DEFAULT_GC_INTERVAL_MS) {
            Some(interval) => interval,
            None => {
                return Err(ConfigError::GcIntervalIsNoInteger);
            },
        };
        let object_storage_config = match storage_from_values(env) {
            Ok(storage) => storage,
            Err(error) => {
                return Err(error);
            },
        };
        Ok(
            ReplicaConfig {
                address,
                advertised_address,
                sync_interval_ms,
                gc_interval_ms,
                durability_path,
                object_storage_config,
            },
        )
    }
}

/// The settings of the object storage.
fn storage_from_values(env: &ReplicaEnv) -> (storage: Result<ObjectStorageConfig, ConfigError>)
    ensures
        match storage {
            Ok(storage) => env.persistent_replica_path is Some && env.membership_directory_path
                is Some && interval_value(
                text_view(env.discovery_interval_ms),
                DEFAULT_DISCOVERY_INTERVAL_MS,
            ) is Some && env.configures_storage(storage),
            Err(error) => error == if env.persistent_replica_path is None {
                ConfigError::PersistentReplicaPathIsMissing
            } else if env.membership_directory_path is None {
                ConfigError::MembershipDirectoryPathIsMissing
            } else {
                ConfigError::DiscoveryIntervalIsNoInteger
            } && (env.persistent_replica_path is None || env.membership_directory_path is None
                || interval_value(
                text_view(env.discovery_interval_ms),
                DEFAULT_DISCOVERY_INTERVAL_MS,
            ) is None),
        },
{
    let persistent_replica_path = match &env.persistent_replica_path {
        Some(path) => path.clone(),
        None => {
            return Err(ConfigError::PersistentReplicaPathIsMissing);
        },
    };
    let membership_directory_path = match &env.membership_directory_path {
        Some(path) => path.clone(),
        None => {
            return Err(ConfigError::MembershipDirectoryPathIsMissing);
        },
    };
    let discovery_interval_ms: u64 = match interval_or(
        &env.discovery_interval_ms,
        DEFAULT_DISCOVERY_INTERVAL_MS,
    ) {
        Some(interval) => interval,
        None => {
            return Err(ConfigError::DiscoveryIntervalIsNoInteger);
        },
    };
    Ok(
        ObjectStorageConfig {
            local_dir: optional_path(&env.local_dir),
            url: optional_text(&env.url),
            region: text_or_default(&env.region, "us-east-1"),
            bucket: text_or_default(&env.bucket, "gresse"),
            access_key: optional_text(&env.access_key),
            secret_key: optional_text(&env.secret_key),
            session_token: optional_text(&env.session_token),
            persistent_replica_path,
            membership_directory_path,
            discovery_interval_ms,
        },
    )
}

} // verus!
