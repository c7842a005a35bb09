//! What the settings of a replica come to, variable by variable.

use vstd::prelude::*;
use super::{
    interval_value, millis_value, text_or, text_view, trimmed_unless_blank, unless_blank,
    ConfigError, ReplicaConfig, ReplicaEnv,
};
use crate::prelude::{port_value, ObjectStorageConfig};
use crate::replica_helpers::{flag_value, is_blank};
use crate::text::{trimmed, unsigned_value};

verus! {

/// An interval is an unsigned number of at most 64 bits, and a port one of at
/// most 16. An interval that is not set is the default.
pub proof fn law_intervals_and_ports(text: Seq<char>, default: u64)
    ensures
        millis_value(text) is Some <==> unsigned_value(text) is Some && unsigned_value(text)->0
            <= u64::MAX,
        millis_value(text) is Some ==> millis_value(text)->0 == unsigned_value(text)->0,
        port_value(text) is Some <==> unsigned_value(text) is Some && unsigned_value(text)->0
            <= u16::MAX,
        port_value(text) is Some ==> port_value(text)->0 == unsigned_value(text)->0,
        interval_value(Some(text), default) == millis_value(text),
        interval_value(None, default) == Some(default),
{
}

/// A text that is not set or blank counts as missing, and a path is trimmed
/// besides. A text with a default is used even where it is blank.
pub proof fn law_blank_settings_count_as_missing(text: String, default: Seq<char>)
    ensures
        text_view(None) is None,
        text_view(Some(text)) == Some(text@),
        unless_blank(None) is None,
        unless_blank(Some(text@)) is None <==> is_blank(text@),
        !is_blank(text@) ==> unless_blank(Some(text@)) == Some(text@),
        trimmed_unless_blank(None) is None,
        trimmed_unless_blank(Some(text@)) is None <==> is_blank(text@),
        !is_blank(text@) ==> trimmed_unless_blank(Some(text@)) == Some(trimmed(text@)),
        text_or(Some(text@), default) == text@,
        text_or(None, default) == default,
{
}

/// Nothing is kept on disk unless a flag asks for it; blanks around the flag do
/// not matter.
pub proof fn law_durability_is_asked_for(env: ReplicaEnv)
    ensures
        env.durable is None ==> env.wants_durability() == Some(false),
        env.durable is Some ==> env.wants_durability() == flag_value(trimmed(env.durable->0@)),
{
}

/// An environment is in order exactly if the flag is one, the addresses and the
/// ports are there and can be read, a journal that is wanted has a path, the
/// intervals are numbers and the two paths in the store are set.
pub proof fn law_environment_is_in_order(env: ReplicaEnv)
    ensures
        env.error() is None <==> {
            let durable = env.wants_durability();
            let number = |text: Option<String>| text is Some ==> millis_value(text->0@) is Some;
            &&& durable is Some
            &&& durable->0 ==> env.durability_path is Some
            &&& env.addr is Some && env.addr_ip is Some
            &&& env.http_port is Some && port_value(env.http_port->0@) is Some
            &&& env.internal_port is Some && port_value(env.internal_port->0@) is Some
            &&& env.advertise_addr is Some && !is_blank(env.advertise_addr->0@)
                ==> env.advertise_ip is Some
            &&& number(env.sync_interval_ms)
            &&& number(env.gc_interval_ms)
            &&& number(env.discovery_interval_ms)
            &&& env.persistent_replica_path is Some
            &&& env.membership_directory_path is Some
        },
{
}

/// Of several things that are wrong with an environment the first one in a
/// fixed order is reported: the flag, what is missing of the address, the
/// address, the two ports, the advertised address, the path of the journal, the
/// intervals of pulls and of rounds, the two paths in the store, and the
/// interval of discovery.
pub proof fn law_first_error_is_reported(env: ReplicaEnv)
    ensures
        ({
            let durable = env.wants_durability();
            let number = |text: Option<String>| text is Some ==> millis_value(text->0@) is Some;
            let flag = durable is Some;
            let there = env.addr is Some && env.http_port is Some && env.internal_port is Some;
            let ip = flag && there && env.addr_ip is Some;
            let http = ip && port_value(env.http_port->0@) is Some;
            let internal = http && port_value(env.internal_port->0@) is Some;
            let advertised = internal && (env.advertise_addr is None || is_blank(
                env.advertise_addr->0@,
            ) || env.advertise_ip is Some);
            let journal = advertised && (durable->0 ==> env.durability_path is Some);
            let pulls = journal && number(env.sync_interval_ms);
            let rounds = pulls && number(env.gc_interval_ms);
            let replica = rounds && env.persistent_replica_path is Some;
            let members = replica && env.membership_directory_path is Some;
            &&& !flag ==> env.error() == Some(ConfigError::DurableIsNoFlag)
            &&& flag && !there ==> env.error() == Some(ConfigError::AddressIsMissing)
            &&& flag && there && !ip ==> env.error() == Some(ConfigError::AddressIsNoIp)
            &&& ip && !http ==> env.error() == Some(ConfigError::HttpPortIsNoPort)
            &&& http && !internal ==> env.error() == Some(ConfigError::InternalPortIsNoPort)
            &&& internal && !advertised ==> env.error() == Some(
                ConfigError::AdvertisedAddressIsNoIp,
            )
            &&& advertised && !journal ==> env.error() == Some(
                ConfigError::DurabilityPathIsMissing,
            )
            &&& journal && !pulls ==> env.error() == Some(ConfigError::SyncIntervalIsNoInteger)
            &&& pulls && !rounds ==> env.error() == Some(ConfigError::GcIntervalIsNoInteger)
            &&& rounds && !replica ==> env.error() == Some(
                ConfigError::PersistentReplicaPathIsMissing,
            )
            &&& replica && !members ==> env.error() == Some(
                ConfigError::MembershipDirectoryPathIsMissing,
            )
            &&& members && !number(env.discovery_interval_ms) ==> env.error() == Some(
                ConfigError::DiscoveryIntervalIsNoInteger,
            )
        }),
{
}

/// A replica listens at the address and the ports that are set, and publishes
/// them too, but for the IP address where another one is advertised.
pub proof fn law_addresses_of_the_settings(env: ReplicaEnv, config: ReplicaConfig)
    requires
        env.error() is None,
        env.configures(config),
    ensures
        Some(config.address.ip) == env.addr_ip,
        Some(config.address.http_port) == port_value(env.http_port->0@),
        Some(config.address.internal_port) == port_value(env.internal_port->0@),
        config.advertised_address.http_port == config.address.http_port,
        config.advertised_address.internal_port == config.address.internal_port,
        env.advertise_addr is None || is_blank(env.advertise_addr->0@)
            ==> config.advertised_address.ip == config.address.ip,
        env.advertise_addr is Some && !is_blank(env.advertise_addr->0@) ==> Some(
            config.advertised_address.ip,
        ) == env.advertise_ip,
{
}

/// The intervals are those that are set, and a second between pulls and a
/// minute between rounds otherwise. The journal has its path exactly if it is
/// wanted.
pub proof fn law_intervals_and_journal_of_the_settings(env: ReplicaEnv, config: ReplicaConfig)
    requires
        env.error() is None,
        env.configures(config),
    ensures
        env.sync_interval_ms is None ==> config.sync_interval_ms == 1000,
        env.sync_interval_ms is Some ==> unsigned_value(env.sync_interval_ms->0@) == Some(
            config.sync_interval_ms as nat,
        ),
        env.gc_interval_ms is None ==> config.gc_interval_ms == 60000,
        env.gc_interval_ms is Some ==> unsigned_value(env.gc_interval_ms->0@) == Some(
            config.gc_interval_ms as nat,
        ),
        config.durability_path is Some <==> env.wants_durability() == Some(true),
        config.durability_path is Some ==> env.durability_path is Some
            && config.durability_path->0@ == env.durability_path->0@,
        env.configures_storage(config.object_storage_config),
{
}

/// The store is configured variable by variable: a directory without the blanks
/// around it, an endpoint and credentials unless they are blank, a region and a
/// bucket with defaults, the two paths, and a second between listings unless
/// another interval is set.
pub proof fn law_store_of_the_settings(env: ReplicaEnv, storage: ObjectStorageConfig)
    requires
        env.error() is None,
        env.configures_storage(storage),
    ensures
        ({
            let kept = |own: Option<String>, set: Option<String>|
                {
                    &&& own is Some <==> set is Some && !is_blank(set->0@)
                    &&& own is Some ==> own->0@ == set->0@
                };
            &&& storage.local_dir is Some <==> env.local_dir is Some && !is_blank(
                env.local_dir->0@,
            )
            &&& storage.local_dir is Some ==> storage.local_dir->0@ == trimmed(env.local_dir->0@)
            &&& kept(storage.url, env.url)
            &&& kept(storage.access_key, env.access_key)
            &&& kept(storage.secret_key, env.secret_key)
            &&& kept(storage.session_token, env.session_token)
            &&& env.region is Some ==> storage.region@ == env.region->0@
            &&& env.region is None ==> storage.region@ == "us-east-1"@
            &&& env.bucket is Some ==> storage.bucket@ == env.bucket->0@
            &&& env.bucket is None ==> storage.bucket@ == "gresse"@
            &&& storage.persistent_replica_path@ == env.persistent_replica_path->0@
            &&& storage.membership_directory_path@ == env.membership_directory_path->0@
            &&& env.discovery_interval_ms is None ==> storage.discovery_interval_ms == 1000
            &&& env.discovery_interval_ms is Some ==> unsigned_value(
                env.discovery_interval_ms->0@,
            ) == Some(storage.discovery_interval_ms as nat)
        }),
{
}

} // verus!
