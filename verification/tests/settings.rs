use gresse::http_client::{after_attempt, request_headers, SendStep, MAX_RETRIES};
use gresse::logging::{default_level, LogFeatures, LogLevel};
use gresse::prelude::{new_pid, IpAddress, ServerAddr, SocketAddress};
use gresse::replica_helpers::{
    blank, clamped_nanos, draw_gc_interval, gc_interval_bounds, parse_flag, ConfigError,
    DescriptorFields, ReplicaConfig, ReplicaDescriptor, ReplicaDescriptorParseError, ReplicaEnv,
};
use gresse::text::{
    chars_equal, chars_of, format_i64, format_u128, parse_i64, parse_u128, parse_u16, parse_u64,
    split_chars, text_of, trim_chars,
};

fn text(value: &str) -> Option<String> {
    Some(value.to_string())
}

fn env() -> ReplicaEnv {
    ReplicaEnv {
        durable: None,
        addr: text("127.0.0.1"),
        addr_ip: Some(IpAddress::V4(0x7f00_0001)),
        http_port: text("9090"),
        internal_port: text("8080"),
        advertise_addr: None,
        advertise_ip: None,
        durability_path: None,
        sync_interval_ms: None,
        gc_interval_ms: None,
        local_dir: None,
        url: None,
        region: None,
        bucket: None,
        access_key: None,
        secret_key: None,
        session_token: None,
        persistent_replica_path: text("state.json"),
        membership_directory_path: text("members"),
        discovery_interval_ms: None,
    }
}

fn refusal(env: ReplicaEnv) -> ConfigError {
    ReplicaConfig::from_values(&env).expect_err("a setting is wrong")
}

#[test]
fn defaults_fill_in_what_is_not_set() {
    let config = ReplicaConfig::from_values(&env()).expect("a plain environment");
    assert_eq!(config.address.http_port, 9090);
    assert_eq!(config.address.internal_port, 8080);
    assert_eq!(config.advertised_address, config.address);
    assert_eq!(config.sync_interval_ms, 1000);
    assert_eq!(config.gc_interval_ms, 60_000);
    assert_eq!(config.durability_path, None);
    let storage = config.object_storage_config;
    assert_eq!(storage.region, "us-east-1");
    assert_eq!(storage.bucket, "gresse");
    assert_eq!(storage.discovery_interval_ms, 1000);
    assert_eq!(storage.local_dir, None);
    assert_eq!(storage.url, None);
    assert_eq!(storage.persistent_replica_path, "state.json");
    assert_eq!(storage.membership_directory_path, "members");
}

#[test]
fn settings_are_taken_from_the_environment() {
    let config = ReplicaConfig::from_values(&ReplicaEnv {
        durable: text(" Yes "),
        durability_path: text("/var/replica"),
        advertise_addr: text("10.0.0.1"),
        advertise_ip: Some(IpAddress::V4(0x0a00_0001)),
        sync_interval_ms: text("25"),
        gc_interval_ms: text("50"),
        local_dir: text("  /data  "),
        url: text("   "),
        region: text("eu"),
        bucket: text("b"),
        access_key: text("k"),
        discovery_interval_ms: text("75"),
        ..env()
    })
    .expect("a full environment");
    assert_eq!(config.durability_path, text("/var/replica"));
    assert_eq!(config.advertised_address.ip, IpAddress::V4(0x0a00_0001));
    assert_eq!(config.advertised_address.http_port, 9090);
    assert_eq!(config.address.ip, IpAddress::V4(0x7f00_0001));
    assert_eq!(config.sync_interval_ms, 25);
    assert_eq!(config.gc_interval_ms, 50);
    let storage = config.object_storage_config;
    assert_eq!(storage.local_dir, text("/data"));
    assert_eq!(storage.url, None);
    assert_eq!(storage.region, "eu");
    assert_eq!(storage.bucket, "b");
    assert_eq!(storage.access_key, text("k"));
    assert_eq!(storage.discovery_interval_ms, 75);
}

#[test]
fn each_wrong_setting_is_named() {
    assert_eq!(
        refusal(ReplicaEnv {
            durable: text("maybe"),
            ..env()
        }),
        ConfigError::DurableIsNoFlag
    );
    assert_eq!(
        refusal(ReplicaEnv {
            internal_port: None,
            ..env()
        }),
        ConfigError::AddressIsMissing
    );
    assert_eq!(
        refusal(ReplicaEnv {
            addr_ip: None,
            ..env()
        }),
        ConfigError::AddressIsNoIp
    );
    assert_eq!(
        refusal(ReplicaEnv {
            http_port: text("70000"),
            ..env()
        }),
        ConfigError::HttpPortIsNoPort
    );
    assert_eq!(
        refusal(ReplicaEnv {
            internal_port: text("-1"),
            ..env()
        }),
        ConfigError::InternalPortIsNoPort
    );
    assert_eq!(
        refusal(ReplicaEnv {
            advertise_addr: text("host"),
            ..env()
        }),
        ConfigError::AdvertisedAddressIsNoIp
    );
    assert_eq!(
        refusal(ReplicaEnv {
            durable: text("1"),
            ..env()
        }),
        ConfigError::DurabilityPathIsMissing
    );
    assert_eq!(
        refusal(ReplicaEnv {
            sync_interval_ms: text("1s"),
            ..env()
        }),
        ConfigError::SyncIntervalIsNoInteger
    );
    assert_eq!(
        refusal(ReplicaEnv {
            gc_interval_ms: text(""),
            ..env()
        }),
        ConfigError::GcIntervalIsNoInteger
    );
    assert_eq!(
        refusal(ReplicaEnv {
            persistent_replica_path: None,
            ..env()
        }),
        ConfigError::PersistentReplicaPathIsMissing
    );
    assert_eq!(
        refusal(ReplicaEnv {
            membership_directory_path: None,
            ..env()
        }),
        ConfigError::MembershipDirectoryPathIsMissing
    );
    assert_eq!(
        refusal(ReplicaEnv {
            discovery_interval_ms: text("often"),
            ..env()
        }),
        ConfigError::DiscoveryIntervalIsNoInteger
    );
}

#[test]
fn flags_are_read_in_any_case() {
    for yes in ["1", "true", "TRUE", "Yes", "oN"] {
        assert_eq!(parse_flag(&chars_of(yes)), Some(true));
    }
    for no in ["0", "False", "no", "OFF"] {
        assert_eq!(parse_flag(&chars_of(no)), Some(false));
    }
    assert_eq!(parse_flag(&chars_of("2")), None);
    assert_eq!(parse_flag(&chars_of("")), None);
    assert!(blank(" \t\u{2003}\n"));
    assert!(!blank(" x "));
}

#[test]
fn descriptors_are_written_and_read_back() {
    let address = SocketAddress::new(IpAddress::V4(0x7f00_0001), 8080);
    let descriptor = ReplicaDescriptor {
        pid: 42,
        address,
        gc_counter: -1,
        final_counter: None,
    };
    assert_eq!(descriptor.to_text("127.0.0.1:8080"), "42,127.0.0.1:8080,-1");
    let leaving = ReplicaDescriptor {
        gc_counter: 3,
        final_counter: Some(17),
        ..descriptor
    };
    assert!(leaving.is_shutdown());
    assert!(!descriptor.is_shutdown());
    let path = leaving.object_path("members//", "127.0.0.1:8080");
    assert_eq!(path, "members/42,127.0.0.1:8080,3,17");

    let fields = DescriptorFields::parse(&path).expect("a descriptor");
    assert_eq!(fields.address, "127.0.0.1:8080");
    assert_eq!(fields.with_address(Some(address)), Ok(leaving));
    let fields = DescriptorFields::parse("42,127.0.0.1:8080,-1").expect("a descriptor");
    assert_eq!(fields.clone().with_address(Some(address)), Ok(descriptor));
    assert_eq!(fields.with_address(None), Err(ReplicaDescriptorParseError));
}

#[test]
fn descriptors_are_read_with_their_addresses() {
    let address = SocketAddress::new(IpAddress::V4(0x7f00_0001), 8080);
    let read = |text: &str| {
        if text == "127.0.0.1:8080" {
            Some(address)
        } else {
            None
        }
    };
    for final_counter in [None, Some(17)] {
        let descriptor = ReplicaDescriptor {
            pid: 42,
            address,
            gc_counter: -1,
            final_counter,
        };
        let name = descriptor.to_text("127.0.0.1:8080");
        assert_eq!(ReplicaDescriptor::from_str(&name, read), Ok(descriptor));
        for directory in ["", "/", "members", "a/b,c//"] {
            let path = descriptor.object_path(directory, "127.0.0.1:8080");
            assert_eq!(ReplicaDescriptor::from_str(&path, read), Ok(descriptor));
        }
    }
    assert_eq!(
        ReplicaDescriptor::from_str("42,elsewhere,-1", read),
        Err(ReplicaDescriptorParseError)
    );
    assert_eq!(
        ReplicaDescriptor::from_str("42,127.0.0.1:8080", read),
        Err(ReplicaDescriptorParseError)
    );
}

#[test]
fn white_space_is_that_of_unicode() {
    for c in '\u{0}'..=char::MAX {
        let blank = matches!(
            c as u32,
            0x9..=0xd
                | 0x20
                | 0x85
                | 0xa0
                | 0x1680
                | 0x2000..=0x200a
                | 0x2028
                | 0x2029
                | 0x202f
                | 0x205f
                | 0x3000
        );
        assert_eq!(trim_chars(&vec![c]).is_empty(), blank, "{c:?}");
    }
}

#[test]
fn other_names_are_no_descriptors() {
    for name in [
        "",
        "42",
        "42,a:1",
        "x,a:1,2",
        "-4,a:1,2",
        "42,a:1,two",
        "42,a:1,2,",
        "42,a:1,2,3,4",
        "42,a:1,9223372036854775808",
    ] {
        assert_eq!(
            DescriptorFields::parse(name),
            Err(ReplicaDescriptorParseError),
            "{name}"
        );
    }
    assert!(DescriptorFields::parse("+42,a:1,+2,-3").is_ok());
}

#[test]
fn the_interval_between_rounds_stays_around_its_base() {
    assert_eq!(gc_interval_bounds(0, 5), None);
    assert_eq!(gc_interval_bounds(100, 0), Some((1, 200)));
    assert_eq!(gc_interval_bounds(100, 3), Some((75, 125)));
    assert_eq!(gc_interval_bounds(1, 9), Some((1, 2)));
    assert_eq!(draw_gc_interval(0, 5), 1);
    for _ in 0..200 {
        let drawn = draw_gc_interval(100, 3);
        assert!((75..=125).contains(&drawn));
    }
    assert_eq!(clamped_nanos(7), 7);
    assert_eq!(clamped_nanos(u128::MAX), u64::MAX);
}

#[test]
fn addresses_have_an_order() {
    let four = |ip: u32, port: u16| SocketAddress::new(IpAddress::V4(ip), port);
    let six = |ip: u128, port: u16| SocketAddress::new(IpAddress::V6(ip), port);
    assert!(four(1, 9).precedes(&four(2, 1)));
    assert!(four(1, 1).precedes(&four(1, 2)));
    assert!(!four(1, 2).precedes(&four(1, 2)));
    assert!(four(u32::MAX, u16::MAX).precedes(&six(0, 0)));
    assert!(!six(0, 0).precedes(&four(1, 1)));
    let scoped = SocketAddress {
        scope_id: 3,
        ..six(5, 5)
    };
    assert!(six(5, 5).precedes(&scoped));
    let flowing = SocketAddress {
        flow_info: 1,
        ..six(5, 5)
    };
    assert!(scoped.precedes(&flowing));
    assert!(flowing.precedes(&six(5, 6)));
    assert_ne!(flowing, six(5, 5));
}

#[test]
fn server_addresses_have_two_ports() {
    let address = ServerAddr::default();
    assert_eq!(address.http(), SocketAddress::new(IpAddress::V4(0), 9090));
    assert_eq!(
        address.internal(),
        SocketAddress::new(IpAddress::V4(0), 8080)
    );
    let next = address.increment_ports(2).with_ip(IpAddress::V4(7));
    assert_eq!(next.http(), SocketAddress::new(IpAddress::V4(7), 9092));
    assert_eq!(next.internal(), SocketAddress::new(IpAddress::V4(7), 8082));
    assert_eq!(
        ServerAddr::from_values(IpAddress::V4(7), &chars_of("9092"), &chars_of("8082")),
        Some(next)
    );
    assert_eq!(
        ServerAddr::from_values(IpAddress::V4(7), &chars_of("9092"), &chars_of("x")),
        None
    );
}

#[test]
fn fresh_identities_differ() {
    let pids: std::collections::HashSet<u128> = (0..50).map(|_| new_pid()).collect();
    assert_eq!(pids.len(), 50);
}

#[test]
fn numbers_are_read_back() {
    for n in [0, 9, 10, 4_021, u128::MAX] {
        assert_eq!(text_of(&format_u128(n)), n.to_string());
        assert_eq!(parse_u128(&format_u128(n)), Some(n));
    }
    for z in [0, -1, 10, i64::MIN, i64::MAX] {
        assert_eq!(text_of(&format_i64(z)), z.to_string());
        assert_eq!(parse_i64(&format_i64(z)), Some(z));
    }
    assert_eq!(parse_u64(&chars_of("18446744073709551615")), Some(u64::MAX));
    assert_eq!(parse_u64(&chars_of("18446744073709551616")), None);
    assert_eq!(parse_u16(&chars_of("+65535")), Some(65535));
    assert_eq!(parse_u16(&chars_of("65536")), None);
    for nothing in ["", "+", "-", "1 ", "0x1", "--1"] {
        assert_eq!(parse_u128(&chars_of(nothing)), None, "{nothing}");
        assert_eq!(parse_i64(&chars_of(nothing)), None, "{nothing}");
    }
    assert_eq!(parse_i64(&chars_of("-9223372036854775809")), None);
}

#[test]
fn texts_are_split_and_trimmed() {
    let pieces: Vec<String> = split_chars(&chars_of("a,,b,"), ',')
        .iter()
        .map(text_of)
        .collect();
    assert_eq!(pieces, vec!["a", "", "b", ""]);
    assert_eq!(
        text_of(&trim_chars(&chars_of("\u{a0}\t two words \r\n"))),
        "two words"
    );
    assert!(chars_equal(&chars_of("same"), "same"));
    assert!(!chars_equal(&chars_of("same"), "sane"));
    assert!(!chars_equal(&chars_of("same"), "sames"));
}

#[test]
fn clients_try_ten_times() {
    for attempt in 0..MAX_RETRIES - 1 {
        assert_eq!(after_attempt(attempt, false), SendStep::Retry);
        assert_eq!(after_attempt(attempt, true), SendStep::Done);
    }
    assert_eq!(after_attempt(9, false), SendStep::GiveUp);
    assert_eq!(after_attempt(usize::MAX, false), SendStep::GiveUp);
}

#[test]
fn requests_carry_their_headers() {
    let headers = request_headers("localhost", 17);
    let expected = [
        ("host", "localhost"),
        ("user-agent", "curl/8.6.0"),
        ("content-length", "17"),
        ("content-type", "application/json"),
        ("accept", "*/*"),
    ];
    assert_eq!(headers.len(), expected.len());
    for (header, (name, value)) in headers.iter().zip(expected) {
        assert_eq!(header.0, name);
        assert_eq!(header.1, value);
    }
}

#[test]
fn the_most_talkative_level_wins() {
    let none = LogFeatures {
        trace: false,
        debug: false,
        info: false,
        warn: false,
        error: false,
    };
    assert_eq!(default_level(none), LogLevel::Off);
    assert_eq!(
        default_level(LogFeatures {
            error: true,
            ..none
        }),
        LogLevel::Error
    );
    assert_eq!(
        default_level(LogFeatures {
            warn: true,
            error: true,
            ..none
        }),
        LogLevel::Warn
    );
    assert_eq!(
        default_level(LogFeatures { info: true, ..none }),
        LogLevel::Info
    );
    assert_eq!(
        default_level(LogFeatures {
            debug: true,
            info: true,
            ..none
        }),
        LogLevel::Debug
    );
    assert_eq!(
        default_level(LogFeatures {
            trace: true,
            debug: true,
            ..none
        }),
        LogLevel::Trace
    );
}
