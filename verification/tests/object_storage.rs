use gresse::object_storage::{
    bucket_settings, creation_outcome, download_outcome, is_slow_download, read_outcome,
    resolve_profile_credentials, store_was_reached, DownloadFault, DownloadSteps, MembershipCache,
    Profiles, SharedProfileCredentials, StorageBackend, StoreFault,
};
use gresse::prelude::{IpAddress, ObjectStorageConfig, SocketAddress};
use gresse::replica_helpers::ReplicaDescriptor;

const CREDENTIALS: &str =
    "[default]\naws_access_key_id = abc\naws_secret_access_key = def\naws_session_token = ghi\n";

fn test_config() -> ObjectStorageConfig {
    ObjectStorageConfig {
        local_dir: None,
        url: None,
        region: "eu-north-1".to_string(),
        bucket: "gresse".to_string(),
        access_key: None,
        secret_key: None,
        session_token: None,
        persistent_replica_path: "experiment1/persistent.json".to_string(),
        membership_directory_path: "experiment1/membership".to_string(),
        discovery_interval_ms: 1000,
    }
}

#[test]
fn parses_shared_credentials_file() {
    let parsed = Profiles::parse(CREDENTIALS);
    assert!(parsed.has_section("default"));
    assert_eq!(
        parsed.value("default", "aws_access_key_id"),
        Some(&"abc".to_string())
    );
    assert_eq!(
        parsed.value("default", "aws_secret_access_key"),
        Some(&"def".to_string())
    );
    assert_eq!(
        parsed.value("default", "aws_session_token"),
        Some(&"ghi".to_string())
    );
}

#[test]
fn resolves_default_profile_credentials() {
    let resolved = resolve_profile_credentials(
        &test_config(),
        false,
        &None,
        CREDENTIALS,
        "[default]\nregion = eu-north-1\n",
    );

    assert!(matches!(
        resolved,
        Some(SharedProfileCredentials {
            access_key_id,
            secret_access_key,
            session_token
        }) if access_key_id == "abc"
            && secret_access_key == "def"
            && session_token == Some("ghi".to_string())
    ));
}

#[test]
fn creates_local_backend_from_config() {
    let root = "/tmp/gresse-local-store".to_string();
    let config = ObjectStorageConfig {
        local_dir: Some(root.clone()),
        ..test_config()
    };

    let backend = StorageBackend::from_config(&config);
    assert!(matches!(
        backend,
        StorageBackend::Local { root_dir } if root_dir == root
    ));
}

#[test]
fn creates_a_bucket_backend_without_a_directory() {
    let config = ObjectStorageConfig {
        url: Some("http://localhost:9000".to_string()),
        ..test_config()
    };
    assert!(matches!(
        StorageBackend::from_config(&config),
        StorageBackend::S3 { bucket_name, region, endpoint_url }
            if bucket_name == "gresse"
                && region == "eu-north-1"
                && endpoint_url == Some("http://localhost:9000".to_string())
    ));
}

#[test]
fn profile_files_are_read_line_by_line() {
    let text = "stray = 1\r\n# comment\n; comment\n[ one ]\nkey=a=b\n  spaced  =  value  \nno value\n[two]\n[]\nkey = none\n[one]\nkey = later\n";
    let parsed = Profiles::parse(text);
    assert!(parsed.has_section("one"));
    assert!(parsed.has_section("two"));
    assert!(parsed.has_section(""));
    assert!(!parsed.has_section("three"));
    assert_eq!(parsed.value("one", "key"), Some(&"later".to_string()));
    assert_eq!(parsed.value("one", "spaced"), Some(&"value".to_string()));
    assert_eq!(parsed.value("one", "no value"), None);
    assert_eq!(parsed.value("", "key"), Some(&"none".to_string()));
    assert_eq!(parsed.value("two", "key"), None);
    assert_eq!(parsed.value("one", "stray"), None);
    let first = Profiles::parse("[one]\nkey=a=b");
    assert_eq!(first.value("one", "key"), Some(&"a=b".to_string()));
}

#[test]
fn the_first_section_that_exists_counts() {
    let keys = "aws_access_key_id=k\naws_secret_access_key=s\n";
    let config = test_config();
    let named = Some("work".to_string());
    let resolve = |credentials: &str, profiles: &str| {
        resolve_profile_credentials(&config, false, &named, credentials, profiles)
            .map(|found| found.access_key_id)
    };

    assert_eq!(
        resolve(&format!("[work]\n{keys}"), ""),
        Some("k".to_string())
    );
    assert_eq!(
        resolve("", &format!("[work]\n{keys}")),
        Some("k".to_string())
    );
    assert_eq!(
        resolve("", &format!("[profile work]\n{keys}")),
        Some("k".to_string())
    );
    // an empty section hides the later ones
    assert_eq!(resolve("[work]\n", &format!("[work]\n{keys}")), None);
    assert_eq!(resolve(CREDENTIALS, ""), None);
    // half of the credentials are none
    assert_eq!(resolve("[work]\naws_access_key_id=k\n", ""), None);
    assert_eq!(resolve("[work]\naws_secret_access_key=s\n", ""), None);
}

#[test]
fn settings_and_environment_keep_profiles_out() {
    let with_token = ObjectStorageConfig {
        session_token: Some("t".to_string()),
        ..test_config()
    };
    assert!(resolve_profile_credentials(&with_token, false, &None, CREDENTIALS, "").is_none());
    assert!(resolve_profile_credentials(&test_config(), true, &None, CREDENTIALS, "").is_none());
}

#[test]
fn bucket_settings_follow_the_configuration() {
    let profile = || {
        Some(SharedProfileCredentials {
            access_key_id: "p".to_string(),
            secret_access_key: "q".to_string(),
            session_token: Some("r".to_string()),
        })
    };
    let plain = bucket_settings(&test_config(), profile());
    assert!(plain.from_environment);
    assert_eq!(plain.region, "eu-north-1");
    assert_eq!(plain.bucket, "gresse");
    assert_eq!(plain.endpoint, None);
    assert!(!plain.allow_http);
    assert_eq!(plain.access_key_id, Some("p".to_string()));
    assert_eq!(plain.secret_access_key, Some("q".to_string()));
    assert_eq!(plain.token, Some("r".to_string()));

    let explicit = ObjectStorageConfig {
        url: Some("http://minio".to_string()),
        access_key: Some("a".to_string()),
        secret_key: Some("b".to_string()),
        ..test_config()
    };
    let settings = bucket_settings(&explicit, profile());
    assert!(!settings.from_environment);
    assert_eq!(settings.endpoint, Some("http://minio".to_string()));
    assert!(settings.allow_http);
    assert_eq!(settings.access_key_id, Some("a".to_string()));
    assert_eq!(settings.secret_access_key, Some("b".to_string()));
    assert_eq!(settings.token, None);

    let secure = ObjectStorageConfig {
        url: Some("https://s3".to_string()),
        ..test_config()
    };
    assert!(!bucket_settings(&secure, None).allow_http);
    let blank = ObjectStorageConfig {
        url: Some("  ".to_string()),
        ..test_config()
    };
    assert_eq!(bucket_settings(&blank, None).endpoint, None);
}

#[test]
fn answers_of_the_store_are_told_apart() {
    assert_eq!(creation_outcome(Ok(())), Ok(true));
    assert_eq!(creation_outcome(Err(StoreFault::AlreadyExists)), Ok(false));
    assert_eq!(creation_outcome(Err(StoreFault::Precondition)), Ok(false));
    assert_eq!(
        creation_outcome(Err(StoreFault::TimedOut)),
        Err(StoreFault::TimedOut)
    );
    assert_eq!(
        creation_outcome(Err(StoreFault::NotFound)),
        Err(StoreFault::NotFound)
    );

    assert!(store_was_reached(None));
    assert!(store_was_reached(Some(StoreFault::NotFound)));
    assert!(!store_was_reached(Some(StoreFault::TimedOut)));
    assert!(!store_was_reached(Some(StoreFault::Other)));
}

#[test]
fn downloads_end_at_their_first_failure() {
    let done = DownloadSteps {
        get: Ok(()),
        body: Some(Ok(())),
        decoded: Some(true),
    };
    assert_eq!(download_outcome(&done), Ok(()));
    let missing = DownloadSteps {
        get: Err(StoreFault::NotFound),
        body: None,
        decoded: None,
    };
    assert_eq!(download_outcome(&missing), Err(DownloadFault::FileNotFound));
    let unreachable_store = DownloadSteps {
        get: Err(StoreFault::Other),
        ..missing
    };
    assert_eq!(
        download_outcome(&unreachable_store),
        Err(DownloadFault::GetFailed(StoreFault::Other))
    );
    let cut = DownloadSteps {
        get: Ok(()),
        body: Some(Err(StoreFault::NotFound)),
        decoded: None,
    };
    assert_eq!(
        download_outcome(&cut),
        Err(DownloadFault::BodyFailed(StoreFault::NotFound))
    );
    let garbled = DownloadSteps {
        decoded: Some(false),
        ..done
    };
    assert_eq!(download_outcome(&garbled), Err(DownloadFault::Undecodable));

    assert_eq!(read_outcome(Ok(3)), Ok(Some(3)));
    assert_eq!(
        read_outcome::<u8>(Err(DownloadFault::FileNotFound)),
        Ok(None)
    );
    assert_eq!(
        read_outcome::<u8>(Err(DownloadFault::Undecodable)),
        Err(DownloadFault::Undecodable)
    );
    assert!(!is_slow_download(999));
    assert!(is_slow_download(1000));
}

#[test]
fn membership_is_remembered_until_it_is_forgotten() {
    let descriptor = |pid: u128, gc_counter: i64| ReplicaDescriptor {
        pid,
        address: SocketAddress::new(IpAddress::V4(1), 2),
        gc_counter,
        final_counter: None,
    };
    let mut cache = MembershipCache::new();
    assert!(cache.membership_descriptors().is_empty());
    cache.update_membership_cache(vec![descriptor(1, 1), descriptor(2, 1), descriptor(1, 2)]);
    assert_eq!(
        cache.descriptors_for_pid(1),
        vec![descriptor(1, 1), descriptor(1, 2)]
    );
    cache.forget_pid(1);
    assert_eq!(cache.membership_descriptors(), vec![descriptor(2, 1)]);
    assert!(cache.descriptors_for_pid(1).is_empty());

    assert!(cache.start_membership_poll());
    assert!(!cache.start_membership_poll());
    cache.finish_membership_poll();
    assert!(cache.start_membership_poll());

    assert!(cache.note_connection());
    assert!(!cache.note_connection());
}
