//! What is decided about the shared object storage: which backend it is, with
//! which credentials it is reached, and what the answers of the store mean.

use vstd::prelude::*;
use crate::dots::dot_map::{lemma_filter_holds, lemma_filter_next};
use crate::prelude::{ObjectStorageConfig, Pid};
use crate::replica_config::text_view;
use crate::replica_helpers::{blank, is_blank, ReplicaDescriptor};
use crate::order::{SortedMap, SortedSet};
use crate::text::{
    append_chars, chars_of, pieces_view, split, split_chars, text_of, trim_chars, trimmed,
};

pub mod operations;

verus! {

/// A download that takes at least so many milliseconds is slow.
pub const SLOW_DOWNLOAD_THRESHOLD_MS: u64 = 1_000;

/// How long it may take to connect, in milliseconds.
pub const OBJECT_STORE_CONNECT_TIMEOUT_MS: u64 = 3_000;

/// How long one request may take, in milliseconds.
pub const OBJECT_STORE_REQUEST_TIMEOUT_MS: u64 = 15_000;

/// How long requests are repeated, in milliseconds.
pub const OBJECT_STORE_RETRY_TIMEOUT_MS: u64 = 30_000;

/// How long an operation may take with all its requests, in milliseconds.
pub const OBJECT_STORE_OPERATION_TIMEOUT_MS: u64 = 45_000;

/// How often a request is repeated.
pub const OBJECT_STORE_MAX_RETRIES: usize = 2;

/// Profiles as they stand in the shared files of the AWS tools: sections with
/// keys and values.
pub struct Profiles {
    sections: SortedSet<String>,
    entries: SortedMap<(String, String), String>,
}

/// The meaning of [`Profiles`].
#[verifier::ext_equal]
pub struct ProfilesView {
    pub sections: Set<Seq<char>>,
    pub entries: Map<(Seq<char>, Seq<char>), Seq<char>>,
}

impl View for Profiles {
    type V = ProfilesView;

    closed spec fn view(&self) -> ProfilesView {
        ProfilesView {
            sections: self.sections@,
            entries: self.entries@.map_values(|value: String| value@),
        }
    }
}

impl ProfilesView {
    /// No profile at all.
    pub open spec fn none() -> ProfilesView {
        ProfilesView { sections: Set::empty(), entries: Map::empty() }
    }

    /// The value of a key in a section.
    pub open spec fn value(self, section: Seq<char>, key: Seq<char>) -> Option<Seq<char>> {
        self.entries.get((section, key))
    }
}

/// How far a file of profiles was read: what was found, and in which section
/// the next line stands.
#[verifier::ext_equal]
pub struct Reading {
    pub profiles: ProfilesView,
    pub section: Option<Seq<char>>,
}

impl Reading {
    /// Before the first line.
    pub open spec fn start() -> Reading {
        Reading { profiles: ProfilesView::none(), section: None }
    }

    /// After one more line. A comment and a line before the first section are
    /// passed over, and so is a line without a value.
    pub open spec fn with_line(self, line: Seq<char>) -> Reading {
        let text = trimmed(line);
        if text.len() == 0 || text[0] == '#' || text[0] == ';' {
            self
        } else if text[0] == '[' && text.last() == ']' {
            let section = trimmed(text.subrange(1, text.len() - 1));
            Reading {
                profiles: ProfilesView {
                    sections: self.profiles.sections.insert(section),
                    ..self.profiles
                },
                section: Some(section),
            }
        } else {
            match (self.section, text.index_of_first('=')) {
                (Some(section), Some(at)) => Reading {
                    profiles: ProfilesView {
                        entries: self.profiles.entries.insert(
                            (section, trimmed(text.take(at))),
                            trimmed(text.skip(at + 1)),
                        ),
                        ..self.profiles
                    },
                    ..self
                },
                _ => self,
            }
        }
    }

    /// After all the lines.
    pub open spec fn with_lines(lines: Seq<Seq<char>>) -> Reading
        decreases lines.len(),
    {
        if lines.len() == 0 {
            Reading::start()
        } else {
            Reading::with_lines(lines.drop_last()).with_line(lines.last())
        }
    }
}

/// The profiles in a file.
pub open spec fn profiles_in(text: Seq<char>) -> ProfilesView {
    Reading::with_lines(split(text, '\n')).profiles
}

/// Some of the characters of a text.
fn part(chars: &Vec<char>, from: usize, to: usize) -> (part: Vec<char>)
    requires
        from <= to <= chars@.len(),
    ensures
        part@ == chars@.subrange(from as int, to as int),
{
    let mut part: Vec<char> = Vec::new();
    assert(chars@.subrange(from as int, from as int) =~= Seq::<char>::empty());
    for i in from..to
        invariant
            from <= to <= chars@.len(),
            part@ == chars@.subrange(from as int, i as int),
    {
        part.push(chars[i]);
        assert(chars@.subrange(from as int, i + 1) =~= chars@.subrange(from as int, i as int).push(
            chars@[i as int],
        ));
    }
    part
}

/// Where a character occurs first.
fn first_at(chars: &Vec<char>, c: char) -> (at: Option<usize>)
    ensures
        match at {
            Some(at) => chars@.index_of_first(c) == Some(at as int) && at < chars@.len(),
            None => chars@.index_of_first(c) is None,
        },
{
    proof {
        chars@.index_of_first_ensures(c);
    }
    for i in 0..chars.len()
        invariant
            match chars@.index_of_first(c) {
                Some(index) => {
                    &&& 0 <= index < chars@.len()
                    &&& chars@[index] == c
                    &&& forall|j: int| 0 <= j < index < chars@.len() ==> chars@[j] != c
                },
                None => !chars@.contains(c),
            },
            forall|j: int| 0 <= j < i ==> chars@[j] != c,
    {
        if chars[i] == c {
            assert(chars@.contains(chars@[i as int]));
            return Some(i);
        }
    }
    None
}

impl Profiles {
    /// The parts are well formed.
    pub closed spec fn wf(&self) -> bool {
        self.sections.wf() && self.entries.wf()
    }

    /// No profile at all.
    pub fn new() -> (profiles: Self)
        ensures
            profiles.wf(),
            profiles@ == ProfilesView::none(),
    {
        let profiles = Profiles { sections: SortedSet::new(), entries: SortedMap::new() };
        assert(profiles@ =~= ProfilesView::none());
        profiles
    }

    /// Whether there is a section of that name.
    pub fn has_section(&self, section: &str) -> (found: bool)
        requires
            self.wf(),
        ensures
            found == self@.sections.contains(section@),
    {
        self.sections.contains(&text_of(&chars_of(section)))
    }

    /// The value of a key in a section.
    pub fn value(&self, section: &str, key: &str) -> (value: Option<&String>)
        requires
            self.wf(),
        ensures
            match value {
                Some(value) => self@.value(section@, key@) == Some(value@),
                None => self@.value(section@, key@) is None,
            },
    {
        self.entries.get(&(text_of(&chars_of(section)), text_of(&chars_of(key))))
    }

    /// Takes in one line, and returns the section that the next one stands in.
    fn read_line(&mut self, section: Option<Vec<char>>, line: &Vec<char>) -> (next: Option<
        Vec<char>,
    >)
        requires
            old(self).wf(),
        ensures
            final(self).wf(),
            (Reading { profiles: final(self)@, section: section_view(next) }) == (Reading {
                profiles: old(self)@,
                section: section_view(section),
            }).with_line(line@),
    {
        let text = trim_chars(line);
        if text.len() == 0 || text[0] == '#' || text[0] == ';' {
            return section;
        }
        if text[0] == '[' && text[text.len() - 1] == ']' {
            let name = trim_chars(&part(&text, 1, text.len() - 1));
            self.sections.insert(text_of(&name));
            assert(self@.entries =~= old(self)@.entries);
            return Some(name);
        }
        match (&section, first_at(&text, '=')) {
            (Some(name), Some(at)) => {
                let key = trim_chars(&part(&text, 0, at));
                let value = trim_chars(&part(&text, at + 1, text.len()));
                proof {
                    assert(text@.subrange(0, at as int) =~= text@.take(at as int));
                    assert(text@.subrange(at + 1, text@.len() as int) =~= text@.skip(at + 1));
                }
                self.entries.insert((text_of(name), text_of(&key)), text_of(&value));
                assert(self@.entries =~= old(self)@.entries.insert((name@, key@), value@));
            },
            _ => {},
        }
        section
    }

    /// Reads the profiles in a file.
    pub fn parse(text: &str) -> (profiles: Self)
        ensures
            profiles.wf(),
            profiles@ == profiles_in(text@),
    {
        let lines = split_chars(&chars_of(text), '\n');
        let ghost texts = pieces_view(lines@);
        let mut profiles = Profiles::new();
        let mut section: Option<Vec<char>> = None;
        assert(texts.take(0) =~= Seq::empty());
        for i in 0..lines.len()
            invariant
                texts == pieces_view(lines@),
                profiles.wf(),
                (Reading { profiles: profiles@, section: section_view(section) })
                    == Reading::with_lines(texts.take(i as int)),
        {
            proof {
                assert(texts.take(i + 1).drop_last() =~= texts.take(i as int));
                assert(texts.take(i + 1).last() == lines@[i as int]@);
            }
            section = profiles.read_line(section, &lines[i]);
        }
        assert(texts.take(texts.len() as int) =~= texts);
        profiles
    }
}

/// The characters of an optional section name.
pub open spec fn section_view(section: Option<Vec<char>>) -> Option<Seq<char>> {
    match section {
        Some(name) => Some(name@),
        None => None,
    }
}

/// Credentials out of a shared profile.
#[derive(Debug, Clone)]
pub struct SharedProfileCredentials {
    pub access_key_id: String,
    pub secret_access_key: String,
    pub session_token: Option<String>,
}

/// The meaning of [`SharedProfileCredentials`].
pub struct CredentialsView {
    pub access_key_id: Seq<char>,
    pub secret_access_key: Seq<char>,
    pub session_token: Option<Seq<char>>,
}

impl View for SharedProfileCredentials {
    type V = CredentialsView;

    open spec fn view(&self) -> CredentialsView {
        CredentialsView {
            access_key_id: self.access_key_id@,
            secret_access_key: self.secret_access_key@,
            session_token: text_view(self.session_token),
        }
    }
}

/// Optional credentials as views.
pub open spec fn credentials_view(credentials: Option<SharedProfileCredentials>) -> Option<
    CredentialsView,
> {
    match credentials {
        Some(credentials) => Some(credentials@),
        None => None,
    }
}

/// The credentials that a section holds: none unless both keys are there.
pub open spec fn credentials_of(profiles: ProfilesView, section: Seq<char>) -> Option<
    CredentialsView,
> {
    match (
        profiles.value(section, "aws_access_key_id"@),
        profiles.value(section, "aws_secret_access_key"@),
    ) {
        (Some(access_key_id), Some(secret_access_key)) => Some(
            CredentialsView {
                access_key_id,
                secret_access_key,
                session_token: profiles.value(section, "aws_session_token"@),
            },
        ),
        _ => None,
    }
}

/// The name that a profile goes by in the configuration file.
pub open spec fn prefixed(profile: Seq<char>) -> Seq<char> {
    "profile "@ + profile
}

/// The credentials of a profile: those of its section in the credentials file,
/// else in the configuration file under its own name, else there under the
/// name with the prefix. Only the first section that exists counts.
pub open spec fn profile_credentials(
    credentials: ProfilesView,
    config: ProfilesView,
    profile: Seq<char>,
) -> Option<CredentialsView> {
    if credentials.sections.contains(profile) {
        credentials_of(credentials, profile)
    } else if config.sections.contains(profile) {
        credentials_of(config, profile)
    } else if config.sections.contains(prefixed(profile)) {
        credentials_of(config, prefixed(profile))
    } else {
        None
    }
}

/// A copy of an optional text.
fn copied(text: Option<&String>) -> (copy: Option<String>)
    ensures
        match text {
            Some(text) => copy is Some && copy->0@ == text@,
            None => copy is None,
        },
{
    match text {
        Some(text) => Some(text.clone()),
        None => None,
    }
}

/// The credentials that a section holds.
fn section_credentials(profiles: &Profiles, section: &str) -> (credentials: Option<
    SharedProfileCredentials,
>)
    requires
        profiles.wf(),
    ensures
        credentials_view(credentials) == credentials_of(profiles@, section@),
{
    match (
        profiles.value(section, "aws_access_key_id"),
        profiles.value(section, "aws_secret_access_key"),
    ) {
        (Some(access_key_id), Some(secret_access_key)) => Some(
            SharedProfileCredentials {
                access_key_id: access_key_id.clone(),
                secret_access_key: secret_access_key.clone(),
                session_token: copied(profiles.value(section, "aws_session_token")),
            },
        ),
        _ => None,
    }
}

/// Whether the settings themselves hold a part of the credentials.
pub open spec fn names_credentials(config: ObjectStorageConfig) -> bool {
    config.access_key is Some || config.secret_key is Some || config.session_token is Some
}

/// The credentials out of a shared profile, if they are to be used: not where
/// the settings or the environment hold any. The two texts are those of the
/// shared files, empty for a file that cannot be read; without a name the
/// profile is the default one.
pub fn resolve_profile_credentials(
    config: &ObjectStorageConfig,
    environment_has_keys: bool,
    profile_name: &Option<String>,
    credentials_text: &str,
    config_text: &str,
) -> (credentials: Option<SharedProfileCredentials>)
    ensures
        credentials_view(credentials) == if names_credentials(*config) || environment_has_keys {
            None
        } else {
            profile_credentials(
                profiles_in(credentials_text@),
                profiles_in(config_text@),
                match text_view(*profile_name) {
                    Some(name) => name,
                    None => "default"@,
                },
            )
        },
{
    if config.access_key.is_some() || config.secret_key.is_some() || config.session_token.is_some()
    {
        return None;
    }
    if environment_has_keys {
        return None;
    }
    let profile = match profile_name {
        Some(name) => name.as_str(),
        None => "default",
    };
    let credentials = Profiles::parse(credentials_text);
    if credentials.has_section(profile) {
        return section_credentials(&credentials, profile);
    }
    let config_profiles = Profiles::parse(config_text);
    if config_profiles.has_section(profile) {
        return section_credentials(&config_profiles, profile);
    }
    let mut name = chars_of("profile ");
    append_chars(&mut name, &chars_of(profile));
    let section = text_of(&name);
    if config_profiles.has_section(section.as_str()) {
        return section_credentials(&config_profiles, section.as_str());
    }
    None
}

/// How the client of a bucket is built.
#[derive(Debug, Clone)]
pub struct BucketSettings {
    /// Whether the client looks into the environment for what is not set here.
    pub from_environment: bool,
    pub region: String,
    pub bucket: String,
    pub endpoint: Option<String>,
    /// Whether the endpoint may be reached without encryption.
    pub allow_http: bool,
    pub access_key_id: Option<String>,
    pub secret_access_key: Option<String>,
    pub token: Option<String>,
}

/// Whether the settings hold a key and its secret.
pub open spec fn has_static_credentials(config: ObjectStorageConfig) -> bool {
    config.access_key is Some && config.secret_key is Some
}

/// What the settings say, or else what the profile says.
pub open spec fn first_of(
    own: Option<Seq<char>>,
    profile: Option<Seq<char>>,
) -> Option<Seq<char>> {
    if own is Some {
        own
    } else {
        profile
    }
}

/// The endpoint that is set, unless it is blank.
pub open spec fn endpoint_of(config: ObjectStorageConfig) -> Option<Seq<char>> {
    match text_view(config.url) {
        Some(url) => if is_blank(url) {
            None
        } else {
            Some(url)
        },
        None => None,
    }
}

/// Whether a text begins with another.
pub open spec fn begins_with(text: Seq<char>, start: Seq<char>) -> bool {
    start.len() <= text.len() && text.take(start.len() as int) == start
}

/// Whether `settings` are those of the bucket in `config`. A profile counts
/// only where the settings lack a key or its secret.
pub open spec fn is_bucket(
    settings: BucketSettings,
    config: ObjectStorageConfig,
    profile: Option<CredentialsView>,
) -> bool {
    let used = if has_static_credentials(config) {
        None
    } else {
        profile
    };
    &&& settings.from_environment == !has_static_credentials(config)
    &&& settings.region@ == config.region@
    &&& settings.bucket@ == config.bucket@
    &&& text_view(settings.endpoint) == endpoint_of(config)
    &&& settings.allow_http == (endpoint_of(config) is Some && begins_with(
        endpoint_of(config)->0,
        "http://"@,
    ))
    &&& text_view(settings.access_key_id) == first_of(
        text_view(config.access_key),
        match used {
            Some(credentials) => Some(credentials.access_key_id),
            None => None,
        },
    )
    &&& text_view(settings.secret_access_key) == first_of(
        text_view(config.secret_key),
        match used {
            Some(credentials) => Some(credentials.secret_access_key),
            None => None,
        },
    )
    &&& text_view(settings.token) == first_of(
        text_view(config.session_token),
        match used {
            Some(credentials) => credentials.session_token,
            None => None,
        },
    )
}

/// Whether a text begins with another.
fn starts_with(text: &str, start: &str) -> (starts: bool)
    ensures
        starts == begins_with(text@, start@),
{
    let chars = chars_of(text);
    let head = chars_of(start);
    if chars.len() < head.len() {
        return false;
    }
    for i in 0..head.len()
        invariant
            chars@ == text@,
            head@ == start@,
            head@.len() <= chars@.len(),
            forall|j: int| 0 <= j < i ==> chars@[j] == head@[j],
    {
        if chars[i] != head[i] {
            assert(text@.take(start@.len() as int)[i as int] == text@[i as int]);
            return false;
        }
    }
    assert(text@.take(start@.len() as int) =~= start@);
    true
}

/// A text that stands for another where that is missing.
fn first_text(own: &Option<String>, profile: Option<String>) -> (text: Option<String>)
    ensures
        text_view(text) == first_of(text_view(*own), text_view(profile)),
{
    match own {
        Some(own) => Some(own.clone()),
        None => profile,
    }
}

/// How the client of a bucket is built.
pub fn bucket_settings(
    config: &ObjectStorageConfig,
    profile: Option<SharedProfileCredentials>,
) -> (settings: BucketSettings)
    ensures
        is_bucket(settings, *config, credentials_view(profile)),
{
    let explicit = config.access_key.is_some() && config.secret_key.is_some();
    let endpoint = match &config.url {
        Some(url) => if blank(url.as_str()) {
            None
        } else {
            Some(url.clone())
        },
        None => None,
    };
    let allow_http = match &endpoint {
        Some(endpoint) => starts_with(endpoint.as_str(), "http://"),
        None => false,
    };
    let (key, secret, token) = match profile {
        Some(profile) => if explicit {
            (None, None, None)
        } else {
            (
                Some(profile.access_key_id),
                Some(profile.secret_access_key),
                profile.session_token,
            )
        },
        None => (None, None, None),
    };
    BucketSettings {
        from_environment: !explicit,
        region: config.region.clone(),
        bucket: config.bucket.clone(),
        endpoint,
        allow_http,
        access_key_id: first_text(&config.access_key, key),
        secret_access_key: first_text(&config.secret_key, secret),
        token: first_text(&config.session_token, token),
    }
}

/// Where the objects are kept.
#[derive(Debug, Clone)]
pub enum StorageBackend {
    S3 { bucket_name: String, region: String, endpoint_url: Option<String> },
    Local { root_dir: String },
}

impl StorageBackend {
    /// The backend that the settings ask for: a directory where one is set,
    /// and a bucket otherwise.
    pub fn from_config(config: &ObjectStorageConfig) -> (backend: Self)
        ensures
            match text_view(config.local_dir) {
                Some(dir) => backend is Local && backend->root_dir@ == dir,
                None => backend is S3 && backend->bucket_name@ == config.bucket@
                    && backend->region@ == config.region@ && text_view(backend->endpoint_url)
                    == text_view(config.url),
            },
    {
        match &config.local_dir {
            Some(dir) => StorageBackend::Local { root_dir: dir.clone() },
            None => StorageBackend::S3 {
                bucket_name: config.bucket.clone(),
                region: config.region.clone(),
                endpoint_url: first_text(&config.url, None),
            },
        }
    }
}

/// Why an operation on the store failed.
#[derive(Debug, Clone, Copy, PartialEq, Eq, Structural)]
pub enum StoreFault {
    NotFound,
    AlreadyExists,
    Precondition,
    TimedOut,
    Other,
}

/// What the creation of an object comes to: it was created, or it was there
/// already, or the store failed.
pub fn creation_outcome(answer: Result<(), StoreFault>) -> (created: Result<bool, StoreFault>)
    ensures
        created == match answer {
            Ok(()) => Ok(true),
            Err(StoreFault::AlreadyExists) | Err(StoreFault::Precondition) => Ok(false),
            Err(fault) => Err(fault),
        },
{
    match answer {
        Ok(()) => Ok(true),
        Err(StoreFault::AlreadyExists) | Err(StoreFault::Precondition) => Ok(false),
        Err(fault) => Err(fault),
    }
}

/// Whether the store was reached, as its answer shows.
pub fn store_was_reached(fault: Option<StoreFault>) -> (reached: bool)
    ensures
        reached == (fault is None || fault == Some(StoreFault::NotFound) || fault == Some(
            StoreFault::AlreadyExists,
        ) || fault == Some(StoreFault::Precondition)),
{
    match fault {
        None => true,
        Some(StoreFault::NotFound) => true,
        Some(StoreFault::AlreadyExists) => true,
        Some(StoreFault::Precondition) => true,
        Some(StoreFault::TimedOut) => false,
        Some(StoreFault::Other) => false,
    }
}

/// Why there is no data after a download.
#[derive(Debug, Clone, Copy, PartialEq, Eq, Structural)]
pub enum DownloadFault {
    /// There is no such object.
    FileNotFound,
    /// The object could not be reached.
    GetFailed(StoreFault),
    /// The object could not be read to its end.
    BodyFailed(StoreFault),
    /// What was read is no data of the expected kind.
    Undecodable,
}

/// How far a download has come: what the store answered, how the body was
/// read, and whether it could be decoded. A step that was not reached is none.
#[derive(Debug, Clone, Copy)]
pub struct DownloadSteps {
    pub get: Result<(), StoreFault>,
    pub body: Option<Result<(), StoreFault>>,
    pub decoded: Option<bool>,
}

/// What a download comes to: the first step that failed decides. A step that
/// was not reached is no failure.
pub open spec fn download_end(steps: DownloadSteps) -> Result<(), DownloadFault> {
    match steps.get {
        Err(StoreFault::NotFound) => Err(DownloadFault::FileNotFound),
        Err(fault) => Err(DownloadFault::GetFailed(fault)),
        Ok(()) => match steps.body {
            Some(Err(fault)) => Err(DownloadFault::BodyFailed(fault)),
            _ => if steps.decoded == Some(false) {
                Err(DownloadFault::Undecodable)
            } else {
                Ok(())
            },
        },
    }
}

/// What a download comes to.
pub fn download_outcome(steps: &DownloadSteps) -> (outcome: Result<(), DownloadFault>)
    ensures
        outcome == download_end(*steps),
{
    match steps.get {
        Err(StoreFault::NotFound) => Err(DownloadFault::FileNotFound),
        Err(fault) => Err(DownloadFault::GetFailed(fault)),
        Ok(()) => match steps.body {
            Some(Err(fault)) => Err(DownloadFault::BodyFailed(fault)),
            _ => match steps.decoded {
                Some(false) => Err(DownloadFault::Undecodable),
                _ => Ok(()),
            },
        },
    }
}

/// What a read comes to: an object that is not there is no failure.
pub fn read_outcome<T>(answer: Result<T, DownloadFault>) -> (read: Result<
    Option<T>,
    DownloadFault,
>)
    ensures
        read == match answer {
            Ok(data) => Ok::<Option<T>, DownloadFault>(Some(data)),
            Err(DownloadFault::FileNotFound) => Ok(None),
            Err(fault) => Err(fault),
        },
{
    match answer {
        Ok(data) => Ok(Some(data)),
        Err(DownloadFault::FileNotFound) => Ok(None),
        Err(fault) => Err(fault),
    }
}

/// Whether a download was slow.
pub fn is_slow_download(elapsed_ms: u64) -> (slow: bool)
    ensures
        slow == (elapsed_ms >= SLOW_DOWNLOAD_THRESHOLD_MS),
{
    elapsed_ms >= SLOW_DOWNLOAD_THRESHOLD_MS
}

/// What a replica remembers of the membership directory. At most one listing
/// is under way at a time, so that a late one cannot make the memory stale.
#[derive(Debug)]
pub struct MembershipCache {
    descriptors: Vec<ReplicaDescriptor>,
    poll_in_flight: bool,
    connection_logged: bool,
}

/// The meaning of a [`MembershipCache`].
#[verifier::ext_equal]
pub struct CacheView {
    pub descriptors: Seq<ReplicaDescriptor>,
    pub poll_in_flight: bool,
    pub connection_logged: bool,
}

impl View for MembershipCache {
    type V = CacheView;

    closed spec fn view(&self) -> CacheView {
        CacheView {
            descriptors: self.descriptors@,
            poll_in_flight: self.poll_in_flight,
            connection_logged: self.connection_logged,
        }
    }
}

/// The descriptors of a replica.
pub open spec fn descriptors_of(descriptors: Seq<ReplicaDescriptor>, pid: Pid) -> Seq<
    ReplicaDescriptor,
> {
    descriptors.filter(|descriptor: ReplicaDescriptor| descriptor.pid == pid)
}

/// The descriptors of all other replicas.
pub open spec fn descriptors_of_others(descriptors: Seq<ReplicaDescriptor>, pid: Pid) -> Seq<
    ReplicaDescriptor,
> {
    descriptors.filter(|descriptor: ReplicaDescriptor| descriptor.pid != pid)
}

impl MembershipCache {
    /// Nothing is known of the directory.
    pub fn new() -> (cache: Self)
        ensures
            cache@ == (CacheView {
                descriptors: Seq::empty(),
                poll_in_flight: false,
                connection_logged: false,
            }),
    {
        MembershipCache {
            descriptors: Vec::new(),
            poll_in_flight: false,
            connection_logged: false,
        }
    }

    /// What is known of the directory.
    pub fn membership_descriptors(&self) -> (descriptors: Vec<ReplicaDescriptor>)
        ensures
            descriptors@ == self@.descriptors,
    {
        let descriptors = self.descriptors.clone();
        assert(descriptors@ =~= self.descriptors@);
        descriptors
    }

    /// Remembers a listing of the directory.
    pub fn update_membership_cache(&mut self, descriptors: Vec<ReplicaDescriptor>)
        ensures
            final(self)@ == (CacheView { descriptors: descriptors@, ..old(self)@ }),
    {
        self.descriptors = descriptors;
    }

    /// The known descriptors of a replica.
    pub fn descriptors_for_pid(&self, pid: Pid) -> (found: Vec<ReplicaDescriptor>)
        ensures
            found@ == descriptors_of(self@.descriptors, pid),
    {
        let ghost keep = |descriptor: ReplicaDescriptor| descriptor.pid == pid;
        let mut found: Vec<ReplicaDescriptor> = Vec::new();
        assert(self.descriptors@.take(0).filter(keep) =~= Seq::empty()) by {
            reveal(Seq::filter);
        }
        for i in 0..self.descriptors.len()
            invariant
                keep == (|descriptor: ReplicaDescriptor| descriptor.pid == pid),
                found@ == self.descriptors@.take(i as int).filter(keep),
        {
            proof {
                lemma_filter_next(self.descriptors@, keep, i as int);
            }
            if self.descriptors[i].pid == pid {
                found.push(self.descriptors[i]);
            }
        }
        assert(self.descriptors@.take(self.descriptors@.len() as int) =~= self.descriptors@);
        found
    }

    /// Forgets the descriptors of a replica.
    pub fn forget_pid(&mut self, pid: Pid)
        ensures
            final(self)@ == (CacheView {
                descriptors: descriptors_of_others(old(self)@.descriptors, pid),
                ..old(self)@
            }),
    {
        let ghost keep = |descriptor: ReplicaDescriptor| descriptor.pid != pid;
        let mut rest: Vec<ReplicaDescriptor> = Vec::new();
        assert(self.descriptors@.take(0).filter(keep) =~= Seq::empty()) by {
            reveal(Seq::filter);
        }
        for i in 0..self.descriptors.len()
            invariant
                keep == (|descriptor: ReplicaDescriptor| descriptor.pid != pid),
                rest@ == self.descriptors@.take(i as int).filter(keep),
        {
            proof {
                lemma_filter_next(self.descriptors@, keep, i as int);
            }
            if self.descriptors[i].pid != pid {
                rest.push(self.descriptors[i]);
            }
        }
        assert(self.descriptors@.take(self.descriptors@.len() as int) =~= self.descriptors@);
        self.descriptors = rest;
    }

    /// Begins a background listing unless the prior one has not yet been
    /// consumed. Returns whether it begins.
    pub fn start_membership_poll(&mut self) -> (begins: bool)
        ensures
            begins == !old(self)@.poll_in_flight,
            final(self)@ == (CacheView { poll_in_flight: true, ..old(self)@ }),
    {
        let begins = !self.poll_in_flight;
        self.poll_in_flight = true;
        begins
    }

    /// The listing was consumed, or given up.
    pub fn finish_membership_poll(&mut self)
        ensures
            final(self)@ == (CacheView { poll_in_flight: false, ..old(self)@ }),
    {
        self.poll_in_flight = false;
    }

    /// Whether the first answer of the store is still to be logged.
    pub fn note_connection(&mut self) -> (first: bool)
        ensures
            first == !old(self)@.connection_logged,
            final(self)@ == (CacheView { connection_logged: true, ..old(self)@ }),
    {
        let first = !self.connection_logged;
        self.connection_logged = true;
        first
    }
}

/// Credentials in the settings win over those of a profile.
pub proof fn law_settings_win_over_the_profile(
    settings: BucketSettings,
    config: ObjectStorageConfig,
    profile: Option<CredentialsView>,
)
    requires
        is_bucket(settings, config, profile),
    ensures
        config.access_key is Some ==> text_view(settings.access_key_id) == text_view(
            config.access_key,
        ),
        config.secret_key is Some ==> text_view(settings.secret_access_key) == text_view(
            config.secret_key,
        ),
        config.session_token is Some ==> text_view(settings.token) == text_view(
            config.session_token,
        ),
        has_static_credentials(config) ==> !settings.from_environment,
{
}

/// After a replica is forgotten none of its descriptors is left, and those of
/// the others are.
pub proof fn law_forgotten_replica_is_gone(
    descriptors: Seq<ReplicaDescriptor>,
    pid: Pid,
    descriptor: ReplicaDescriptor,
)
    ensures
        descriptors_of_others(descriptors, pid).contains(descriptor) <==> descriptors.contains(
            descriptor,
        ) && descriptor.pid != pid,
        descriptors_of(descriptors, pid).contains(descriptor) <==> descriptors.contains(descriptor)
            && descriptor.pid == pid,
{
    lemma_filter_holds(descriptors, |d: ReplicaDescriptor| d.pid != pid, descriptor);
    lemma_filter_holds(descriptors, |d: ReplicaDescriptor| d.pid == pid, descriptor);
}

} // verus!
