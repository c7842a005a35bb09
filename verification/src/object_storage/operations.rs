//! What is read from shared profiles, and what bucket settings and downloads
//! come to.

use vstd::prelude::*;
use super::{
    begins_with, credentials_of, credentials_view, descriptors_of, descriptors_of_others,
    download_end, endpoint_of, first_of, has_static_credentials, is_bucket, names_credentials,
    prefixed, profile_credentials, profiles_in, section_view, BucketSettings, CredentialsView,
    DownloadFault, DownloadSteps, ProfilesView, Reading, SharedProfileCredentials,
};
use crate::prelude::{ObjectStorageConfig, Pid};
use crate::replica_config::text_view;
use crate::replica_helpers::{is_blank, ReplicaDescriptor};
use crate::text::{split, trimmed};

verus! {

/// Before the first line nothing is known, and a file is read line by line.
pub proof fn law_profiles_are_read_line_by_line(
    text: Seq<char>,
    lines: Seq<Seq<char>>,
    line: Seq<char>,
)
    ensures
        Reading::with_lines(Seq::empty()).section is None,
        Reading::with_lines(Seq::empty()).profiles.sections == Set::<Seq<char>>::empty(),
        Reading::with_lines(Seq::empty()).profiles.entries == Map::<
            (Seq<char>, Seq<char>),
            Seq<char>,
        >::empty(),
        Reading::with_lines(lines.push(line)) == Reading::with_lines(lines).with_line(line),
        profiles_in(text) == Reading::with_lines(split(text, '\u{a}')).profiles,
        ProfilesView::none().sections == Set::<Seq<char>>::empty(),
        ProfilesView::none().entries == Map::<(Seq<char>, Seq<char>), Seq<char>>::empty(),
{
    assert(lines.push(line).drop_last() =~= lines);
}

/// Blank lines, comments and lines without an equals sign change nothing, and
/// neither does anything before the first section.
pub proof fn law_other_lines_are_passed_over(reading: Reading, line: Seq<char>)
    ensures
        ({
            let text = trimmed(line);
            let header = text.len() > 0 && text[0] == '[' && text.last() == ']';
            &&& text.len() == 0 ==> reading.with_line(line) == reading
            &&& text.len() > 0 && (text[0] == '#' || text[0] == ';') ==> reading.with_line(line)
                == reading
            &&& !header && !text.contains('=') ==> reading.with_line(line) == reading
            &&& !header && reading.section is None ==> reading.with_line(line) == reading
        }),
{
    trimmed(line).index_of_first_ensures('=');
}

/// A line in square brackets opens the section of that name, without the blanks
/// around it. What was read before stays.
pub proof fn law_brackets_open_a_section(reading: Reading, line: Seq<char>, name: Seq<char>)
    requires
        trimmed(line) == seq!['['] + name + seq![']'],
    ensures
        reading.with_line(line).section == Some(trimmed(name)),
        reading.with_line(line).profiles.sections == reading.profiles.sections.insert(
            trimmed(name),
        ),
        reading.with_line(line).profiles.entries == reading.profiles.entries,
{
    let text = trimmed(line);
    assert(text[0] == '[');
    assert(text.last() == ']');
    assert(text.subrange(1, text.len() - 1) =~= name);
}

/// A line in a section gives the key before its first equals sign the value
/// behind it, both without the blanks around them. Everything else stays.
pub proof fn law_equals_signs_set_a_value(
    reading: Reading,
    line: Seq<char>,
    section: Seq<char>,
    key: Seq<char>,
    value: Seq<char>,
)
    requires
        reading.section == Some(section),
        trimmed(line) == key + seq!['='] + value,
        !key.contains('='),
        key.len() > 0 ==> key[0] != '#' && key[0] != ';',
        key.len() > 0 && value.len() > 0 ==> !(key[0] == '[' && value.last() == ']'),
    ensures
        reading.with_line(line).section == reading.section,
        reading.with_line(line).profiles.sections == reading.profiles.sections,
        reading.with_line(line).profiles.entries == reading.profiles.entries.insert(
            (section, trimmed(key)),
            trimmed(value),
        ),
{
    let text = trimmed(line);
    text.index_of_first_ensures('=');
    assert(text[key.len() as int] == '=');
    let at = text.index_of_first('=')->0;
    if at < key.len() {
        assert(key[at] == '=');
    }
    assert(at == key.len());
    assert(text.take(at) =~= key);
    assert(text.skip(at + 1) =~= value);
    if key.len() > 0 {
        assert(text[0] == key[0]);
    }
    if value.len() > 0 {
        assert(text.last() == value.last());
    } else {
        assert(text.last() == '=');
    }
}

/// A section gives credentials exactly if it holds a key and its secret; the
/// token comes along where there is one.
pub proof fn law_sections_give_credentials(profiles: ProfilesView, section: Seq<char>)
    ensures
        ({
            let entries = profiles.entries;
            let key = (section, "aws_access_key_id"@);
            let secret = (section, "aws_secret_access_key"@);
            let token = (section, "aws_session_token"@);
            let found = credentials_of(profiles, section);
            &&& found is Some <==> entries.contains_key(key) && entries.contains_key(secret)
            &&& found is Some ==> {
                &&& found->0.access_key_id == entries[key]
                &&& found->0.secret_access_key == entries[secret]
                &&& entries.contains_key(token) ==> found->0.session_token == Some(entries[token])
                &&& !entries.contains_key(token) ==> found->0.session_token is None
            }
            &&& profiles.value(section, "aws_session_token"@) is Some <==> entries.contains_key(
                token,
            )
        }),
{
}

/// A profile is looked up in the credentials first, then in the configuration
/// under its name, then there under its name with a prefix; the first section
/// that is there decides, whatever it holds.
pub proof fn law_first_section_decides(
    credentials: ProfilesView,
    config: ProfilesView,
    profile: Seq<char>,
    long: Seq<char>,
)
    requires
        long == seq!['p', 'r', 'o', 'f', 'i', 'l', 'e', ' '] + profile,
    ensures
        prefixed(profile) == long,
        ({
            let found = profile_credentials(credentials, config, profile);
            let first = credentials.sections.contains(profile);
            let second = config.sections.contains(profile);
            let third = config.sections.contains(long);
            &&& first ==> found == credentials_of(credentials, profile)
            &&& !first && second ==> found == credentials_of(config, profile)
            &&& !first && !second && third ==> found == credentials_of(config, long)
            &&& !first && !second && !third ==> found is None
        }),
{
    reveal_strlit("profile ");
    assert("profile "@ =~= seq!['p', 'r', 'o', 'f', 'i', 'l', 'e', ' ']);
}

/// The settings name credentials if they hold any part of them, and have static
/// ones if they hold a key and its secret.
pub proof fn law_credentials_in_the_settings(config: ObjectStorageConfig)
    ensures
        names_credentials(config) <==> !(config.access_key is None && config.secret_key is None
            && config.session_token is None),
        has_static_credentials(config) <==> !(config.access_key is None || config.secret_key
            is None),
{
}

/// What the settings say comes first; an endpoint counts unless it is blank; a
/// text begins with another if that makes up its first characters.
pub proof fn law_settings_come_first(
    own: Option<Seq<char>>,
    profile: Option<Seq<char>>,
    config: ObjectStorageConfig,
    start: Seq<char>,
    rest: Seq<char>,
    text: Seq<char>,
)
    ensures
        own is Some ==> first_of(own, profile) == own,
        own is None ==> first_of(own, profile) == profile,
        config.url is None ==> endpoint_of(config) is None,
        config.url is Some && is_blank(config.url->0@) ==> endpoint_of(config) is None,
        config.url is Some && !is_blank(config.url->0@) ==> endpoint_of(config) == Some(
            config.url->0@,
        ),
        begins_with(start + rest, start),
        begins_with(text, start) ==> exists|more: Seq<char>| text == #[trigger] (start + more),
{
    assert((start + rest).take(start.len() as int) =~= start);
    if begins_with(text, start) {
        let more = text.skip(start.len() as int);
        assert(text =~= start + more);
    }
}

/// The bucket is reached with the region and the name of the settings, at their
/// endpoint, without encryption only if that says so. A key, a secret and a
/// token are those of the settings, or else those of the profile where the
/// settings have no static ones.
pub proof fn law_bucket_settings(
    settings: BucketSettings,
    config: ObjectStorageConfig,
    profile: Option<CredentialsView>,
)
    requires
        is_bucket(settings, config, profile),
    ensures
        ({
            let fixed = config.access_key is Some && config.secret_key is Some;
            let shared = !fixed && profile is Some;
            let own_endpoint = config.url is Some && !is_blank(config.url->0@);
            &&& settings.from_environment <==> !fixed
            &&& settings.region@ == config.region@
            &&& settings.bucket@ == config.bucket@
            &&& settings.endpoint is Some <==> own_endpoint
            &&& own_endpoint ==> settings.endpoint->0@ == config.url->0@
            &&& settings.allow_http <==> own_endpoint && begins_with(
                config.url->0@,
                seq!['h', 't', 't', 'p', ':', '/', '/'],
            )
            &&& config.access_key is Some ==> settings.access_key_id is Some
                && settings.access_key_id->0@ == config.access_key->0@
            &&& config.access_key is None && shared ==> settings.access_key_id is Some
                && settings.access_key_id->0@ == profile->0.access_key_id
            &&& config.access_key is None && !shared ==> settings.access_key_id is None
            &&& config.secret_key is Some ==> settings.secret_access_key is Some
                && settings.secret_access_key->0@ == config.secret_key->0@
            &&& config.secret_key is None && shared ==> settings.secret_access_key is Some
                && settings.secret_access_key->0@ == profile->0.secret_access_key
            &&& config.secret_key is None && !shared ==> settings.secret_access_key is None
            &&& config.session_token is Some ==> settings.token is Some && settings.token->0@
                == config.session_token->0@
            &&& config.session_token is None && shared ==> text_view(settings.token)
                == profile->0.session_token
            &&& config.session_token is None && !shared ==> settings.token is None
        }),
{
    reveal_strlit("http://");
    assert("http://"@ =~= seq!['h', 't', 't', 'p', ':', '/', '/']);
}

/// The first step of a download that failed decides what it comes to, and one
/// without such a step succeeds. An object that is not there is told apart.
pub proof fn law_first_failure_decides(steps: DownloadSteps)
    ensures
        ({
            let end = download_end(steps);
            let body_failed = steps.body is Some && steps.body->0 is Err;
            let undecoded = steps.decoded is Some && !steps.decoded->0;
            &&& end is Ok <==> steps.get is Ok && !body_failed && !undecoded
            &&& steps.get is Err && steps.get->Err_0 is NotFound ==> end == Err::<
                (),
                DownloadFault,
            >(DownloadFault::FileNotFound)
            &&& steps.get is Err && !(steps.get->Err_0 is NotFound) ==> end == Err::<
                (),
                DownloadFault,
            >(DownloadFault::GetFailed(steps.get->Err_0))
            &&& steps.get is Ok && body_failed ==> end == Err::<(), DownloadFault>(
                DownloadFault::BodyFailed(steps.body->0->Err_0),
            )
            &&& steps.get is Ok && !body_failed && undecoded ==> end == Err::<(), DownloadFault>(
                DownloadFault::Undecodable,
            )
        }),
{
}

/// The descriptors of a replica, and those of the others, are picked one by
/// one and keep their order.
pub proof fn law_descriptors_are_picked_in_order(
    descriptors: Seq<ReplicaDescriptor>,
    pid: Pid,
    descriptor: ReplicaDescriptor,
)
    ensures
        descriptors_of(Seq::empty(), pid) == Seq::<ReplicaDescriptor>::empty(),
        descriptors_of_others(Seq::empty(), pid) == Seq::<ReplicaDescriptor>::empty(),
        descriptor.pid == pid ==> descriptors_of(descriptors.push(descriptor), pid)
            == descriptors_of(descriptors, pid).push(descriptor) && descriptors_of_others(
            descriptors.push(descriptor),
            pid,
        ) == descriptors_of_others(descriptors, pid),
        descriptor.pid != pid ==> descriptors_of(descriptors.push(descriptor), pid)
            == descriptors_of(descriptors, pid) && descriptors_of_others(
            descriptors.push(descriptor),
            pid,
        ) == descriptors_of_others(descriptors, pid).push(descriptor),
{
    reveal(Seq::filter);
    assert(descriptors.push(descriptor).drop_last() =~= descriptors);
}

/// Optional names and credentials are seen as they are.
pub proof fn law_options_are_seen_as_they_are(
    name: Vec<char>,
    credentials: SharedProfileCredentials,
)
    ensures
        section_view(None) is None,
        section_view(Some(name)) == Some(name@),
        credentials_view(None) is None,
        credentials_view(Some(credentials)) == Some(credentials@),
        credentials@.access_key_id == credentials.access_key_id@,
        credentials@.secret_access_key == credentials.secret_access_key@,
        credentials.session_token is None ==> credentials@.session_token is None,
        credentials.session_token is Some ==> credentials@.session_token == Some(
            credentials.session_token->0@,
        ),
{
}

} // verus!
