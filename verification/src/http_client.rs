//! How a client asks a replica: what its requests look like, and when it gives
//! up.

use vstd::prelude::*;
use crate::text::{chars_of, decimal, format_u128, text_of};

pub mod operations;

verus! {

/// How often a request is sent at most.
pub const MAX_RETRIES: usize = 10;

/// What a client does after an attempt.
#[derive(Debug, Clone, Copy, PartialEq, Eq, Structural)]
pub enum SendStep {
    /// The answer is there.
    Done,
    /// Send the request again.
    Retry,
    /// Report the failure of the last attempt.
    GiveUp,
}

/// What a client does after an attempt; the first one has the number zero.
pub open spec fn step_after(attempt: int, answered: bool) -> SendStep {
    if answered {
        SendStep::Done
    } else if attempt + 1 < MAX_RETRIES {
        SendStep::Retry
    } else {
        SendStep::GiveUp
    }
}

/// What a client does after an attempt; the first one has the number zero.
pub fn after_attempt(attempt: usize, answered: bool) -> (step: SendStep)
    ensures
        step == step_after(attempt as int, answered),
{
    if answered {
        SendStep::Done
    } else if attempt < MAX_RETRIES - 1 {
        SendStep::Retry
    } else {
        SendStep::GiveUp
    }
}

/// The headers of a request.
pub open spec fn headers(host: Seq<char>, content_length: nat) -> Seq<(Seq<char>, Seq<char>)> {
    seq![
        ("host"@, host),
        ("user-agent"@, "curl/8.6.0"@),
        ("content-length"@, decimal(content_length)),
        ("content-type"@, "application/json"@),
        ("accept"@, "*/*"@),
    ]
}

/// The views of a list of headers.
pub open spec fn headers_view(list: Seq<(String, String)>) -> Seq<(Seq<char>, Seq<char>)> {
    list.map_values(|header: (String, String)| (header.0@, header.1@))
}

/// One header.
fn header(name: &str, value: &str) -> (header: (String, String))
    ensures
        header.0@ == name@,
        header.1@ == value@,
{
    (text_of(&chars_of(name)), text_of(&chars_of(value)))
}

/// The headers of a request whose body has so many bytes.
pub fn request_headers(host: &str, content_length: usize) -> (list: Vec<(String, String)>)
    ensures
        headers_view(list@) == headers(host@, content_length as nat),
{
    let length = text_of(&format_u128(content_length as u128));
    let list = vec![
        header("host", host),
        header("user-agent", "curl/8.6.0"),
        header("content-length", length.as_str()),
        header("content-type", "application/json"),
        header("accept", "*/*"),
    ];
    assert(headers_view(list@) =~= headers(host@, content_length as nat));
    list
}

/// A client gives up after the last attempt at the latest, and never before an
/// answer or the last attempt.
pub proof fn law_attempts_are_limited(attempt: int)
    requires
        0 <= attempt < MAX_RETRIES,
    ensures
        step_after(attempt, true) is Done,
        step_after(attempt, false) is GiveUp <==> attempt == MAX_RETRIES - 1,
        step_after(attempt, false) is Retry <==> attempt < MAX_RETRIES - 1,
{
}

} // verus!
