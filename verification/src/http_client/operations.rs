//! What a client sends, and how often.

use vstd::prelude::*;
use super::{headers, headers_view, step_after, SendStep};
use crate::text::decimal;

verus! {

/// An answer ends the attempts. Without one the request is sent again until it
/// has been sent ten times.
pub proof fn law_ten_attempts_are_made(attempt: int)
    ensures
        step_after(attempt, true) == SendStep::Done,
        attempt < 9 ==> step_after(attempt, false) == SendStep::Retry,
        attempt >= 9 ==> step_after(attempt, false) == SendStep::GiveUp,
{
}

/// A request carries five headers: where it goes, who sends it, how long its
/// body is and of which type, and that any answer will do.
pub proof fn law_requests_carry_five_headers(host: Seq<char>, length: nat)
    ensures
        headers(host, length).len() == 5,
        headers(host, length)[0] == ("host"@, host),
        headers(host, length)[1] == ("user-agent"@, "curl/8.6.0"@),
        headers(host, length)[2] == ("content-length"@, decimal(length)),
        headers(host, length)[3] == ("content-type"@, "application/json"@),
        headers(host, length)[4] == ("accept"@, "*/*"@),
{
}

/// The headers are seen as they are.
pub proof fn law_headers_are_seen_as_they_are(list: Seq<(String, String)>, i: int)
    ensures
        headers_view(list).len() == list.len(),
        0 <= i < list.len() ==> headers_view(list)[i] == (list[i].0@, list[i].1@),
{
}

} // verus!
