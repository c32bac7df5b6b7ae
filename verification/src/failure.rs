//! Why a download failed, in words for the user.

use crate::app::App;
use crate::text::{chars_of, has_text, law_a_text_stands_between_two_others, occurs};
use crate::trusted::{ascii_lower, lowercase};
use vstd::prelude::*;
use vstd::utf8::is_ascii_chars;

verus! {

/// What a lower-case error message says of the cause. The first that applies counts.
pub open spec fn reason_in(message: Seq<char>) -> Seq<char> {
    if occurs(message, "timeout"@) || occurs(message, "timed out"@) {
        "Connection timed out - no peers found or slow network"@
    } else if occurs(message, "no peer"@) || occurs(message, "0 seeder"@) {
        "No seeders available for this torrent"@
    } else if occurs(message, "metadata"@) {
        "Could not fetch torrent metadata - torrent may be dead"@
    } else if occurs(message, "cancelled"@) || occurs(message, "interrupted"@) {
        "Download was cancelled by user"@
    } else if occurs(message, "exit"@) && occurs(message, "7"@) {
        "aria2c error: No peers/seeders found after timeout"@
    } else if occurs(message, "exit"@) && occurs(message, "3"@) {
        "aria2c error: Resource not found"@
    } else if occurs(message, "exit"@) && occurs(message, "24"@) {
        "aria2c error: HTTP authorization failed"@
    } else if occurs(message, "disk"@) || occurs(message, "space"@) {
        "Disk full or write error"@
    } else if occurs(message, "permission"@) {
        "Permission denied - check folder access"@
    } else {
        "Unknown error - check if torrent is still active"@
    }
}

/// The cause that an error message, in whatever case, is said to speak of.
pub open spec fn is_told(message: Seq<char>, reason: Seq<char>) -> bool {
    &&& reason == reason_in(lowercase(message))
    &&& is_ascii_chars(message) ==> reason == reason_in(
        message.map_values(|c: char| ascii_lower(c)),
    )
}

impl App {
    /// The cause that an error message, in whatever case, speaks of.
    pub fn get_failure_reason(message: &str) -> (reason: &'static str)
        ensures
            is_told(message@, reason@),
    {
        let lower = message.to_lowercase();
        Self::classify_failure(lower.as_str())
    }

    /// The cause that a lower-case error message speaks of.
    pub fn classify_failure(message: &str) -> (reason: &'static str)
        ensures
            reason@ == reason_in(message@),
    {
        let msg = chars_of(message);
        if has_text(&msg, "timeout") || has_text(&msg, "timed out") {
            "Connection timed out - no peers found or slow network"
        } else if has_text(&msg, "no peer") || has_text(&msg, "0 seeder") {
            "No seeders available for this torrent"
        } else if has_text(&msg, "metadata") {
            "Could not fetch torrent metadata - torrent may be dead"
        } else if has_text(&msg, "cancelled") || has_text(&msg, "interrupted") {
            "Download was cancelled by user"
        } else if has_text(&msg, "exit") && has_text(&msg, "7") {
            "aria2c error: No peers/seeders found after timeout"
        } else if has_text(&msg, "exit") && has_text(&msg, "3") {
            "aria2c error: Resource not found"
        } else if has_text(&msg, "exit") && has_text(&msg, "24") {
            "aria2c error: HTTP authorization failed"
        } else if has_text(&msg, "disk") || has_text(&msg, "space") {
            "Disk full or write error"
        } else if has_text(&msg, "permission") {
            "Permission denied - check folder access"
        } else {
            "Unknown error - check if torrent is still active"
        }
    }
}

/// The text stands somewhere in the message.
pub open spec fn says(message: Seq<char>, text: Seq<char>) -> bool {
    exists|before: Seq<char>, after: Seq<char>| message == #[trigger] (before + text + after)
}

/// What a message says of the cause, from the first cause that is looked for to the last: a
/// timeout, missing peers, missing metadata, the user, the three exit codes that are known, the
/// disk, a permission; and none of these.
pub proof fn law_causes_are_told_apart(message: Seq<char>)
    ensures
        ({
            let timeout = says(message, "timeout"@) || says(message, "timed out"@);
            let peers = says(message, "no peer"@) || says(message, "0 seeder"@);
            let metadata = says(message, "metadata"@);
            let user = says(message, "cancelled"@) || says(message, "interrupted"@);
            let exit = says(message, "exit"@);
            let disk = says(message, "disk"@) || says(message, "space"@);
            let early = timeout || peers || metadata || user;
            let code = exit && (says(message, "7"@) || says(message, "3"@) || says(message, "24"@));
            &&& timeout ==> reason_in(message)
                == "Connection timed out - no peers found or slow network"@
            &&& !timeout && peers ==> reason_in(message) == "No seeders available for this torrent"@
            &&& !timeout && !peers && metadata ==> reason_in(message)
                == "Could not fetch torrent metadata - torrent may be dead"@
            &&& !timeout && !peers && !metadata && user ==> reason_in(message)
                == "Download was cancelled by user"@
            &&& !early && exit && says(message, "7"@) ==> reason_in(message)
                == "aria2c error: No peers/seeders found after timeout"@
            &&& !early && exit && !says(message, "7"@) && says(message, "3"@) ==> reason_in(message)
                == "aria2c error: Resource not found"@
            &&& !early && exit && !says(message, "7"@) && !says(message, "3"@) && says(
                message,
                "24"@,
            ) ==> reason_in(message) == "aria2c error: HTTP authorization failed"@
            &&& !early && !code && disk ==> reason_in(message) == "Disk full or write error"@
            &&& !early && !code && !disk && says(message, "permission"@) ==> reason_in(message)
                == "Permission denied - check folder access"@
            &&& !early && !code && !disk && !says(message, "permission"@) ==> reason_in(message)
                == "Unknown error - check if torrent is still active"@
        }),
{
    law_a_text_stands_between_two_others(message, "timeout"@);
    law_a_text_stands_between_two_others(message, "timed out"@);
    law_a_text_stands_between_two_others(message, "no peer"@);
    law_a_text_stands_between_two_others(message, "0 seeder"@);
    law_a_text_stands_between_two_others(message, "metadata"@);
    law_a_text_stands_between_two_others(message, "cancelled"@);
    law_a_text_stands_between_two_others(message, "interrupted"@);
    law_a_text_stands_between_two_others(message, "exit"@);
    law_a_text_stands_between_two_others(message, "7"@);
    law_a_text_stands_between_two_others(message, "3"@);
    law_a_text_stands_between_two_others(message, "24"@);
    law_a_text_stands_between_two_others(message, "disk"@);
    law_a_text_stands_between_two_others(message, "space"@);
    law_a_text_stands_between_two_others(message, "permission"@);
}

/// Capitals make no difference: an ASCII message is told the cause that the same message in small
/// letters speaks of.
pub proof fn law_capitals_make_no_difference(message: Seq<char>, small: Seq<char>, reason: Seq<char>)
    requires
        is_ascii_chars(message),
        small.len() == message.len(),
        forall|i: int|
            0 <= i < message.len() && 65 <= message[i] as int <= 90 ==> (#[trigger] small[i]) as int
                == message[i] as int + 32,
        forall|i: int|
            0 <= i < message.len() && !(65 <= message[i] as int <= 90) ==> (#[trigger] small[i])
                == message[i],
        is_told(message, reason),
    ensures
        reason == reason_in(small),
{
    assert forall|i: int| 0 <= i < message.len() implies ascii_lower(#[trigger] message[i])
        == small[i] by {
        if 65 <= message[i] as int <= 90 {
            assert(small[i] as int == message[i] as int + 32);
        } else {
            assert(small[i] == message[i]);
        }
    }
    assert(message.map_values(|c: char| ascii_lower(c)) =~= small);
}

} // verus!
