use vstd::prelude::*;

use crate::number::{nat_digits, u64_digits};
use crate::text::{str_chars, string_from_chars};

verus! {

/// A duration of whole seconds as text: hours and minutes when it reaches an hour, else
/// minutes when it reaches a minute, else seconds; in a long or a short form.
pub open spec fn total_time_text(secs: nat, short: bool) -> Seq<char> {
    let minutes = secs / 60;
    let hours = minutes / 60;
    if hours != 0 {
        if !short {
            nat_digits(hours) + " h. "@ + nat_digits(minutes % 60) + " min."@
        } else {
            nat_digits(hours) + "h"@ + nat_digits(minutes % 60) + "m"@
        }
    } else if minutes != 0 {
        if !short {
            nat_digits(minutes) + " min."@
        } else {
            nat_digits(minutes) + "m"@
        }
    } else {
        if !short {
            nat_digits(secs) + " sec."@
        } else {
            nat_digits(secs) + "s"@
        }
    }
}

/// Appends the characters of `tail`.
fn append_chars(dst: &mut Vec<char>, tail: &Vec<char>)
    ensures
        final(dst)@ == old(dst)@ + tail@,
{
    let n = tail.len();
    let ghost start = dst@;
    let mut i: usize = 0;
    while i < n
        invariant
            n == tail@.len(),
            i <= n,
            dst@ == start + tail@.take(i as int),
        decreases n - i,
    {
        dst.push(tail[i]);
        i = i + 1;
        proof {
            assert(dst@ =~= start + tail@.take(i as int));
        }
    }
    proof {
        assert(tail@.take(n as int) =~= tail@);
    }
}

/// A duration of whole seconds as text (see `total_time_text`).
pub fn seconds_to_total_time_str(secs_total: u64, short: bool) -> (r: String)
    ensures
        r@ == total_time_text(secs_total as nat, short),
{
    let minutes_total = secs_total / 60;
    let hours = minutes_total / 60;
    let mut text: Vec<char>;
    if hours != 0 {
        text = u64_digits(hours);
        append_chars(&mut text, &str_chars(if !short { " h. " } else { "h" }));
        append_chars(&mut text, &u64_digits(minutes_total % 60));
        append_chars(&mut text, &str_chars(if !short { " min." } else { "m" }));
    } else if minutes_total != 0 {
        text = u64_digits(minutes_total);
        append_chars(&mut text, &str_chars(if !short { " min." } else { "m" }));
    } else {
        text = u64_digits(secs_total);
        append_chars(&mut text, &str_chars(if !short { " sec." } else { "s" }));
    }
    string_from_chars(text.as_slice())
}

} // verus!
