//! Small formatting helpers for the REPL views.

use vstd::prelude::*;
use crate::text::{decimal, decimal_chars, extend_str, string_of};

verus! {

/// "Ns ago" below a minute, "Nm ago" below an hour, "Nh ago" below a day,
/// else "Nd ago", each count rounded down.
pub open spec fn age_text(seconds: nat) -> Seq<char> {
    if seconds < 60 {
        decimal(seconds) + "s ago"@
    } else if seconds < 3600 {
        decimal(seconds / 60) + "m ago"@
    } else if seconds < 86400 {
        decimal(seconds / 3600) + "h ago"@
    } else {
        decimal(seconds / 86400) + "d ago"@
    }
}

/// Formats an elapsed time in seconds as a coarse "… ago" text.
pub fn format_age(seconds: u64) -> (r: String)
    ensures
        r@ == age_text(seconds as nat),
{
    let (n, unit) = if seconds < 60 {
        (seconds, "s ago")
    } else if seconds < 3600 {
        (seconds / 60, "m ago")
    } else if seconds < 86400 {
        (seconds / 3600, "h ago")
    } else {
        (seconds / 86400, "d ago")
    };
    let mut v = decimal_chars(n);
    extend_str(&mut v, unit);
    string_of(&v)
}

} // verus!
