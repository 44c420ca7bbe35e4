//! Renders a duration in seconds as a human-readable "how long ago" string.

use vstd::prelude::*;
use vstd::string::*;

verus! {

/// The character for one decimal digit.
pub open spec fn digit_char(d: nat) -> char {
    ((48 + d) as u8) as char
}

/// The decimal digits of `n`, most significant first.
pub open spec fn dec_digits(n: nat) -> Seq<char>
    decreases n,
{
    if n < 10 {
        seq![digit_char(n)]
    } else {
        dec_digits(n / 10).push(digit_char(n % 10))
    }
}

fn digit_str(d: u64) -> (s: &'static str)
    requires
        d < 10,
    ensures
        s@ == seq![digit_char(d as nat)],
{
    let s = match d {
        0 => "0",
        1 => "1",
        2 => "2",
        3 => "3",
        4 => "4",
        5 => "5",
        6 => "6",
        7 => "7",
        8 => "8",
        _ => "9",
    };
    proof {
        reveal_strlit("0");
        reveal_strlit("1");
        reveal_strlit("2");
        reveal_strlit("3");
        reveal_strlit("4");
        reveal_strlit("5");
        reveal_strlit("6");
        reveal_strlit("7");
        reveal_strlit("8");
        reveal_strlit("9");
        assert(s@ =~= seq![digit_char(d as nat)]);
    }
    s
}

/// Renders `n` in decimal.
pub fn u64_to_string(n: u64) -> (s: String)
    ensures
        s@ == dec_digits(n as nat),
    decreases n,
{
    if n < 10 {
        String::from_str(digit_str(n))
    } else {
        let rest = u64_to_string(n / 10);
        let ghost rest_view = rest@;
        let s = rest.concat(digit_str(n % 10));
        proof {
            assert(s@ =~= rest_view.push(digit_char((n % 10) as nat)));
        }
        s
    }
}

/// What `time_ago` returns: a coarse description for durations over a
/// month, else days, else hours and minutes, else minutes and seconds.
pub open spec fn time_ago_spec(seconds: u64) -> Seq<char> {
    let days = seconds as nat / 86400;
    if days > 365 {
        "More than a year ago"@
    } else if days > 31 {
        "More than a month ago"@
    } else if days >= 1 {
        dec_digits(days) + "d ago"@
    } else {
        let hours = seconds as nat / 3600;
        let after_hours = seconds as nat % 3600;
        let minutes = after_hours / 60;
        if hours > 1 {
            dec_digits(hours) + "h "@ + dec_digits(minutes) + "m ago"@
        } else {
            dec_digits(minutes) + "m "@ + dec_digits(after_hours % 60) + "s ago"@
        }
    }
}

/// Formats a duration in seconds as a human-readable string of how long ago
/// it started.
pub fn time_ago(seconds: u64) -> (r: String)
    ensures
        r@ == time_ago_spec(seconds),
{
    let days = seconds / 86400;
    if days > 365 {
        return String::from_str("More than a year ago");
    }
    if days > 31 {
        return String::from_str("More than a month ago");
    }
    if days >= 1 {
        let r = u64_to_string(days).concat("d ago");
        proof {
            assert(r@ =~= time_ago_spec(seconds));
        }
        return r;
    }
    let hours = seconds / 3600;
    let after_hours = seconds % 3600;
    let minutes = after_hours / 60;
    if hours > 1 {
        let r = u64_to_string(hours).concat("h ").concat(
            u64_to_string(minutes).as_str(),
        ).concat("m ago");
        proof {
            assert(r@ =~= time_ago_spec(seconds));
        }
        r
    } else {
        let r = u64_to_string(minutes).concat("m ").concat(
            u64_to_string(after_hours % 60).as_str(),
        ).concat("s ago");
        proof {
            assert(r@ =~= time_ago_spec(seconds));
        }
        r
    }
}

} // verus!
