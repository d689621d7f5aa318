use crate::numtext::{digit_val, is_digit};
use crate::sun::TimeOfDay;
use vstd::prelude::*;

verus! {

/// What one run is asked to do: whether to mark traffic entries, and the
/// time of day to synchronise the sun angle to, if any.
pub struct AppConfig {
    pub mark_traffic: bool,
    pub time: Option<TimeOfDay>,
}

/// An hour-and-minute numeral, `H:MM` or `HH:MM`, read without range checks.
pub open spec fn spec_parse_hm(s: Seq<char>) -> Option<(int, int)> {
    if s.len() == 4 && is_digit(s[0]) && s[1] == ':' && is_digit(s[2]) && is_digit(s[3]) {
        Some((digit_val(s[0]), digit_val(s[2]) * 10 + digit_val(s[3])))
    } else if s.len() == 5 && is_digit(s[0]) && is_digit(s[1]) && s[2] == ':' && is_digit(s[3])
        && is_digit(s[4]) {
        Some((digit_val(s[0]) * 10 + digit_val(s[1]), digit_val(s[3]) * 10 + digit_val(s[4])))
    } else {
        None
    }
}

/// A twelve-hour clock reading with a trailing meridiem marker, such as
/// `1:00 PM`: an hour from one to twelve, a two-digit minute, a space, then
/// `AM` or `PM` in either letter case.
pub open spec fn spec_parse_12h(s: Seq<char>) -> Option<(int, int)> {
    if s.len() >= 4 && s[s.len() - 3] == ' ' && (s[s.len() - 2] == 'A' || s[s.len() - 2] == 'a'
        || s[s.len() - 2] == 'P' || s[s.len() - 2] == 'p') && (s[s.len() - 1] == 'M' || s[s.len()
        - 1] == 'm') {
        match spec_parse_hm(s.take(s.len() - 3)) {
            Some((h, m)) => if 1 <= h <= 12 && m <= 59 {
                let pm = s[s.len() - 2] == 'P' || s[s.len() - 2] == 'p';
                Some(
                    (
                        if pm {
                            h % 12 + 12
                        } else {
                            h % 12
                        },
                        m,
                    ),
                )
            } else {
                None
            },
            None => None,
        }
    } else {
        None
    }
}

/// A twenty-four-hour clock reading such as `13:00`.
pub open spec fn spec_parse_24h(s: Seq<char>) -> Option<(int, int)> {
    match spec_parse_hm(s) {
        Some((h, m)) => if h <= 23 && m <= 59 {
            Some((h, m))
        } else {
            None
        },
        None => None,
    }
}

/// The time-of-day forms the configuration accepts; the twelve-hour form is
/// tried first, and the first form that matches wins.
pub open spec fn spec_parse_time(s: Seq<char>) -> Option<(int, int)> {
    if spec_parse_12h(s) is Some {
        spec_parse_12h(s)
    } else {
        spec_parse_24h(s)
    }
}

fn read_digit(s: &str, i: usize) -> (r: Option<u8>)
    requires
        i < s@.len(),
    ensures
        r is Some <==> is_digit(s@[i as int]),
        r is Some ==> r->0 as int == digit_val(s@[i as int]),
{
    let c = s.get_char(i);
    let cu = c as u32;
    if 48 <= cu && cu <= 57 {
        Some((cu - 48) as u8)
    } else {
        None
    }
}

#[verifier::loop_isolation(false)]
fn parse_hm_prefix(s: &str, len: usize) -> (r: Option<(u8, u8)>)
    requires
        len <= s@.len(),
    ensures
        r is Some <==> spec_parse_hm(s@.take(len as int)) is Some,
        r is Some ==> {
            let (h, m) = spec_parse_hm(s@.take(len as int))->0;
            (r->0).0 as int == h && (r->0).1 as int == m && h <= 99 && m <= 99
        },
{
    let ghost p = s@.take(len as int);
    proof {
        assert(forall|k: int| 0 <= k < len ==> p[k] == s@[k]);
    }
    if len == 4 {
        if s.get_char(1) == ':' {
            if let (Some(h), Some(m1), Some(m0)) = (
                read_digit(s, 0),
                read_digit(s, 2),
                read_digit(s, 3),
            ) {
                return Some((h, m1 * 10 + m0));
            }
        }
        None
    } else if len == 5 {
        if s.get_char(2) == ':' {
            if let (Some(h1), Some(h0), Some(m1), Some(m0)) = (
                read_digit(s, 0),
                read_digit(s, 1),
                read_digit(s, 3),
                read_digit(s, 4),
            ) {
                return Some((h1 * 10 + h0, m1 * 10 + m0));
            }
        }
        None
    } else {
        None
    }
}

/// Reads a configured time of day, trying the twelve-hour form with a
/// meridiem marker first and the twenty-four-hour form second.
pub fn parse_time_of_day(s: &str) -> (r: Option<TimeOfDay>)
    ensures
        r is Some <==> spec_parse_time(s@) is Some,
        r is Some ==> {
            let (h, m) = spec_parse_time(s@)->0;
            r->0.wf() && r->0.hour as int == h && r->0.minute as int == m
        },
{
    let n = s.unicode_len();
    if n >= 4 {
        let sp = s.get_char(n - 3);
        let per = s.get_char(n - 2);
        let mer = s.get_char(n - 1);
        if sp == ' ' && (per == 'A' || per == 'a' || per == 'P' || per == 'p') && (mer == 'M'
            || mer == 'm') {
            if let Some((h, m)) = parse_hm_prefix(s, n - 3) {
                if 1 <= h && h <= 12 && m <= 59 {
                    let pm = per == 'P' || per == 'p';
                    let h24 = if pm {
                        h % 12 + 12
                    } else {
                        h % 12
                    };
                    return Some(TimeOfDay::new(h24, m));
                }
            }
        }
    }
    proof {
        assert(s@.take(n as int) =~= s@);
    }
    if let Some((h, m)) = parse_hm_prefix(s, n) {
        if h <= 23 && m <= 59 {
            return Some(TimeOfDay::new(h, m));
        }
    }
    None
}

} // verus!
