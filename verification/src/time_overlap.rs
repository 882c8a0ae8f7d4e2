//! Wall-clock meeting times: parsing, rendering and the overlap predicate.
//!
//! A time of day is a number of seconds since midnight, below 86400.  The
//! textual forms accepted are `HH:MM:SS` and `HH:MM`, each field exactly two
//! digits, with hours below 24 and minutes and seconds below 60; `24:00` and
//! every other string are rejected.  Two meeting slots on the same weekday
//! overlap iff their half-open intervals `[start, end)` intersect.

use vstd::prelude::*;

verus! {

use vstd::arithmetic::div_mod::{lemma_fundamental_div_mod, lemma_div_denominator};

/// Seconds in one day; parsed times are strictly below this.
pub const SECONDS_PER_DAY: u32 = 86400;

pub open spec fn is_digit(c: char) -> bool {
    '0' as u32 <= c as u32 && c as u32 <= '9' as u32
}

/// Numeric value of a decimal digit character.
pub open spec fn digit_value(c: char) -> int {
    c as u32 - '0' as u32
}

/// Value of the two-digit field starting at position `i`.
pub open spec fn two_digit_value(s: Seq<char>, i: int) -> int {
    10 * digit_value(s[i]) + digit_value(s[i + 1])
}

/// `HH:MM:SS` with in-range fields.
pub open spec fn valid_hms(s: Seq<char>) -> bool {
    &&& s.len() == 8
    &&& is_digit(s[0]) && is_digit(s[1]) && s[2] == ':'
    &&& is_digit(s[3]) && is_digit(s[4]) && s[5] == ':'
    &&& is_digit(s[6]) && is_digit(s[7])
    &&& two_digit_value(s, 0) <= 23
    &&& two_digit_value(s, 3) <= 59
    &&& two_digit_value(s, 6) <= 59
}

/// `HH:MM` with in-range fields.
pub open spec fn valid_hm(s: Seq<char>) -> bool {
    &&& s.len() == 5
    &&& is_digit(s[0]) && is_digit(s[1]) && s[2] == ':'
    &&& is_digit(s[3]) && is_digit(s[4])
    &&& two_digit_value(s, 0) <= 23
    &&& two_digit_value(s, 3) <= 59
}

/// The time a well-formed string denotes, as seconds since midnight.
pub open spec fn time_seconds(s: Seq<char>) -> int {
    if valid_hms(s) {
        3600 * two_digit_value(s, 0) + 60 * two_digit_value(s, 3) + two_digit_value(s, 6)
    } else {
        3600 * two_digit_value(s, 0) + 60 * two_digit_value(s, 3)
    }
}

/// What `parse_time` returns: the denoted time for well-formed strings,
/// nothing for all others.
pub open spec fn parse_time_spec(s: Seq<char>) -> Option<int> {
    if valid_hms(s) || valid_hm(s) {
        Some(time_seconds(s))
    } else {
        None
    }
}

pub proof fn lemma_parse_time_in_range(s: Seq<char>)
    ensures
        parse_time_spec(s) matches Some(t) ==> 0 <= t < SECONDS_PER_DAY,
{
}

/// Reads one character and reports whether it is a decimal digit.
fn digit_of(s: &str, i: usize) -> (r: Option<u32>)
    requires
        i < s@.len(),
    ensures
        r matches Some(d) ==> is_digit(s@[i as int]) && d == digit_value(s@[i as int]),
        r is None ==> !is_digit(s@[i as int]),
{
    let c = s.get_char(i);
    let v = c as u32;
    if '0' as u32 <= v && v <= '9' as u32 {
        Some(v - '0' as u32)
    } else {
        None
    }
}

/// Parses `HH:MM:SS` or `HH:MM` into seconds since midnight; `None` for every
/// malformed or out-of-range string.
pub fn parse_time(s: &str) -> (r: Option<u32>)
    ensures
        r matches Some(t) ==> parse_time_spec(s@) == Some(t as int),
        r is None ==> parse_time_spec(s@) is None,
{
    let n = s.unicode_len();
    if n != 8 && n != 5 {
        return None;
    }
    let h1 = digit_of(s, 0);
    let h2 = digit_of(s, 1);
    let m1 = digit_of(s, 3);
    let m2 = digit_of(s, 4);
    if s.get_char(2) != ':' {
        return None;
    }
    match (h1, h2, m1, m2) {
        (Some(h1), Some(h2), Some(m1), Some(m2)) => {
            let hours = 10 * h1 + h2;
            let minutes = 10 * m1 + m2;
            if hours > 23 || minutes > 59 {
                return None;
            }
            if n == 5 {
                return Some(3600 * hours + 60 * minutes);
            }
            if s.get_char(5) != ':' {
                return None;
            }
            let s1 = digit_of(s, 6);
            let s2 = digit_of(s, 7);
            match (s1, s2) {
                (Some(s1), Some(s2)) => {
                    let seconds = 10 * s1 + s2;
                    if seconds > 59 {
                        return None;
                    }
                    Some(3600 * hours + 60 * minutes + seconds)
                },
                _ => None,
            }
        },
        _ => None,
    }
}

/// The decimal digit character for a value below ten.
pub open spec fn digit_char(d: int) -> char {
    if d == 0 {
        '0'
    } else if d == 1 {
        '1'
    } else if d == 2 {
        '2'
    } else if d == 3 {
        '3'
    } else if d == 4 {
        '4'
    } else if d == 5 {
        '5'
    } else if d == 6 {
        '6'
    } else if d == 7 {
        '7'
    } else if d == 8 {
        '8'
    } else {
        '9'
    }
}

pub proof fn lemma_digit_char(d: int)
    requires
        0 <= d < 10,
    ensures
        is_digit(digit_char(d)),
        digit_value(digit_char(d)) == d,
{
}

/// The canonical `HH:MM:SS` rendering of a time of day.
pub open spec fn format_time_spec(t: int) -> Seq<char> {
    let h = t / 3600;
    let m = (t / 60) % 60;
    let s = t % 60;
    seq![
        digit_char(h / 10),
        digit_char(h % 10),
        ':',
        digit_char(m / 10),
        digit_char(m % 10),
        ':',
        digit_char(s / 10),
        digit_char(s % 10),
    ]
}

pub(crate) fn digit_str(d: u32) -> (r: &'static str)
    requires
        d < 10,
    ensures
        r@ =~= seq![digit_char(d as int)],
{
    proof {
        reveal_strlit("0");
        reveal_strlit("1");
        reveal_strlit("2");
        reveal_strlit("3");
        reveal_strlit("4");
        reveal_strlit("5");
        reveal_strlit("6");
        reveal_strlit("7");
        reveal_strlit("8");
        reveal_strlit("9");
    }
    if d == 0 {
        "0"
    } else if d == 1 {
        "1"
    } else if d == 2 {
        "2"
    } else if d == 3 {
        "3"
    } else if d == 4 {
        "4"
    } else if d == 5 {
        "5"
    } else if d == 6 {
        "6"
    } else if d == 7 {
        "7"
    } else if d == 8 {
        "8"
    } else {
        "9"
    }
}

/// Renders a time of day as `HH:MM:SS`.
pub fn format_time(t: u32) -> (r: String)
    requires
        t < SECONDS_PER_DAY,
    ensures
        r@ == format_time_spec(t as int),
{
    let h = t / 3600;
    let m = (t / 60) % 60;
    let s = t % 60;
    proof {
        reveal_strlit(":");
    }
    let mut r = String::new();
    r.append(digit_str(h / 10));
    r.append(digit_str(h % 10));
    r.append(":");
    r.append(digit_str(m / 10));
    r.append(digit_str(m % 10));
    r.append(":");
    r.append(digit_str(s / 10));
    r.append(digit_str(s % 10));
    proof {
        assert(r@ =~= format_time_spec(t as int));
    }
    r
}

/// Rendering a time of day and parsing it back yields the same time.
pub proof fn lemma_time_round_trip(t: int)
    requires
        0 <= t < SECONDS_PER_DAY,
    ensures
        parse_time_spec(format_time_spec(t)) == Some(t),
{
    let h = t / 3600;
    let m = (t / 60) % 60;
    let s = t % 60;
    lemma_fundamental_div_mod(t, 60);
    lemma_fundamental_div_mod(t / 60, 60);
    lemma_div_denominator(t, 60, 60);
    lemma_fundamental_div_mod(h, 10);
    lemma_fundamental_div_mod(m, 10);
    lemma_fundamental_div_mod(s, 10);
    let sq = format_time_spec(t);
    lemma_digit_char(h / 10);
    lemma_digit_char(h % 10);
    lemma_digit_char(m / 10);
    lemma_digit_char(m % 10);
    lemma_digit_char(s / 10);
    lemma_digit_char(s % 10);
    assert(two_digit_value(sq, 0) == h);
    assert(two_digit_value(sq, 3) == m);
    assert(two_digit_value(sq, 6) == s);
    assert(valid_hms(sq));
    assert(time_seconds(sq) == t);
}

/// Half-open intervals `[start_a, end_a)` and `[start_b, end_b)` intersect.
pub open spec fn intervals_overlap(start_a: int, end_a: int, start_b: int, end_b: int) -> bool {
    start_a < end_b && start_b < end_a
}

/// Whether the half-open interval of one slot intersects the other's,
/// both on the same weekday.
pub fn times_overlap(start_a: u32, end_a: u32, start_b: u32, end_b: u32) -> (r: bool)
    ensures
        r == intervals_overlap(start_a as int, end_a as int, start_b as int, end_b as int),
{
    start_a < end_b && start_b < end_a
}

} // verus!
