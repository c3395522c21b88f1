//! The syntax of time-annotated texts: a date, an optional time of day and
//! a time system suffix (`UTC`, `TDB`, `TT`, `TAI`, in any case).

use vstd::prelude::*;
use crate::text::{chars_eq, chars_of, last_index_of, rfind_char, split_chars, split_spec, string_from_chars, sub_chars, trim_chars, trim_spec, uppercase, views};
use crate::units::parse::{digits_value, spec_parse_int, unsigned_part};
use crate::xlsx::{spec_parse_uint, parse_usize};

verus! {

/// The time system of an epoch.
#[derive(Debug, Clone, Copy, PartialEq, Eq, Structural)]
pub enum TimeSystem {
    Utc,
    Tdb,
    Tt,
    Tai,
}

/// The time system an upper-cased suffix names.
pub open spec fn system_named(s: Seq<char>) -> Option<TimeSystem> {
    if s == seq!['U', 'T', 'C'] { Some(TimeSystem::Utc) }
    else if s == seq!['T', 'D', 'B'] { Some(TimeSystem::Tdb) }
    else if s == seq!['T', 'T'] { Some(TimeSystem::Tt) }
    else if s == seq!['T', 'A', 'I'] { Some(TimeSystem::Tai) }
    else { None }
}

/// The date part and time system of a text: the text before its last
/// space and the system the rest names, upper-cased.
pub open spec fn spec_extract_time_system(s: Seq<char>) -> Option<(Seq<char>, TimeSystem)> {
    let i = last_index_of(s, ' ');
    if i < 0 {
        None
    } else {
        match system_named(uppercase(s.skip(i + 1))) {
            Some(sys) => Some((s.take(i), sys)),
            None => None,
        }
    }
}

fn system_named_exec(s: &[char]) -> (res: Option<TimeSystem>)
    ensures
        res == system_named(s@),
{
    let utc: [char; 3] = ['U', 'T', 'C'];
    let tdb: [char; 3] = ['T', 'D', 'B'];
    let tt: [char; 2] = ['T', 'T'];
    let tai: [char; 3] = ['T', 'A', 'I'];
    assert(utc@ == seq!['U', 'T', 'C'] && tdb@ == seq!['T', 'D', 'B'] && tt@ == seq!['T', 'T'] && tai@ == seq!['T', 'A', 'I']);
    if chars_eq(s, &utc) { Some(TimeSystem::Utc) }
    else if chars_eq(s, &tdb) { Some(TimeSystem::Tdb) }
    else if chars_eq(s, &tt) { Some(TimeSystem::Tt) }
    else if chars_eq(s, &tai) { Some(TimeSystem::Tai) }
    else { None }
}

/// Extracts the time system suffix of a text, with the date part before it.
pub fn extract_time_system(s: &str) -> (res: Option<(String, TimeSystem)>)
    ensures
        match res {
            Some((d, sys)) => spec_extract_time_system(s@) == Some((d@, sys)),
            None => spec_extract_time_system(s@) is None,
        },
        last_index_of(s@, ' ') >= 0 && crate::text::all_ascii(s@.skip(last_index_of(s@, ' ') + 1))
            ==> uppercase(s@.skip(last_index_of(s@, ' ') + 1))
                == s@.skip(last_index_of(s@, ' ') + 1).map_values(|c: char| crate::text::ascii_upper(c)),
{
    let c = chars_of(s);
    match rfind_char(c.as_slice(), ' ') {
        None => None,
        Some(i) => {
            proof { crate::text::lemma_last_index_of(c@, ' '); }
            let suffix = sub_chars(c.as_slice(), i + 1, c.len());
            assert(suffix@ == c@.skip(i + 1));
            let up = crate::text::to_uppercase(string_from_chars(suffix.as_slice()).as_str());
            match system_named_exec(chars_of(up.as_str()).as_slice()) {
                Some(sys) => {
                    let d = sub_chars(c.as_slice(), 0, i);
                    assert(d@ == c@.take(i as int));
                    Some((string_from_chars(d.as_slice()), sys))
                },
                None => None,
            }
        },
    }
}

/// The date part and time system of an epoch text: the text trimmed, its
/// suffix taken off, and the rest trimmed again.
pub open spec fn spec_split_epoch(s: Seq<char>) -> Option<(Seq<char>, TimeSystem)> {
    match spec_extract_time_system(trim_spec(s)) {
        Some((d, sys)) => Some((trim_spec(d), sys)),
        None => None,
    }
}

/// Splits an epoch text into its date part and its time system; none when
/// it has no time system suffix (it is then not an epoch).
pub fn split_epoch(s: &str) -> (res: Option<(String, TimeSystem)>)
    ensures
        match res {
            Some((d, sys)) => spec_split_epoch(s@) == Some((d@, sys)),
            None => spec_split_epoch(s@) is None,
        },
        last_index_of(trim_spec(s@), ' ') >= 0 && crate::text::all_ascii(trim_spec(s@).skip(last_index_of(trim_spec(s@), ' ') + 1))
            ==> uppercase(trim_spec(s@).skip(last_index_of(trim_spec(s@), ' ') + 1))
                == trim_spec(s@).skip(last_index_of(trim_spec(s@), ' ') + 1).map_values(|c: char| crate::text::ascii_upper(c)),
{
    let t = string_from_chars(trim_chars(chars_of(s).as_slice()).as_slice());
    match extract_time_system(t.as_str()) {
        Some((d, sys)) => Some((string_from_chars(trim_chars(chars_of(d.as_str()).as_slice()).as_slice()), sys)),
        None => None,
    }
}

/// A leap year of the Gregorian calendar.
pub open spec fn is_leap(year: int) -> bool {
    (year % 4 == 0 && year % 100 != 0) || year % 400 == 0
}

/// The number of days of a month, 0 for a number that is no month.
pub open spec fn spec_days_in_month(year: int, month: int) -> int {
    if month == 1 || month == 3 || month == 5 || month == 7 || month == 8 || month == 10 || month == 12 {
        31
    } else if month == 4 || month == 6 || month == 9 || month == 11 {
        30
    } else if month == 2 {
        if is_leap(year) { 29 } else { 28 }
    } else {
        0
    }
}

/// The number of days in a month, accounting for leap years.
pub fn days_in_month(year: i32, month: u32) -> (res: u32)
    ensures
        res as int == spec_days_in_month(year as int, month as int),
{
    match month {
        1 | 3 | 5 | 7 | 8 | 10 | 12 => 31,
        4 | 6 | 9 | 11 => 30,
        2 => {
            if (year % 4 == 0 && year % 100 != 0) || year % 400 == 0 {
                29
            } else {
                28
            }
        },
        _ => 0,
    }
}

/// A day of a month of a year.
pub open spec fn spec_valid_date(year: int, month: int, day: int) -> bool {
    1 <= month <= 12 && 1 <= day <= spec_days_in_month(year, month)
}

/// Whether (year, month, day) is a date: a month from 1 to 12 and a day
/// of that month.
pub fn is_valid_date(year: i32, month: u32, day: u32) -> (res: bool)
    ensures
        res == spec_valid_date(year as int, month as int, day as int),
{
    1 <= month && month <= 12 && day >= 1 && day <= days_in_month(year, month)
}

/// The month an upper-cased abbreviation names.
pub open spec fn month_named(s: Seq<char>) -> Option<int> {
    if s == seq!['J', 'A', 'N'] { Some(1) }
    else if s == seq!['F', 'E', 'B'] { Some(2) }
    else if s == seq!['M', 'A', 'R'] { Some(3) }
    else if s == seq!['A', 'P', 'R'] { Some(4) }
    else if s == seq!['M', 'A', 'Y'] { Some(5) }
    else if s == seq!['J', 'U', 'N'] { Some(6) }
    else if s == seq!['J', 'U', 'L'] { Some(7) }
    else if s == seq!['A', 'U', 'G'] { Some(8) }
    else if s == seq!['S', 'E', 'P'] { Some(9) }
    else if s == seq!['O', 'C', 'T'] { Some(10) }
    else if s == seq!['N', 'O', 'V'] { Some(11) }
    else if s == seq!['D', 'E', 'C'] { Some(12) }
    else { None }
}

/// The month a three-letter abbreviation names, in any case.
pub fn month_from_name(name: &str) -> (res: Option<u32>)
    ensures
        match res {
            Some(m) => month_named(uppercase(name@)) == Some(m as int),
            None => month_named(uppercase(name@)) is None,
        },
        crate::text::all_ascii(name@) ==> uppercase(name@) == name@.map_values(|c: char| crate::text::ascii_upper(c)),
{
    let up = crate::text::to_uppercase(name);
    let u = chars_of(up.as_str());
    let names: [[char; 3]; 12] = [
        ['J', 'A', 'N'], ['F', 'E', 'B'], ['M', 'A', 'R'], ['A', 'P', 'R'], ['M', 'A', 'Y'], ['J', 'U', 'N'],
        ['J', 'U', 'L'], ['A', 'U', 'G'], ['S', 'E', 'P'], ['O', 'C', 'T'], ['N', 'O', 'V'], ['D', 'E', 'C'],
    ];
    let mut i: usize = 0;
    while i < 12
        invariant
            i <= 12,
            u@ == uppercase(name@),
            crate::text::all_ascii(name@) ==> uppercase(name@) == name@.map_values(|c: char| crate::text::ascii_upper(c)),
            names@[0]@ == seq!['J', 'A', 'N'] && names@[1]@ == seq!['F', 'E', 'B'] && names@[2]@ == seq!['M', 'A', 'R'],
            names@[3]@ == seq!['A', 'P', 'R'] && names@[4]@ == seq!['M', 'A', 'Y'] && names@[5]@ == seq!['J', 'U', 'N'],
            names@[6]@ == seq!['J', 'U', 'L'] && names@[7]@ == seq!['A', 'U', 'G'] && names@[8]@ == seq!['S', 'E', 'P'],
            names@[9]@ == seq!['O', 'C', 'T'] && names@[10]@ == seq!['N', 'O', 'V'] && names@[11]@ == seq!['D', 'E', 'C'],
            forall|j: int| 0 <= j < i ==> u@ != names@[j]@,
        decreases 12 - i,
    {
        if chars_eq(u.as_slice(), &names[i]) {
            return Some((i + 1) as u32);
        }
        i = i + 1;
    }
    None
}

/// The number of bytes a character takes in UTF-8.
pub open spec fn utf8_width(c: char) -> int {
    if (c as u32) < 0x80 { 1 } else if (c as u32) < 0x800 { 2 } else if (c as u32) < 0x10000 { 3 } else { 4 }
}

/// The length of a text in UTF-8 bytes, which `str::len` gives.
pub open spec fn utf8_len(s: Seq<char>) -> int
    decreases s.len(),
{
    if s.len() == 0 { 0 } else { utf8_len(s.drop_last()) + utf8_width(s.last()) }
}

proof fn lemma_utf8_len_grows(s: Seq<char>, k: int)
    requires
        0 <= k <= s.len(),
    ensures
        utf8_len(s.take(k)) <= utf8_len(s),
        utf8_len(s.take(k)) >= k,
    decreases s.len(),
{
    if k == s.len() {
        assert(s.take(k) == s);
        lemma_utf8_len_ge(s);
    } else {
        lemma_utf8_len_grows(s.drop_last(), k);
        assert(s.drop_last().take(k) == s.take(k));
    }
}

proof fn lemma_utf8_len_ge(s: Seq<char>)
    ensures
        utf8_len(s) >= s.len(),
    decreases s.len(),
{
    if s.len() > 0 {
        lemma_utf8_len_ge(s.drop_last());
    }
}

/// The UTF-8 length of a text, or `None` once it exceeds `limit`.
fn utf8_len_upto(s: &[char], limit: usize) -> (res: Option<usize>)
    ensures
        match res {
            Some(n) => n as int == utf8_len(s@) && n <= limit,
            None => utf8_len(s@) > limit,
        },
{
    let mut n: usize = 0;
    let mut i: usize = 0;
    while i < s.len()
        invariant
            i <= s.len(),
            n <= limit,
            n as int == utf8_len(s@.take(i as int)),
        decreases s.len() - i,
    {
        assert(s@.take(i + 1).drop_last() == s@.take(i as int));
        let c = s[i];
        let w: usize = if (c as u32) < 0x80 { 1 } else if (c as u32) < 0x800 { 2 } else if (c as u32) < 0x10000 { 3 } else { 4 };
        if w > limit - n {
            proof { lemma_utf8_len_grows(s@, i + 1); }
            return None;
        }
        n = n + w;
        i = i + 1;
    }
    assert(s@.take(s.len() as int) == s@);
    Some(n)
}

/// `str::parse::<u32>`: the number the text denotes, if it is one and fits.
pub fn parse_u32(text: &str) -> (res: Option<u32>)
    ensures
        match res {
            Some(v) => spec_parse_uint(text@) == Some(v as int),
            None => match spec_parse_uint(text@) {
                Some(n) => n > u32::MAX,
                None => true,
            },
        },
{
    match parse_usize(text) {
        Some(v) => if v <= 0xffff_ffff { Some(v as u32) } else { None },
        None => None,
    }
}

/// `str::parse::<i32>`: the integer the text denotes, if it is one and fits.
#[verifier::loop_isolation(false)]
pub fn parse_i32(text: &str) -> (res: Option<i32>)
    ensures
        match res {
            Some(v) => spec_parse_int(text@) == Some(v as int),
            None => match spec_parse_int(text@) {
                Some(n) => n < i32::MIN || n > i32::MAX,
                None => true,
            },
        },
{
    let s = chars_of(text);
    if s.len() == 0 {
        return None;
    }
    let neg = s[0] == '-';
    let start: usize = if s[0] == '-' || s[0] == '+' { 1 } else { 0 };
    let digits = sub_chars(s.as_slice(), start, s.len());
    assert(digits@ == unsigned_part(text@));
    if digits.len() == 0 {
        return None;
    }
    let mut k: usize = 0;
    while k < digits.len()
        invariant
            k <= digits.len(),
            forall|m: int| 0 <= m < k ==> crate::text::is_digit(#[trigger] digits@[m]),
        decreases digits.len() - k,
    {
        if !('0' <= digits[k] && digits[k] <= '9') {
            assert(!crate::text::is_digit(digits@[k as int]));
            return None;
        }
        k = k + 1;
    }
    let mut acc: i64 = 0;
    let mut j: usize = 0;
    while j < digits.len()
        invariant
            j <= digits.len(),
            forall|m: int| 0 <= m < digits.len() ==> crate::text::is_digit(#[trigger] digits@[m]),
            acc as int == digits_value(digits@.take(j as int)),
            0 <= acc <= 0x8000_0000,
        decreases digits.len() - j,
    {
        assert(digits@.take(j + 1).drop_last() == digits@.take(j as int));
        assert(crate::text::is_digit(digits@[j as int]));
        let d: i64 = (digits[j] as u32 - '0' as u32) as i64;
        let next = acc * 10 + d;
        assert(digits_value(digits@.take(j + 1)) == next as int);
        if next > 0x8000_0000 {
            proof { crate::units::parse::lemma_digits_grow(digits@, j + 1); }
            return None;
        }
        acc = next;
        j = j + 1;
    }
    assert(digits@.take(digits.len() as int) == digits@);
    if neg {
        Some((-acc) as i32)
    } else if acc > 0x7fff_ffff {
        None
    } else {
        Some(acc as i32)
    }
}

/// The date of a SPICE-style text (`12-DEC-2030` or `2030-JUN-15`): three
/// `-`-separated fields with a month abbreviation in the middle; day and
/// year told apart by their lengths in bytes (at most 2 and exactly 4, in
/// either order); the day must be a day of that month.
pub open spec fn spec_spice_date(date: Seq<char>) -> Option<(int, int, int)> {
    let segs = split_spec(date, '-');
    if segs.len() != 3 {
        None
    } else {
        match month_named(uppercase(segs[1])) {
            None => None,
            Some(month) => {
                let dy: Option<(Seq<char>, Seq<char>)> = if utf8_len(segs[0]) <= 2 && utf8_len(segs[2]) == 4 {
                    Some((segs[0], segs[2]))
                } else if utf8_len(segs[0]) == 4 && utf8_len(segs[2]) <= 2 {
                    Some((segs[2], segs[0]))
                } else {
                    None
                };
                match dy {
                    None => None,
                    Some((d, y)) => match (spec_parse_uint(d), spec_parse_int(y)) {
                        (Some(day), Some(year)) => if day <= u32::MAX && i32::MIN <= year <= i32::MAX
                            && 1 <= day <= spec_days_in_month(year, month) {
                            Some((year, month, day))
                        } else {
                            None
                        },
                        _ => None,
                    },
                }
            },
        }
    }
}

/// The value of an ASCII digit.
pub open spec fn digit_value(c: char) -> int {
    c as int - '0' as int
}

/// The number a text of one or two ASCII digits writes.
pub open spec fn short_number(t: Seq<char>) -> int {
    if t.len() == 1 { digit_value(t[0]) } else { 10 * digit_value(t[0]) + digit_value(t[1]) }
}

/// The number a text of four ASCII digits writes.
pub open spec fn four_digit_number(t: Seq<char>) -> int {
    1000 * digit_value(t[0]) + 100 * digit_value(t[1]) + 10 * digit_value(t[2]) + digit_value(t[3])
}

proof fn lemma_digit_text(t: Seq<char>)
    requires
        1 <= t.len() <= 4,
        forall|k: int| 0 <= k < t.len() ==> crate::text::is_digit(#[trigger] t[k]),
    ensures
        utf8_len(t) == t.len(),
        !t.contains('-'),
        t.len() <= 2 ==> spec_parse_uint(t) == Some(short_number(t)),
        t.len() == 4 ==> spec_parse_int(t) == Some(four_digit_number(t)),
{
    assert forall|k: int| 0 <= k < t.len() implies utf8_width(#[trigger] t[k]) == 1 by {
        assert(crate::text::is_digit(t[k]));
    }
    let t1 = t.take(1);
    let t2 = t.take(2);
    let t3 = t.take(3);
    assert(t1.drop_last() =~= Seq::<char>::empty());
    assert(t1.last() == t[0]);
    assert(utf8_len(Seq::<char>::empty()) == 0);
    assert(digits_value(Seq::<char>::empty()) == 0);
    assert('0' <= t[0] <= '9');
    assert((t[0] as u32) < 0x80);
    assert(utf8_width(t[0]) == 1);
    assert(utf8_len(t1) == utf8_len(t1.drop_last()) + utf8_width(t1.last()));
    assert(utf8_len(t1) == 1);
    if t.len() >= 2 {
        assert(t2.drop_last() =~= t1);
        assert(t2.last() == t[1]);
        assert(utf8_len(t2) == 2);
    }
    if t.len() >= 3 {
        assert(t3.drop_last() =~= t2);
        assert(t3.last() == t[2]);
        assert(utf8_len(t3) == 3);
    }
    if t.len() == 1 { assert(t =~= t1); }
    if t.len() == 2 { assert(t =~= t2); }
    if t.len() == 3 { assert(t =~= t3); }
    if t.len() == 4 {
        assert(t.drop_last() =~= t3);
        assert(t.last() == t[3]);
    }
    assert(!t.contains('-')) by {
        if t.contains('-') {
            let k = choose|k: int| 0 <= k < t.len() && t[k] == '-';
            assert(crate::text::is_digit(t[k]));
        }
    }
    assert(digits_value(t1) == digit_value(t[0]));
    if t.len() <= 2 {
        assert(crate::xlsx::uint_digits(t) == t);
        if t.len() == 1 {
            assert(t =~= t1);
        } else {
            assert(t.drop_last() =~= t1);
        }
    }
    if t.len() == 4 {
        assert(unsigned_part(t) == t);
        assert(digits_value(t2) == 10 * digit_value(t[0]) + digit_value(t[1]));
        assert(digits_value(t3) == 100 * digit_value(t[0]) + 10 * digit_value(t[1]) + digit_value(t[2]));
    }
}

/// A SPICE date reads in either order, day first (`5-JUN-2030`) or year
/// first (`2030-JUN-5`), the day written with one digit or two and the year
/// with four, the month field any text that names a month: the date is
/// that day of that month of that year, whenever the day is one of the
/// month.
pub proof fn lemma_spice_date_fields(day: Seq<char>, mon: Seq<char>, year: Seq<char>, month: int)
    requires
        1 <= day.len() <= 2,
        forall|k: int| 0 <= k < day.len() ==> crate::text::is_digit(#[trigger] day[k]),
        year.len() == 4,
        forall|k: int| 0 <= k < year.len() ==> crate::text::is_digit(#[trigger] year[k]),
        !mon.contains('-'),
        month_named(uppercase(mon)) == Some(month),
        1 <= short_number(day) <= spec_days_in_month(four_digit_number(year), month),
    ensures
        spec_spice_date(day + seq!['-'] + mon + seq!['-'] + year)
            == Some((four_digit_number(year), month, short_number(day))),
        spec_spice_date(year + seq!['-'] + mon + seq!['-'] + day)
            == Some((four_digit_number(year), month, short_number(day))),
{
    lemma_digit_text(day);
    lemma_digit_text(year);
    crate::text::lemma_split_three(day, mon, year, '-');
    crate::text::lemma_split_three(year, mon, day, '-');
    let d1 = day + seq!['-'] + mon + seq!['-'] + year;
    let d2 = year + seq!['-'] + mon + seq!['-'] + day;
    assert(split_spec(d1, '-')[1] == mon);
    assert(split_spec(d2, '-')[1] == mon);
}

/// A SPICE date is always a real calendar date: its month is one of the
/// twelve and its day one of that month's days in that year.
pub proof fn lemma_spice_date_valid(date: Seq<char>)
    ensures
        spec_spice_date(date) matches Some((y, m, d)) ==> 1 <= m <= 12 && 1 <= d <= spec_days_in_month(y, m),
{
}

/// Parses the date of a SPICE-style text into (year, month, day).
pub fn spice_date(date: &str) -> (res: Option<(i32, u32, u32)>)
    ensures
        match res {
            Some((y, m, d)) => spec_spice_date(date@) == Some((y as int, m as int, d as int)),
            None => spec_spice_date(date@) is None,
        },
        split_spec(date@, '-').len() == 3 && crate::text::all_ascii(split_spec(date@, '-')[1])
            ==> uppercase(split_spec(date@, '-')[1]) == split_spec(date@, '-')[1].map_values(|c: char| crate::text::ascii_upper(c)),
{
    let segs = split_chars(chars_of(date).as_slice(), '-');
    assert(segs@.map_values(|v: Vec<char>| v@) == views(segs@));
    if segs.len() != 3 {
        return None;
    }
    let month = match month_from_name(string_from_chars(segs[1].as_slice()).as_str()) {
        Some(m) => m,
        None => return None,
    };
    let l0 = utf8_len_upto(segs[0].as_slice(), 4);
    let l2 = utf8_len_upto(segs[2].as_slice(), 4);
    let (d, y) = match (l0, l2) {
        (Some(a), Some(b)) => {
            if a <= 2 && b == 4 {
                (&segs[0], &segs[2])
            } else if a == 4 && b <= 2 {
                (&segs[2], &segs[0])
            } else {
                return None;
            }
        },
        _ => return None,
    };
    let day = match parse_u32(string_from_chars(d.as_slice()).as_str()) {
        Some(v) => v,
        None => return None,
    };
    let year = match parse_i32(string_from_chars(y.as_slice()).as_str()) {
        Some(v) => v,
        None => return None,
    };
    if day < 1 || day > days_in_month(year, month) {
        return None;
    }
    Some((year, month, day))
}

/// The hour and minute of a time of day `HH:MM[:SS...]`, with the text of
/// its seconds field when it has one: at least two `:`-separated fields,
/// an hour up to 23 and a minute up to 59. Fields after the third are
/// ignored.
pub open spec fn spec_time_fields(s: Seq<char>) -> Option<(int, int, Option<Seq<char>>)> {
    let parts = split_spec(s, ':');
    if parts.len() < 2 {
        None
    } else {
        match (spec_parse_uint(parts[0]), spec_parse_uint(parts[1])) {
            (Some(h), Some(m)) => if h <= 23 && m <= 59 {
                Some((h, m, if parts.len() > 2 { Some(parts[2]) } else { None }))
            } else {
                None
            },
            _ => None,
        }
    }
}

/// Reads the hour, minute and seconds text of a time of day.
pub fn time_fields(s: &str) -> (res: Option<(u32, u32, Option<String>)>)
    ensures
        match res {
            Some((h, m, sec)) => spec_time_fields(s@) == Some((h as int, m as int, match sec { Some(x) => Some(x@), None => None })),
            None => spec_time_fields(s@) is None,
        },
{
    let parts = split_chars(chars_of(s).as_slice(), ':');
    assert(parts@.map_values(|v: Vec<char>| v@) == views(parts@));
    if parts.len() < 2 {
        return None;
    }
    let h = parse_u32(string_from_chars(parts[0].as_slice()).as_str());
    let m = parse_u32(string_from_chars(parts[1].as_slice()).as_str());
    match (h, m) {
        (Some(h), Some(m)) => {
            if h <= 23 && m <= 59 {
                let sec = if parts.len() > 2 { Some(string_from_chars(parts[2].as_slice())) } else { None };
                Some((h, m, sec))
            } else {
                None
            }
        },
        _ => None,
    }
}

} // verus!

verus! {

/// The parts of an ISO 8601 text `YYYY-MM-DD[(T| )time]`: year, month, day,
/// and the time text after the separator when the text goes on. The first
/// ten characters must be ASCII (positions are byte positions in UTF-8, and
/// a text whose first ten bytes are not all ASCII characters holds no such
/// date); the year is a signed four-character integer, month and day
/// two-character unsigned integers, separated by `-`; the date must exist.
pub open spec fn spec_iso_date(s: Seq<char>) -> Option<(int, int, int, Option<Seq<char>>)> {
    if s.len() < 10 || !crate::text::all_ascii(s.take(10)) {
        None
    } else {
        match (spec_parse_int(s.subrange(0, 4)), spec_parse_uint(s.subrange(5, 7)), spec_parse_uint(s.subrange(8, 10))) {
            (Some(y), Some(m), Some(d)) => if s[4] == '-' && s[7] == '-' && spec_valid_date(y, m, d) {
                if s.len() == 10 {
                    Some((y, m, d, None))
                } else if s[10] == 'T' || s[10] == ' ' {
                    Some((y, m, d, Some(s.skip(11))))
                } else {
                    None
                }
            } else {
                None
            },
            _ => None,
        }
    }
}

/// Reads the date of an ISO 8601 text and the text of its time of day.
pub fn iso_date(s: &str) -> (res: Option<(i32, u32, u32, Option<String>)>)
    ensures
        match res {
            Some((y, m, d, t)) => spec_iso_date(s@) == Some((y as int, m as int, d as int, match t { Some(x) => Some(x@), None => None })),
            None => spec_iso_date(s@) is None,
        },
{
    let c = chars_of(s);
    if c.len() < 10 {
        return None;
    }
    let mut k: usize = 0;
    while k < 10
        invariant
            k <= 10 <= c@.len(),
            c@ == s@,
            forall|j: int| 0 <= j < k ==> (#[trigger] c@[j] as u32) < 128,
        decreases 10 - k,
    {
        if (c[k] as u32) >= 128 {
            assert(c@.take(10)[k as int] == c@[k as int]);
            assert((c@.take(10)[k as int] as u32) >= 128);
            assert(!crate::text::all_ascii(c@.take(10)));
            return None;
        }
        k = k + 1;
    }
    assert(crate::text::all_ascii(c@.take(10))) by {
        assert forall|j: int| 0 <= j < 10 implies (#[trigger] c@.take(10)[j] as u32) < 128 by {
            assert(c@.take(10)[j] == c@[j]);
        }
    }
    let ys = string_from_chars(sub_chars(c.as_slice(), 0, 4).as_slice());
    let ms = string_from_chars(sub_chars(c.as_slice(), 5, 7).as_slice());
    let ds = string_from_chars(sub_chars(c.as_slice(), 8, 10).as_slice());
    let y = parse_i32(ys.as_str());
    let m = parse_u32(ms.as_str());
    let d = parse_u32(ds.as_str());
    proof {
        lemma_short_fits(s@.subrange(0, 4));
        lemma_short_fits_uint(s@.subrange(5, 7));
        lemma_short_fits_uint(s@.subrange(8, 10));
    }
    match (y, m, d) {
        (Some(y), Some(m), Some(d)) => {
            if !(c[4] == '-' && c[7] == '-' && is_valid_date(y, m, d)) {
                return None;
            }
            if c.len() == 10 {
                Some((y, m, d, None))
            } else if c[10] == 'T' || c[10] == ' ' {
                Some((y, m, d, Some(string_from_chars(sub_chars(c.as_slice(), 11, c.len()).as_slice()))))
            } else {
                None
            }
        },
        _ => None,
    }
}

proof fn lemma_short_fits(t: Seq<char>)
    requires
        t.len() == 4,
    ensures
        spec_parse_int(t) matches Some(v) ==> i32::MIN <= v <= i32::MAX,
{
    if spec_parse_int(t) is Some {
        let digits = unsigned_part(t);
        assert(digits.len() <= 4);
        lemma_digits_bound(digits);
    }
}

proof fn lemma_short_fits_uint(t: Seq<char>)
    requires
        t.len() == 2,
    ensures
        spec_parse_uint(t) matches Some(v) ==> v <= u32::MAX,
{
    if spec_parse_uint(t) is Some {
        let digits = crate::xlsx::uint_digits(t);
        assert(digits.len() <= 2);
        lemma_digits_bound(digits);
    }
}

spec fn ten_pow(n: nat) -> int
    decreases n,
{
    if n == 0 { 1 } else { 10 * ten_pow((n - 1) as nat) }
}

proof fn lemma_digits_below_pow(digits: Seq<char>)
    requires
        forall|k: int| 0 <= k < digits.len() ==> crate::text::is_digit(#[trigger] digits[k]),
    ensures
        0 <= digits_value(digits) < ten_pow(digits.len()),
    decreases digits.len(),
{
    if digits.len() > 0 {
        let pre = digits.drop_last();
        assert forall|k: int| 0 <= k < pre.len() implies crate::text::is_digit(#[trigger] pre[k]) by {
            assert(pre[k] == digits[k]);
        }
        lemma_digits_below_pow(pre);
        assert(crate::text::is_digit(digits[digits.len() - 1]));
    }
}

proof fn lemma_digits_bound(digits: Seq<char>)
    requires
        digits.len() <= 4,
        forall|k: int| 0 <= k < digits.len() ==> crate::text::is_digit(#[trigger] digits[k]),
    ensures
        0 <= digits_value(digits) < 10000,
{
    lemma_digits_below_pow(digits);
    reveal_with_fuel(ten_pow, 5);
    assert(ten_pow(digits.len()) <= 10000);
}

/// A SPICE-style text split at its first space: the date before it and the
/// time of day after it, if there is a space.
pub open spec fn spec_split_first_space(s: Seq<char>) -> (Seq<char>, Option<Seq<char>>) {
    match crate::text::find_spec(s, seq![' ']) {
        Some(i) => (s.take(i), Some(s.skip(i + 1))),
        None => (s, None),
    }
}

/// Computes `spec_split_first_space`.
pub fn split_first_space(s: &str) -> (res: (String, Option<String>))
    ensures
        res.0@ == spec_split_first_space(s@).0,
        match res.1 { Some(t) => spec_split_first_space(s@).1 == Some(t@), None => spec_split_first_space(s@).1 is None },
{
    let c = chars_of(s);
    let sp: [char; 1] = [' '];
    let spv: &[char] = &sp;
    assert(spv@ == seq![' ']);
    match crate::text::find_chars(c.as_slice(), spv) {
        Some(i) => {
            proof { crate::text::lemma_find_bound(c@, spv@); }
            assert(crate::text::find_spec(c@, spv@) == Some(i as int));
            assert(i + 1 <= c@.len());
            assert(c@.len() == c.len());
            let d = string_from_chars(sub_chars(c.as_slice(), 0, i).as_slice());
            let t = string_from_chars(sub_chars(c.as_slice(), i + 1, c.len()).as_slice());
            (d, Some(t))
        },
        None => (string_from_chars(c.as_slice()), None),
    }
}

} // verus!
