//! The leap second table: the whole seconds by which TAI is ahead of UTC,
//! from 1972-01-01 on.

use vstd::prelude::*;

verus! {

/// The table: each entry is the date (year, month, day) from which TAI-UTC
/// has the given number of seconds, in date order. The last leap second was
/// introduced on 2017-01-01.
pub open spec fn leap_table() -> Seq<(int, int, int, int)> {
    seq![
        (1972, 1, 1, 10), (1972, 7, 1, 11), (1973, 1, 1, 12), (1974, 1, 1, 13), (1975, 1, 1, 14),
        (1976, 1, 1, 15), (1977, 1, 1, 16), (1978, 1, 1, 17), (1979, 1, 1, 18), (1980, 1, 1, 19),
        (1981, 7, 1, 20), (1982, 7, 1, 21), (1983, 7, 1, 22), (1985, 7, 1, 23), (1988, 1, 1, 24),
        (1990, 1, 1, 25), (1991, 1, 1, 26), (1992, 7, 1, 27), (1993, 7, 1, 28), (1994, 7, 1, 29),
        (1996, 1, 1, 30), (1997, 7, 1, 31), (1999, 1, 1, 32), (2006, 1, 1, 33), (2009, 1, 1, 34),
        (2012, 7, 1, 35), (2015, 7, 1, 36), (2017, 1, 1, 37)
    ]
}

/// The date (y, m, d) is on or after the date (ey, em, ed), comparing year,
/// then month, then day.
pub open spec fn date_on_or_after(y: int, m: int, d: int, ey: int, em: int, ed: int) -> bool {
    y > ey || (y == ey && (m > em || (m == em && d >= ed)))
}

/// Scans the table from entry `i` on with `acc` the offset found so far:
/// each entry on or before the date gives its offset; the first entry after
/// the date ends the scan. As the table is in date order, the result is the
/// offset of the latest entry on or before the date.
pub open spec fn scan_offsets(t: Seq<(int, int, int, int)>, i: int, acc: Option<int>, y: int, m: int, d: int) -> Option<int>
    decreases t.len() - i,
{
    if i < 0 || i >= t.len() {
        acc
    } else if date_on_or_after(y, m, d, t[i].0, t[i].1, t[i].2) {
        scan_offsets(t, i + 1, Some(t[i].3), y, m, d)
    } else {
        acc
    }
}

/// TAI-UTC in whole seconds on a date: the offset of the latest table entry
/// on or before the date, none before 1972-01-01.
pub open spec fn spec_tai_utc_offset(y: int, m: int, d: int) -> Option<int> {
    scan_offsets(leap_table(), 0, None, y, m, d)
}

proof fn lemma_scan_keeps_some(t: Seq<(int, int, int, int)>, i: int, a: int, y: int, m: int, d: int)
    ensures
        scan_offsets(t, i, Some(a), y, m, d) is Some,
    decreases t.len() - i,
{
    if 0 <= i < t.len() && date_on_or_after(y, m, d, t[i].0, t[i].1, t[i].2) {
        lemma_scan_keeps_some(t, i + 1, t[i].3, y, m, d);
    }
}

/// TAI-UTC is known exactly from 1972-01-01 on: dates before it cannot be
/// taken to UTC.
pub proof fn lemma_offset_known_from_1972(y: int, m: int, d: int)
    ensures
        spec_tai_utc_offset(y, m, d) is Some <==> date_on_or_after(y, m, d, 1972, 1, 1),
{
    let t = leap_table();
    if date_on_or_after(y, m, d, 1972, 1, 1) {
        lemma_scan_keeps_some(t, 1, 10, y, m, d);
    }
}

/// A calendar date as one number, `yyyymmdd`, ordered as dates are.
pub open spec fn date_key(y: int, m: int, d: int) -> int {
    y * 10000 + m * 100 + d
}

/// TAI-UTC on every date, as the IERS leap second list gives it: 10 s from
/// 1972-01-01, one second more from each date at which a leap second was
/// inserted (the day after a June 30 or December 31), 37 s from 2017-01-01
/// on, and nothing before 1972.
pub proof fn lemma_iers_offsets(y: int, m: int, d: int)
    requires
        1 <= m <= 12,
        1 <= d <= 31,
    ensures
        date_key(y, m, d) < 19720101 ==> spec_tai_utc_offset(y, m, d) is None,
        19720101 <= date_key(y, m, d) < 19720701 ==> spec_tai_utc_offset(y, m, d) == Some(10int),
        19720701 <= date_key(y, m, d) < 19730101 ==> spec_tai_utc_offset(y, m, d) == Some(11int),
        19730101 <= date_key(y, m, d) < 19740101 ==> spec_tai_utc_offset(y, m, d) == Some(12int),
        19740101 <= date_key(y, m, d) < 19750101 ==> spec_tai_utc_offset(y, m, d) == Some(13int),
        19750101 <= date_key(y, m, d) < 19760101 ==> spec_tai_utc_offset(y, m, d) == Some(14int),
        19760101 <= date_key(y, m, d) < 19770101 ==> spec_tai_utc_offset(y, m, d) == Some(15int),
        19770101 <= date_key(y, m, d) < 19780101 ==> spec_tai_utc_offset(y, m, d) == Some(16int),
        19780101 <= date_key(y, m, d) < 19790101 ==> spec_tai_utc_offset(y, m, d) == Some(17int),
        19790101 <= date_key(y, m, d) < 19800101 ==> spec_tai_utc_offset(y, m, d) == Some(18int),
        19800101 <= date_key(y, m, d) < 19810701 ==> spec_tai_utc_offset(y, m, d) == Some(19int),
        19810701 <= date_key(y, m, d) < 19820701 ==> spec_tai_utc_offset(y, m, d) == Some(20int),
        19820701 <= date_key(y, m, d) < 19830701 ==> spec_tai_utc_offset(y, m, d) == Some(21int),
        19830701 <= date_key(y, m, d) < 19850701 ==> spec_tai_utc_offset(y, m, d) == Some(22int),
        19850701 <= date_key(y, m, d) < 19880101 ==> spec_tai_utc_offset(y, m, d) == Some(23int),
        19880101 <= date_key(y, m, d) < 19900101 ==> spec_tai_utc_offset(y, m, d) == Some(24int),
        19900101 <= date_key(y, m, d) < 19910101 ==> spec_tai_utc_offset(y, m, d) == Some(25int),
        19910101 <= date_key(y, m, d) < 19920701 ==> spec_tai_utc_offset(y, m, d) == Some(26int),
        19920701 <= date_key(y, m, d) < 19930701 ==> spec_tai_utc_offset(y, m, d) == Some(27int),
        19930701 <= date_key(y, m, d) < 19940701 ==> spec_tai_utc_offset(y, m, d) == Some(28int),
        19940701 <= date_key(y, m, d) < 19960101 ==> spec_tai_utc_offset(y, m, d) == Some(29int),
        19960101 <= date_key(y, m, d) < 19970701 ==> spec_tai_utc_offset(y, m, d) == Some(30int),
        19970701 <= date_key(y, m, d) < 19990101 ==> spec_tai_utc_offset(y, m, d) == Some(31int),
        19990101 <= date_key(y, m, d) < 20060101 ==> spec_tai_utc_offset(y, m, d) == Some(32int),
        20060101 <= date_key(y, m, d) < 20090101 ==> spec_tai_utc_offset(y, m, d) == Some(33int),
        20090101 <= date_key(y, m, d) < 20120701 ==> spec_tai_utc_offset(y, m, d) == Some(34int),
        20120701 <= date_key(y, m, d) < 20150701 ==> spec_tai_utc_offset(y, m, d) == Some(35int),
        20150701 <= date_key(y, m, d) < 20170101 ==> spec_tai_utc_offset(y, m, d) == Some(36int),
        20170101 <= date_key(y, m, d) ==> spec_tai_utc_offset(y, m, d) == Some(37int),
{
    reveal_with_fuel(scan_offsets, 30);
}

/// Computes `spec_tai_utc_offset`.
pub fn tai_utc_offset(year: i32, month: u32, day: u32) -> (res: Option<u32>)
    ensures
        match res {
            Some(s) => spec_tai_utc_offset(year as int, month as int, day as int) == Some(s as int),
            None => spec_tai_utc_offset(year as int, month as int, day as int) is None,
        },
{
    let table: [(i32, u32, u32, u32); 28] = [
        (1972, 1, 1, 10), (1972, 7, 1, 11), (1973, 1, 1, 12), (1974, 1, 1, 13), (1975, 1, 1, 14),
        (1976, 1, 1, 15), (1977, 1, 1, 16), (1978, 1, 1, 17), (1979, 1, 1, 18), (1980, 1, 1, 19),
        (1981, 7, 1, 20), (1982, 7, 1, 21), (1983, 7, 1, 22), (1985, 7, 1, 23), (1988, 1, 1, 24),
        (1990, 1, 1, 25), (1991, 1, 1, 26), (1992, 7, 1, 27), (1993, 7, 1, 28), (1994, 7, 1, 29),
        (1996, 1, 1, 30), (1997, 7, 1, 31), (1999, 1, 1, 32), (2006, 1, 1, 33), (2009, 1, 1, 34),
        (2012, 7, 1, 35), (2015, 7, 1, 36), (2017, 1, 1, 37),
    ];
    let ghost t = leap_table();
    assert(table@.len() == 28 && t.len() == 28);
    assert(forall|k: int| 0 <= k < 28 ==> (#[trigger] table@[k]).0 as int == t[k].0 && table@[k].1 as int == t[k].1
        && table@[k].2 as int == t[k].2 && table@[k].3 as int == t[k].3);
    let mut result: Option<u32> = None;
    let mut i: usize = 0;
    while i < 28
        invariant
            i <= 28,
            table@.len() == 28,
            t == leap_table(),
            t.len() == 28,
            forall|k: int| 0 <= k < 28 ==> (#[trigger] table@[k]).0 as int == t[k].0 && table@[k].1 as int == t[k].1
                && table@[k].2 as int == t[k].2 && table@[k].3 as int == t[k].3,
            spec_tai_utc_offset(year as int, month as int, day as int) == scan_offsets(t, i as int,
                match result { Some(s) => Some(s as int), None => None }, year as int, month as int, day as int),
        decreases 28 - i,
    {
        let e = table[i];
        assert(e == table@[i as int]);
        let on_or_after = year > e.0 || (year == e.0 && (month > e.1 || (month == e.1 && day >= e.2)));
        if on_or_after {
            result = Some(e.3);
        } else {
            return result;
        }
        i = i + 1;
    }
    result
}

} // verus!
