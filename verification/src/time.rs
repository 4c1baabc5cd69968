//! The document's date and time attributes (`docdate`, `doctime`,
//! `localdate`, ...), computed from timestamps with jiff.
//!
//! A jiff `Zoned` is held here as a `ZonedTime`: the Unix second of the
//! moment and the fixed UTC offset it is shown at. Every `Zoned` that this
//! module builds is of that kind: one at UTC, or one parsed with a `%z`
//! offset.
use jiff::civil::Date;
use jiff::tz::{Offset, TimeZone};
use jiff::{Timestamp, Zoned};
use vstd::prelude::*;
use vstd::string::StringExecFns;

use crate::attrs::{attrs_set_to, insert_job_attrs, lookup, AttrValue, AttrValueV};
use crate::parser::Parser;
use crate::text::decimal;

verus! {

/// The greatest Unix second that jiff's `Timestamp` holds.
pub const MAX_UNIX_SECOND: u64 = 253402207200;

/// The least Unix second that jiff's `Timestamp` holds.
pub const MIN_UNIX_SECOND: i64 = -377705023201;

/// The greatest UTC offset, in seconds, that jiff's `Offset` holds.
pub const MAX_OFFSET_SECONDS: i32 = 93599;

/// How `docdate` and the date part of the other attributes are written.
pub const DATE_FORMAT: &'static str = "%Y-%m-%d";

/// How `doctime` and the time part of the other attributes are written.
pub const TIME_FORMAT: &'static str = "%H:%M:%S%z";

/// How `localdatetime` is written.
pub const DATETIME_FORMAT: &'static str = "%Y-%m-%d %H:%M:%S%z";

/// How a `doctime` attribute is read, once a date is put before it.
pub const ZONED_PARSE_FORMAT: &'static str = "%Y-%m-%d %H:%M:%S%z";

/// The date put before a `doctime` attribute to read it as a datetime.
pub const DOCTIME_DATE_PREFIX: &'static str = "2000-01-01 ";

/// A moment and the fixed UTC offset it is shown at.
#[derive(Debug, Clone, Copy, PartialEq, Eq, Structural)]
pub struct ZonedTime {
    /// Seconds since the Unix epoch.
    pub second: i64,
    /// Seconds east of UTC.
    pub offset: i32,
}

impl ZonedTime {
    /// Both parts lie in the ranges that jiff accepts.
    pub open spec fn wf(self) -> bool {
        &&& MIN_UNIX_SECOND <= self.second <= MAX_UNIX_SECOND
        &&& -MAX_OFFSET_SECONDS <= self.offset <= MAX_OFFSET_SECONDS
    }
}

/// The formats that this module hands to jiff's `strftime`: each of their
/// directives formats every `Zoned`.
pub open spec fn known_format(format: Seq<char>) -> bool {
    format == DATE_FORMAT@ || format == TIME_FORMAT@ || format == DATETIME_FORMAT@
}

/// What jiff's `Zoned::strftime` writes for the moment `second` shown at
/// UTC offset `offset`.
pub uninterp spec fn strftime_of(second: int, offset: int, format: Seq<char>) -> Seq<char>;

/// Days from 1970-01-01 to a date of the proleptic Gregorian calendar.
pub open spec fn days_from_civil(year: int, month: int, day: int) -> int {
    let y = if month <= 2 {
        year - 1
    } else {
        year
    };
    let era = y / 400;
    let yoe = y - era * 400;
    let mp = (month + 9) % 12;
    let doy = (153 * mp + 2) / 5 + day - 1;
    let doe = yoe * 365 + yoe / 4 - yoe / 100 + doy;
    era * 146097 + doe - 719468
}

/// The year of the date `days` days after 1970-01-01, in the proleptic
/// Gregorian calendar (the inverse of `days_from_civil`, year part).
pub open spec fn civil_year(days: int) -> int {
    let z = days + 719468;
    let era = z / 146097;
    let doe = z - era * 146097;
    let yoe = (doe - doe / 1460 + doe / 36524 - doe / 146096) / 365;
    let doy = doe - (365 * yoe + yoe / 4 - yoe / 100);
    let mp = (5 * doy + 2) / 153;
    // months are counted from March: the last two are January and February
    if mp >= 10 {
        yoe + era * 400 + 1
    } else {
        yoe + era * 400
    }
}

pub open spec fn is_leap_year(y: int) -> bool {
    y % 4 == 0 && (y % 100 != 0 || y % 400 == 0)
}

pub open spec fn days_in_month(y: int, m: int) -> int {
    if m == 2 {
        if is_leap_year(y) {
            29
        } else {
            28
        }
    } else if m == 4 || m == 6 || m == 9 || m == 11 {
        30
    } else {
        31
    }
}

/// A date that jiff's `Date::new` accepts.
pub open spec fn valid_date(y: int, m: int, d: int) -> bool {
    -9999 <= y <= 9999 && 1 <= m <= 12 && 1 <= d <= days_in_month(y, m)
}

/// The civil year of the moment `second` shown at UTC offset `offset`:
/// the year of the day the shifted second falls on.
#[verifier::opaque]
pub open spec fn year_of(second: int, offset: int) -> int {
    civil_year((second + offset) / 86400)
}

/// What jiff's `Date::strptime` reads from `input`: year, month and day.
pub uninterp spec fn date_parsed(format: Seq<char>, input: Seq<char>) -> Option<(i16, i8, i8)>;

/// The Unix second of midnight UTC on a date; `None` where the date is not
/// one or the moment lies outside `Timestamp`'s range.
#[verifier::opaque]
pub open spec fn utc_midnight(year: int, month: int, day: int) -> Option<i64> {
    let s = days_from_civil(year, month, day) * 86400;
    if valid_date(year, month, day) && MIN_UNIX_SECOND <= s <= MAX_UNIX_SECOND {
        Some(s as i64)
    } else {
        None
    }
}

/// What jiff's `Zoned::strptime` reads from `input`: the moment and its
/// UTC offset.
pub uninterp spec fn zoned_parsed(format: Seq<char>, input: Seq<char>) -> Option<(i64, i32)>;

/// Formats a moment with jiff: builds the `Zoned` of `t` (its timestamp in
/// the fixed zone of its offset) and calls `Zoned::strftime`.
///
/// Trusted: the result is jiff's, named `strftime_of`. The formats are those
/// of `known_format`, whose directives format every `Zoned`, so the call does
/// not fail.
#[verifier::external_body]
fn format_zoned(t: ZonedTime, format: &str) -> (r: String)
    requires
        t.wf(),
        known_format(format@),
    ensures
        r@ == strftime_of(t.second as int, t.offset as int, format@),
{
    let offset = Offset::from_seconds(t.offset).expect("offset in range");
    let ts = Timestamp::from_second(t.second).expect("second in range");
    ts.to_zoned(TimeZone::fixed(offset)).strftime(format).to_string()
}

/// The civil year of a moment, from jiff's `Zoned::year`.
///
/// Trusted: jiff counts in the proleptic Gregorian calendar, so the year is
/// that of the day the second falls on at the offset (`year_of`); jiff's
/// years lie in -9999..=9999.
#[verifier::external_body]
fn zoned_year(t: ZonedTime) -> (y: i16)
    requires
        t.wf(),
    ensures
        y as int == year_of(t.second as int, t.offset as int),
        -9999 <= y <= 9999,
{
    let offset = Offset::from_seconds(t.offset).expect("offset in range");
    let ts = Timestamp::from_second(t.second).expect("second in range");
    ts.to_zoned(TimeZone::fixed(offset)).year()
}

/// Reads a date with jiff's `Date::strptime`.
///
/// Trusted: the result is jiff's, named `date_parsed`; `None` stands for
/// jiff's error.
#[verifier::external_body]
fn strptime_date(format: &str, input: &str) -> (r: Option<(i16, i8, i8)>)
    requires
        format@ == DATE_FORMAT@,
    ensures
        r == date_parsed(format@, input@),
{
    match Date::strptime(format, input) {
        Ok(d) => Some((d.year(), d.month(), d.day())),
        Err(_) => None,
    }
}

/// The Unix second of midnight UTC on a date, from jiff's `Date::new` and
/// `Date::to_zoned` with the UTC zone.
///
/// Trusted: `Date::new` refuses a day that is not in the month or a year
/// outside -9999..=9999, and `to_zoned` refuses a moment outside
/// `Timestamp`'s range; otherwise the second is that of midnight UTC in the
/// proleptic Gregorian calendar (`utc_midnight`).
#[verifier::external_body]
fn utc_midnight_second(year: i16, month: i8, day: i8) -> (r: Option<i64>)
    ensures
        r == utc_midnight(year as int, month as int, day as int),
        r matches Some(s) ==> MIN_UNIX_SECOND <= s <= MAX_UNIX_SECOND,
{
    match Date::new(year, month, day) {
        Ok(d) => match d.to_zoned(TimeZone::UTC) {
            Ok(z) => Some(z.timestamp().as_second()),
            Err(_) => None,
        },
        Err(_) => None,
    }
}

/// Reads a zoned datetime with jiff's `Zoned::strptime`.
///
/// Trusted: the result is jiff's, named `zoned_parsed`; `None` stands for
/// jiff's error. The format holds a `%z` offset and no time zone name, so
/// jiff builds a `Zoned` at that fixed offset, whose timestamp and offset lie
/// in jiff's ranges.
#[verifier::external_body]
fn strptime_zoned(format: &str, input: &str) -> (r: Option<ZonedTime>)
    requires
        format@ == ZONED_PARSE_FORMAT@,
    ensures
        match zoned_parsed(format@, input@) {
            Some(p) => r == Some(ZonedTime { second: p.0, offset: p.1 }),
            None => r is None,
        },
        r matches Some(t) ==> t.wf(),
{
    match Zoned::strptime(format, input) {
        Ok(z) => Some(ZonedTime { second: z.timestamp().as_second(), offset: z.offset().seconds() }),
        Err(_) => None,
    }
}

/// The value of `key` where it is a string.
pub open spec fn str_attr(attrs: Seq<(Seq<char>, AttrValueV)>, key: Seq<char>) -> Option<Seq<char>> {
    match lookup(attrs, key) {
        Some(AttrValueV::String(s)) => Some(s),
        _ => None,
    }
}

/// An optional string slice, as the specifications see it.
pub open spec fn opt_str_view(o: Option<&str>) -> Option<Seq<char>> {
    match o {
        Some(s) => Some(s@),
        None => None,
    }
}

/// The moment at a Unix second, shown at UTC; `None` past jiff's range.
pub open spec fn utc_moment(seconds: u64) -> Option<ZonedTime> {
    if seconds <= MAX_UNIX_SECOND {
        Some(ZonedTime { second: seconds as i64, offset: 0 })
    } else {
        None
    }
}

/// The moment that `docdate` is written from: midnight UTC on the date that
/// jiff reads from the attribute, or else the document's timestamp at UTC.
/// `None` where jiff can place neither.
pub open spec fn doc_date_moment(attr: Option<Seq<char>>, epoch_seconds: u64) -> Option<ZonedTime> {
    let parsed = match attr {
        Some(s) => date_parsed(DATE_FORMAT@, s),
        None => None,
    };
    match parsed {
        Some(d) => match utc_midnight(d.0 as int, d.1 as int, d.2 as int) {
            Some(s) => Some(ZonedTime { second: s, offset: 0 }),
            None => None,
        },
        None => utc_moment(epoch_seconds),
    }
}

/// The moment that `doctime` is written from: the time that jiff reads from
/// the attribute, put on 2000-01-01 at its own offset, or else the
/// document's timestamp at UTC. `None` where jiff can place neither.
pub open spec fn doc_time_moment(attr: Option<Seq<char>>, epoch_seconds: u64) -> Option<ZonedTime> {
    let parsed = match attr {
        Some(s) => zoned_parsed(ZONED_PARSE_FORMAT@, DOCTIME_DATE_PREFIX@ + s),
        None => None,
    };
    match parsed {
        Some(p) => Some(ZonedTime { second: p.0, offset: p.1 }),
        None => utc_moment(epoch_seconds),
    }
}

/// The document's timestamp: the reproducible one, else the input's
/// modification time, else now.
pub open spec fn doc_timestamp(now: u64, input_mtime: Option<u64>, reproducible: Option<u64>) -> u64 {
    match reproducible {
        Some(r) => r,
        None => match input_mtime {
            Some(m) => m,
            None => now,
        },
    }
}

/// The current timestamp: the reproducible one, else now.
pub open spec fn now_timestamp(now: u64, reproducible: Option<u64>) -> u64 {
    match reproducible {
        Some(r) => r,
        None => now,
    }
}

/// The moments of `docdate`, `doctime` and now, where jiff places all three.
pub open spec fn datetime_moments(
    attrs: Seq<(Seq<char>, AttrValueV)>,
    now: u64,
    input_mtime: Option<u64>,
    reproducible: Option<u64>,
) -> Option<(ZonedTime, ZonedTime, ZonedTime)> {
    let doc_ts = doc_timestamp(now, input_mtime, reproducible);
    let date = doc_date_moment(str_attr(attrs, "docdate"@), doc_ts);
    let time = doc_time_moment(str_attr(attrs, "doctime"@), doc_ts);
    let local = utc_moment(now_timestamp(now, reproducible));
    match (date, time, local) {
        (Some(d), Some(t), Some(n)) => Some((d, t, n)),
        _ => None,
    }
}

/// An integer as `to_string` writes it.
pub open spec fn int_decimal(i: int) -> Seq<char> {
    if i < 0 {
        seq!['-'] + decimal((-i) as nat)
    } else {
        decimal(i as nat)
    }
}

/// The attributes written from the moments of `docdate` (`d`), `doctime`
/// (`t`) and now (`n`), each name with its value.
pub open spec fn datetime_entries(d: ZonedTime, t: ZonedTime, n: ZonedTime) -> Seq<(Seq<char>, Seq<char>)> {
    let date_s = strftime_of(d.second as int, d.offset as int, DATE_FORMAT@);
    let time_s = strftime_of(t.second as int, t.offset as int, TIME_FORMAT@);
    seq![
        ("docyear"@, int_decimal(year_of(d.second as int, d.offset as int))),
        ("docdate"@, date_s),
        ("doctime"@, time_s),
        ("docdatetime"@, date_s + seq![' '] + time_s),
        ("localyear"@, int_decimal(year_of(n.second as int, n.offset as int))),
        ("localdate"@, strftime_of(n.second as int, n.offset as int, DATE_FORMAT@)),
        ("localtime"@, strftime_of(n.second as int, n.offset as int, TIME_FORMAT@)),
        ("localdatetime"@, strftime_of(n.second as int, n.offset as int, DATETIME_FORMAT@)),
    ]
}

/// The moment at a Unix second, at UTC; `None` past jiff's range.
fn utc_at(seconds: u64) -> (r: Option<ZonedTime>)
    ensures
        r == utc_moment(seconds),
        r matches Some(t) ==> t.wf(),
{
    if seconds <= MAX_UNIX_SECOND {
        Some(ZonedTime { second: seconds as i64, offset: 0 })
    } else {
        None
    }
}

/// The moment that `docdate` is written from; `None` where jiff places
/// neither the attribute's date nor the timestamp.
pub fn date_from_attr_or(attr: Option<&str>, epoch_seconds: u64) -> (r: Option<ZonedTime>)
    ensures
        r == doc_date_moment(opt_str_view(attr), epoch_seconds),
        r matches Some(t) ==> t.wf(),
{
    let parsed = match attr {
        Some(s) => strptime_date(DATE_FORMAT, s),
        None => None,
    };
    match parsed {
        Some((year, month, day)) => match utc_midnight_second(year, month, day) {
            Some(s) => Some(ZonedTime { second: s, offset: 0 }),
            None => None,
        },
        None => utc_at(epoch_seconds),
    }
}

/// The moment that `doctime` is written from; `None` where jiff places
/// neither the attribute's time nor the timestamp.
pub fn time_from_attr_or(attr: Option<&str>, epoch_seconds: u64) -> (r: Option<ZonedTime>)
    ensures
        r == doc_time_moment(opt_str_view(attr), epoch_seconds),
        r matches Some(t) ==> t.wf(),
{
    let parsed = match attr {
        Some(s) => {
            let input = String::from_str(DOCTIME_DATE_PREFIX).concat(s);
            strptime_zoned(ZONED_PARSE_FORMAT, input.as_str())
        },
        None => None,
    };
    match parsed {
        Some(t) => Some(t),
        None => utc_at(epoch_seconds),
    }
}

/// A year as `to_string` writes it.
fn year_string(year: i16) -> (r: String)
    requires
        -9999 <= year <= 9999,
    ensures
        r@ == int_decimal(year as int),
{
    if year < 0 {
        let digits = crate::text::decimal_string((0 - year) as u32);
        let mut cs: Vec<char> = Vec::new();
        cs.push('-');
        let mut i: usize = 0;
        while i < digits.len()
            invariant
                0 <= i <= digits@.len(),
                cs@ == seq!['-'] + digits@.subrange(0, i as int),
            decreases digits@.len() - i,
        {
            cs.push(digits[i]);
            assert(digits@.subrange(0, i + 1) =~= digits@.subrange(0, i as int).push(digits@[i as int]));
            i = i + 1;
        }
        assert(digits@.subrange(0, digits@.len() as int) =~= digits@);
        crate::text::string_of(cs.as_slice())
    } else {
        let digits = crate::text::decimal_string(year as u32);
        crate::text::string_of(digits.as_slice())
    }
}

impl Parser {
    /// Writes the document's date and time attributes: `docyear`,
    /// `docdate`, `doctime` and `docdatetime` from the `docdate` and
    /// `doctime` attributes where jiff reads them, else from the document's
    /// timestamp; `localyear`, `localdate`, `localtime` and `localdatetime`
    /// from the current one. A reproducible timestamp stands for both.
    pub fn set_datetime_attrs(&mut self, now: u64, input_mtime: Option<u64>, reproducible: Option<u64>)
        requires
            datetime_moments(old(self).attrs@, now, input_mtime, reproducible) is Some,
        ensures
            ({
                let m = datetime_moments(old(self).attrs@, now, input_mtime, reproducible)->0;
                attrs_set_to(old(self).attrs@, final(self).attrs@, datetime_entries(m.0, m.1, m.2))
            }),
            final(self).leveloffset == old(self).leveloffset,
            final(self).errors == old(self).errors,
            final(self).anchor_ids == old(self).anchor_ids,
    {
        let doc_ts = match reproducible {
            Some(r) => r,
            None => match input_mtime {
                Some(m) => m,
                None => now,
            },
        };
        let now_ts = match reproducible {
            Some(r) => r,
            None => now,
        };
        let docdate_attr = match self.attrs.get("docdate") {
            Some(AttrValue::String(s)) => Some(s.as_str()),
            _ => None,
        };
        let docdate = date_from_attr_or(docdate_attr, doc_ts).unwrap();
        let doctime_attr = match self.attrs.get("doctime") {
            Some(AttrValue::String(s)) => Some(s.as_str()),
            _ => None,
        };
        let doctime = time_from_attr_or(doctime_attr, doc_ts).unwrap();
        let local = utc_at(now_ts).unwrap();
        let docyear_s = year_string(zoned_year(docdate));
        let docdate_s = format_zoned(docdate, DATE_FORMAT);
        let doctime_s = format_zoned(doctime, TIME_FORMAT);
        let docdatetime_s = String::from_str(docdate_s.as_str()).concat(" ").concat(doctime_s.as_str());
        let localyear_s = year_string(zoned_year(local));
        let localdate_s = format_zoned(local, DATE_FORMAT);
        let localtime_s = format_zoned(local, TIME_FORMAT);
        let localdatetime_s = format_zoned(local, DATETIME_FORMAT);
        proof {
            reveal_strlit(" ");
            reveal_strlit("docyear");
            reveal_strlit("docdate");
            reveal_strlit("doctime");
            reveal_strlit("docdatetime");
            reveal_strlit("localyear");
            reveal_strlit("localdate");
            reveal_strlit("localtime");
            reveal_strlit("localdatetime");
        }
        let entries = vec![
            (String::from_str("docyear"), docyear_s),
            (String::from_str("docdate"), docdate_s),
            (String::from_str("doctime"), doctime_s),
            (String::from_str("docdatetime"), docdatetime_s),
            (String::from_str("localyear"), localyear_s),
            (String::from_str("localdate"), localdate_s),
            (String::from_str("localtime"), localtime_s),
            (String::from_str("localdatetime"), localdatetime_s),
        ];
        let ghost expected = datetime_entries(docdate, doctime, local);
        let ghost got = entries@.map_values(|e: (String, String)| (e.0@, e.1@));
        assert(got.len() == 8);
        assert(got[0] == expected[0]);
        assert(got[1] == expected[1]);
        assert(got[2] == expected[2]);
        assert(got[3].1 == expected[3].1);
        assert(got[3] == expected[3]);
        assert(got[4] == expected[4]);
        assert(got[5] == expected[5]);
        assert(got[6] == expected[6]);
        assert(got[7] == expected[7]);
        assert(got =~= expected);
        assert forall|i: int, j: int| 0 <= i < j < entries@.len() implies
            (#[trigger] entries@[i]).0@ != (#[trigger] entries@[j]).0@ by {
            assert(got[i].0 == entries@[i].0@);
            assert(got[j].0 == entries@[j].0@);
            if got[i].0.len() == got[j].0.len() {
                if got[i].0[3] == got[j].0[3] {
                    assert(got[i].0[5] != got[j].0[5]);
                } else {
                    assert(got[i].0[3] != got[j].0[3]);
                }
            }
        }
        insert_job_attrs(&mut self.attrs, entries);
    }

    /// Writes the document's date and time attributes, as
    /// `set_datetime_attrs` does, where jiff places the three moments; else
    /// changes nothing and returns `false`.
    pub fn provide_timestamps(&mut self, now: u64, input_mtime: Option<u64>, reproducible: Option<u64>) -> (r: bool)
        ensures
            r == datetime_moments(old(self).attrs@, now, input_mtime, reproducible) is Some,
            r ==> ({
                let m = datetime_moments(old(self).attrs@, now, input_mtime, reproducible)->0;
                attrs_set_to(old(self).attrs@, final(self).attrs@, datetime_entries(m.0, m.1, m.2))
            }),
            !r ==> final(self).attrs@ == old(self).attrs@,
            final(self).leveloffset == old(self).leveloffset,
            final(self).errors == old(self).errors,
            final(self).anchor_ids == old(self).anchor_ids,
    {
        let doc_ts = match reproducible {
            Some(r) => r,
            None => match input_mtime {
                Some(m) => m,
                None => now,
            },
        };
        let now_ts = match reproducible {
            Some(r) => r,
            None => now,
        };
        let docdate_attr = match self.attrs.get("docdate") {
            Some(AttrValue::String(s)) => Some(s.as_str()),
            _ => None,
        };
        let date_ok = date_from_attr_or(docdate_attr, doc_ts).is_some();
        let doctime_attr = match self.attrs.get("doctime") {
            Some(AttrValue::String(s)) => Some(s.as_str()),
            _ => None,
        };
        let time_ok = time_from_attr_or(doctime_attr, doc_ts).is_some();
        if date_ok && time_ok && now_ts <= MAX_UNIX_SECOND {
            self.set_datetime_attrs(now, input_mtime, reproducible);
            true
        } else {
            false
        }
    }
}

} // verus!
