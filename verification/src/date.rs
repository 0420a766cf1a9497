//! Dates in identities: Git's normal date format and the `<epoch> <±hhmm>` form.
use vstd::prelude::*;
use crate::cherry_pick::opt_view;
use crate::text::{
    char_at_byte, is_boundary, lemma_byte_len_mono, lemma_byte_len_take, lemma_char_at_byte, byte_len, char_index_at_byte, chars_of, int_text, int_text_of, nat_text, parse_i64, push_all,
    push_i64_text, push_range, push_u64_text, push_u64_text_pad2, rfind, rfind_all, string_all,
    zero_pad, trim, find, all_digits,
};

verus! {

/// The proleptic Gregorian date (year, month 1 to 12, day of the month) of the day `days` days
/// after 1 January 1970, by the usual civil-from-days reckoning in 400-year eras of 146097
/// days, with years counted from March.
pub open spec fn civil_from_days(days: int) -> (int, int, int) {
    let z = days + 719468;
    let era = z / 146097;
    let doe = z - era * 146097;
    let yoe = (doe - doe / 1460 + doe / 36524 - doe / 146096) / 365;
    let doy = doe - (365 * yoe + yoe / 4 - yoe / 100);
    let mp = (5 * doy + 2) / 153;
    let d = doy - (153 * mp + 2) / 5 + 1;
    let m = if mp < 10 { mp + 3 } else { mp - 9 };
    (if m <= 2 { yoe + era * 400 + 1 } else { yoe + era * 400 }, m, d)
}

/// The calendar fields of a Unix timestamp in UTC: year, month (1 to 12), day of the month,
/// hour, minute, second, and weekday counted from Monday (0 to 6; 1 January 1970 was a
/// Thursday); `None` outside the years -9999 to 9999 that the `time` crate represents.
pub open spec fn utc_calendar(ts: i64) -> Option<(i32, u8, u8, u8, u8, u8, u8)> {
    let days = (ts as int) / 86400;
    let secs = (ts as int) % 86400;
    let ymd = civil_from_days(days);
    if -9999 <= ymd.0 <= 9999 {
        Some(
            (
                ymd.0 as i32,
                ymd.1 as u8,
                ymd.2 as u8,
                (secs / 3600) as u8,
                (secs % 3600 / 60) as u8,
                (secs % 60) as u8,
                ((days + 3) % 7) as u8,
            ),
        )
    } else {
        None
    }
}

/// `time::OffsetDateTime::from_unix_timestamp`, read back as calendar fields: the contract
/// states that `time` gives the proleptic Gregorian date and the time of day of the timestamp
/// in UTC (see [`utc_calendar`]), with the ranges that its documentation gives for each field,
/// and an error outside the years it represents.
#[verifier::external_body]
fn calendar_of(ts: i64) -> (r: Option<(i32, u8, u8, u8, u8, u8, u8)>)
    ensures
        r == utc_calendar(ts),
        match r {
            Some(c) => 1 <= c.1 <= 12 && 1 <= c.2 <= 31 && c.3 < 24 && c.4 < 60 && c.5 < 60 && c.6 < 7,
            None => true,
        },
{
    match time::OffsetDateTime::from_unix_timestamp(ts) {
        Ok(dt) => Some(
            (
                dt.year(),
                dt.month() as u8,
                dt.day(),
                dt.hour(),
                dt.minute(),
                dt.second(),
                dt.weekday().number_days_from_monday(),
            ),
        ),
        Err(_) => None,
    }
}

/// The calendar fields of the Unix epoch (Thursday 1 January 1970, 00:00:00).
pub open spec fn epoch_fields() -> (i32, u8, u8, u8, u8, u8, u8) {
    (1970, 1, 1, 0, 0, 0, 3)
}

pub open spec fn weekday_name(w: u8) -> Seq<char> {
    if w == 0 {
        "Mon"@
    } else if w == 1 {
        "Tue"@
    } else if w == 2 {
        "Wed"@
    } else if w == 3 {
        "Thu"@
    } else if w == 4 {
        "Fri"@
    } else if w == 5 {
        "Sat"@
    } else {
        "Sun"@
    }
}

pub open spec fn month_name(m: u8) -> Seq<char> {
    if m == 1 {
        "Jan"@
    } else if m == 2 {
        "Feb"@
    } else if m == 3 {
        "Mar"@
    } else if m == 4 {
        "Apr"@
    } else if m == 5 {
        "May"@
    } else if m == 6 {
        "Jun"@
    } else if m == 7 {
        "Jul"@
    } else if m == 8 {
        "Aug"@
    } else if m == 9 {
        "Sep"@
    } else if m == 10 {
        "Oct"@
    } else if m == 11 {
        "Nov"@
    } else {
        "Dec"@
    }
}

/// The month names are the twelve English three-letter abbreviations in calendar order:
/// month `m` is the `m`-th group of three letters of `JanFebMarAprMayJunJulAugSepOctNovDec`.
/// So no two months share a name.
pub proof fn law_month_names(m: u8, n: u8)
    requires
        1 <= m <= 12,
        1 <= n <= 12,
    ensures
        month_name(m) == "JanFebMarAprMayJunJulAugSepOctNovDec"@.subrange(3 * (m - 1), 3 * m),
        m != n ==> month_name(m) != month_name(n),
{
    let all = "JanFebMarAprMayJunJulAugSepOctNovDec"@;
    reveal_strlit("JanFebMarAprMayJunJulAugSepOctNovDec");
    reveal_strlit("Jan");
    reveal_strlit("Feb");
    reveal_strlit("Mar");
    reveal_strlit("Apr");
    reveal_strlit("May");
    reveal_strlit("Jun");
    reveal_strlit("Jul");
    reveal_strlit("Aug");
    reveal_strlit("Sep");
    reveal_strlit("Oct");
    reveal_strlit("Nov");
    reveal_strlit("Dec");
    assert(month_name(m) =~= all.subrange(3 * (m - 1), 3 * m));
    assert(month_name(n) =~= all.subrange(3 * (n - 1), 3 * n));
    if m != n && month_name(m) == month_name(n) {
        assert(month_name(m)[0] == month_name(n)[0]);
        assert(month_name(m)[1] == month_name(n)[1]);
        assert(month_name(m)[2] == month_name(n)[2]);
    }
}

/// The weekday names are the seven English three-letter abbreviations, Monday first: day `w`
/// is the `w + 1`-th group of three letters of `MonTueWedThuFriSatSun`. So no two days share
/// a name.
pub proof fn law_weekday_names(w: u8, x: u8)
    requires
        w < 7,
        x < 7,
    ensures
        weekday_name(w) == "MonTueWedThuFriSatSun"@.subrange(3 * w, 3 * w + 3),
        w != x ==> weekday_name(w) != weekday_name(x),
{
    let all = "MonTueWedThuFriSatSun"@;
    reveal_strlit("MonTueWedThuFriSatSun");
    reveal_strlit("Mon");
    reveal_strlit("Tue");
    reveal_strlit("Wed");
    reveal_strlit("Thu");
    reveal_strlit("Fri");
    reveal_strlit("Sat");
    reveal_strlit("Sun");
    assert(weekday_name(w) =~= all.subrange(3 * w, 3 * w + 3));
    assert(weekday_name(x) =~= all.subrange(3 * x, 3 * x + 3));
    if w != x && weekday_name(w) == weekday_name(x) {
        assert(weekday_name(w)[0] == weekday_name(x)[0]);
        assert(weekday_name(w)[1] == weekday_name(x)[1]);
        assert(weekday_name(w)[2] == weekday_name(x)[2]);
    }
}

/// Git's normal date format, `Thu Apr 7 15:14:13 2005 -0700`: the day is not padded, the
/// time is, and the zone is written as given.
pub open spec fn normal_date_text(c: (i32, u8, u8, u8, u8, u8, u8), zone: Seq<char>) -> Seq<char> {
    weekday_name(c.6) + " "@ + month_name(c.1) + " "@ + nat_text(c.2 as nat) + " "@ + zero_pad(
        nat_text(c.3 as nat),
        2,
    ) + ":"@ + zero_pad(nat_text(c.4 as nat), 2) + ":"@ + zero_pad(nat_text(c.5 as nat), 2) + " "@
        + int_text_of(c.0 as int) + " "@ + zone
}

fn push_str_chars(out: &mut Vec<char>, s: &str)
    ensures
        final(out)@ == old(out)@ + s@,
{
    let v = chars_of(s);
    push_all(out, &v);
}

/// Writes calendar fields in Git's normal date format, followed by `zone`.
pub fn format_normal_date_fields(c: (i32, u8, u8, u8, u8, u8, u8), zone: &str) -> (r: String)
    ensures
        r@ == normal_date_text(c, zone@),
{
    let wd = if c.6 == 0 {
        "Mon"
    } else if c.6 == 1 {
        "Tue"
    } else if c.6 == 2 {
        "Wed"
    } else if c.6 == 3 {
        "Thu"
    } else if c.6 == 4 {
        "Fri"
    } else if c.6 == 5 {
        "Sat"
    } else {
        "Sun"
    };
    let mon = if c.1 == 1 {
        "Jan"
    } else if c.1 == 2 {
        "Feb"
    } else if c.1 == 3 {
        "Mar"
    } else if c.1 == 4 {
        "Apr"
    } else if c.1 == 5 {
        "May"
    } else if c.1 == 6 {
        "Jun"
    } else if c.1 == 7 {
        "Jul"
    } else if c.1 == 8 {
        "Aug"
    } else if c.1 == 9 {
        "Sep"
    } else if c.1 == 10 {
        "Oct"
    } else if c.1 == 11 {
        "Nov"
    } else {
        "Dec"
    };
    let mut out: Vec<char> = Vec::new();
    push_str_chars(&mut out, wd);
    push_str_chars(&mut out, " ");
    push_str_chars(&mut out, mon);
    push_str_chars(&mut out, " ");
    push_u64_text(&mut out, c.2 as u64);
    push_str_chars(&mut out, " ");
    push_u64_text_pad2(&mut out, c.3 as u64);
    push_str_chars(&mut out, ":");
    push_u64_text_pad2(&mut out, c.4 as u64);
    push_str_chars(&mut out, ":");
    push_u64_text_pad2(&mut out, c.5 as u64);
    push_str_chars(&mut out, " ");
    push_i64_text(&mut out, c.0 as i64);
    push_str_chars(&mut out, " ");
    push_str_chars(&mut out, zone);
    assert(out@ =~= normal_date_text(c, zone@));
    string_all(&out)
}

/// The last two space-separated fields of `s`, as `rsplitn(3, ' ')` gives them: the one
/// before the last space (back to the space before it, or to the start) and the one after.
pub open spec fn last_two_fields(s: Seq<char>) -> Option<(Seq<char>, Seq<char>)> {
    match rfind(s, seq![' ']) {
        None => None,
        Some(p1) => {
            let before = s.take(p1);
            let last = s.subrange(p1 + 1, s.len() as int);
            match rfind(before, seq![' ']) {
                None => Some((before, last)),
                Some(p2) => Some((before.subrange(p2 + 1, p1), last)),
            }
        },
    }
}

/// Slicing a zone of five bytes or more at bytes 1, 3 and 5 must be possible (else `str`
/// slicing panics).
pub open spec fn zone_sliceable(z: Seq<char>) -> bool {
    byte_len(z) >= 5 ==> is_boundary(z, 1) && is_boundary(z, 3) && is_boundary(z, 5)
}

/// What `str::parse::<i64>().unwrap_or(0)` gives for a short field.
pub open spec fn int_or_zero(s: Seq<char>) -> int {
    match int_text(s) {
        Some(x) => x,
        None => 0,
    }
}

/// The offset in seconds of a `±hhmm` zone of five bytes or more (0 for shorter ones).
pub open spec fn zone_seconds(z: Seq<char>) -> int {
    if byte_len(z) >= 5 {
        let h = int_or_zero(z.subrange(char_at_byte(z, 1), char_at_byte(z, 3)));
        let m = int_or_zero(z.subrange(char_at_byte(z, 3), char_at_byte(z, 5)));
        if z[0] == '-' {
            -(h * 3600 + m * 60)
        } else {
            h * 3600 + m * 60
        }
    } else {
        0
    }
}

/// The date of an ident line in Git's normal format: the time stamp (the second-to-last
/// field) shifted by the zone (the last field) and written with that zone; when the time
/// stamp is not a number, the two fields as they are; nothing without two fields.
pub open spec fn normal_date_spec(ident: Seq<char>) -> Seq<char> {
    match last_two_fields(ident) {
        None => Seq::empty(),
        Some((ts, zone)) => match int_text(ts) {
            Some(t) => if i64::MIN <= t <= i64::MAX {
                let adjusted = t + zone_seconds(zone);
                normal_date_text(
                    match utc_calendar(adjusted as i64) {
                        Some(c) => c,
                        None => epoch_fields(),
                    },
                    zone,
                )
            } else {
                ts + " "@ + zone
            },
            None => ts + " "@ + zone,
        },
    }
}

/// The inputs on which `format_normal_date` can work: where the time stamp is a number that
/// fits in `i64`, its zone can be sliced and shifting the time stamp by the zone stays within
/// `i64`.
pub open spec fn normal_date_ok(ident: Seq<char>) -> bool {
    match last_two_fields(ident) {
        None => true,
        Some((ts, zone)) => match int_text(ts) {
            Some(t) => i64::MIN <= t <= i64::MAX ==> zone_sliceable(zone) && i64::MIN <= t
                + zone_seconds(zone) <= i64::MAX,
            None => true,
        },
    }
}

proof fn lemma_two_digits(s: Seq<char>)
    requires
        s.len() <= 2,
    ensures
        -99 <= int_or_zero(s) <= 99,
{
    reveal_with_fuel(crate::text::dec_val, 3);
    if s.len() > 0 && (s[0] == '-' || s[0] == '+') {
        let d = s.drop_first();
        if d.len() > 0 && crate::text::all_digits(d) {
            assert(crate::text::is_digit(d.last()));
            if d.len() == 2 {
                assert(crate::text::is_digit(d[0]));
                assert(d.drop_last().drop_last().len() == 0);
            }
        }
    } else if s.len() > 0 && crate::text::all_digits(s) {
        assert(crate::text::is_digit(s.last()));
        if s.len() == 2 {
            assert(crate::text::is_digit(s[0]));
            assert(s.drop_last().drop_last().len() == 0);
        }
    }
}

/// The offset in seconds of a zone field (see [`zone_seconds`]).
fn zone_offset_seconds(z: &Vec<char>) -> (r: i64)
    requires
        zone_sliceable(z@),
    ensures
        r == zone_seconds(z@),
{
    let mut zb: Vec<char> = Vec::new();
    push_all(&mut zb, z);
    assert(zb@ =~= z@);
    let s = string_all(&zb);
    let nbytes = s.as_str().as_bytes().len();
    if nbytes < 5 {
        return 0;
    }
    let k1 = match char_index_at_byte(z, 1) {
        Some(k) => k,
        None => {
            return 0;
        },
    };
    let k3 = match char_index_at_byte(z, 3) {
        Some(k) => k,
        None => {
            return 0;
        },
    };
    let k5 = match char_index_at_byte(z, 5) {
        Some(k) => k,
        None => {
            return 0;
        },
    };
    proof {
        lemma_char_at_byte(z@, k1 as int, 1);
        lemma_char_at_byte(z@, k3 as int, 3);
        lemma_char_at_byte(z@, k5 as int, 5);
        assert(z@.take(0) =~= Seq::<char>::empty());
        if k1 >= k3 {
            lemma_byte_len_mono(z@, k3 as int, k1 as int);
        }
        if k3 >= k5 {
            lemma_byte_len_mono(z@, k5 as int, k3 as int);
        }
        lemma_byte_len_mono(z@, k1 as int, k3 as int);
        lemma_byte_len_mono(z@, k3 as int, k5 as int);
        if k1 == 0 {
            assert(false);
        }
        lemma_two_digits(z@.subrange(k1 as int, k3 as int));
        lemma_two_digits(z@.subrange(k3 as int, k5 as int));
    }
    let h: i64 = match parse_i64(z, k1, k3) {
        Some(h) => h,
        None => 0,
    };
    let m: i64 = match parse_i64(z, k3, k5) {
        Some(m) => m,
        None => 0,
    };
    let t = h * 3600 + m * 60;
    if z[0] == '-' {
        -t
    } else {
        t
    }
}

/// Formats the date of an ident line (`Name <email> <epoch> <zone>`) in Git's normal format,
/// `Thu Apr 7 15:14:13 2005 -0700`, with an unpadded day.
pub fn format_normal_date(ident: &str) -> (r: String)
    requires
        normal_date_ok(ident@),
    ensures
        r@ == normal_date_spec(ident@),
{
    let v = chars_of(ident);
    let sp = vec![' '];
    assert(sp@ =~= seq![' ']);
    let p1 = match rfind_all(&v, &sp) {
        Some(p) => p,
        None => {
            return String::new();
        },
    };
    proof {
        crate::text::lemma_rfind_upto_props(v@, sp@, v@.len() - sp@.len());
        assert(crate::text::occurs_at(v@, sp@, p1 as int));
    }
    let n = v.len();
    let mut before: Vec<char> = Vec::new();
    push_range(&mut before, &v, 0, p1);
    assert(before@ =~= v@.take(p1 as int));
    let mut zone: Vec<char> = Vec::new();
    push_range(&mut zone, &v, p1 + 1, n);
    assert(zone@ =~= v@.subrange(p1 + 1, n as int));
    let ts_lo = match rfind_all(&before, &sp) {
        Some(p2) => {
            proof {
                crate::text::lemma_rfind_upto_props(before@, sp@, before@.len() - sp@.len());
                assert(crate::text::occurs_at(before@, sp@, p2 as int));
            }
            p2 + 1
        },
        None => 0,
    };
    let mut ts: Vec<char> = Vec::new();
    push_range(&mut ts, &before, ts_lo, p1);
    assert(ts_lo == 0 ==> before@.subrange(0, p1 as int) =~= before@);
    let ghost fields = last_two_fields(v@);
    assert(fields == Some((ts@, zone@)));
    let zs = string_all(&zone);
    match parse_i64(&ts, 0, ts.len()) {
        Some(t) => {
            assert(ts@.subrange(0, ts@.len() as int) =~= ts@);
            let z = zone_offset_seconds(&zone);
            let adjusted = t + z;
            let cal = match calendar_of(adjusted) {
                Some(c) => c,
                None => (1970, 1, 1, 0, 0, 0, 3),
            };
            format_normal_date_fields(cal, zs.as_str())
        },
        None => {
            assert(ts@.subrange(0, ts@.len() as int) =~= ts@);
            let mut out: Vec<char> = Vec::new();
            push_all(&mut out, &ts);
            out.push(' ');
            push_all(&mut out, &zone);
            assert(out@ =~= ts@ + " "@ + zone@) by {
                reveal_strlit(" ");
            }
            string_all(&out)
        },
    }
}

pub open spec fn abs_of(n: int) -> nat {
    if n < 0 {
        (-n) as nat
    } else {
        n as nat
    }
}

/// Git's `<epoch> <±hhmm>`, from the time stamp and the offset's whole hours and the minutes
/// past the hour (the sign always shown, the hours padded to two digits with the sign in
/// front, the minutes to two digits without a sign).
pub open spec fn git_timestamp_text(epoch: int, hours: int, minutes: int) -> Seq<char> {
    int_text_of(epoch) + " "@ + (if hours < 0 { "-"@ } else { "+"@ }) + zero_pad(nat_text(abs_of(hours)), 2)
        + zero_pad(nat_text(abs_of(minutes)), 2)
}

/// Formats a time stamp and its offset (`UtcOffset::whole_hours` and
/// `UtcOffset::minutes_past_hour`) as Git does: `<epoch> <±hhmm>`.
pub fn format_git_timestamp(epoch: i64, offset_hours: i8, offset_minutes: i8) -> (r: String)
    ensures
        r@ == git_timestamp_text(epoch as int, offset_hours as int, offset_minutes as int),
{
    let mut out: Vec<char> = Vec::new();
    push_i64_text(&mut out, epoch);
    out.push(' ');
    if offset_hours < 0 {
        out.push('-');
    } else {
        out.push('+');
    }
    let h: u64 = if offset_hours < 0 {
        (-(offset_hours as i64)) as u64
    } else {
        offset_hours as u64
    };
    push_u64_text_pad2(&mut out, h);
    let m: u64 = if offset_minutes < 0 {
        (-(offset_minutes as i64)) as u64
    } else {
        offset_minutes as u64
    };
    push_u64_text_pad2(&mut out, m);
    proof {
        reveal_strlit(" ");
        reveal_strlit("-");
        reveal_strlit("+");
    }
    assert(out@ =~= git_timestamp_text(epoch as int, offset_hours as int, offset_minutes as int));
    string_all(&out)
}

// ----- reading dates given on the command line -------------------------------------------

/// What `time::OffsetDateTime::parse` with the RFC 3339 description reads from `s`: the Unix
/// time stamp, and the offset's whole hours and minutes past the hour; `None` when `s` is not
/// an RFC 3339 date-time.
pub uninterp spec fn rfc3339_fields(s: Seq<char>) -> Option<(i64, i8, i8)>;

/// `time::OffsetDateTime::parse(s, &Rfc3339)`, read back as the time stamp
/// (`unix_timestamp`) and the offset (`offset().whole_hours()`,
/// `offset().minutes_past_hour()`). The contract only names the result; which texts RFC 3339
/// accepts, and what they denote, is left to the name.
#[verifier::external_body]
fn parse_rfc3339(s: &str) -> (r: Option<(i64, i8, i8)>)
    ensures
        r == rfc3339_fields(s@),
{
    match time::OffsetDateTime::parse(s, &time::format_description::well_known::Rfc3339) {
        Ok(dt) => Some((dt.unix_timestamp(), dt.offset().whole_hours(), dt.offset().minutes_past_hour())),
        Err(_) => None,
    }
}

/// The form of a local date-time on the command line, as a `time` format description.
pub const LOCAL_DATETIME_FORMAT: &'static str = "[year]-[month]-[day] [hour]:[minute]:[second]";

/// The Unix time stamp of `datetime` read with the `time` format description `format` at an
/// offset of `offset_secs` seconds east of UTC; `None` when the offset is outside what
/// `time::UtcOffset` represents, the description is not one, or the text does not have its
/// form.
pub uninterp spec fn local_datetime_epoch(datetime: Seq<char>, format: Seq<char>, offset_secs: i32) -> Option<i64>;

/// `time::UtcOffset::from_whole_seconds(offset_secs)`, `time::format_description::parse(format)`,
/// then `time::PrimitiveDateTime::parse` with that description, `assume_offset` and
/// `unix_timestamp`. The contract names the result and states what `from_whole_seconds`
/// documents: an offset beyond 25:59:59 either way is refused. Which texts have the form, and
/// the time stamp they denote, is left to the name.
#[verifier::external_body]
fn parse_local_datetime(datetime: &str, format: &str, offset_secs: i32) -> (r: Option<i64>)
    ensures
        r == local_datetime_epoch(datetime@, format@, offset_secs),
        !(-93599 <= offset_secs <= 93599) ==> r is None,
{
    let offset = match time::UtcOffset::from_whole_seconds(offset_secs) {
        Ok(o) => o,
        Err(_) => return None,
    };
    let fmt = time::format_description::parse(format).ok()?;
    match time::PrimitiveDateTime::parse(datetime, &fmt) {
        Ok(naive) => Some(naive.assume_offset(offset).unix_timestamp()),
        Err(_) => None,
    }
}

/// `str::parse::<i64>`: a signed decimal integer within the range of `i64`.
pub open spec fn i64_text(s: Seq<char>) -> Option<int> {
    match int_text(s) {
        Some(x) => if i64::MIN <= x <= i64::MAX {
            Some(x)
        } else {
            None
        },
        None => None,
    }
}

/// The characters of `s` between the byte offsets `a` and `b` (`&s[a..b]`).
pub open spec fn byte_field(s: Seq<char>, a: int, b: int) -> Seq<char> {
    s.subrange(char_at_byte(s, a), char_at_byte(s, b))
}

/// The seconds east of UTC of a `±hhmm` word: `-` first makes it negative (anything else
/// positive), and an hour or minute field that does not read as a number counts as 0.
pub open spec fn tz_word_seconds(tz: Seq<char>) -> int {
    let h = match i64_text(byte_field(tz, 1, 3)) {
        Some(x) => x,
        None => 0,
    };
    let m = match i64_text(byte_field(tz, 3, 5)) {
        Some(x) => x,
        None => 0,
    };
    (if tz[0] == '-' { -1int } else { 1int }) * (h * 3600 + m * 60)
}

/// `@<epoch> <rest>`: the epoch reads as an `i64`; given back as `<epoch> <rest>`.
pub open spec fn at_epoch_date(t: Seq<char>) -> Option<Seq<char>> {
    if t.len() > 0 && t[0] == '@' {
        let es = t.drop_first();
        match find(es, " "@) {
            Some(q) => if i64_text(es.take(q)) is Some {
                Some(es.take(q) + " "@ + es.subrange(q + 1, es.len() as int))
            } else {
                None
            },
            None => None,
        }
    } else {
        None
    }
}

/// `<datetime> <tz>` with a time zone word of at least five bytes, read as a local date-time
/// at that offset; given back as `<epoch> <tz>`.
pub open spec fn local_date(t: Seq<char>) -> Option<Seq<char>> {
    match rfind(t, " "@) {
        Some(p) => {
            let tz = t.subrange(p + 1, t.len() as int);
            if byte_len(tz) >= 5 {
                match local_datetime_epoch(t.take(p), LOCAL_DATETIME_FORMAT@, tz_word_seconds(tz) as i32) {
                    Some(ep) => Some(int_text_of(ep as int) + " "@ + tz),
                    None => None,
                }
            } else {
                None
            }
        },
        None => None,
    }
}

/// What a date given to `commit --date` becomes, from its trimmed text `t`: RFC 3339 (also
/// with `Z` added) gives `<epoch> <±hhmm>`; `<digits> <tz>` is already in Git's form (`None`);
/// then a local `YYYY-MM-DD HH:MM:SS <tz>`, then `@<epoch> <tz>`, and last the loose reading
/// `loose` of the date parser.
pub open spec fn git_date_spec(s: Seq<char>, loose: Option<Seq<char>>) -> Option<Seq<char>> {
    let t = trim(s);
    match rfc3339_fields(t) {
        Some(f) => Some(git_timestamp_text(f.0 as int, f.1 as int, f.2 as int)),
        None => match rfc3339_fields(t + "Z"@) {
            Some(f) => Some(git_timestamp_text(f.0 as int, f.1 as int, f.2 as int)),
            None => if rfind(t, " "@) matches Some(p) && all_digits(t.take(p)) {
                None
            } else {
                match local_date(t) {
                    Some(x) => Some(x),
                    None => match at_epoch_date(t) {
                        Some(x) => Some(x),
                        None => loose,
                    },
                }
            },
        },
    }
}

/// The time zone word is sliced at bytes 1, 3 and 5 when it is read (else `str` slicing
/// panics): those offsets fall on character boundaries.
pub open spec fn date_tz_sliceable(s: Seq<char>) -> bool {
    let t = trim(s);
    match rfind(t, " "@) {
        Some(p) => {
            let tz = t.subrange(p + 1, t.len() as int);
            (byte_len(tz) >= 5 && !all_digits(t.take(p))) ==> is_boundary(tz, 1) && is_boundary(tz, 3)
                && is_boundary(tz, 5)
        },
        None => true,
    }
}

/// The character index of byte offset `b` of `v`, when `b` is a character boundary.
fn boundary_index(v: &Vec<char>, b: usize) -> (k: usize)
    requires
        is_boundary(v@, b as int),
    ensures
        k <= v@.len(),
        byte_len(v@.take(k as int)) == b,
        char_at_byte(v@, b as int) == k,
{
    match char_index_at_byte(v, b) {
        Some(k) => {
            proof {
                lemma_char_at_byte(v@, k as int, b as int);
            }
            k
        },
        None => {
            proof {
                let w = choose|w: int| 0 <= w <= v@.len() && #[trigger] byte_len(v@.take(w)) == b;
                assert(byte_len(v@.take(w)) != b);
            }
            0
        },
    }
}

/// The `i64` read from the two-byte field of `v` between the characters `lo` and `hi`, or 0.
fn two_byte_number(v: &Vec<char>, lo: usize, hi: usize) -> (r: i64)
    requires
        lo <= hi <= v@.len(),
        hi - lo <= 2,
    ensures
        r == match i64_text(v@.subrange(lo as int, hi as int)) {
            Some(x) => x,
            None => 0,
        },
        -99 <= r <= 99,
{
    proof {
        crate::ident::lemma_int_text_two(v@.subrange(lo as int, hi as int));
    }
    match parse_i64(v, lo, hi) {
        Some(x) => x,
        None => 0,
    }
}

/// `<datetime> <tz>` read as a local date-time: see `local_date`.
fn local_date_exec(tv: &Vec<char>, p: usize) -> (r: Option<String>)
    requires
        rfind(tv@, " "@) == Some(p as int),
        date_tz_sliceable_trimmed(tv@),
        !all_digits(tv@.take(p as int)),
    ensures
        opt_view(r) == local_date(tv@),
{
    proof {
        reveal_strlit(" ");
        crate::text::lemma_rfind_upto_props(tv@, " "@, tv@.len() - 1);
    }
    let n = tv.len();
    let mut tzv: Vec<char> = Vec::new();
    push_range(&mut tzv, tv, p + 1, n);
    let tz = string_all(&tzv);
    let nb = tz.as_str().as_bytes().len();
    if nb < 5 {
        return None;
    }
    let k1 = boundary_index(&tzv, 1);
    let k3 = boundary_index(&tzv, 3);
    let k5 = boundary_index(&tzv, 5);
    proof {
        if k3 < k1 {
            lemma_byte_len_mono(tzv@, k3 as int, k1 as int);
        }
        if k5 < k3 {
            lemma_byte_len_mono(tzv@, k5 as int, k3 as int);
        }
        lemma_byte_len_mono(tzv@, k1 as int, k3 as int);
        lemma_byte_len_mono(tzv@, k3 as int, k5 as int);
        lemma_byte_len_mono(tzv@, k5 as int, tzv@.len() as int);
        assert(tzv@.take(tzv@.len() as int) =~= tzv@);
        if tzv@.len() == 0 {
            assert(tzv@ =~= Seq::<char>::empty());
        }
    }
    let h = two_byte_number(&tzv, k1, k3);
    let m = two_byte_number(&tzv, k3, k5);
    let sign: i64 = if tzv[0] == '-' { -1 } else { 1 };
    let secs: i64 = sign * (h * 3600 + m * 60);
    assert(secs == tz_word_seconds(tzv@));
    let mut before: Vec<char> = Vec::new();
    push_range(&mut before, tv, 0, p);
    assert(before@ =~= tv@.take(p as int));
    let bs = string_all(&before);
    match parse_local_datetime(bs.as_str(), LOCAL_DATETIME_FORMAT, secs as i32) {
        Some(ep) => {
            let mut out: Vec<char> = Vec::new();
            push_i64_text(&mut out, ep);
            out.push(' ');
            push_all(&mut out, &tzv);
            assert(out@ =~= int_text_of(ep as int) + " "@ + tzv@);
            Some(string_all(&out))
        },
        None => None,
    }
}

/// `@<epoch> <rest>`: see `at_epoch_date`.
fn at_epoch_date_exec(tv: &Vec<char>) -> (r: Option<String>)
    ensures
        opt_view(r) == at_epoch_date(tv@),
{
    if tv.len() == 0 || tv[0] != '@' {
        return None;
    }
    let n = tv.len();
    let mut es: Vec<char> = Vec::new();
    push_range(&mut es, tv, 1, n);
    assert(es@ =~= tv@.drop_first());
    let sp = chars_of(" ");
    match crate::text::find_at(&es, &sp, 0) {
        Some(q) => {
            proof {
                crate::text::lemma_find_from_props(es@, sp@, 0);
                reveal_strlit(" ");
            }
            match parse_i64(&es, 0, q) {
                Some(_) => {
                    let en = es.len();
                    let mut out: Vec<char> = Vec::new();
                    push_range(&mut out, &es, 0, q);
                    push_all(&mut out, &sp);
                    push_range(&mut out, &es, q + 1, en);
                    Some(string_all(&out))
                },
                None => None,
            }
        },
        None => None,
    }
}

/// `date_tz_sliceable`, on the trimmed text.
pub open spec fn date_tz_sliceable_trimmed(t: Seq<char>) -> bool {
    match rfind(t, " "@) {
        Some(p) => {
            let tz = t.subrange(p + 1, t.len() as int);
            (byte_len(tz) >= 5 && !all_digits(t.take(p))) ==> is_boundary(tz, 1) && is_boundary(tz, 3)
                && is_boundary(tz, 5)
        },
        None => true,
    }
}

/// A date given to `commit --date` in Git's `<epoch> <±hhmm>` form: see `git_date_spec`.
/// `loose` is what the loose date parser reads from the trimmed text, if anything; `None` is
/// also the answer for a date already in Git's form.
pub fn parse_date_to_git_timestamp(date_str: &str, loose: Option<String>) -> (r: Option<String>)
    requires
        date_tz_sliceable(date_str@),
    ensures
        opt_view(r) == git_date_spec(date_str@, opt_view(loose)),
{
    let v = chars_of(date_str);
    let (a, b) = crate::text::trim_bounds(&v, 0, v.len());
    assert(v@.subrange(0, v@.len() as int) =~= v@);
    let mut tv: Vec<char> = Vec::new();
    push_range(&mut tv, &v, a, b);
    assert(tv@ =~= trim(date_str@));
    let t = string_all(&tv);
    if let Some(f) = parse_rfc3339(t.as_str()) {
        return Some(format_git_timestamp(f.0, f.1, f.2));
    }
    let mut tz_v = tv.clone();
    tz_v.push('Z');
    proof {
        reveal_strlit("Z");
    }
    assert(tz_v@ =~= tv@ + "Z"@);
    let tz_s = string_all(&tz_v);
    if let Some(f) = parse_rfc3339(tz_s.as_str()) {
        return Some(format_git_timestamp(f.0, f.1, f.2));
    }
    let sp = chars_of(" ");
    let split = rfind_all(&tv, &sp);
    if let Some(p) = split {
        proof {
            crate::text::lemma_rfind_upto_props(tv@, sp@, tv@.len() - sp@.len());
            reveal_strlit(" ");
        }
        if crate::text::range_all_digits(&tv, 0, p) {
            assert(tv@.subrange(0, p as int) =~= tv@.take(p as int));
            return None;
        }
        assert(tv@.subrange(0, p as int) =~= tv@.take(p as int));
        if let Some(x) = local_date_exec(&tv, p) {
            return Some(x);
        }
    } else {
        assert(local_date(tv@) is None);
    }
    if let Some(x) = at_epoch_date_exec(&tv) {
        return Some(x);
    }
    loose
}

} // verus!
