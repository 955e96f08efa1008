//! Conversion of Unix epoch timestamps into proleptic Gregorian civil
//! date-times in UTC, with no calendar-library dependency.

use vstd::prelude::*;

verus! {

/// The standard Gregorian leap-year rule: divisible by 400, or divisible by
/// 4 but not by 100.
pub open spec fn spec_is_leap_year(y: int) -> bool {
    y % 400 == 0 || (y % 4 == 0 && y % 100 != 0)
}

pub open spec fn spec_days_in_year(y: int) -> int {
    if spec_is_leap_year(y) {
        366
    } else {
        365
    }
}

/// Length of month `m` (1-indexed) of year `y`.
pub open spec fn spec_days_in_month(y: int, m: int) -> int {
    if m == 2 {
        if spec_is_leap_year(y) {
            29
        } else {
            28
        }
    } else if m == 4 || m == 6 || m == 9 || m == 11 {
        30
    } else {
        31
    }
}

/// Subtract whole-year lengths from `days` starting at year `y`: the result
/// is the year the day count lands in, paired with the remaining 0-indexed
/// day of that year.
pub open spec fn spec_split_year(days: nat, y: int) -> (int, nat)
    decreases days,
{
    if days < spec_days_in_year(y) {
        (y, days)
    } else {
        spec_split_year((days - spec_days_in_year(y)) as nat, y + 1)
    }
}

/// Subtract month lengths of year `y` from the day-of-year `doy`, starting at
/// month `m`: the result is the month the day lands in, paired with the
/// remaining 0-indexed day of that month.
pub open spec fn spec_split_month(y: int, doy: nat, m: int) -> (int, nat)
    decreases 12 - m,
{
    if m >= 12 || doy < spec_days_in_month(y, m) {
        (m, doy)
    } else {
        spec_split_month(y, (doy - spec_days_in_month(y, m)) as nat, m + 1)
    }
}

/// A civil date-time, as unbounded integers: the mathematical value of a
/// `Datetime`.
pub ghost struct CivilTime {
    pub year: int,
    pub month: int,
    pub day: int,
    pub hour: int,
    pub minute: int,
    pub second: int,
}

/// The civil date-time that `epoch` seconds after 1970-01-01T00:00:00Z
/// denote, in UTC.
pub open spec fn spec_datetime_of_epoch(epoch: nat) -> CivilTime {
    let days = epoch / 86400;
    let sod = epoch % 86400;
    let ys = spec_split_year(days, 1970);
    let ms = spec_split_month(ys.0, ys.1, 1);
    CivilTime {
        year: ys.0,
        month: ms.0,
        day: ms.1 + 1 as int,
        hour: (sod / 3600) as int,
        minute: ((sod % 3600) / 60) as int,
        second: (sod % 60) as int,
    }
}

/// Days from 1970-01-01 up to the first day of year `y` (for `y >= 1970`).
pub open spec fn spec_days_before_year(y: int) -> int
    decreases y - 1970,
{
    if y <= 1970 {
        0
    } else {
        spec_days_before_year(y - 1) + spec_days_in_year(y - 1)
    }
}

/// Days from the first day of year `y` up to the first day of its month `m`.
pub open spec fn spec_days_before_month(y: int, m: int) -> int
    decreases m,
{
    if m <= 1 {
        0
    } else {
        spec_days_before_month(y, m - 1) + spec_days_in_month(y, m - 1)
    }
}

/// The epoch second that the civil date-time `c` denotes: the inverse of
/// `spec_datetime_of_epoch`.
pub open spec fn spec_epoch_of(c: CivilTime) -> int {
    (spec_days_before_year(c.year) + spec_days_before_month(c.year, c.month) + (c.day - 1)) * 86400
        + c.hour * 3600 + c.minute * 60 + c.second
}

proof fn lemma_split_year(days: nat, y: int)
    requires
        y >= 1970,
    ensures
        spec_split_year(days, y).0 >= y,
        spec_split_year(days, y).1 < spec_days_in_year(spec_split_year(days, y).0),
        spec_days_before_year(spec_split_year(days, y).0) + spec_split_year(days, y).1
            == spec_days_before_year(y) + days,
    decreases days,
{
    if days >= spec_days_in_year(y) {
        lemma_split_year((days - spec_days_in_year(y)) as nat, y + 1);
    }
}

proof fn lemma_days_before_month_13(y: int)
    ensures
        spec_days_before_month(y, 13) == spec_days_in_year(y),
{
    reveal_with_fuel(spec_days_before_month, 13);
}

proof fn lemma_split_month(y: int, doy: nat, m: int)
    requires
        1 <= m <= 12,
        spec_days_before_month(y, m) + doy < spec_days_in_year(y),
    ensures
        m <= spec_split_month(y, doy, m).0 <= 12,
        spec_split_month(y, doy, m).1 < spec_days_in_month(y, spec_split_month(y, doy, m).0),
        spec_days_before_month(y, spec_split_month(y, doy, m).0) + spec_split_month(y, doy, m).1
            == spec_days_before_month(y, m) + doy,
    decreases 12 - m,
{
    if m >= 12 {
        lemma_days_before_month_13(y);
    } else if doy < spec_days_in_month(y, m) {
    } else {
        lemma_split_month(y, (doy - spec_days_in_month(y, m)) as nat, m + 1);
    }
}

/// Composing the epoch-to-calendar conversion with the calendar-to-epoch sum
/// is the identity: decoding any non-negative epoch and encoding the civil
/// date-time back yields the same epoch, at whole-second granularity.
pub proof fn lemma_epoch_roundtrip(epoch: nat)
    ensures
        spec_epoch_of(spec_datetime_of_epoch(epoch)) == epoch,
{
    let days = epoch / 86400;
    let sod = epoch % 86400;
    lemma_split_year(days, 1970);
    let ys = spec_split_year(days, 1970);
    lemma_split_month(ys.0, ys.1, 1);
    vstd::arithmetic::div_mod::lemma_fundamental_div_mod(epoch as int, 86400);
    vstd::arithmetic::div_mod::lemma_fundamental_div_mod(sod as int, 3600);
    vstd::arithmetic::div_mod::lemma_fundamental_div_mod((sod % 3600) as int, 60);
    vstd::arithmetic::div_mod::lemma_mod_mod(sod as int, 60, 60);
}

/// A calendar date-time in UTC: year unbounded, month 1-12, day 1-31,
/// hour 0-23, minute 0-59, second 0-59.
#[derive(Clone, Copy, Debug, PartialEq, Eq, Structural)]
pub struct Datetime {
    pub year: u64,
    pub month: u8,
    pub day: u8,
    pub hour: u8,
    pub minute: u8,
    pub second: u8,
}

impl View for Datetime {
    type V = CivilTime;

    open spec fn view(&self) -> CivilTime {
        CivilTime {
            year: self.year as int,
            month: self.month as int,
            day: self.day as int,
            hour: self.hour as int,
            minute: self.minute as int,
            second: self.second as int,
        }
    }
}

/// Whether `year` is a Gregorian leap year.
pub fn is_leap_year(year: u32) -> (b: bool)
    ensures
        b == spec_is_leap_year(year as int),
{
    year % 400 == 0 || (year % 4 == 0 && year % 100 != 0)
}

fn is_leap_year_u64(year: u64) -> (b: bool)
    ensures
        b == spec_is_leap_year(year as int),
{
    year % 400 == 0 || (year % 4 == 0 && year % 100 != 0)
}

fn days_in_month_of(year: u64, month: u8) -> (d: u8)
    requires
        1 <= month <= 12,
    ensures
        d == spec_days_in_month(year as int, month as int),
{
    if month == 2 {
        if is_leap_year_u64(year) {
            29
        } else {
            28
        }
    } else if month == 4 || month == 6 || month == 9 || month == 11 {
        30
    } else {
        31
    }
}

/// Convert `epoch` (seconds since 1970-01-01T00:00:00Z) to the civil
/// date-time it denotes, in UTC, in 24-hour format. Total over all inputs.
pub fn get_datetime_for_epochs(epoch: u64) -> (r: Datetime)
    ensures
        r@ == spec_datetime_of_epoch(epoch as nat),
        1970 <= r.year,
        1 <= r.month <= 12,
        1 <= r.day <= 31,
        r.hour <= 23,
        r.minute <= 59,
        r.second <= 59,
{
    let days_since_epoch: u64 = epoch / 86400;
    let mut days_till_now: u64 = days_since_epoch;
    let mut cyear: u64 = 1970;

    while days_till_now >= 366 || (days_till_now >= 365 && !is_leap_year_u64(cyear))
        invariant
            1970 <= cyear,
            days_till_now <= days_since_epoch,
            365 * (cyear - 1970) <= days_since_epoch - days_till_now,
            spec_split_year(days_since_epoch as nat, 1970) == spec_split_year(
                days_till_now as nat,
                cyear as int,
            ),
        decreases days_till_now,
    {
        if is_leap_year_u64(cyear) {
            days_till_now = days_till_now - 366;
        } else {
            days_till_now = days_till_now - 365;
        }
        cyear = cyear + 1;
    }
    proof {
        lemma_split_year(days_since_epoch as nat, 1970);
    }

    let days_this_year: u64 = days_till_now;
    let mut dom: u64 = days_this_year;
    let mut cmonth: u8 = 1;

    while cmonth < 12 && dom >= days_in_month_of(cyear, cmonth) as u64
        invariant
            1 <= cmonth <= 12,
            dom <= days_this_year,
            spec_split_month(cyear as int, days_this_year as nat, 1) == spec_split_month(
                cyear as int,
                dom as nat,
                cmonth as int,
            ),
        decreases 12 - cmonth,
    {
        dom = dom - days_in_month_of(cyear, cmonth) as u64;
        cmonth = cmonth + 1;
    }
    proof {
        lemma_split_month(cyear as int, days_this_year as nat, 1);
    }

    let seconds_today: u64 = epoch % 86400;
    let chour: u64 = seconds_today / 3600;
    let cmin: u64 = (seconds_today % 3600) / 60;
    let csec: u64 = seconds_today % 60;

    Datetime {
        year: cyear,
        month: cmonth,
        day: (dom + 1) as u8,
        hour: chour as u8,
        minute: cmin as u8,
        second: csec as u8,
    }
}

/// The decimal digit character for `d` (0-9).
pub open spec fn spec_digit(d: int) -> char {
    if d == 0 {
        '0'
    } else if d == 1 {
        '1'
    } else if d == 2 {
        '2'
    } else if d == 3 {
        '3'
    } else if d == 4 {
        '4'
    } else if d == 5 {
        '5'
    } else if d == 6 {
        '6'
    } else if d == 7 {
        '7'
    } else if d == 8 {
        '8'
    } else {
        '9'
    }
}

/// The decimal digits of `n`, most significant first, with no padding.
pub open spec fn spec_dec_digits(n: nat) -> Seq<char>
    decreases n,
{
    if n < 10 {
        seq![spec_digit(n as int)]
    } else {
        spec_dec_digits(n / 10).push(spec_digit((n % 10) as int))
    }
}

/// The two decimal digits of `n` (0-99), zero-padded.
pub open spec fn spec_pad2(n: int) -> Seq<char> {
    seq![spec_digit(n / 10), spec_digit(n % 10)]
}

/// The text of a civil date-time: unpadded year, zero-padded two-digit
/// month, day, hour, minute and second, in the pattern `YYYY-MM-DD HH:MM:SS`.
pub open spec fn spec_format_civil(c: CivilTime) -> Seq<char> {
    spec_dec_digits(c.year as nat) + seq!['-'] + spec_pad2(c.month) + seq!['-'] + spec_pad2(c.day)
        + seq![' '] + spec_pad2(c.hour) + seq![':'] + spec_pad2(c.minute) + seq![':'] + spec_pad2(
        c.second,
    )
}

fn digit_char(d: u64) -> (c: char)
    ensures
        c == spec_digit(d as int),
{
    if d == 0 {
        '0'
    } else if d == 1 {
        '1'
    } else if d == 2 {
        '2'
    } else if d == 3 {
        '3'
    } else if d == 4 {
        '4'
    } else if d == 5 {
        '5'
    } else if d == 6 {
        '6'
    } else if d == 7 {
        '7'
    } else if d == 8 {
        '8'
    } else {
        '9'
    }
}

fn push_dec_digits(out: &mut Vec<char>, n: u64)
    ensures
        final(out)@ == old(out)@ + spec_dec_digits(n as nat),
    decreases n,
{
    if n < 10 {
        out.push(digit_char(n));
    } else {
        push_dec_digits(out, n / 10);
        out.push(digit_char(n % 10));
    }
}

fn push_pad2(out: &mut Vec<char>, n: u64)
    ensures
        final(out)@ == old(out)@ + spec_pad2(n as int),
{
    out.push(digit_char(n / 10));
    out.push(digit_char(n % 10));
}

/// Relies on `String`'s `FromIterator<char>` implementation: collecting an
/// iterator of characters yields the string of exactly those characters in
/// order.
#[verifier::external_body]
fn chars_to_string(chars: &Vec<char>) -> (s: String)
    ensures
        s@ == chars@,
{
    chars.iter().collect()
}

impl Datetime {
    /// Render this date-time as `YYYY-MM-DD HH:MM:SS` (unpadded year,
    /// zero-padded two-digit month, day, hour, minute, second).
    pub fn to_string(&self) -> (s: String)
        ensures
            s@ == spec_format_civil(self@),
    {
        let mut out: Vec<char> = Vec::new();
        push_dec_digits(&mut out, self.year);
        out.push('-');
        push_pad2(&mut out, self.month as u64);
        out.push('-');
        push_pad2(&mut out, self.day as u64);
        out.push(' ');
        push_pad2(&mut out, self.hour as u64);
        out.push(':');
        push_pad2(&mut out, self.minute as u64);
        out.push(':');
        push_pad2(&mut out, self.second as u64);
        chars_to_string(&out)
    }
}

/// Relies on `std::time::SystemTime::now` and `duration_since(UNIX_EPOCH)`:
/// the result is the current Unix time in whole seconds (0 if the system
/// clock reads before the epoch, which duration_since reports as an error).
#[verifier::external_body]
pub(crate) fn now_epoch_secs() -> u64 {
    match std::time::SystemTime::now().duration_since(std::time::UNIX_EPOCH) {
        Ok(d) => d.as_secs(),
        Err(_) => 0,
    }
}

/// The current date-time in UTC, decoded from the system clock with
/// `get_datetime_for_epochs`.
pub fn get_current_datetime() -> (r: Datetime)
    ensures
        exists|epoch: u64| r@ == spec_datetime_of_epoch(epoch as nat),
        1970 <= r.year,
        1 <= r.month <= 12,
        1 <= r.day <= 31,
        r.hour <= 23,
        r.minute <= 59,
        r.second <= 59,
{
    let epoch = now_epoch_secs();
    let r = get_datetime_for_epochs(epoch);
    proof {
        assert(r@ == spec_datetime_of_epoch(epoch as nat));
    }
    r
}

} // verus!
