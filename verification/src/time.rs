//! Time types of the clock subsystem: spans of time, monotonic instants,
//! `dmesg`-style log stamps and UTC calendar dates decoded from Unix time.
use vstd::prelude::*;
use vstd::std_specs::ops::AddSpecImpl;
use vstd::std_specs::ops::SubSpecImpl;
use vstd::std_specs::ops::AddSpec;
use vstd::std_specs::ops::SubSpec;
use vstd::string::StringExecFns;

verus! {

/// The year the Unix epoch begins: 1970-01-01 00:00:00 UTC.
pub const UNIX_EPOCH_YEAR: i64 = 1970;

/// Nanoseconds in a millisecond.
pub const NANOS_PER_MILLI: u64 = 1_000_000;

/// Nanoseconds in a second.
pub const NANOS_PER_SEC: u64 = 1_000_000_000;

/// A span of time, stored as nanoseconds.
#[derive(Copy, Clone, PartialEq, Eq, PartialOrd, Ord, Debug)]
pub struct Duration(pub u64);

impl View for Duration {
    type V = u64;

    open spec fn view(&self) -> u64 {
        self.0
    }
}

/// The unit in which a duration is shown.
#[derive(Copy, Clone, PartialEq, Eq, Debug)]
pub enum DurationUnit {
    Nanoseconds,
    Microseconds,
    Milliseconds,
    Seconds,
}

impl Duration {
    /// Creates a `Duration` of `nanos` nanoseconds.
    pub fn from_nanos(nanos: u64) -> (d: Self)
        ensures
            d@ == nanos,
    {
        Duration(nanos)
    }

    /// Creates a `Duration` of `millis` milliseconds.
    pub fn from_millis(millis: u64) -> (d: Self)
        requires
            millis * NANOS_PER_MILLI <= u64::MAX,
        ensures
            d@ == millis * NANOS_PER_MILLI,
    {
        Duration(millis * NANOS_PER_MILLI)
    }

    /// Creates a `Duration` of `secs` seconds.
    pub fn from_secs(secs: u64) -> (d: Self)
        requires
            secs * NANOS_PER_SEC <= u64::MAX,
        ensures
            d@ == secs * NANOS_PER_SEC,
    {
        Duration(secs * NANOS_PER_SEC)
    }

    /// The number of nanoseconds in this span.
    pub fn as_nanos(&self) -> (n: u64)
        ensures
            n == self@,
    {
        self.0
    }

    /// How the span is shown: a whole part, a three-digit fraction and a
    /// unit, the largest unit of which the span holds at least one.
    pub fn display_parts(&self) -> (parts: (u64, u64, DurationUnit))
        ensures
            self@ < 1_000 ==> parts == (self@, 0u64, DurationUnit::Nanoseconds),
            1_000 <= self@ < 1_000_000 ==> parts == (
                (self@ / 1_000) as u64,
                (self@ % 1_000) as u64,
                DurationUnit::Microseconds,
            ),
            1_000_000 <= self@ < 1_000_000_000 ==> parts == (
                (self@ / 1_000_000) as u64,
                ((self@ % 1_000_000) / 1_000) as u64,
                DurationUnit::Milliseconds,
            ),
            1_000_000_000 <= self@ ==> parts == (
                (self@ / 1_000_000_000) as u64,
                ((self@ % 1_000_000_000) / 1_000_000) as u64,
                DurationUnit::Seconds,
            ),
            parts.1 < 1_000,
    {
        let ns = self.0;
        if ns < 1_000 {
            (ns, 0, DurationUnit::Nanoseconds)
        } else if ns < 1_000_000 {
            (ns / 1_000, ns % 1_000, DurationUnit::Microseconds)
        } else if ns < 1_000_000_000 {
            (ns / 1_000_000, (ns % 1_000_000) / 1_000, DurationUnit::Milliseconds)
        } else {
            (ns / 1_000_000_000, (ns % 1_000_000_000) / 1_000_000, DurationUnit::Seconds)
        }
    }
}

/// A point in time, in nanoseconds since the system started.
#[derive(Copy, Clone, PartialEq, Eq, PartialOrd, Ord, Debug)]
pub struct Instant {
    pub ns: u64,
}

impl View for Instant {
    type V = u64;

    open spec fn view(&self) -> u64 {
        self.ns
    }
}

/// `a + b`, saturating at `u64::MAX`.
pub open spec fn sat_add(a: u64, b: u64) -> u64 {
    if a + b > u64::MAX {
        u64::MAX
    } else {
        (a + b) as u64
    }
}

/// `a - b`, saturating at `0`.
pub open spec fn sat_sub(a: u64, b: u64) -> u64 {
    if a < b {
        0
    } else {
        (a - b) as u64
    }
}

impl Instant {
    /// The instant that the monotonic clock reading `monotonic_ns` stands for.
    pub fn now(monotonic_ns: u64) -> (i: Self)
        ensures
            i@ == monotonic_ns,
    {
        Instant { ns: monotonic_ns }
    }

    /// Nanoseconds since the system started.
    pub fn as_nanos(&self) -> (n: u64)
        ensures
            n == self@,
    {
        self.ns
    }
}

impl core::ops::Add<Duration> for Instant {
    type Output = Instant;

    fn add(self, rhs: Duration) -> (r: Instant) {
        Instant { ns: self.ns.saturating_add(rhs.0) }
    }
}

impl AddSpecImpl<Duration> for Instant {
    open spec fn obeys_add_spec() -> bool {
        true
    }

    open spec fn add_req(self, rhs: Duration) -> bool {
        true
    }

    open spec fn add_spec(self, rhs: Duration) -> Instant {
        Instant { ns: sat_add(self.ns, rhs.0) }
    }
}

impl core::ops::Sub<Duration> for Instant {
    type Output = Instant;

    fn sub(self, rhs: Duration) -> (r: Instant) {
        Instant { ns: self.ns.saturating_sub(rhs.0) }
    }
}

impl SubSpecImpl<Duration> for Instant {
    open spec fn obeys_sub_spec() -> bool {
        true
    }

    open spec fn sub_req(self, rhs: Duration) -> bool {
        true
    }

    open spec fn sub_spec(self, rhs: Duration) -> Instant {
        Instant { ns: sat_sub(self.ns, rhs.0) }
    }
}

impl core::ops::Sub<Instant> for Instant {
    type Output = Duration;

    fn sub(self, rhs: Instant) -> (r: Duration) {
        Duration(self.ns.saturating_sub(rhs.ns))
    }
}

impl SubSpecImpl<Instant> for Instant {
    open spec fn obeys_sub_spec() -> bool {
        true
    }

    open spec fn sub_req(self, rhs: Instant) -> bool {
        true
    }

    open spec fn sub_spec(self, rhs: Instant) -> Duration {
        Duration(sat_sub(self.ns, rhs.ns))
    }
}

/// Adding a span to an instant and taking it away again gives the instant
/// back, as long as the sum did not saturate.
pub proof fn lemma_instant_add_sub(i: Instant, d: Duration)
    requires
        i@ + d@ <= u64::MAX,
    ensures
        SubSpec::sub_spec(AddSpec::add_spec(i, d), d) == i,
        SubSpec::sub_spec(AddSpec::add_spec(i, d), i)@ == d@,
{
}

/// A monotonic timestamp shown as `[SS.UUUUUU]` in kernel logs.
pub struct LoggerTime(pub u64);

impl LoggerTime {
    /// Creates a `LoggerTime` from a monotonic timestamp in nanoseconds.
    pub fn from_mono_ns(ns: u64) -> (t: Self)
        ensures
            t.0 == ns,
    {
        LoggerTime(ns)
    }

    /// The whole seconds and the remaining microseconds that the stamp shows.
    pub fn seconds_and_micros(&self) -> (parts: (u64, u64))
        ensures
            parts.0 == self.0 / 1_000_000_000,
            parts.1 == (self.0 % 1_000_000_000) / 1_000,
            parts.1 < 1_000_000,
    {
        (self.0 / 1_000_000_000, (self.0 % 1_000_000_000) / 1_000)
    }

    /// The stamp as `dmesg` shows it: `[SS.UUUUUU]`, the whole seconds with
    /// at least two digits and the remaining microseconds with six, both
    /// padded with zeros.
    pub fn to_text(&self) -> (r: String)
        ensures
            r@ == logger_text(self.0),
    {
        let (seconds, micros) = self.seconds_and_micros();
        let mut s = String::from_str("[");
        append_padded(&mut s, seconds, 2);
        s.append(".");
        append_padded(&mut s, micros, 6);
        s.append("]");
        proof {
            reveal_strlit("[");
            reveal_strlit(".");
            reveal_strlit("]");
            assert(s@ =~= logger_text(self.0));
        }
        s
    }
}

/// The character of the decimal digit `d`.
pub open spec fn digit_char(d: int) -> char {
    (48 + d) as char
}

/// The decimal digits of `n`, most significant first, without leading
/// zeros (`0` is one digit).
pub open spec fn decimal_digits(n: nat) -> Seq<char>
    decreases n,
{
    if n < 10 {
        seq![digit_char(n as int)]
    } else {
        decimal_digits(n / 10).push(digit_char((n % 10) as int))
    }
}

/// The decimal digits of `n` with zeros in front up to `width` characters.
pub open spec fn zero_padded(n: nat, width: nat) -> Seq<char> {
    let d = decimal_digits(n);
    if d.len() >= width {
        d
    } else {
        Seq::new((width - d.len()) as nat, |i: int| '0') + d
    }
}

/// The text of a log stamp of `ns` nanoseconds: `[`, the whole seconds
/// padded to two digits, `.`, the remaining microseconds padded to six
/// digits, `]`.
pub open spec fn logger_text(ns: u64) -> Seq<char> {
    seq!['['] + zero_padded((ns / 1_000_000_000) as nat, 2) + seq!['.'] + zero_padded(
        ((ns % 1_000_000_000) / 1_000) as nat,
        6,
    ) + seq![']']
}

/// Appends the digit `d`.
fn append_digit(s: &mut String, d: u64)
    requires
        d < 10,
    ensures
        final(s)@ == old(s)@.push(digit_char(d as int)),
{
    let text = match d {
        0 => "0",
        1 => "1",
        2 => "2",
        3 => "3",
        4 => "4",
        5 => "5",
        6 => "6",
        7 => "7",
        8 => "8",
        _ => "9",
    };
    proof {
        reveal_strlit("0");
        reveal_strlit("1");
        reveal_strlit("2");
        reveal_strlit("3");
        reveal_strlit("4");
        reveal_strlit("5");
        reveal_strlit("6");
        reveal_strlit("7");
        reveal_strlit("8");
        reveal_strlit("9");
    }
    s.append(text);
    proof {
        assert(final(s)@ =~= old(s)@.push(digit_char(d as int)));
    }
}

/// Appends the decimal digits of `n`.
fn append_decimal(s: &mut String, n: u64)
    ensures
        final(s)@ == old(s)@ + decimal_digits(n as nat),
    decreases n,
{
    if n >= 10 {
        append_decimal(s, n / 10);
    }
    append_digit(s, n % 10);
    proof {
        assert(final(s)@ =~= old(s)@ + decimal_digits(n as nat));
    }
}

/// `10` to the power `k`.
pub open spec fn pow10(k: nat) -> nat
    decreases k,
{
    if k == 0 {
        1
    } else {
        10 * pow10((k - 1) as nat)
    }
}

/// A number below `10^k` has at most `k` digits.
proof fn lemma_digits_below(n: nat, k: nat)
    requires
        k >= 1,
        n < pow10(k),
    ensures
        decimal_digits(n).len() <= k,
    decreases k,
{
    if n >= 10 {
        assert(k >= 2) by {
            if k == 1 {
                assert(pow10(1) == 10) by {
                    reveal_with_fuel(pow10, 2);
                }
            }
        }
        assert(n / 10 < pow10((k - 1) as nat));
        lemma_digits_below(n / 10, (k - 1) as nat);
    }
}

/// The number of decimal digits of `n`.
fn decimal_len(n: u64) -> (r: usize)
    ensures
        r == decimal_digits(n as nat).len(),
    decreases n,
{
    proof {
        assert(pow10(20) == 100_000_000_000_000_000_000) by {
            reveal_with_fuel(pow10, 21);
        }
        lemma_digits_below(n as nat, 20);
        if n >= 10 {
            lemma_digits_below((n / 10) as nat, 20);
        }
    }
    if n >= 10 {
        decimal_len(n / 10) + 1
    } else {
        1
    }
}

/// Appends the decimal digits of `n` with zeros in front up to `width`
/// characters.
fn append_padded(s: &mut String, n: u64, width: usize)
    ensures
        final(s)@ == old(s)@ + zero_padded(n as nat, width as nat),
{
    let len = decimal_len(n);
    let mut i: usize = len;
    while i < width
        invariant
            len == decimal_digits(n as nat).len(),
            len <= i,
            i <= width || i == len,
            s@ == old(s)@ + Seq::new((i - len) as nat, |k: int| '0'),
        decreases width - i,
    {
        s.append("0");
        proof {
            reveal_strlit("0");
        }
        i = i + 1;
        proof {
            assert(s@ =~= old(s)@ + Seq::new((i - len) as nat, |k: int| '0'));
        }
    }
    append_decimal(s, n);
    proof {
        if len >= width {
            assert(s@ =~= old(s)@ + zero_padded(n as nat, width as nat));
        } else {
            assert(i == width);
            assert(s@ =~= old(s)@ + zero_padded(n as nat, width as nat));
        }
    }
}

/// Whether `year` is a leap year of the Gregorian calendar.
pub open spec fn spec_is_leap_year(year: int) -> bool {
    (year % 4 == 0 && year % 100 != 0) || year % 400 == 0
}

/// The Gregorian leap years: a leap year is a multiple of four; every
/// multiple of four outside the century years is one; of the century years
/// only the multiples of 400 are; and the pattern repeats every 400 years.
pub proof fn lemma_gregorian_leap_years(year: int)
    ensures
        spec_is_leap_year(year) ==> year % 4 == 0,
        year % 4 == 0 && year % 100 != 0 ==> spec_is_leap_year(year),
        year % 100 == 0 ==> (spec_is_leap_year(year) <==> year % 400 == 0),
        spec_is_leap_year(year + 400) == spec_is_leap_year(year),
        days_in_year(year) == (if year % 4 == 0 && (year % 100 != 0 || year % 400 == 0) {
            366int
        } else {
            365int
        }),
{
    assert((year + 400) % 4 == year % 4);
    assert((year + 400) % 100 == year % 100);
    assert((year + 400) % 400 == year % 400);
    if year % 400 == 0 {
        assert(year % 4 == 0);
        assert(year % 100 == 0);
    }
}

/// Whether `year` is a leap year of the Gregorian calendar.
pub fn is_leap_year(year: i64) -> (b: bool)
    ensures
        b == spec_is_leap_year(year as int),
{
    (year % 4 == 0 && year % 100 != 0) || year % 400 == 0
}

/// Days in `year`.
pub open spec fn days_in_year(year: int) -> int {
    if spec_is_leap_year(year) {
        366
    } else {
        365
    }
}

/// Days in month `month` (1 to 12) of a leap or a common year.
pub open spec fn month_length(leap: bool, month: int) -> int {
    if month == 2 {
        if leap {
            29
        } else {
            28
        }
    } else if month == 4 || month == 6 || month == 9 || month == 11 {
        30
    } else {
        31
    }
}

/// Days from 1970-01-01 to the first day of `year`.
pub open spec fn days_before_year(year: int) -> int
    decreases year - 1970,
{
    if year <= 1970 {
        0
    } else {
        days_before_year(year - 1) + days_in_year(year - 1)
    }
}

/// Days from the first day of the year to the first day of `month`.
pub open spec fn days_before_month(leap: bool, month: int) -> int
    decreases month,
{
    if month <= 1 {
        0
    } else {
        days_before_month(leap, month - 1) + month_length(leap, month - 1)
    }
}

/// A UTC calendar time.
#[derive(Debug, Copy, Clone)]
pub struct DateTime {
    /// Year (e.g. 2026).
    pub year: i32,
    /// Month, 1 = January to 12 = December.
    pub month: u8,
    /// Day of the month, from 1.
    pub day: u8,
    /// Hour, 0 to 23.
    pub hour: u8,
    /// Minute, 0 to 59.
    pub minute: u8,
    /// Second, 0 to 59.
    pub second: u8,
}

impl DateTime {
    /// Whether every field lies in its calendar range, from 1970 on.
    pub open spec fn is_valid(self) -> bool {
        &&& self.year >= 1970
        &&& 1 <= self.month <= 12
        &&& 1 <= self.day <= month_length(spec_is_leap_year(self.year as int), self.month as int)
        &&& self.hour < 24
        &&& self.minute < 60
        &&& self.second < 60
    }

    /// Days from the epoch to this date.
    pub open spec fn epoch_days(self) -> int {
        days_before_year(self.year as int) + days_before_month(
            spec_is_leap_year(self.year as int),
            self.month as int,
        ) + self.day - 1
    }

    /// Seconds from the epoch to this time.
    pub open spec fn epoch_seconds(self) -> int {
        self.epoch_days() * 86_400 + self.hour * 3_600 + self.minute * 60 + self.second
    }

    /// Converts a Unix timestamp (seconds since 1970-01-01 00:00:00 UTC) into
    /// a `DateTime`.
    ///
    /// The day count is held in an `i32`; past that range (about 5.8 million
    /// years) it wraps as the cast does.
    pub fn from_unix_secs(unix_secs: u64) -> (dt: Self)
        ensures
            dt.second == unix_secs % 60,
            dt.minute == unix_secs % 3_600 / 60,
            dt.hour == unix_secs % 86_400 / 3_600,
            ({
                let d0 = ((unix_secs / 86_400) as i32) as int;
                &&& d0 >= 0 ==> dt.is_valid() && dt.epoch_days() == d0
                &&& d0 < 0 ==> dt.year == 1970 && dt.month == 1 && dt.day == ((d0 + 1) as u8)
            }),
            unix_secs / 86_400 <= i32::MAX ==> dt.is_valid() && dt.epoch_seconds() == unix_secs,
    {
        let second = (unix_secs % 60) as u8;
        let minute = (unix_secs % 3_600 / 60) as u8;
        let hour = (unix_secs % 86_400 / 3_600) as u8;
        let days0: i32 = #[verifier::truncate] ((unix_secs / 86_400) as i32);
        let mut days: i32 = days0;
        let mut year: i64 = UNIX_EPOCH_YEAR;
        loop
            invariant
                days <= days0,
                year >= 1970,
                (year - 1970) * 365 <= days0 - days,
                days0 >= 0 ==> days >= 0 && days_before_year(year as int) + days == days0,
                days0 < 0 ==> year == 1970 && days == days0,
            ensures
                year >= 1970,
                (year - 1970) * 365 <= days0 - days,
                days0 >= 0 ==> days >= 0 && days_before_year(year as int) + days == days0,
                days0 < 0 ==> year == 1970 && days == days0,
                days < days_in_year(year as int),
            decreases days,
        {
            let days_in_this_year: i32 = if is_leap_year(year) {
                366
            } else {
                365
            };
            if days >= days_in_this_year {
                days = days - days_in_this_year;
                year = year + 1;
                proof {
                    assert(days_before_year(year as int) == days_before_year(year - 1) + days_in_year(
                        year - 1,
                    ));
                }
            } else {
                break;
            }
        }
        let leap = is_leap_year(year);
        let mut month: u8 = 1;
        proof {
            lemma_year_is_its_months(leap);
        }
        loop
            invariant
                1 <= month <= 12,
                days0 >= 0 ==> days >= 0 && days_before_month(leap, month as int) + days
                    == days_before_year_rest(days0 as int, year as int),
                days0 >= 0 ==> days_before_month(leap, month as int) + month_remaining(leap, month as int) == days_in_year(year as int),
                days < days_in_year(year as int),
                days0 >= 0 ==> days < month_remaining(leap, month as int),
                days0 < 0 ==> month == 1 && days == days0,
                leap == spec_is_leap_year(year as int),
            ensures
                1 <= month <= 12,
                days0 >= 0 ==> days >= 0 && days_before_month(leap, month as int) + days
                    == days_before_year_rest(days0 as int, year as int),
                days0 >= 0 ==> days < month_length(leap, month as int),
                days0 < 0 ==> month == 1 && days == days0,
            decreases 12 - month,
        {
            let len: i32 = month_len(leap, month);
            if days >= len && month < 12 {
                days = days - len;
                month = month + 1;
            } else {
                proof {
                    if days0 >= 0 && days >= len {
                        assert(month == 12);
                        reveal_with_fuel(month_remaining, 2);
                        assert(month_remaining(leap, 12) == month_length(leap, 12));
                    }
                }
                break;
            }
        }
        assert(year <= i32::MAX);
        let dt = DateTime {
            year: year as i32,
            month,
            day: #[verifier::truncate] ((days + 1) as u8),
            hour,
            minute,
            second,
        };
        proof {
            if unix_secs / 86_400 <= i32::MAX {
                assert(days0 == unix_secs / 86_400);
                assert(dt.epoch_days() == unix_secs / 86_400);
                assert(dt.epoch_seconds() == unix_secs) by (nonlinear_arith)
                    requires
                        dt.epoch_days() == unix_secs / 86_400,
                        dt.hour == unix_secs % 86_400 / 3_600,
                        dt.minute == unix_secs % 3_600 / 60,
                        dt.second == unix_secs % 60,
                        dt.epoch_seconds() == dt.epoch_days() * 86_400 + dt.hour * 3_600 + dt.minute * 60 + dt.second,
                ;
            }
        }
        dt
    }
}

/// Days of the year still to come after the first day of `month`, counting
/// that day.
pub open spec fn month_remaining(leap: bool, month: int) -> int
    decreases 13 - month,
{
    if month > 12 || month < 1 {
        0
    } else {
        month_length(leap, month) + month_remaining(leap, month + 1)
    }
}

proof fn lemma_year_is_its_months(leap: bool)
    ensures
        month_remaining(leap, 1) == if leap {
            366int
        } else {
            365int
        },
        month_remaining(leap, 13) == 0,
{
    reveal_with_fuel(month_remaining, 14);
}

/// `days0` less the days before `year`.
pub open spec fn days_before_year_rest(days0: int, year: int) -> int {
    days0 - days_before_year(year)
}

/// Days in month `month` (1 to 12).
fn month_len(leap: bool, month: u8) -> (len: i32)
    requires
        1 <= month <= 12,
    ensures
        len == month_length(leap, month as int),
{
    if month == 2 {
        if leap {
            29
        } else {
            28
        }
    } else if month == 4 || month == 6 || month == 9 || month == 11 {
        30
    } else {
        31
    }
}

} // verus!
