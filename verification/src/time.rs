//! Points in time, time zone offsets and calendar dates as plain numbers, and
//! what the calendar says of them.
use vstd::prelude::*;
use vstd::string::*;
use vstd::utf8::*;
use crate::text::{
    ascii_lower, decimal, digits_value, equals_ignoring_case, filled, found_from, i32_value,
    is_blank, law_decimal_reads_back, law_filled_numbers_are_told_apart,
    law_search_finds_the_first_place, law_splitting_is_around_the_first_mark,
    law_trimming_drops_what_is_around,
    law_zeros_on_the_left_denote_nothing, occurs, parse_i32,
    same_ignoring_case, same_text, split_at_first, split_once, stands_at, trim, trimmed,
};

verus! {

/// Seconds of the first representable instant, counted from 1970-01-01 00:00 UTC.
pub const MIN_SECS: i64 = -8334601228800;

/// Seconds of the last representable instant.
pub const MAX_SECS: i64 = 8210266876799;

/// Number of the first representable date, where 0001-01-01 is day 1.
pub const MIN_DAY: i32 = -95746129;

/// Number of the last representable date.
pub const MAX_DAY: i32 = 95745399;

/// Number of 1970-01-01, where 0001-01-01 is day 1.
pub const EPOCH_DAY: i32 = 719163;

/// Whether seconds from the epoch and nanoseconds denote an instant. A leap
/// second is the last second of its minute with a billion nanoseconds or more.
pub open spec fn instant_parts(secs: int, nanos: int) -> bool {
    &&& MIN_SECS <= secs <= MAX_SECS
    &&& 0 <= nanos < 2_000_000_000
    &&& nanos >= 1_000_000_000 ==> secs % 60 == 59
}

/// A point in time.
#[derive(Clone, Copy, Debug, PartialEq, Eq, Structural)]
pub struct Instant {
    secs: i64,
    nanos: u32,
}

impl Instant {
    /// Seconds from 1970-01-01 00:00 UTC, leap seconds not counted.
    pub closed spec fn secs(self) -> int {
        self.secs as int
    }

    /// Nanoseconds within the second; a billion or more in a leap second.
    pub closed spec fn nanos(self) -> int {
        self.nanos as int
    }

    /// The parts denote an instant.
    #[verifier::type_invariant]
    pub open spec fn valid(self) -> bool {
        instant_parts(self.secs(), self.nanos())
    }

    /// A number by which instants are ordered.
    pub open spec fn rank(self) -> int {
        self.secs() * 4294967296 + self.nanos()
    }

    /// The instant with the given parts, where they denote one.
    pub fn new(secs: i64, nanos: u32) -> (r: Option<Instant>)
        ensures
            r is Some <==> instant_parts(secs as int, nanos as int),
            r matches Some(t) ==> t.secs() == secs && t.nanos() == nanos,
    {
        if MIN_SECS <= secs && secs <= MAX_SECS && nanos < 2_000_000_000 && (nanos < 1_000_000_000
            || (secs + 8334601228800) % 60 == 59) {
            proof {
                assert((secs + 8334601228800) % 60 == secs as int % 60) by {
                    assert(8334601228800int == 138910020480 * 60);
                }
            }
            Some(Instant { secs, nanos })
        } else {
            None
        }
    }

    pub fn get_secs(&self) -> (r: i64)
        ensures
            r == self.secs(),
            self.valid(),
    {
        proof {
            use_type_invariant(self);
        }
        self.secs
    }

    pub fn get_nanos(&self) -> (r: u32)
        ensures
            r == self.nanos(),
            self.valid(),
    {
        proof {
            use_type_invariant(self);
        }
        self.nanos
    }

    /// Whether this instant is not after the other.
    pub fn not_after(&self, other: &Instant) -> (r: bool)
        ensures
            r == (self.rank() <= other.rank()),
            self.valid(),
            other.valid(),
    {
        proof {
            use_type_invariant(self);
            use_type_invariant(other);
        }
        self.secs < other.secs || (self.secs == other.secs && self.nanos <= other.nanos)
    }
}

/// Instants with the same rank are the same.
pub proof fn law_rank_tells_instants_apart(a: Instant, b: Instant)
    requires
        a.valid(),
        b.valid(),
        a.rank() == b.rank(),
    ensures
        a == b,
{
}

/// A time zone as the seconds by which its clocks are ahead of UTC, less than
/// a day either way.
#[derive(Clone, Copy, Debug, PartialEq, Eq, Structural)]
pub struct TzOffset {
    ahead: i32,
}

/// Whether seconds ahead of UTC denote a time zone.
pub open spec fn offset_parts(secs: int) -> bool {
    -86400 < secs < 86400
}

impl TzOffset {
    /// Seconds ahead of UTC.
    pub closed spec fn secs(self) -> int {
        self.ahead as int
    }

    /// The seconds denote a time zone.
    #[verifier::type_invariant]
    pub open spec fn valid(self) -> bool {
        offset_parts(self.secs())
    }

    /// The time zone that many seconds ahead of UTC, where there is one.
    pub fn new(secs: i32) -> (r: Option<TzOffset>)
        ensures
            r is Some <==> offset_parts(secs as int),
            r matches Some(z) ==> z.secs() == secs,
    {
        if -86400 < secs && secs < 86400 {
            Some(TzOffset { ahead: secs })
        } else {
            None
        }
    }

    pub fn get_secs(&self) -> (r: i32)
        ensures
            r == self.secs(),
            self.valid(),
    {
        proof {
            use_type_invariant(self);
        }
        self.ahead
    }
}

/// The day in a time zone on which an instant falls, counted from 1970-01-01.
pub open spec fn local_day(secs: int, offset: int) -> int {
    (secs + offset) / 86400
}

/// The hour of the day, 0 to 23, at an instant in a time zone.
pub open spec fn local_hour(secs: int, offset: int) -> int {
    (secs + offset) % 86400 / 3600
}

/// The day of the week, 0 for Monday to 6 for Sunday, at an instant in a time
/// zone; 1970-01-01 was a Thursday.
pub open spec fn local_weekday(secs: int, offset: int) -> int {
    (local_day(secs, offset) + 3) % 7
}

/// A time zone moves the clock by its seconds. Hours are counted from 0 within
/// a day of 24, days of the week from Monday, 0, within a week of seven, and
/// 1970 began on a Thursday.
pub proof fn law_zones_move_the_clock(secs: int, offset: int, days: int)
    ensures
        local_day(secs, offset) == local_day(secs + offset, 0),
        local_hour(secs, offset) == local_hour(secs + offset, 0),
        local_weekday(secs, offset) == local_weekday(secs + offset, 0),
        local_day(secs + days * 86400, offset) == local_day(secs, offset) + days,
        local_hour(secs + days * 86400, offset) == local_hour(secs, offset),
        local_weekday(secs + days * 86400, offset) == (local_weekday(secs, offset) + days) % 7,
        0 <= local_hour(secs, offset) < 24,
        0 <= secs + offset - local_day(secs, offset) * 86400 - local_hour(secs, offset) * 3600
            < 3600,
        local_weekday(0, 0) == 3,
{
}

/// The whole seconds from one instant to another, toward zero. A leap second
/// between the two counts where the day's clock shows that it was passed.
pub open spec fn elapsed_parts(a_secs: int, a_nanos: int, b_secs: int, b_nanos: int) -> int {
    let leap = if b_secs % 86400 > a_secs % 86400 && a_nanos >= 1_000_000_000 {
        1int
    } else if b_secs % 86400 < a_secs % 86400 && b_nanos >= 1_000_000_000 {
        -1int
    } else {
        0int
    };
    let nanos = (b_secs - a_secs + leap) * 1_000_000_000 + b_nanos - a_nanos;
    if nanos >= 0 {
        nanos / 1_000_000_000
    } else {
        -((-nanos) / 1_000_000_000)
    }
}

/// The whole seconds from `a` to `b`, toward zero.
pub open spec fn elapsed(a: Instant, b: Instant) -> int {
    elapsed_parts(a.secs(), a.nanos(), b.secs(), b.nanos())
}

/// Subtracts two `chrono::DateTime<Utc>` and takes `TimeDelta::num_seconds`.
/// The result is the difference in whole seconds toward zero, with the leap
/// seconds that chrono's `NaiveTime::signed_duration_since` counts.
#[verifier::external_body]
fn chrono_seconds_between(a_secs: i64, a_nanos: u32, b_secs: i64, b_nanos: u32) -> (r: i64)
    requires
        instant_parts(a_secs as int, a_nanos as int),
        instant_parts(b_secs as int, b_nanos as int),
    ensures
        r == elapsed_parts(a_secs as int, a_nanos as int, b_secs as int, b_nanos as int),
{
    let a = chrono::DateTime::from_timestamp(a_secs, a_nanos).unwrap();
    let b = chrono::DateTime::from_timestamp(b_secs, b_nanos).unwrap();
    (b - a).num_seconds()
}

/// The whole seconds from one instant to another, toward zero.
pub fn seconds_between(a: &Instant, b: &Instant) -> (r: i64)
    ensures
        r == elapsed(*a, *b),
        a.valid(),
        b.valid(),
{
    chrono_seconds_between(a.get_secs(), a.get_nanos(), b.get_secs(), b.get_nanos())
}

/// What an RFC 3339 date and time denotes, as seconds and nanoseconds; none
/// where the text is not one.
pub uninterp spec fn rfc3339(text: Seq<char>) -> Option<(i64, u32)>;

/// Calls `chrono::DateTime::parse_from_rfc3339` and moves the result to UTC.
/// The result is `rfc3339` of the text, and it denotes an instant. The grammar
/// is not said here.
#[verifier::external_body]
fn chrono_read_rfc3339(text: &str) -> (r: Option<(i64, u32)>)
    ensures
        r == rfc3339(text@),
        r matches Some(p) ==> instant_parts(p.0 as int, p.1 as int),
{
    let at = chrono::DateTime::parse_from_rfc3339(text).ok()?.with_timezone(&chrono::Utc);
    Some((at.timestamp(), at.timestamp_subsec_nanos()))
}

/// The instant with the given parts.
pub closed spec fn instant_of(parts: (i64, u32)) -> Instant {
    Instant { secs: parts.0, nanos: parts.1 }
}

/// An instant has the parts that it was made of, and no other has them.
pub broadcast proof fn law_instant_has_its_parts(parts: (i64, u32))
    ensures
        (#[trigger] instant_of(parts)).secs() == parts.0,
        instant_of(parts).nanos() == parts.1,
        forall|t: Instant|
            #[trigger] t.secs() == parts.0 && t.nanos() == parts.1 ==> t == instant_of(parts),
{
}

/// The instant that an RFC 3339 date and time denotes.
pub open spec fn instant_read(text: Seq<char>) -> Option<Instant> {
    match rfc3339(text) {
        Some(p) => Some(instant_of(p)),
        None => None,
    }
}

/// Reads an RFC 3339 date and time.
pub fn read_rfc3339(text: &str) -> (r: Option<Instant>)
    ensures
        r == instant_read(text@),
        r matches Some(t) ==> t.valid(),
{
    match chrono_read_rfc3339(text) {
        Some(p) => Some(Instant { secs: p.0, nanos: p.1 }),
        None => None,
    }
}

/// A number of two digits, with a zero before a single one.
pub open spec fn two_digits(n: nat) -> Seq<char> {
    filled(decimal(n), 2, '0')
}

/// Whether a year has a 29th of February.
pub open spec fn is_leap_year(y: int) -> bool {
    y % 4 == 0 && (y % 100 != 0 || y % 400 == 0)
}

/// The days of a year before a month, 1 for January to 12 for December; the
/// days of the year for 13.
pub open spec fn days_before_month(y: int, m: int) -> int {
    let days = if m == 1 {
        0int
    } else if m == 2 {
        31
    } else if m == 3 {
        59
    } else if m == 4 {
        90
    } else if m == 5 {
        120
    } else if m == 6 {
        151
    } else if m == 7 {
        181
    } else if m == 8 {
        212
    } else if m == 9 {
        243
    } else if m == 10 {
        273
    } else if m == 11 {
        304
    } else if m == 12 {
        334
    } else {
        365
    };
    if m > 2 && is_leap_year(y) {
        days + 1
    } else {
        days
    }
}

/// The days from 0001-01-01 to the start of a year.
pub open spec fn days_before_year(y: int) -> int {
    365 * (y - 1) + (y - 1) / 4 - (y - 1) / 100 + (y - 1) / 400
}

/// Year, month and day are a date of the Gregorian calendar.
pub open spec fn is_date(y: int, m: int, d: int) -> bool {
    1 <= m <= 12 && 1 <= d <= days_before_month(y, m + 1) - days_before_month(y, m)
}

/// The number of a date, where 0001-01-01 is day 1.
pub open spec fn day_number(y: int, m: int, d: int) -> int {
    days_before_year(y) + days_before_month(y, m) + d
}

/// A year of four digits, or of as many as it takes with a sign before the year
/// 0 and after the year 9999.
pub open spec fn year_text(y: int) -> Seq<char> {
    if y < 0 {
        seq!['-'] + filled(decimal((-y) as nat), 4, '0')
    } else if y > 9999 {
        seq!['+'] + decimal(y as nat)
    } else {
        filled(decimal(y as nat), 4, '0')
    }
}

/// Year, month and day with hyphens.
pub open spec fn ymd_text(y: int, m: int, d: int) -> Seq<char> {
    year_text(y) + seq!['-'] + two_digits(m as nat) + seq!['-'] + two_digits(d as nat)
}

/// The date of a day counted from 1970-01-01, as year, month and day with
/// hyphens.
pub open spec fn date_text(day: int) -> Seq<char> {
    let (y, m, d) = choose|y: int, m: int, d: int|
        is_date(y, m, d) && #[trigger] day_number(y, m, d) == day + EPOCH_DAY;
    ymd_text(y, m, d)
}

#[verifier::spinoff_prover]
proof fn lemma_year_step(y: int)
    ensures
        days_before_year(y + 1) == days_before_year(y) + days_before_month(y, 13),
{
    assert(y / 4 - (y - 1) / 4 == if y % 4 == 0 {
        1int
    } else {
        0int
    });
    assert(y / 100 - (y - 1) / 100 == if y % 100 == 0 {
        1int
    } else {
        0int
    });
    assert(y / 400 - (y - 1) / 400 == if y % 400 == 0 {
        1int
    } else {
        0int
    });
}

proof fn lemma_years_follow(a: int, b: int)
    requires
        a < b,
    ensures
        days_before_year(a) + days_before_month(a, 13) <= days_before_year(b),
    decreases b - a,
{
    lemma_year_step(a);
    if a + 1 < b {
        lemma_years_follow(a + 1, b);
    }
}

/// A day has one date only.
proof fn lemma_one_date(y: int, m: int, d: int, y2: int, m2: int, d2: int)
    requires
        is_date(y, m, d),
        is_date(y2, m2, d2),
        day_number(y, m, d) == day_number(y2, m2, d2),
    ensures
        y == y2 && m == m2 && d == d2,
{
    if y < y2 {
        lemma_years_follow(y, y2);
    } else if y2 < y {
        lemma_years_follow(y2, y);
    }
}

/// The date of a day is that whose number it has.
pub proof fn law_dates_are_written(y: int, m: int, d: int)
    requires
        is_date(y, m, d),
    ensures
        date_text(day_number(y, m, d) - EPOCH_DAY) == ymd_text(y, m, d),
{
    let day = day_number(y, m, d) - EPOCH_DAY;
    assert(is_date(y, m, d) && day_number(y, m, d) == day + EPOCH_DAY);
    let (y2, m2, d2) = choose|y2: int, m2: int, d2: int|
        is_date(y2, m2, d2) && #[trigger] day_number(y2, m2, d2) == day + EPOCH_DAY;
    lemma_one_date(y, m, d, y2, m2, d2);
}

proof fn lemma_year_from(n: int, y: int) -> (r: int)
    requires
        days_before_year(y) < n,
    ensures
        days_before_year(r) < n <= days_before_year(r + 1),
    decreases n - days_before_year(y),
{
    lemma_year_step(y);
    if n <= days_before_year(y + 1) {
        y
    } else {
        lemma_year_from(n, y + 1)
    }
}

proof fn lemma_year_down_to(n: int, y: int) -> (r: int)
    requires
        n <= days_before_year(y + 1),
    ensures
        days_before_year(r) < n <= days_before_year(r + 1),
    decreases days_before_year(y + 1) - n + 1,
{
    lemma_year_step(y);
    if days_before_year(y) < n {
        y
    } else {
        lemma_year_down_to(n, y - 1)
    }
}

/// Every day has a date.
pub proof fn law_every_day_has_a_date(day: int) -> (r: (int, int, int))
    ensures
        is_date(r.0, r.1, r.2),
        day_number(r.0, r.1, r.2) == day + EPOCH_DAY,
        date_text(day) == ymd_text(r.0, r.1, r.2),
{
    let n = day + EPOCH_DAY;
    let y = if days_before_year(1) < n {
        lemma_year_from(n, 1)
    } else {
        lemma_year_down_to(n, 1)
    };
    lemma_year_step(y);
    let k = n - days_before_year(y);
    let m = if k <= days_before_month(y, 2) {
        1int
    } else if k <= days_before_month(y, 3) {
        2
    } else if k <= days_before_month(y, 4) {
        3
    } else if k <= days_before_month(y, 5) {
        4
    } else if k <= days_before_month(y, 6) {
        5
    } else if k <= days_before_month(y, 7) {
        6
    } else if k <= days_before_month(y, 8) {
        7
    } else if k <= days_before_month(y, 9) {
        8
    } else if k <= days_before_month(y, 10) {
        9
    } else if k <= days_before_month(y, 11) {
        10
    } else if k <= days_before_month(y, 12) {
        11
    } else {
        12
    };
    let d = k - days_before_month(y, m);
    law_dates_are_written(y, m, d);
    (y, m, d)
}

proof fn lemma_years_told_apart(a: int, b: int)
    requires
        a != b,
    ensures
        year_text(a) != year_text(b),
{
    let x = year_text(a);
    let y = year_text(b);
    if a < 0 && b < 0 {
        law_filled_numbers_are_told_apart((-a) as nat, (-b) as nat, 4);
        assert(x.drop_first() =~= filled(decimal((-a) as nat), 4, '0'));
        assert(y.drop_first() =~= filled(decimal((-b) as nat), 4, '0'));
    } else if a > 9999 && b > 9999 {
        law_decimal_reads_back(a as nat);
        law_decimal_reads_back(b as nat);
        assert(x.drop_first() =~= decimal(a as nat));
        assert(y.drop_first() =~= decimal(b as nat));
    } else if 0 <= a <= 9999 && 0 <= b <= 9999 {
        law_filled_numbers_are_told_apart(a as nat, b as nat, 4);
    } else {
        lemma_first_of_year(a);
        lemma_first_of_year(b);
    }
}

/// A year starts with a sign outside the years 0 to 9999, and with a digit in
/// them.
proof fn lemma_first_of_year(y: int)
    ensures
        year_text(y).len() > 0,
        y < 0 ==> year_text(y)[0] == '-',
        y > 9999 ==> year_text(y)[0] == '+',
        0 <= y <= 9999 ==> '0' <= year_text(y)[0] <= '9',
{
    if 0 <= y <= 9999 {
        lemma_first_digit(y as nat);
    }
}

proof fn lemma_first_digit(n: nat)
    ensures
        decimal(n).len() > 0,
        '0' <= decimal(n)[0] <= '9',
    decreases n,
{
    assert('0' as int == 48 && '9' as int == 57);
    if n >= 10 {
        lemma_first_digit(n / 10);
        assert(decimal(n)[0] == decimal(n / 10)[0]);
    }
}

/// The parts of a text of hyphens between a year, a month and a day.
proof fn lemma_parts(year: Seq<char>, month: Seq<char>, day: Seq<char>)
    requires
        month.len() == 2,
        day.len() == 2,
    ensures
        ({
            let s = year + seq!['-'] + month + seq!['-'] + day;
            let n = s.len() as int;
            &&& n == year.len() + 6
            &&& s.take(n - 6) == year
            &&& s.subrange(n - 5, n - 3) == month
            &&& s.subrange(n - 2, n) == day
        }),
{
    let s = year + seq!['-'] + month + seq!['-'] + day;
    let n = s.len() as int;
    assert(s.take(n - 6) =~= year);
    assert(s.subrange(n - 5, n - 3) =~= month);
    assert(s.subrange(n - 2, n) =~= day);
}

proof fn lemma_ymd_told_apart(y: int, m: int, d: int, y2: int, m2: int, d2: int)
    requires
        0 <= m < 100 && 0 <= d < 100,
        0 <= m2 < 100 && 0 <= d2 < 100,
        y != y2 || m != m2 || d != d2,
    ensures
        ymd_text(y, m, d) != ymd_text(y2, m2, d2),
{
    lemma_short_number(m as nat);
    lemma_short_number(d as nat);
    lemma_short_number(m2 as nat);
    lemma_short_number(d2 as nat);
    lemma_parts(year_text(y), two_digits(m as nat), two_digits(d as nat));
    lemma_parts(year_text(y2), two_digits(m2 as nat), two_digits(d2 as nat));
    if y != y2 {
        lemma_years_told_apart(y, y2);
    } else if m != m2 {
        law_filled_numbers_are_told_apart(m as nat, m2 as nat, 2);
    } else {
        law_filled_numbers_are_told_apart(d as nat, d2 as nat, 2);
    }
}

/// Different days have different dates.
pub proof fn law_dates_tell_days_apart(a: int, b: int)
    requires
        a != b,
    ensures
        date_text(a) != date_text(b),
{
    let (y, m, d) = law_every_day_has_a_date(a);
    let (y2, m2, d2) = law_every_day_has_a_date(b);
    lemma_ymd_told_apart(y, m, d, y2, m2, d2);
}

/// Hours, minutes and seconds at an instant in a time zone. A leap second is
/// written as one more than the second that it follows.
pub open spec fn clock_text(secs: int, nanos: int, offset: int) -> Seq<char> {
    let t = secs + offset;
    two_digits((t % 86400 / 3600) as nat) + seq![':'] + two_digits((t % 3600 / 60) as nat)
        + seq![':'] + two_digits((t % 60 + nanos / 1_000_000_000) as nat)
}

/// The fraction of a second: none, or three, six or nine digits, as few as it
/// takes.
pub open spec fn fraction_text(nanos: int) -> Seq<char> {
    let n = (nanos % 1_000_000_000) as nat;
    if n == 0 {
        seq![]
    } else if n % 1_000_000 == 0 {
        seq!['.'] + filled(decimal(n / 1_000_000), 3, '0')
    } else if n % 1_000 == 0 {
        seq!['.'] + filled(decimal(n / 1_000), 6, '0')
    } else {
        seq!['.'] + filled(decimal(n), 9, '0')
    }
}

/// The seconds ahead of UTC as sign, hours and minutes, to the nearest minute.
pub open spec fn zone_text(offset: int) -> Seq<char> {
    let sign = if offset < 0 {
        seq!['-']
    } else {
        seq!['+']
    };
    let minutes = ((if offset < 0 {
        -offset
    } else {
        offset
    }) + 30) / 60;
    sign + two_digits((minutes / 60) as nat) + seq![':'] + two_digits((minutes % 60) as nat)
}

/// The RFC 3339 form of an instant in a time zone: the local date and time, and
/// the zone.
pub open spec fn rfc3339_text(secs: int, nanos: int, offset: int) -> Seq<char> {
    date_text(local_day(secs, offset)) + seq!['T'] + clock_text(secs, nanos, offset)
        + fraction_text(nanos) + zone_text(offset)
}

/// Local seconds that fall in the years 0000 to 9999, which RFC 3339 can write.
pub open spec fn in_rfc3339_years(secs: int) -> bool {
    -62167219200 <= secs <= 253402300799
}

/// Calls `chrono::DateTime::to_rfc3339` on an instant moved to a time zone.
/// The result is the local date and time and the zone. Where the zone is of
/// whole minutes and the local year of four digits, reading the text gives the
/// instant back.
#[verifier::external_body]
fn chrono_write_rfc3339(secs: i64, nanos: u32, offset: i32) -> (r: String)
    requires
        instant_parts(secs as int, nanos as int),
        offset_parts(offset as int),
    ensures
        r@ == rfc3339_text(secs as int, nanos as int, offset as int),
        offset as int % 60 == 0 && in_rfc3339_years(secs + offset) ==> rfc3339(r@) == Some(
            (secs, nanos),
        ),
{
    let zone = chrono::FixedOffset::east_opt(offset).unwrap();
    chrono::DateTime::from_timestamp(secs, nanos).unwrap().with_timezone(&zone).to_rfc3339()
}

/// The RFC 3339 form of an instant in a time zone. Where the zone is of whole
/// minutes and the local year of four digits, reading it gives the instant
/// back.
pub fn fmt_dt(at: &Instant, tz: &TzOffset) -> (r: String)
    ensures
        r@ == rfc3339_text(at.secs(), at.nanos(), tz.secs()),
        tz.secs() % 60 == 0 && in_rfc3339_years(at.secs() + tz.secs()) ==> instant_read(r@)
            == Some(*at),
        at.valid(),
        tz.valid(),
{
    chrono_write_rfc3339(at.get_secs(), at.get_nanos(), tz.get_secs())
}

/// The day that a date written as year, month and day denotes, where 0001-01-01
/// is day 1; none where the text is no such date.
pub uninterp spec fn calendar_day(text: Seq<char>) -> Option<i32>;

/// The day falls in the years 0000 to 9999.
pub open spec fn in_four_digit_years(day: int) -> bool {
    -365 <= day + EPOCH_DAY <= 3652059
}

/// Calls `chrono::DateTime::format` with `%Y-%m-%d` on an instant moved to a
/// time zone. The result is the date of the local day in the Gregorian
/// calendar. For years of four digits, reading the text gives the day back.
#[verifier::external_body]
fn chrono_write_date(secs: i64, offset: i32) -> (r: String)
    requires
        instant_parts(secs as int, 0),
        offset_parts(offset as int),
    ensures
        r@ == date_text(local_day(secs as int, offset as int)),
        in_four_digit_years(local_day(secs as int, offset as int)) ==> calendar_day(r@) == Some(
            (local_day(secs as int, offset as int) + EPOCH_DAY) as i32,
        ),
{
    let zone = chrono::FixedOffset::east_opt(offset).unwrap();
    let at = chrono::DateTime::from_timestamp(secs, 0).unwrap().with_timezone(&zone);
    at.format("%Y-%m-%d").to_string()
}

/// The date in a time zone on which an instant falls.
pub open spec fn date_of(at: Instant, tz: TzOffset) -> Seq<char> {
    date_text(local_day(at.secs(), tz.secs()))
}

/// The date in a time zone on which an instant falls, as text.
pub fn date_key(at: &Instant, tz: &TzOffset) -> (r: String)
    ensures
        r@ == date_of(*at, *tz),
        in_four_digit_years(local_day(at.secs(), tz.secs())) ==> calendar_day(r@) == Some(
            (local_day(at.secs(), tz.secs()) + EPOCH_DAY) as i32,
        ),
        at.valid(),
        tz.valid(),
{
    chrono_write_date(at.get_secs(), tz.get_secs())
}

/// Calls `chrono::Timelike::hour` on an instant moved to a time zone. The
/// result is the hour of the local day.
#[verifier::external_body]
fn chrono_hour(secs: i64, offset: i32) -> (r: u32)
    requires
        instant_parts(secs as int, 0),
        offset_parts(offset as int),
    ensures
        r == local_hour(secs as int, offset as int),
{
    let zone = chrono::FixedOffset::east_opt(offset).unwrap();
    let at = chrono::DateTime::from_timestamp(secs, 0).unwrap().with_timezone(&zone);
    chrono::Timelike::hour(&at)
}

/// Calls `chrono::Datelike::weekday` on an instant moved to a time zone, and
/// `Weekday::num_days_from_monday`. The result is the local day's weekday.
#[verifier::external_body]
fn chrono_weekday(secs: i64, offset: i32) -> (r: u32)
    requires
        instant_parts(secs as int, 0),
        offset_parts(offset as int),
    ensures
        r == local_weekday(secs as int, offset as int),
{
    let zone = chrono::FixedOffset::east_opt(offset).unwrap();
    let at = chrono::DateTime::from_timestamp(secs, 0).unwrap().with_timezone(&zone);
    chrono::Datelike::weekday(&at).num_days_from_monday()
}

/// The hour of the day, 0 to 23.
pub fn hour_of(at: &Instant, tz: &TzOffset) -> (r: usize)
    ensures
        r == local_hour(at.secs(), tz.secs()),
        r < 24,
{
    chrono_hour(at.get_secs(), tz.get_secs()) as usize
}

/// The day of the week, 0 for Monday to 6 for Sunday.
pub fn weekday_of(at: &Instant, tz: &TzOffset) -> (r: usize)
    ensures
        r == local_weekday(at.secs(), tz.secs()),
        r < 7,
{
    chrono_weekday(at.get_secs(), tz.get_secs()) as usize
}

/// A date and time to the second in a time zone.
pub open spec fn stamp_text(secs: int, nanos: int, offset: int) -> Seq<char> {
    date_text(local_day(secs, offset)) + seq![' '] + clock_text(secs, nanos, offset)
}

/// Calls `chrono::DateTime::format` with `%Y-%m-%d %H:%M:%S` on an instant
/// moved to a time zone. The result is the local date and time.
#[verifier::external_body]
fn chrono_write_stamp(secs: i64, nanos: u32, offset: i32) -> (r: String)
    requires
        instant_parts(secs as int, nanos as int),
        offset_parts(offset as int),
    ensures
        r@ == stamp_text(secs as int, nanos as int, offset as int),
{
    let zone = chrono::FixedOffset::east_opt(offset).unwrap();
    let at = chrono::DateTime::from_timestamp(secs, nanos).unwrap().with_timezone(&zone);
    at.format("%Y-%m-%d %H:%M:%S").to_string()
}

/// A date and time to the second in a time zone, as text.
pub fn stamp(at: &Instant, tz: &TzOffset) -> (r: String)
    ensures
        r@ == stamp_text(at.secs(), at.nanos(), tz.secs()),
{
    chrono_write_stamp(at.get_secs(), at.get_nanos(), tz.get_secs())
}

/// The seconds ahead of UTC as sign, hours and minutes, and seconds where
/// there are any.
pub open spec fn offset_text(secs: int) -> Seq<char> {
    let n = (if secs < 0 {
        -secs
    } else {
        secs
    }) as nat;
    let sign = if secs < 0 {
        seq!['-']
    } else {
        seq!['+']
    };
    let minutes = sign + filled(decimal(n / 3600), 2, '0') + seq![':'] + filled(
        decimal(n / 60 % 60),
        2,
        '0',
    );
    if n % 60 == 0 {
        minutes
    } else {
        minutes + seq![':'] + filled(decimal(n % 60), 2, '0')
    }
}

/// Calls the `Display` form of `chrono::FixedOffset`: sign, hours and minutes
/// of two digits with a colon, and the seconds where there are any.
#[verifier::external_body]
fn chrono_write_offset(offset: i32) -> (r: String)
    requires
        offset_parts(offset as int),
    ensures
        r@ == offset_text(offset as int),
{
    chrono::FixedOffset::east_opt(offset).unwrap().to_string()
}

/// The time zone as text.
pub fn offset_label(tz: &TzOffset) -> (r: String)
    ensures
        r@ == offset_text(tz.secs()),
{
    chrono_write_offset(tz.get_secs())
}

/// Calls `chrono::NaiveDate::parse_from_str` with `%Y-%m-%d`. The result is
/// `calendar_day` of the text; the grammar is not said here.
#[verifier::external_body]
fn chrono_read_date(text: &str) -> (r: Option<i32>)
    ensures
        r == calendar_day(text@),
{
    let date = chrono::NaiveDate::parse_from_str(text, "%Y-%m-%d").ok()?;
    Some(chrono::Datelike::num_days_from_ce(&date))
}

/// Reads a date written as year, month and day; the result is the number of
/// its day.
pub fn parse_date(text: &str) -> (r: Option<i32>)
    ensures
        r == calendar_day(text@),
{
    chrono_read_date(text)
}

/// A day lies between two dates, each of which may be missing. A day that is
/// not known counts as between them.
pub open spec fn day_between(day: Option<i32>, from: Option<i32>, to: Option<i32>) -> bool {
    match day {
        None => true,
        Some(d) => (from matches Some(f) ==> f <= d) && (to matches Some(t) ==> d <= t),
    }
}

/// Both dates are within the range, the days before and after it are not, a
/// missing date sets no bound, and a wider range takes in no less.
pub proof fn law_ranges_take_in_their_ends(d: i32, from: Option<i32>, to: Option<i32>)
    ensures
        day_between(Some(d), Some(d), Some(d)),
        day_between(Some(d), None, None),
        day_between(None, from, to),
        d < i32::MAX ==> !day_between(Some(d), Some((d + 1) as i32), to),
        d > i32::MIN ==> !day_between(Some(d), from, Some((d - 1) as i32)),
        day_between(Some(d), from, to) <==> day_between(Some(d), from, None) && day_between(
            Some(d),
            None,
            to,
        ),
        forall|f: i32, g: i32|
            f <= g && #[trigger] day_between(Some(d), Some(g), to) ==> #[trigger] day_between(
                Some(d),
                Some(f),
                to,
            ),
        forall|t: i32, u: i32|
            t <= u && #[trigger] day_between(Some(d), from, Some(t)) ==> #[trigger] day_between(
                Some(d),
                from,
                Some(u),
            ),
{
}

/// Whether a day lies between two dates, each of which may be missing.
pub fn is_day_between(day: Option<i32>, from: &Option<i32>, to: &Option<i32>) -> (r: bool)
    ensures
        r == day_between(day, *from, *to),
{
    let d = match day {
        Some(x) => x,
        None => return true,
    };
    if let Some(f) = from {
        if d < *f {
            return false;
        }
    }
    if let Some(t) = to {
        if d > *t {
            return false;
        }
    }
    true
}

/// Whether a date lies between two dates, each of which may be missing. A text
/// that is no date counts as between them.
pub fn within_range(d: &str, from: &Option<i32>, to: &Option<i32>) -> (r: bool)
    ensures
        r == day_between(calendar_day(d@), *from, *to),
{
    is_day_between(parse_date(d), from, to)
}

/// Whether the local date of an instant lies between two dates, each of which
/// may be missing. In the years 0000 to 9999 that goes by the local day.
pub fn date_within(at: &Instant, tz: &TzOffset, from: &Option<i32>, to: &Option<i32>) -> (r: bool)
    ensures
        r == day_between(calendar_day(date_of(*at, *tz)), *from, *to),
        in_four_digit_years(local_day(at.secs(), tz.secs())) ==> r == {
            let day = local_day(at.secs(), tz.secs()) + EPOCH_DAY;
            &&& *from matches Some(f) ==> f <= day
            &&& *to matches Some(t) ==> day <= t
        },
{
    let key = date_key(at, tz);
    within_range(key.as_str(), from, to)
}

/// The most days that a span of time can have.
pub const MAX_SPAN_DAYS: i64 = 106751991167;

/// The date a number of days before another, where it can be represented.
pub open spec fn days_before(day: int, days: int) -> Option<int> {
    if MIN_DAY <= day - days <= MAX_DAY {
        Some(day - days)
    } else {
        None
    }
}

/// Calls `chrono::NaiveDate::checked_sub_signed` with `TimeDelta::days`. The
/// result is the date that many days earlier, or none where chrono cannot
/// represent it.
#[verifier::external_body]
fn chrono_days_before(day: i32, days: i64) -> (r: Option<i32>)
    requires
        MIN_DAY <= day <= MAX_DAY,
        -MAX_SPAN_DAYS <= days <= MAX_SPAN_DAYS,
    ensures
        match r {
            Some(d) => days_before(day as int, days as int) == Some(d as int),
            None => days_before(day as int, days as int) is None,
        },
{
    let date = chrono::NaiveDate::from_num_days_from_ce_opt(day).unwrap();
    let date = date.checked_sub_signed(chrono::Duration::days(days))?;
    Some(chrono::Datelike::num_days_from_ce(&date))
}

/// The number of the local date at an instant, where 0001-01-01 is day 1.
pub fn today(now: &Instant, tz: &TzOffset) -> (r: i32)
    ensures
        r == local_day(now.secs(), tz.secs()) + EPOCH_DAY,
        MIN_DAY - 1 <= r <= MAX_DAY + 1,
{
    let secs: i64 = now.get_secs() + tz.get_secs() as i64;
    // counted from a day before every instant, so that the division is of
    // numbers that are not negative
    let day: i64 = (secs + 86400 * 100_000_000) / 86400 - 100_000_000;
    proof {
        assert((secs + 86400 * 100_000_000) / 86400 == secs as int / 86400 + 100_000_000);
    }
    (day + EPOCH_DAY as i64) as i32
}

/// The first date of a scan: the one asked for; else none where all history is
/// asked for; else the given number of days before today.
pub open spec fn first_date(from: Option<i32>, all: bool, today: int, days: int) -> Option<int> {
    match from {
        Some(d) => Some(d as int),
        None => if all {
            None
        } else {
            days_before(today, days)
        },
    }
}

/// A date that is asked for decides, whatever else is; then all history does,
/// and has no first date; else a day more goes back one date more, as far as
/// there are dates.
pub proof fn law_a_scan_goes_back_as_asked(d: i32, all: bool, today: int, days: int)
    requires
        MIN_DAY <= today <= MAX_DAY,
    ensures
        first_date(Some(d), all, today, days) == Some(d as int),
        first_date(None, true, today, days) is None,
        first_date(None, false, today, 0) == Some(today),
        first_date(None, false, today, days) matches Some(x) ==> x + days == today,
        first_date(None, false, today, days) is None <==> today - days < MIN_DAY || today - days
            > MAX_DAY,
{
}

/// The first date of a scan.
pub fn scan_start(from: Option<i32>, all: bool, today: i32, days: i64) -> (r: Option<i32>)
    requires
        from is None && !all ==> MIN_DAY <= today <= MAX_DAY && -MAX_SPAN_DAYS <= days
            <= MAX_SPAN_DAYS,
    ensures
        match r {
            Some(d) => first_date(from, all, today as int, days as int) == Some(d as int),
            None => first_date(from, all, today as int, days as int) is None,
        },
{
    if from.is_none() && !all {
        chrono_days_before(today, days)
    } else {
        from
    }
}

/// Calls `chrono::Utc::now`. The result denotes an instant; which it is, the
/// clock of the machine decides, and nothing is said of it here.
#[verifier::external_body]
fn chrono_now() -> (r: (i64, u32))
    ensures
        instant_parts(r.0 as int, r.1 as int),
{
    let now = chrono::Utc::now();
    (now.timestamp(), now.timestamp_subsec_nanos())
}

/// The current instant, as the clock of the machine has it.
pub fn now() -> (r: Instant)
    ensures
        r.valid(),
{
    let p = chrono_now();
    Instant { secs: p.0, nanos: p.1 }
}

/// Calls `chrono::Local::now` and takes its offset. The result is less than a
/// day either way; which it is, the machine decides.
#[verifier::external_body]
fn chrono_local_offset() -> (r: i32)
    ensures
        offset_parts(r as int),
{
    chrono::Local::now().offset().local_minus_utc()
}

/// Why a time zone could not be read.
#[derive(Clone, Copy, Debug, PartialEq, Eq, Structural)]
pub enum TzError {
    /// It starts with neither `+` nor `-`.
    BadSign,
    /// Hours or minutes are no number.
    BadNumber,
    /// It is a day or more from UTC.
    OutOfRange,
}

/// What a text says of a time zone.
pub enum TzRequest {
    /// The zone of the machine.
    Machine,
    /// The zone that many seconds ahead of UTC; any number of them.
    Ahead(int),
    /// Nothing that can be read.
    Unreadable(TzError),
}

/// The texts of hours and minutes in what follows the sign: before and after
/// a colon; two and two digits of four; or hours alone.
pub open spec fn tz_fields(rest: Seq<char>) -> Option<(Seq<char>, Seq<char>)> {
    match split_at_first(rest, seq![':']) {
        Some(f) => Some(f),
        None => if encode_utf8(rest).len() == 4 {
            if rest.len() == 4 {
                Some((rest.take(2), rest.skip(2)))
            } else {
                None
            }
        } else {
            Some((rest, seq!['0']))
        },
    }
}

/// What a trimmed text says of a time zone.
pub open spec fn tz_request(s: Seq<char>) -> TzRequest {
    if s.len() == 0 || same_ignoring_case(s, "local"@) {
        TzRequest::Machine
    } else if same_ignoring_case(s, "utc"@) || s == "Z"@ {
        TzRequest::Ahead(0)
    } else if s[0] != '+' && s[0] != '-' {
        TzRequest::Unreadable(TzError::BadSign)
    } else {
        match tz_fields(s.drop_first()) {
            None => TzRequest::Unreadable(TzError::BadNumber),
            Some(f) => match (i32_value(f.0), i32_value(f.1)) {
                (Some(h), Some(m)) => TzRequest::Ahead(
                    if s[0] == '+' {
                        h * 3600 + m * 60
                    } else {
                        -(h * 3600 + m * 60)
                    },
                ),
                _ => TzRequest::Unreadable(TzError::BadNumber),
            },
        }
    }
}

/// Every character is a decimal digit.
spec fn all_digits(s: Seq<char>) -> bool {
    forall|i: int| 0 <= i < s.len() ==> '0' <= #[trigger] s[i] <= '9'
}

proof fn lemma_short_number(n: nat)
    requires
        n < 100,
    ensures
        two_digits(n).len() == 2,
        all_digits(two_digits(n)),
        i32_value(two_digits(n)) == Some(n as int),
        1 <= decimal(n).len() <= 2,
        all_digits(decimal(n)),
        i32_value(decimal(n)) == Some(n as int),
{
    let s = two_digits(n);
    let d = decimal(n);
    reveal_with_fuel(decimal, 3);
    assert('0' as int == 48 && '9' as int == 57);
    law_decimal_reads_back(n);
    if n < 10 {
        assert(d.len() == 1);
        let zeros = Seq::new(1, |i: int| '0');
        law_zeros_on_the_left_denote_nothing(d, zeros);
        assert(s =~= zeros + d);
    } else {
        assert(d.len() == 2);
        assert(s =~= d);
    }
}

/// A text with a sign in front names no zone.
proof fn lemma_signed_names_nothing(s: Seq<char>)
    requires
        s.len() > 0,
        s[0] == '+' || s[0] == '-',
    ensures
        !same_ignoring_case(s, "local"@),
        !same_ignoring_case(s, "utc"@),
        s != "Z"@,
{
    reveal_strlit("local");
    reveal_strlit("utc");
    reveal_strlit("Z");
    let f = |c: char| ascii_lower(c);
    assert(s.map_values(f)[0] == s[0]);
    assert("local"@.map_values(f)[0] == 'l');
    assert("utc"@.map_values(f)[0] == 'u');
    assert("Z"@[0] == 'Z');
}

/// Hours before a colon and minutes after it.
proof fn lemma_fields_at_colon(h: Seq<char>, m: Seq<char>)
    requires
        h.len() == 2,
        all_digits(h),
    ensures
        split_at_first(h + seq![':'] + m, seq![':']) == Some((h, m)),
{
    let rest = h + seq![':'] + m;
    assert(':' as int == 58 && '9' as int == 57);
    assert(!stands_at(rest, seq![':'], 0)) by {
        assert(rest.subrange(0, 1)[0] == h[0]);
    }
    assert(!stands_at(rest, seq![':'], 1)) by {
        assert(rest.subrange(1, 2)[0] == h[1]);
    }
    assert(stands_at(rest, seq![':'], 2)) by {
        assert(rest.subrange(2, 3) =~= seq![':']);
    }
    reveal_with_fuel(found_from, 3);
    assert(found_from(rest, seq![':'], 0) == Some(2int));
    assert(rest.take(2) =~= h);
    assert(rest.skip(3) =~= m);
}

/// Digits hold no colon, and take a byte each.
proof fn lemma_digits_alone(rest: Seq<char>)
    requires
        all_digits(rest),
    ensures
        split_at_first(rest, seq![':']) is None,
        encode_utf8(rest).len() == rest.len(),
        rest.len() == 4 ==> is_char_boundary(encode_utf8(rest), 2),
{
    assert(':' as int == 58 && '9' as int == 57);
    law_search_finds_the_first_place(rest, seq![':']);
    if let Some(i) = found_from(rest, seq![':'], 0) {
        assert(rest.subrange(i, i + 1)[0] == rest[i]);
    }
    assert(is_ascii_chars(rest)) by {
        assert forall|i: int| 0 <= i < rest.len() implies '\0' <= #[trigger] rest[i]
            <= '\u{7f}' by {
            assert('0' <= rest[i] <= '9');
        }
    }
    is_ascii_chars_encode_utf8(rest);
    encode_utf8_valid_utf8(rest);
    if rest.len() == 4 {
        assert(encode_utf8(rest)[2] == rest[2] as u8);
        assert('0' <= rest[2] <= '9');
        is_char_boundary_iff_not_is_continuation_byte(encode_utf8(rest), 2);
    }
}

/// Seconds ahead of UTC, or behind.
pub open spec fn signed_secs(sign: char, secs: nat) -> int {
    if sign == '-' {
        -(secs as int)
    } else {
        secs as int
    }
}

/// A zone is read from a sign with hours and minutes, with or without a colon
/// between them, or with hours of one or two digits alone. The sign is that of
/// the minutes too, and whitespace around does not matter.
pub proof fn law_zones_in_all_forms(
    before: Seq<char>,
    sign: char,
    h: nat,
    m: nat,
    after: Seq<char>,
)
    requires
        is_blank(before),
        is_blank(after),
        sign == '+' || sign == '-',
        h < 24,
        m < 60,
    ensures
        ({
            let with_colon = seq![sign] + two_digits(h) + seq![':'] + two_digits(m);
            let four_digits = seq![sign] + two_digits(h) + two_digits(m);
            let hours = seq![sign] + decimal(h);
            let two_hours = seq![sign] + two_digits(h);
            let both = TzRequest::Ahead(signed_secs(sign, h * 3600 + m * 60));
            let alone = TzRequest::Ahead(signed_secs(sign, h * 3600));
            &&& offset_parts(signed_secs(sign, h * 3600 + m * 60))
            &&& offset_parts(signed_secs(sign, h * 3600))
            &&& tz_request(trimmed(before + with_colon + after)) == both
            &&& tz_readable(trimmed(before + with_colon + after))
            &&& tz_request(trimmed(before + four_digits + after)) == both
            &&& tz_readable(trimmed(before + four_digits + after))
            &&& tz_request(trimmed(before + hours + after)) == alone
            &&& tz_readable(trimmed(before + hours + after))
            &&& tz_request(trimmed(before + two_hours + after)) == alone
            &&& tz_readable(trimmed(before + two_hours + after))
        }),
{
    let hh = two_digits(h);
    let mm = two_digits(m);
    lemma_short_number(h);
    lemma_short_number(m);
    let with_colon = seq![sign] + hh + seq![':'] + mm;
    let four_digits = seq![sign] + hh + mm;
    let hours = seq![sign] + decimal(h);
    let two_hours = seq![sign] + hh;
    lemma_signed_digits(before, with_colon, after);
    lemma_signed_digits(before, four_digits, after);
    lemma_signed_digits(before, hours, after);
    lemma_signed_digits(before, two_hours, after);
    assert(with_colon.drop_first() =~= hh + seq![':'] + mm);
    lemma_fields_at_colon(hh, mm);
    assert(four_digits.drop_first() =~= hh + mm);
    lemma_digits_alone(hh + mm);
    assert((hh + mm).take(2) =~= hh);
    assert((hh + mm).skip(2) =~= mm);
    assert(hours.drop_first() =~= decimal(h));
    lemma_digits_alone(decimal(h));
    assert(two_hours.drop_first() =~= hh);
    lemma_digits_alone(hh);
    reveal_with_fuel(digits_value, 2);
    assert(i32_value(seq!['0']) == Some(0int));
}

/// A text with a sign in front and a digit at its end is itself without the
/// whitespace around it, and names no zone.
proof fn lemma_signed_digits(before: Seq<char>, s: Seq<char>, after: Seq<char>)
    requires
        is_blank(before),
        is_blank(after),
        s.len() > 0,
        s[0] == '+' || s[0] == '-',
        '0' <= s.last() <= '9',
    ensures
        trimmed(before + s + after) == s,
        !same_ignoring_case(s, "local"@),
        !same_ignoring_case(s, "utc"@),
        s != "Z"@,
{
    lemma_signed_names_nothing(s);
    law_trimming_drops_what_is_around(before, s, after);
}

/// A time zone of whole minutes is read from the text that is written of it.
pub proof fn law_offset_reads_back(secs: int)
    requires
        offset_parts(secs),
        secs % 60 == 0,
    ensures
        tz_request(offset_text(secs)) == TzRequest::Ahead(secs),
        tz_readable(offset_text(secs)),
{
    let n = (if secs < 0 {
        -secs
    } else {
        secs
    }) as nat;
    let sign = if secs < 0 {
        '-'
    } else {
        '+'
    };
    let none = Seq::<char>::empty();
    let h = n / 3600;
    let m = n / 60 % 60;
    let s = seq![sign] + two_digits(h) + seq![':'] + two_digits(m);
    assert(offset_text(secs) == s);
    assert(h * 3600 + m * 60 == n);
    law_zones_in_all_forms(none, sign, h, m, none);
    assert(none + s + none =~= s);
    lemma_short_number(m);
    lemma_signed_digits(none, s, none);
}

/// An instant that is written in a zone of whole minutes tells the zone: its
/// RFC 3339 form ends with the zone's label, which is read as that zone.
pub proof fn law_written_instant_tells_its_zone(secs: int, nanos: int, offset: int)
    requires
        offset_parts(offset),
        offset % 60 == 0,
    ensures
        rfc3339_text(secs, nanos, offset) == date_text(local_day(secs, offset)) + seq!['T']
            + clock_text(secs, nanos, offset) + fraction_text(nanos) + offset_text(offset),
        tz_request(offset_text(offset)) == TzRequest::Ahead(offset),
{
    law_offset_reads_back(offset);
    let n = (if offset < 0 {
        -offset
    } else {
        offset
    }) as nat;
    assert((n + 30) / 60 == n / 60);
    assert(n / 60 / 60 == n / 3600);
    assert(zone_text(offset) =~= offset_text(offset));
}

/// The number of seconds can be computed in `i32`.
pub open spec fn tz_seconds_fit(h: int, m: int) -> bool {
    &&& i32::MIN <= h * 3600 <= i32::MAX
    &&& i32::MIN <= m * 60 <= i32::MAX
    &&& i32::MIN < h * 3600 + m * 60 <= i32::MAX
}

/// A trimmed text in which the hours and minutes, where it has them, can be
/// told apart between characters and computed with in `i32`.
pub open spec fn tz_readable(s: Seq<char>) -> bool {
    tz_request(s) is Machine || same_ignoring_case(s, "utc"@) || s == "Z"@ || (s[0] != '+' && s[0]
        != '-') || {
        let rest = s.drop_first();
        &&& split_at_first(rest, seq![':']) is None && encode_utf8(rest).len() == 4
            ==> is_char_boundary(encode_utf8(rest), 2)
        &&& tz_fields(rest) matches Some(f) ==> (i32_value(f.0) matches Some(h) ==> (i32_value(
            f.1,
        ) matches Some(m) ==> tz_seconds_fit(h, m)))
    }
}

/// What a request comes to on a machine with the given time zone.
pub open spec fn tz_granted(request: TzRequest, machine: TzOffset, r: Result<TzOffset, TzError>)
    -> bool {
    match request {
        TzRequest::Machine => r == Ok::<TzOffset, TzError>(machine),
        TzRequest::Ahead(n) => if offset_parts(n) {
            r matches Ok(z) && z.secs() == n
        } else {
            r == Err::<TzOffset, TzError>(TzError::OutOfRange)
        },
        TzRequest::Unreadable(e) => r == Err::<TzOffset, TzError>(e),
    }
}

/// `local` and `utc` are zones in any case, nothing is the machine's own, and a
/// capital Z is UTC. What names no zone and has no sign in front cannot be
/// read, nor can a sign that no number follows.
pub proof fn law_zones_by_name(s: Seq<char>, sign: char)
    requires
        sign == '+' || sign == '-',
    ensures
        tz_request(Seq::empty()) is Machine,
        same_ignoring_case(s, "local"@) ==> tz_request(s) is Machine,
        same_ignoring_case(s, "utc"@) ==> tz_request(s) == TzRequest::Ahead(0),
        tz_request("Z"@) == TzRequest::Ahead(0),
        s.len() > 0 && !same_ignoring_case(s, "local"@) && !same_ignoring_case(s, "utc"@) && s
            != "Z"@ && s[0] != '+' && s[0] != '-' ==> tz_request(s) == TzRequest::Unreadable(
            TzError::BadSign,
        ),
        tz_request(seq![sign]) == TzRequest::Unreadable(TzError::BadNumber),
{
    let f = |c: char| ascii_lower(c);
    reveal_strlit("local");
    reveal_strlit("utc");
    reveal_strlit("Z");
    assert("local"@.map_values(f).len() == 5);
    assert("utc"@.map_values(f).len() == 3);
    assert(s.map_values(f).len() == s.len());
    assert("Z"@.map_values(f).len() == 1);
    lemma_signed_names_nothing(seq![sign]);
    let none = seq![sign].drop_first();
    assert(none =~= Seq::<char>::empty());
    lemma_digits_alone(none);
}

/// Of a sign with two fields around a colon, the first is hours and the second
/// minutes, and the sign is that of both; where one of them is no number, it
/// is the part at fault, the hours first.
pub proof fn law_hours_and_minutes_stand_around_the_colon(
    sign: char,
    h: Seq<char>,
    m: Seq<char>,
)
    requires
        sign == '+' || sign == '-',
        !h.contains(':'),
    ensures
        ({
            let s = seq![sign] + h + seq![':'] + m;
            match (i32_value(h), i32_value(m)) {
                (Some(x), Some(y)) => tz_request(s) == TzRequest::Ahead(
                    if sign == '-' {
                        -(x * 3600 + y * 60)
                    } else {
                        x * 3600 + y * 60
                    },
                ) && tz_bad_field(s) is None,
                (Some(_), None) => tz_request(s) == TzRequest::Unreadable(TzError::BadNumber)
                    && tz_bad_field(s) == Some(m),
                (None, _) => tz_request(s) == TzRequest::Unreadable(TzError::BadNumber)
                    && tz_bad_field(s) == Some(h),
            }
        }),
{
    let s = seq![sign] + h + seq![':'] + m;
    let colon = seq![':'];
    let none = Seq::<char>::empty();
    lemma_signed_names_nothing(s);
    assert(s.drop_first() =~= h + colon + m);
    assert(colon.drop_last() =~= none);
    assert(h + colon.drop_last() =~= h);
    if occurs(h, colon) {
        let i = choose|i: int| stands_at(h, colon, i);
        assert(h.subrange(i, i + 1)[0] == h[i]);
        assert(h[i] == ':');
    }
    law_splitting_is_around_the_first_mark(h, colon, m, h);
}

/// A zone of less than a day either way is granted as it is asked for, one of a
/// day or more is out of range, and what cannot be read is refused with its
/// reason.
pub proof fn law_zones_are_granted_within_a_day(
    n: int,
    e: TzError,
    machine: TzOffset,
    r: Result<TzOffset, TzError>,
)
    ensures
        tz_granted(TzRequest::Machine, machine, r) ==> r == Ok::<TzOffset, TzError>(machine),
        tz_granted(TzRequest::Ahead(n), machine, r) && -86400 < n < 86400 ==> r is Ok
            && r->Ok_0.secs() == n,
        tz_granted(TzRequest::Ahead(n), machine, r) && (n <= -86400 || 86400 <= n) ==> r == Err::<
            TzOffset,
            TzError,
        >(TzError::OutOfRange),
        tz_granted(TzRequest::Unreadable(e), machine, r) ==> r == Err::<TzOffset, TzError>(e),
{
}

/// The texts of hours and minutes in what follows the sign.
fn split_tz_fields(rest: &str) -> (r: Option<(&str, &str)>)
    ensures
        match r {
            Some((h, m)) => tz_fields(rest@) == Some((h@, m@)),
            None => tz_fields(rest@) is None,
        },
{
    proof {
        reveal_strlit(":");
        reveal_strlit("0");
        assert(":"@ =~= seq![':']);
        assert("0"@ =~= seq!['0']);
    }
    if let Some(f) = split_once(rest, ":") {
        return Some(f);
    }
    if rest.as_bytes().len() != 4 {
        return Some((rest, "0"));
    }
    if rest.unicode_len() != 4 {
        return None;
    }
    let h = rest.substring_char(0, 2);
    let m = rest.substring_char(2, 4);
    assert(h@ =~= rest@.take(2));
    assert(m@ =~= rest@.skip(2));
    Some((h, m))
}

/// Hours and minutes out of what follows the sign.
fn read_tz_fields(rest: &str) -> (r: Option<(i32, i32)>)
    ensures
        match r {
            Some((h, m)) => tz_fields(rest@) matches Some(f) && i32_value(f.0) == Some(h as int)
                && i32_value(f.1) == Some(m as int),
            None => tz_fields(rest@) matches Some(f) ==> i32_value(f.0) is None || i32_value(
                f.1,
            ) is None,
        },
{
    match split_tz_fields(rest) {
        Some((h, m)) => match (parse_i32(h), parse_i32(m)) {
            (Some(h), Some(m)) => Some((h, m)),
            _ => None,
        },
        None => None,
    }
}

/// Reads a time zone for a machine with the given one: `local` or nothing for
/// the machine's own, `UTC` or `Z`, or a sign with hours and minutes.
pub fn resolve_tz(s: &str, machine: &TzOffset) -> (r: Result<TzOffset, TzError>)
    requires
        tz_readable(trimmed(s@)),
    ensures
        tz_granted(tz_request(trimmed(s@)), *machine, r),
{
    let s = trim(s);
    if s.is_empty() || equals_ignoring_case(s, "local") {
        return Ok(*machine);
    }
    if equals_ignoring_case(s, "utc") || same_text(s, "Z") {
        return Ok(TzOffset { ahead: 0 });
    }
    let first = s.get_char(0);
    if first != '+' && first != '-' {
        return Err(TzError::BadSign);
    }
    let n: usize = s.unicode_len();
    let rest = s.substring_char(1, n);
    assert(rest@ =~= s@.drop_first());
    match read_tz_fields(rest) {
        Some((h, m)) => {
            let sum: i32 = h * 3600 + m * 60;
            let secs: i32 = if first == '+' {
                sum
            } else {
                -sum
            };
            match TzOffset::new(secs) {
                Some(z) => Ok(z),
                None => Err(TzError::OutOfRange),
            }
        },
        None => Err(TzError::BadNumber),
    }
}

/// Reads a time zone: `local` or nothing for the machine's own, `UTC` or `Z`,
/// or a sign with hours and minutes.
pub fn parse_tz(s: &str) -> (r: Result<TzOffset, TzError>)
    requires
        tz_readable(trimmed(s@)),
    ensures
        exists|machine: TzOffset|
            machine.valid() && #[trigger] tz_granted(tz_request(trimmed(s@)), machine, r),
{
    // the machine is asked only where its zone is asked for
    let t = trim(s);
    let machine = if t.is_empty() || equals_ignoring_case(t, "local") {
        TzOffset { ahead: chrono_local_offset() }
    } else {
        TzOffset { ahead: 0 }
    };
    proof {
        use_type_invariant(&machine);
    }
    resolve_tz(s, &machine)
}

/// The part of a trimmed text that should be a number and is none: the hours
/// before the minutes, or all that follows the sign where the two cannot be
/// told apart.
pub open spec fn tz_bad_field(s: Seq<char>) -> Option<Seq<char>> {
    if tz_request(s) != TzRequest::Unreadable(TzError::BadNumber) {
        None
    } else {
        match tz_fields(s.drop_first()) {
            None => Some(s.drop_first()),
            Some(f) => if i32_value(f.0) is None {
                Some(f.0)
            } else {
                Some(f.1)
            },
        }
    }
}

/// The part of a time zone that should be a number and is none.
pub fn bad_tz_field(s: &str) -> (r: Option<String>)
    ensures
        match r {
            Some(t) => tz_bad_field(trimmed(s@)) == Some(t@),
            None => tz_bad_field(trimmed(s@)) is None,
        },
{
    let s = trim(s);
    if s.is_empty() || equals_ignoring_case(s, "local") || equals_ignoring_case(s, "utc")
        || same_text(s, "Z") {
        return None;
    }
    let first = s.get_char(0);
    if first != '+' && first != '-' {
        return None;
    }
    let n: usize = s.unicode_len();
    let rest = s.substring_char(1, n);
    assert(rest@ =~= s@.drop_first());
    match split_tz_fields(rest) {
        Some((h, m)) => if parse_i32(h).is_none() {
            Some(h.to_owned())
        } else if parse_i32(m).is_none() {
            Some(m.to_owned())
        } else {
            None
        },
        None => Some(rest.to_owned()),
    }
}

/// Whether a text can be read by `parse_tz`.
pub fn is_tz_readable(s: &str) -> (r: bool)
    ensures
        r == tz_readable(trimmed(s@)),
{
    let s = trim(s);
    if s.is_empty() || equals_ignoring_case(s, "local") {
        return true;
    }
    if equals_ignoring_case(s, "utc") || same_text(s, "Z") {
        return true;
    }
    let first = s.get_char(0);
    if first != '+' && first != '-' {
        return true;
    }
    let n: usize = s.unicode_len();
    let rest = s.substring_char(1, n);
    proof {
        assert(rest@ =~= s@.drop_first());
        reveal_strlit(":");
        assert(":"@ =~= seq![':']);
    }
    if split_once(rest, ":").is_none() && rest.as_bytes().len() == 4 && !rest.is_char_boundary(2) {
        return false;
    }
    match read_tz_fields(rest) {
        Some((h, m)) => {
            let a: i64 = h as i64 * 3600;
            let b: i64 = m as i64 * 60;
            -2147483648 <= a && a <= 2147483647 && -2147483648 <= b && b <= 2147483647
                && -2147483648 < a + b && a + b <= 2147483647
        },
        None => true,
    }
}

/// Reads a time zone as `parse_tz` does; none where the text is not one that
/// `parse_tz` can be given.
pub fn try_parse_tz(s: &str) -> (r: Option<Result<TzOffset, TzError>>)
    ensures
        r is Some <==> tz_readable(trimmed(s@)),
        r matches Some(z) ==> exists|machine: TzOffset|
            machine.valid() && #[trigger] tz_granted(tz_request(trimmed(s@)), machine, z),
{
    if is_tz_readable(s) {
        Some(parse_tz(s))
    } else {
        None
    }
}

} // verus!
