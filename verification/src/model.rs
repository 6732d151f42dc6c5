//! The calendar and time model: time of day, calendar date, date range,
//! time interval, billable project and the per-day allocation records.
//! All values are immutable and calendar-valid by construction.

use vstd::prelude::*;
use crate::error::Error;
use crate::text;

verus! {

broadcast use vstd::string::group_string_axioms;

/// First year a date may fall in.
pub const MIN_YEAR: u16 = 1973;

/// Last year a date may fall in.
pub const MAX_YEAR: u16 = 2300;

// --- calendar arithmetic, specification level ---

pub open spec fn leap_year_spec(year: int) -> bool {
    year % 4 == 0 && (year % 100 != 0 || year % 400 == 0)
}

pub open spec fn days_in_year_spec(year: int) -> int {
    if leap_year_spec(year) { 366 } else { 365 }
}

pub open spec fn long_month(month: int) -> bool {
    month == 1 || month == 3 || month == 5 || month == 7 || month == 8 || month == 10
        || month == 12
}

pub open spec fn short_month(month: int) -> bool {
    month == 4 || month == 6 || month == 9 || month == 11
}

pub open spec fn days_in_month_spec(year: int, month: int) -> int {
    if long_month(month) {
        31
    } else if short_month(month) {
        30
    } else if leap_year_spec(year) {
        29
    } else {
        28
    }
}

/// Days in all years from `MIN_YEAR` up to, not including, `year`.
pub open spec fn year_days_before(year: int) -> int
    decreases year - MIN_YEAR,
{
    if year <= MIN_YEAR as int {
        0
    } else {
        year_days_before(year - 1) + days_in_year_spec(year - 1)
    }
}

/// Days in all months of `year` before `month`.
pub open spec fn month_days_before(year: int, month: int) -> int
    decreases month,
{
    if month <= 1 {
        0
    } else {
        month_days_before(year, month - 1) + days_in_month_spec(year, month - 1)
    }
}

/// Continuous day count from `MIN_YEAR`-01-01, which is day zero.
pub open spec fn day_number_spec(year: int, month: int, day: int) -> int {
    year_days_before(year) + month_days_before(year, month) + day - 1
}

pub open spec fn date_valid_spec(year: int, month: int, day: int) -> bool {
    MIN_YEAR as int <= year <= MAX_YEAR as int && 1 <= month <= 12 && 1 <= day
        <= days_in_month_spec(year, month)
}

/// Day number of the last supported date, `MAX_YEAR`-12-31.
pub open spec fn max_day_number() -> int {
    day_number_spec(MAX_YEAR as int, 12, 31)
}

pub open spec fn time_valid_spec(hour: int, minute: int) -> bool {
    hour < 24 && minute < 60
}

/// The `HHMM` rendering of a minute of the day.
pub open spec fn time_text_of(minute_of_day: int) -> Seq<char> {
    text::zero_pad((minute_of_day / 60) as nat, 2)
        + text::zero_pad((minute_of_day % 60) as nat, 2)
}

// --- calendar arithmetic, executable level ---

pub fn is_valid_time(hour: u16, minute: u16) -> (r: bool)
    ensures
        r == time_valid_spec(hour as int, minute as int),
{
    hour < 24 && minute < 60
}

pub fn is_leap_year(year: u16) -> (r: bool)
    ensures
        r == leap_year_spec(year as int),
{
    (year % 4 == 0) && (year % 100 != 0 || year % 400 == 0)
}

pub fn days_in_month(year: u16, month: u8) -> (r: u8)
    ensures
        r as int == days_in_month_spec(year as int, month as int),
{
    if month == 1 || month == 3 || month == 5 || month == 7 || month == 8 || month == 10
        || month == 12 {
        31
    } else if month == 4 || month == 6 || month == 9 || month == 11 {
        30
    } else if is_leap_year(year) {
        29
    } else {
        28
    }
}

pub fn days_in_year(year: u16) -> (r: u16)
    ensures
        r as int == days_in_year_spec(year as int),
{
    if is_leap_year(year) { 366 } else { 365 }
}

/// Every prefix sum of whole years stays comfortably inside `u32`.
proof fn lemma_year_days_before_bounds(year: int)
    ensures
        year <= MIN_YEAR as int ==> year_days_before(year) == 0,
        year > MIN_YEAR as int ==> 365 * (year - MIN_YEAR as int) <= year_days_before(year)
            <= 366 * (year - MIN_YEAR as int),
    decreases year - MIN_YEAR,
{
    if year > MIN_YEAR as int {
        lemma_year_days_before_bounds(year - 1);
    }
}

pub fn day_number(year: u16, month: u8, day: u8) -> (r: u32)
    requires
        1 <= day,
    ensures
        r as int == day_number_spec(year as int, month as int, day as int),
{
    let mut year_days: u32 = 0;
    let mut y: u16 = MIN_YEAR;
    while y < year
        invariant
            MIN_YEAR <= y,
            y <= year || y == MIN_YEAR,
            year_days == year_days_before(y as int),
            year_days <= 366 * (y as int - MIN_YEAR as int),
        decreases year as int - y as int,
    {
        proof {
            lemma_year_days_before_bounds(y as int + 1);
        }
        year_days = year_days + days_in_year(y) as u32;
        y = y + 1;
    }
    proof {
        if year <= MIN_YEAR {
            assert(year_days_before(year as int) == 0);
        }
    }
    let mut month_days: u32 = 0;
    let mut m: u8 = 1;
    while m < month
        invariant
            1 <= m,
            m <= month || m == 1,
            month_days == month_days_before(year as int, m as int),
            month_days <= 31 * (m as int - 1),
        decreases month as int - m as int,
    {
        month_days = month_days + days_in_month(year, m) as u32;
        m = m + 1;
    }
    proof {
        if month <= 1 {
            assert(month_days_before(year as int, month as int) == 0);
        }
    }
    year_days + month_days + (day as u32) - 1
}

pub fn is_valid_date(year: u16, month: u8, day: u8) -> (r: bool)
    ensures
        r == date_valid_spec(year as int, month as int, day as int),
{
    MIN_YEAR <= year && year <= MAX_YEAR && 1 <= month && month <= 12 && 1 <= day
        && day <= days_in_month(year, month)
}

// --- Time ---

/// A time of day at minute resolution, held as the minute of the day.
#[derive(Debug, Clone, Copy, PartialEq, Eq, Structural, Hash)]
pub struct Time {
    minute: u16,
}

impl Time {
    #[verifier::type_invariant]
    spec fn wf(self) -> bool {
        self.minute < 1440
    }

    /// The minute of the day this time stands for.
    pub closed spec fn spec_minute_of_day(self) -> int {
        self.minute as int
    }

    /// What construction guarantees of every `Time` value.
    pub open spec fn valid(self) -> bool {
        0 <= self.spec_minute_of_day() < 1440
    }

    pub fn new(hour: u16, minute: u16) -> (r: Result<Time, Error>)
        ensures
            r is Ok <==> time_valid_spec(hour as int, minute as int),
            r matches Ok(t) ==> t.spec_minute_of_day() == hour * 60 + minute && t.valid(),
            r matches Err(e) ==> e is InvalidTime,
    {
        if !is_valid_time(hour, minute) {
            Err(Error::InvalidTime)
        } else {
            Ok(Time { minute: hour * 60 + minute })
        }
    }

    /// Reads the first run of four digits in `text` as `HHMM`.
    pub fn parse(text: &str) -> (r: Result<Time, Error>)
        ensures
            r is Ok <==> exists|i: int| #[trigger] first_time_pattern(text@, i)
                && time_valid_spec(group_val(text@, i, 2), group_val(text@, i + 2, 2)),
            r matches Ok(t) ==> exists|i: int| #[trigger] first_time_pattern(text@, i)
                && t.spec_minute_of_day()
                    == group_val(text@, i, 2) * 60 + group_val(text@, i + 2, 2),
            r matches Err(e) ==> {
                &&& (exists|i: int| #[trigger] first_time_pattern(text@, i))
                    ==> e is InvalidTime
                &&& !(exists|i: int| #[trigger] first_time_pattern(text@, i))
                    ==> e is InvalidTimeText
            },
    {
        let v = text::to_chars(text);
        let n: usize = v.len();
        let mut i: usize = 0;
        while 4 <= n && i <= n - 4
            invariant
                n == text@.len(),
                v@ == text@,
                i <= n,
                forall|j: int| 0 <= j < i ==> !time_pattern_at(text@, j),
            decreases n - i,
        {
            if text::is_digit_char(v[i]) && text::is_digit_char(v[i + 1])
                && text::is_digit_char(v[i + 2]) && text::is_digit_char(v[i + 3]) {
                let h = two_digit_value(&v, i);
                let m = two_digit_value(&v, i + 2);
                proof {
                    assert(first_time_pattern(text@, i as int));
                    assert forall|i2: int| #[trigger] first_time_pattern(text@, i2)
                        implies i2 == i as int by {
                        if i2 < i as int {
                            assert(time_pattern_at(text@, i2));
                        } else if i2 > i as int {
                            assert(!time_pattern_at(text@, i as int));
                        }
                    }
                }
                return Time::new(h, m);
            }
            i = i + 1;
        }
        proof {
            assert forall|j: int| !first_time_pattern(text@, j) by {
                if time_pattern_at(text@, j) {
                    assert(0 <= j && j + 4 <= n);
                    assert(!time_pattern_at(text@, j));
                }
            }
        }
        Err(Error::InvalidTimeText { text: text.to_owned() })
    }

    pub fn hour(&self) -> (r: u16)
        ensures
            r as int == self.spec_minute_of_day() / 60,
    {
        proof {
            use_type_invariant(self);
        }
        self.minute / 60
    }

    pub fn minute(&self) -> (r: u16)
        ensures
            r as int == self.spec_minute_of_day() % 60,
    {
        proof {
            use_type_invariant(self);
        }
        self.minute % 60
    }

    pub fn minute_of_day(&self) -> (r: u16)
        ensures
            r as int == self.spec_minute_of_day(),
            self.valid(),
    {
        proof {
            use_type_invariant(self);
        }
        self.minute
    }

    /// The `HHMM` rendering of this time.
    pub open spec fn text_spec(self) -> Seq<char> {
        time_text_of(self.spec_minute_of_day())
    }

    /// Renders the time as `HHMM`, with no separator.
    pub fn to_text(&self) -> (r: String)
        ensures
            r@ == self.text_spec(),
    {
        proof {
            use_type_invariant(self);
        }
        let mut out: Vec<char> = Vec::new();
        text::push_zero_pad_u32(&mut out, (self.minute / 60) as u32, 2);
        text::push_zero_pad_u32(&mut out, (self.minute % 60) as u32, 2);
        text::from_chars(&out)
    }
}

// --- digit-group scanning ---

/// Four digit characters start at `i`.
pub open spec fn time_pattern_at(s: Seq<char>, i: int) -> bool {
    0 <= i && i + 4 <= s.len() && text::is_digit(s[i]) && text::is_digit(s[i + 1])
        && text::is_digit(s[i + 2]) && text::is_digit(s[i + 3])
}

/// `i` is the first position where four digits start.
pub open spec fn first_time_pattern(s: Seq<char>, i: int) -> bool {
    time_pattern_at(s, i) && forall|j: int| 0 <= j < i ==> !time_pattern_at(s, j)
}

/// An `MM/DD/YYYY` digit group starts at `i`.
pub open spec fn date_pattern_at(s: Seq<char>, i: int) -> bool {
    0 <= i && i + 10 <= s.len() && text::is_digit(s[i]) && text::is_digit(s[i + 1])
        && s[i + 2] == '/' && text::is_digit(s[i + 3]) && text::is_digit(s[i + 4])
        && s[i + 5] == '/' && text::is_digit(s[i + 6]) && text::is_digit(s[i + 7])
        && text::is_digit(s[i + 8]) && text::is_digit(s[i + 9])
}

/// `i` is the first position where an `MM/DD/YYYY` group starts.
pub open spec fn first_date_pattern(s: Seq<char>, i: int) -> bool {
    date_pattern_at(s, i) && forall|j: int| 0 <= j < i ==> !date_pattern_at(s, j)
}

/// Value of the `k` digits starting at `i`.
pub open spec fn group_val(s: Seq<char>, i: int, k: int) -> int {
    text::digits_val(s.subrange(i, i + k))
}

pub(crate) fn two_digit_value(v: &Vec<char>, i: usize) -> (r: u16)
    requires
        i + 2 <= v@.len(),
        text::is_digit(v@[i as int]),
        text::is_digit(v@[i as int + 1]),
    ensures
        r as int == group_val(v@, i as int, 2),
        r < 100,
{
    let n: usize = v.len();
    let r = text::digit_value(v[i]) * 10 + text::digit_value(v[i + 1]);
    proof {
        assert(i + 2 <= n);
        let t = v@.subrange(i as int, i as int + 2);
        assert(t.drop_last() =~= v@.subrange(i as int, i as int + 1));
        assert(t.drop_last().drop_last() =~= Seq::<char>::empty());
        assert(text::digits_val(t)
            == (text::digits_val(t.drop_last()) * 10 + text::digit_val(t.last())));
        assert(text::digits_val(t.drop_last())
            == text::digits_val(t.drop_last().drop_last()) * 10
                + text::digit_val(t.drop_last().last()));
        assert(t.last() == v@[i as int + 1]);
        assert(t.drop_last().last() == v@[i as int]);
    }
    r
}

pub(crate) fn four_digit_value(v: &Vec<char>, i: usize) -> (r: u16)
    requires
        i + 4 <= v@.len(),
        text::is_digit(v@[i as int]),
        text::is_digit(v@[i as int + 1]),
        text::is_digit(v@[i as int + 2]),
        text::is_digit(v@[i as int + 3]),
    ensures
        r as int == group_val(v@, i as int, 4),
        r < 10000,
{
    let n: usize = v.len();
    proof {
        assert(i + 4 <= n);
    }
    let r = two_digit_value(v, i) * 100 + two_digit_value(v, i + 2);
    proof {
        let t = v@.subrange(i as int, i as int + 4);
        assert(t.drop_last() =~= v@.subrange(i as int, i as int + 3));
        assert(t.drop_last().drop_last() =~= v@.subrange(i as int, i as int + 2));
        assert(text::digits_val(t)
            == text::digits_val(t.drop_last()) * 10 + text::digit_val(t.last()));
        assert(text::digits_val(t.drop_last())
            == text::digits_val(t.drop_last().drop_last()) * 10
                + text::digit_val(t.drop_last().last()));
        assert(t.last() == v@[i as int + 3]);
        assert(t.drop_last().last() == v@[i as int + 2]);
        let u = v@.subrange(i as int + 2, i as int + 4);
        assert(u.drop_last() =~= v@.subrange(i as int + 2, i as int + 3));
        assert(u.drop_last().drop_last() =~= Seq::<char>::empty());
        assert(text::digits_val(u)
            == text::digits_val(u.drop_last()) * 10 + text::digit_val(u.last()));
        assert(text::digits_val(u.drop_last())
            == text::digits_val(u.drop_last().drop_last()) * 10
                + text::digit_val(u.drop_last().last()));
        assert(u.last() == v@[i as int + 3]);
        assert(u.drop_last().last() == v@[i as int + 2]);
    }
    r
}

// --- Date ---

/// A calendar date.  Every value is calendar-valid and lies between
/// `MIN_YEAR`-01-01 and `MAX_YEAR`-12-31.
#[derive(Debug, Clone, Copy, PartialEq, Eq, Structural, Hash)]
pub struct Date {
    year: u16,
    month: u8,
    day: u8,
}

impl Date {
    #[verifier::type_invariant]
    spec fn wf(self) -> bool {
        date_valid_spec(self.year as int, self.month as int, self.day as int)
    }

    pub closed spec fn spec_year(self) -> int {
        self.year as int
    }

    pub closed spec fn spec_month(self) -> int {
        self.month as int
    }

    pub closed spec fn spec_day(self) -> int {
        self.day as int
    }

    /// Continuous day count from `MIN_YEAR`-01-01.
    pub open spec fn dn(self) -> int {
        day_number_spec(self.spec_year(), self.spec_month(), self.spec_day())
    }

    /// What construction guarantees of every `Date` value.
    pub open spec fn valid(self) -> bool {
        date_valid_spec(self.spec_year(), self.spec_month(), self.spec_day())
    }

    /// A valid date's day number lies between zero and the last
    /// supported day.
    pub proof fn lemma_dn_bounds(self)
        requires
            self.valid(),
        ensures
            0 <= self.dn() <= max_day_number(),
    {
        lemma_day_number_bounds(self.spec_year(), self.spec_month(), self.spec_day());
    }

    /// Two valid dates with the same day number are the same date.
    pub proof fn lemma_dn_injective(self, other: Date)
        requires
            self.valid(),
            other.valid(),
            self.dn() == other.dn(),
        ensures
            self == other,
    {
        lemma_day_number_injective(
            self.spec_year(), self.spec_month(), self.spec_day(),
            other.spec_year(), other.spec_month(), other.spec_day(),
        );
        assert(self.spec_year() == other.spec_year()
            && self.spec_month() == other.spec_month()
            && self.spec_day() == other.spec_day());
        assert(self == other);
    }

    pub fn new(year: u16, month: u8, day: u8) -> (r: Result<Date, Error>)
        ensures
            r is Ok <==> date_valid_spec(year as int, month as int, day as int),
            r matches Ok(d) ==> d.spec_year() == year && d.spec_month() == month
                && d.spec_day() == day && d.valid()
                && d == date_value(year as int, month as int, day as int),
            r matches Err(e) ==> e == (Error::InvalidDate { year, month, day }),
    {
        if !is_valid_date(year, month, day) {
            Err(Error::InvalidDate { year, month, day })
        } else {
            Ok(Date { year, month, day })
        }
    }

    /// Reads the first `MM/DD/YYYY` group in `text` as a date.
    pub fn parse(text: &str) -> (r: Result<Date, Error>)
        ensures
            r is Ok <==> exists|i: int| #[trigger] first_date_pattern(text@, i)
                && date_valid_spec(
                    group_val(text@, i + 6, 4), group_val(text@, i, 2),
                    group_val(text@, i + 3, 2)),
            r matches Ok(d) ==> exists|i: int| #[trigger] first_date_pattern(text@, i)
                && d.spec_year() == group_val(text@, i + 6, 4)
                && d.spec_month() == group_val(text@, i, 2)
                && d.spec_day() == group_val(text@, i + 3, 2),
            r matches Err(e) ==> {
                &&& (exists|i: int| #[trigger] first_date_pattern(text@, i))
                    ==> e is InvalidDate
                &&& !(exists|i: int| #[trigger] first_date_pattern(text@, i))
                    ==> e is InvalidDateText
            },
    {
        let v = text::to_chars(text);
        let n: usize = v.len();
        let mut i: usize = 0;
        while 10 <= n && i <= n - 10
            invariant
                n == text@.len(),
                v@ == text@,
                i <= n,
                forall|j: int| 0 <= j < i ==> !date_pattern_at(text@, j),
            decreases n - i,
        {
            if text::is_digit_char(v[i]) && text::is_digit_char(v[i + 1])
                && v[i + 2] == '/'
                && text::is_digit_char(v[i + 3]) && text::is_digit_char(v[i + 4])
                && v[i + 5] == '/'
                && text::is_digit_char(v[i + 6]) && text::is_digit_char(v[i + 7])
                && text::is_digit_char(v[i + 8]) && text::is_digit_char(v[i + 9]) {
                let m = two_digit_value(&v, i);
                let d = two_digit_value(&v, i + 3);
                let y = four_digit_value(&v, i + 6);
                proof {
                    assert(first_date_pattern(text@, i as int));
                    assert forall|i2: int| #[trigger] first_date_pattern(text@, i2)
                        implies i2 == i as int by {
                        if i2 < i as int {
                            assert(date_pattern_at(text@, i2));
                        } else if i2 > i as int {
                            assert(!date_pattern_at(text@, i as int));
                        }
                    }
                }
                return Date::new(y, m as u8, d as u8);
            }
            i = i + 1;
        }
        proof {
            assert forall|j: int| !first_date_pattern(text@, j) by {
                if date_pattern_at(text@, j) {
                    assert(0 <= j && j + 10 <= n);
                    assert(!date_pattern_at(text@, j));
                }
            }
        }
        Err(Error::InvalidDateText { text: text.to_owned() })
    }

    /// The first supported date, `MIN_YEAR`-01-01.
    pub fn min_date() -> (r: Date)
        ensures
            r.spec_year() == MIN_YEAR as int,
            r.spec_month() == 1,
            r.spec_day() == 1,
            r.dn() == 0,
    {
        Date { year: MIN_YEAR, month: 1, day: 1 }
    }

    pub fn year(&self) -> (r: u16)
        ensures
            r as int == self.spec_year(),
    {
        self.year
    }

    pub fn month(&self) -> (r: u8)
        ensures
            r as int == self.spec_month(),
    {
        self.month
    }

    pub fn day(&self) -> (r: u8)
        ensures
            r as int == self.spec_day(),
    {
        self.day
    }

    pub fn day_num(&self) -> (r: u32)
        ensures
            r as int == self.dn(),
            0 <= self.dn() <= max_day_number(),
            self.valid(),
    {
        proof {
            use_type_invariant(self);
            lemma_day_number_bounds(self.year as int, self.month as int, self.day as int);
        }
        day_number(self.year, self.month, self.day)
    }

    pub fn week_num(&self) -> (r: u32)
        ensures
            r as int == self.dn() / 7,
    {
        self.day_num() / 7
    }

    pub fn is_monday(&self) -> (r: bool)
        ensures
            r == (self.dn() % 7 == 0),
    {
        self.day_num() % 7 == 0
    }

    pub fn is_sunday(&self) -> (r: bool)
        ensures
            r == (self.dn() % 7 == 6),
    {
        self.day_num() % 7 == 6
    }

    pub fn is_weekend(&self) -> (r: bool)
        ensures
            r == (self.dn() % 7 == 5 || self.dn() % 7 == 6),
    {
        let day_of_week = self.day_num() % 7;
        day_of_week == 5 || day_of_week == 6
    }

    pub fn is_weekday(&self) -> (r: bool)
        ensures
            r == !(self.dn() % 7 == 5 || self.dn() % 7 == 6),
    {
        !self.is_weekend()
    }

    /// Weekday index of a day number: 0 is Monday, 6 is Sunday.
    pub open spec fn weekday_of(dn: int) -> int {
        dn % 7
    }

    pub fn prev(&self) -> (r: Result<Date, Error>)
        ensures
            r is Ok <==> self.dn() != 0,
            r matches Ok(d) ==> d.valid() && d.dn() == self.dn() - 1,
            r matches Err(e) ==> e is InvalidDate,
    {
        proof {
            use_type_invariant(self);
            lemma_year_days_before_bounds(self.year as int);
            lemma_mdb_monotone(self.year as int, 1, self.month as int);
        }
        if self.day > 1 {
            Date::new(self.year, self.month, self.day - 1)
        } else if self.month > 1 {
            proof {
                assert(month_days_before(self.year as int, self.month as int)
                    == month_days_before(self.year as int, self.month as int - 1)
                        + days_in_month_spec(self.year as int, self.month as int - 1));
                lemma_mdb_monotone(self.year as int, 1, self.month as int - 1);
            }
            Date::new(self.year, self.month - 1, days_in_month(self.year, self.month - 1))
        } else {
            proof {
                if self.year > MIN_YEAR {
                    lemma_ydb_unfold(self.year as int);
                    lemma_months_total(self.year as int - 1);
                    assert(month_days_before(self.year as int - 1, 13)
                        == month_days_before(self.year as int - 1, 12)
                            + days_in_month_spec(self.year as int - 1, 12));
                }
            }
            Date::new(self.year - 1, 12, 31)
        }
    }

    pub fn next(&self) -> (r: Result<Date, Error>)
        ensures
            r is Ok <==> self.dn() != max_day_number(),
            r matches Ok(d) ==> d.valid() && d.dn() == self.dn() + 1,
            r matches Err(e) ==> e is InvalidDate,
    {
        proof {
            use_type_invariant(self);
            lemma_day_number_bounds(self.year as int, self.month as int, self.day as int);
        }
        if self.day < days_in_month(self.year, self.month) {
            let r = Date::new(self.year, self.month, self.day + 1);
            proof {
                lemma_day_number_bounds(
                    self.year as int, self.month as int, self.day as int + 1);
            }
            r
        } else if self.month < 12 {
            proof {
                assert(month_days_before(self.year as int, self.month as int + 1)
                    == month_days_before(self.year as int, self.month as int)
                        + days_in_month_spec(self.year as int, self.month as int));
                lemma_day_number_bounds(self.year as int, self.month as int + 1, 1);
            }
            Date::new(self.year, self.month + 1, 1)
        } else {
            proof {
                lemma_ydb_unfold(self.year as int + 1);
                lemma_months_total(self.year as int);
                assert(month_days_before(self.year as int, 13)
                    == month_days_before(self.year as int, 12)
                        + days_in_month_spec(self.year as int, 12));
                if self.year < MAX_YEAR {
                    lemma_day_number_bounds(self.year as int + 1, 1, 1);
                }
            }
            Date::new(self.year + 1, 1, 1)
        }
    }

    /// Steps `days` days backwards, one day at a time.
    pub fn minus_days(&self, days: i32) -> (r: Result<Date, Error>)
        ensures
            days <= 0 ==> (r matches Ok(d) && d == *self),
            days >= 0 ==> (r is Ok <==> self.dn() >= days),
            days >= 0 ==> (r matches Ok(d) ==> d.valid() && d.dn() == self.dn() - days),
            r matches Err(e) ==> e is InvalidDate,
    {
        proof {
            use_type_invariant(self);
        }
        let mut d: Date = *self;
        let mut rem: i32 = days;
        while rem > 0
            invariant
                rem <= days,
                days >= 0 ==> 0 <= rem,
                days >= 0 ==> d.valid() && d.dn() == self.dn() - (days - rem),
                days <= 0 ==> d == *self,
            decreases rem,
        {
            match d.prev() {
                Ok(p) => {
                    d = p;
                }
                Err(e) => {
                    return Err(e);
                }
            }
            rem = rem - 1;
        }
        proof {
            if days >= 0 {
                d.lemma_dn_bounds();
            }
        }
        Ok(d)
    }

    /// The Monday strictly before this date (a week back when the date
    /// is itself a Monday).
    pub fn prev_monday(&self) -> (r: Result<Date, Error>)
        ensures
            r is Ok <==> self.dn() != 0,
            r matches Ok(d) ==> d.valid() && Self::weekday_of(d.dn()) == 0
                && d.dn() == (if self.dn() % 7 == 0 { self.dn() - 7 } else {
                    self.dn() - self.dn() % 7
                }),
            r matches Err(e) ==> e is InvalidDate,
    {
        proof {
            use_type_invariant(self);
            lemma_year_days_before_bounds(self.year as int);
            lemma_mdb_monotone(self.year as int, 1, self.month as int);
        }
        let days_past: u8 = (self.day_num() % 7) as u8;
        let days_offset: u8 = if days_past == 0 { 7 } else { days_past };
        if days_offset < self.day {
            Date::new(self.year, self.month, self.day - days_offset)
        } else if self.month > 1 {
            proof {
                assert(month_days_before(self.year as int, self.month as int)
                    == month_days_before(self.year as int, self.month as int - 1)
                        + days_in_month_spec(self.year as int, self.month as int - 1));
                lemma_mdb_monotone(self.year as int, 1, self.month as int - 1);
            }
            Date::new(
                self.year,
                self.month - 1,
                days_in_month(self.year, self.month - 1) + self.day - days_offset,
            )
        } else {
            proof {
                if self.year > MIN_YEAR {
                    lemma_ydb_unfold(self.year as int);
                    lemma_months_total(self.year as int - 1);
                    assert(month_days_before(self.year as int - 1, 13)
                        == month_days_before(self.year as int - 1, 12)
                            + days_in_month_spec(self.year as int - 1, 12));
                }
            }
            Date::new(self.year - 1, 12, 31 + self.day - days_offset)
        }
    }

    /// The Monday strictly after this date (a week ahead when the date
    /// is itself a Monday).
    #[verifier::rlimit(30)]
    pub fn next_monday(&self) -> (r: Result<Date, Error>)
        ensures
            r is Ok <==> self.dn() - self.dn() % 7 + 7 <= max_day_number(),
            r matches Ok(d) ==> d.valid() && Self::weekday_of(d.dn()) == 0
                && d.dn() == self.dn() - self.dn() % 7 + 7,
            r matches Err(e) ==> e is InvalidDate,
    {
        proof {
            use_type_invariant(self);
            lemma_day_number_bounds(self.year as int, self.month as int, self.day as int);
        }
        let days_past: u8 = (self.day_num() % 7) as u8;
        let days_offset: u8 = 7 - days_past;
        let days_remaining: u8 = days_in_month(self.year, self.month) - self.day;
        if days_offset <= days_remaining {
            let r = Date::new(self.year, self.month, self.day + days_offset);
            proof {
                lemma_day_number_bounds(
                    self.year as int, self.month as int, self.day as int + days_offset as int);
            }
            r
        } else if self.month < 12 {
            proof {
                assert(month_days_before(self.year as int, self.month as int + 1)
                    == month_days_before(self.year as int, self.month as int)
                        + days_in_month_spec(self.year as int, self.month as int));
                lemma_day_number_bounds(
                    self.year as int, self.month as int + 1,
                    days_offset as int - days_remaining as int);
            }
            Date::new(self.year, self.month + 1, days_offset - days_remaining)
        } else {
            proof {
                lemma_ydb_unfold(self.year as int + 1);
                lemma_months_total(self.year as int);
                assert(month_days_before(self.year as int, 13)
                    == month_days_before(self.year as int, 12)
                        + days_in_month_spec(self.year as int, 12));
                if self.year < MAX_YEAR {
                    lemma_day_number_bounds(
                        self.year as int + 1, 1,
                        days_offset as int - days_remaining as int);
                }
            }
            Date::new(self.year + 1, 1, days_offset - days_remaining)
        }
    }

    /// The Monday of the week this date lies in.
    pub fn this_monday(&self) -> (r: Result<Date, Error>)
        ensures
            r is Ok,
            r matches Ok(d) ==> d.valid() && Self::weekday_of(d.dn()) == 0
                && d.dn() == self.dn() - self.dn() % 7,
    {
        proof {
            use_type_invariant(self);
            lemma_day_number_bounds(self.year as int, self.month as int, self.day as int);
        }
        if self.is_monday() {
            Ok(*self)
        } else {
            self.prev_monday()
        }
    }

    /// The Sunday of the week this date lies in.  Fails when the week
    /// runs past the last supported date.
    pub fn this_sunday(&self) -> (r: Result<Date, Error>)
        ensures
            r is Ok <==> (self.dn() % 7 == 6
                || self.dn() - self.dn() % 7 + 7 <= max_day_number()),
            r matches Ok(d) ==> d.valid() && Self::weekday_of(d.dn()) == 6
                && d.dn() == self.dn() - self.dn() % 7 + 6,
            r matches Err(e) ==> e is InvalidDate,
    {
        proof {
            use_type_invariant(self);
            lemma_day_number_bounds(self.year as int, self.month as int, self.day as int);
        }
        if self.is_sunday() {
            Ok(*self)
        } else {
            match self.next_monday() {
                Ok(m) => m.prev(),
                Err(e) => Err(e),
            }
        }
    }

    /// The half of the month this date falls in: days 1 through 15, or
    /// day 16 through the month's end.
    pub fn semimonth_for_date(&self) -> (r: DateRange)
        ensures
            self.spec_day() <= 15 ==> {
                &&& r.spec_first().spec_year() == self.spec_year()
                &&& r.spec_first().spec_month() == self.spec_month()
                &&& r.spec_first().spec_day() == 1
                &&& r.spec_last().spec_year() == self.spec_year()
                &&& r.spec_last().spec_month() == self.spec_month()
                &&& r.spec_last().spec_day() == 15
            },
            self.spec_day() > 15 ==> {
                &&& r.spec_first().spec_year() == self.spec_year()
                &&& r.spec_first().spec_month() == self.spec_month()
                &&& r.spec_first().spec_day() == 16
                &&& r.spec_last().spec_year() == self.spec_year()
                &&& r.spec_last().spec_month() == self.spec_month()
                &&& r.spec_last().spec_day()
                    == days_in_month_spec(self.spec_year(), self.spec_month())
            },
    {
        proof {
            use_type_invariant(self);
        }
        if self.day <= 15 {
            DateRange {
                first: Date { year: self.year, month: self.month, day: 1 },
                last: Date { year: self.year, month: self.month, day: 15 },
            }
        } else {
            DateRange {
                first: Date { year: self.year, month: self.month, day: 16 },
                last: Date { year: self.year, month: self.month, day: days_in_month(self.year, self.month) },
            }
        }
    }

    /// Three-letter weekday name, `MON` through `SUN`.
    pub fn day_abbrev(&self) -> (r: String)
        ensures
            r@ == day_abbrev_spec(self.dn() % 7),
    {
        let w = self.day_num() % 7;
        if w == 0 { "MON".to_owned() }
        else if w == 1 { "TUE".to_owned() }
        else if w == 2 { "WED".to_owned() }
        else if w == 3 { "THU".to_owned() }
        else if w == 4 { "FRI".to_owned() }
        else if w == 5 { "SAT".to_owned() }
        else { "SUN".to_owned() }
    }

    /// Full weekday name, `Monday` through `Sunday`.
    pub fn day_name(&self) -> (r: String)
        ensures
            r@ == day_name_spec(self.dn() % 7),
    {
        let w = self.day_num() % 7;
        if w == 0 { "Monday".to_owned() }
        else if w == 1 { "Tuesday".to_owned() }
        else if w == 2 { "Wednesday".to_owned() }
        else if w == 3 { "Thursday".to_owned() }
        else if w == 4 { "Friday".to_owned() }
        else if w == 5 { "Saturday".to_owned() }
        else { "Sunday".to_owned() }
    }

    /// The `MM/DD/YYYY` rendering of this date.
    pub open spec fn text_spec(self) -> Seq<char> {
        text::zero_pad(self.spec_month() as nat, 2) + seq!['/']
            + text::zero_pad(self.spec_day() as nat, 2) + seq!['/']
            + text::zero_pad(self.spec_year() as nat, 4)
    }

    /// Renders the date as `MM/DD/YYYY`.
    pub fn to_text(&self) -> (r: String)
        ensures
            r@ == self.text_spec(),
    {
        proof {
            use_type_invariant(self);
        }
        let mut out: Vec<char> = Vec::new();
        text::push_zero_pad_u32(&mut out, self.month as u32, 2);
        out.push('/');
        text::push_zero_pad_u32(&mut out, self.day as u32, 2);
        out.push('/');
        text::push_zero_pad_u32(&mut out, self.year as u32, 4);
        proof {
            assert(out@ =~= self.text_spec());
        }
        text::from_chars(&out)
    }
}

/// Rendering a date as `MM/DD/YYYY` and reading it back yields the same
/// year, month and day: the rendering's first date group sits at its
/// start and carries the date's own values.  Together with the
/// contracts of `Date::to_text`, `Date::parse` and `Date::new`, this
/// says the round trip through text is the identity on every date.
pub proof fn lemma_date_text_parse(d: Date)
    requires
        d.valid(),
    ensures
        first_date_pattern(d.text_spec(), 0),
        group_val(d.text_spec(), 0, 2) == d.spec_month(),
        group_val(d.text_spec(), 3, 2) == d.spec_day(),
        group_val(d.text_spec(), 6, 4) == d.spec_year(),
{
    reveal_with_fuel(text::pow10, 5);
    assert(text::pow10(2) == 100);
    assert(text::pow10(4) == 10000);
    text::lemma_zero_pad_props(d.spec_month() as nat, 2);
    text::lemma_zero_pad_props(d.spec_day() as nat, 2);
    text::lemma_zero_pad_props(d.spec_year() as nat, 4);
    let zm = text::zero_pad(d.spec_month() as nat, 2);
    let zd = text::zero_pad(d.spec_day() as nat, 2);
    let zy = text::zero_pad(d.spec_year() as nat, 4);
    let s = d.text_spec();
    assert(s.len() == 10);
    assert(s.subrange(0, 2) =~= zm);
    assert(s.subrange(3, 5) =~= zd);
    assert(s.subrange(6, 10) =~= zy);
    assert(s[2] == '/');
    assert(s[5] == '/');
    assert(text::is_digit(s[0]) && text::is_digit(s[1]));
    assert(text::is_digit(s[3]) && text::is_digit(s[4]));
    assert(text::is_digit(s[6]) && text::is_digit(s[7])
        && text::is_digit(s[8]) && text::is_digit(s[9]));
}

/// Stepping one day forward and then one day back is the identity, and
/// so is the opposite order: the day numbers that `next` and `prev`
/// promise differ by exactly one, and a day number names one date.
pub proof fn lemma_next_prev_round_trip(d: Date, forward: Date, back: Date)
    requires
        d.valid(),
        forward.valid(),
        back.valid(),
        forward.dn() == d.dn() + 1 || forward.dn() == d.dn() - 1,
        back.dn() + (forward.dn() - d.dn()) == forward.dn(),
    ensures
        back == d,
{
    d.lemma_dn_injective(back);
}

/// The date value with the given fields (meaningful for values that
/// fit the field types).
pub closed spec fn date_value(y: int, m: int, d: int) -> Date {
    Date { year: y as u16, month: m as u8, day: d as u8 }
}

/// The fields of `date_value` are the given numbers.
pub proof fn lemma_date_value_fields(y: int, m: int, d: int)
    requires
        0 <= y < 0x10000,
        0 <= m < 0x100,
        0 <= d < 0x100,
    ensures
        date_value(y, m, d).spec_year() == y,
        date_value(y, m, d).spec_month() == m,
        date_value(y, m, d).spec_day() == d,
{
}

/// The month prefix sums stay under thirty-one days per month.
proof fn lemma_mdb_upper(year: int, month: int)
    requires
        1 <= month,
    ensures
        month_days_before(year, month) <= 31 * (month - 1),
    decreases month,
{
    if month > 1 {
        lemma_mdb_upper(year, month - 1);
    }
}

/// The whole supported calendar holds well under 130000 days.
pub proof fn lemma_max_day_number_bound()
    ensures
        0 <= max_day_number() < 130000,
{
    lemma_year_days_before_bounds(MAX_YEAR as int);
    lemma_mdb_upper(MAX_YEAR as int, 12);
    lemma_mdb_monotone(MAX_YEAR as int, 1, 12);
}

/// The valid date carrying day number `n`, when one exists.
pub open spec fn date_with_dn(n: int) -> Date {
    choose|d: Date| #![trigger d.dn()] d.valid() && d.dn() == n
}

/// A valid date is the date of its own day number.
pub proof fn lemma_date_with_dn(d: Date)
    requires
        d.valid(),
    ensures
        date_with_dn(d.dn()) == d,
{
    assert(exists|x: Date| #![trigger x.dn()] x.valid() && x.dn() == d.dn()) by {
        assert(d.valid() && d.dn() == d.dn());
    }
    let w = date_with_dn(d.dn());
    w.lemma_dn_injective(d);
}

/// Weekday names by index: 0 is Monday, 6 is Sunday.
pub open spec fn day_abbrev_spec(w: int) -> Seq<char> {
    if w == 0 { "MON"@ }
    else if w == 1 { "TUE"@ }
    else if w == 2 { "WED"@ }
    else if w == 3 { "THU"@ }
    else if w == 4 { "FRI"@ }
    else if w == 5 { "SAT"@ }
    else { "SUN"@ }
}

pub open spec fn day_name_spec(w: int) -> Seq<char> {
    if w == 0 { "Monday"@ }
    else if w == 1 { "Tuesday"@ }
    else if w == 2 { "Wednesday"@ }
    else if w == 3 { "Thursday"@ }
    else if w == 4 { "Friday"@ }
    else if w == 5 { "Saturday"@ }
    else { "Sunday"@ }
}

/// Distinct weekday indexes carry distinct three-letter names.
pub proof fn lemma_day_abbrevs_injective(w1: int, w2: int)
    requires
        0 <= w1 < 7,
        0 <= w2 < 7,
        day_abbrev_spec(w1) == day_abbrev_spec(w2),
    ensures
        w1 == w2,
{
    reveal_strlit("MON");
    reveal_strlit("TUE");
    reveal_strlit("WED");
    reveal_strlit("THU");
    reveal_strlit("FRI");
    reveal_strlit("SAT");
    reveal_strlit("SUN");
    assert("MON"@[0] == 'M' && "MON"@[1] == 'O');
    assert("TUE"@[0] == 'T' && "TUE"@[1] == 'U');
    assert("WED"@[0] == 'W' && "WED"@[1] == 'E');
    assert("THU"@[0] == 'T' && "THU"@[1] == 'H');
    assert("FRI"@[0] == 'F' && "FRI"@[1] == 'R');
    assert("SAT"@[0] == 'S' && "SAT"@[1] == 'A');
    assert("SUN"@[0] == 'S' && "SUN"@[1] == 'U');
}

// --- DateRange ---

/// An inclusive range of dates.
#[derive(Debug, Clone, Copy, PartialEq, Eq, Structural)]
pub struct DateRange {
    first: Date,
    last: Date,
}

/// A restartable forward walk over the dates of a `DateRange`.
pub struct DateIter {
    cur: Option<Date>,
    last: Date,
}

impl DateRange {
    pub closed spec fn spec_first(self) -> Date {
        self.first
    }

    pub closed spec fn spec_last(self) -> Date {
        self.last
    }

    pub fn new(first: Date, last: Date) -> (r: DateRange)
        ensures
            r.spec_first() == first,
            r.spec_last() == last,
    {
        DateRange { first, last }
    }

    pub fn first(&self) -> (r: Date)
        ensures
            r == self.spec_first(),
    {
        self.first
    }

    pub fn last(&self) -> (r: Date)
        ensures
            r == self.spec_last(),
    {
        self.last
    }

    pub fn iter(&self) -> (r: DateIter)
        ensures
            r.spec_cur() == Some(self.spec_first()),
            r.spec_last() == self.spec_last(),
    {
        DateIter { cur: Some(self.first), last: self.last }
    }

    /// Whether `d` lies within the range, both ends included.
    pub fn contains(&self, d: &Date) -> (r: bool)
        ensures
            r == (self.spec_first().dn() <= d.dn() <= self.spec_last().dn()),
    {
        self.first.day_num() <= d.day_num() && d.day_num() <= self.last.day_num()
    }

    /// Expands the range outward to the enclosing Monday–Sunday
    /// boundary.  Fails only when the enclosing week of the last date
    /// runs past the last supported date.
    pub fn as_full_weeks(&self) -> (r: Result<DateRange, Error>)
        ensures
            r is Ok <==> (self.spec_last().dn() % 7 == 6
                || self.spec_last().dn() - self.spec_last().dn() % 7 + 7
                    <= max_day_number()),
            r matches Ok(fw) ==> {
                &&& fw.spec_first().valid()
                &&& fw.spec_last().valid()
                &&& fw.spec_first().dn()
                    == self.spec_first().dn() - self.spec_first().dn() % 7
                &&& fw.spec_last().dn()
                    == self.spec_last().dn() - self.spec_last().dn() % 7 + 6
                &&& Date::weekday_of(fw.spec_first().dn()) == 0
                &&& Date::weekday_of(fw.spec_last().dn()) == 6
            },
            r matches Err(e) ==> e is InvalidDate,
    {
        let first = match self.first.this_monday() {
            Ok(d) => d,
            Err(e) => {
                return Err(e);
            }
        };
        let last = match self.last.this_sunday() {
            Ok(d) => d,
            Err(e) => {
                return Err(e);
            }
        };
        Ok(DateRange { first, last })
    }

    /// The `MM/DD/YYYY-MM/DD/YYYY` rendering of this range.
    pub open spec fn text_spec(self) -> Seq<char> {
        self.spec_first().text_spec() + seq!['-'] + self.spec_last().text_spec()
    }

    /// Renders the range as its two dates joined with a dash.
    pub fn to_text(&self) -> (r: String)
        ensures
            r@ == self.text_spec(),
    {
        let mut out: Vec<char> = Vec::new();
        let f = self.first.to_text();
        let l = self.last.to_text();
        text::push_str_chars(&mut out, f.as_str());
        out.push('-');
        text::push_str_chars(&mut out, l.as_str());
        proof {
            assert(out@ =~= self.text_spec());
        }
        text::from_chars(&out)
    }
}

impl DateIter {
    pub closed spec fn spec_cur(self) -> Option<Date> {
        self.cur
    }

    pub closed spec fn spec_last(self) -> Date {
        self.last
    }

    /// Hands out the current date and steps forward; the walk ends
    /// after the range's last date, or at the calendar's edge.
    pub fn next(&mut self) -> (r: Option<Date>)
        ensures
            r == old(self).spec_cur(),
            final(self).spec_last() == old(self).spec_last(),
            old(self).spec_cur() is None ==> final(self).spec_cur() is None,
            old(self).spec_cur() matches Some(d) ==> {
                &&& d.valid()
                &&& (d.dn() < max_day_number() && d.dn() + 1 <= old(self).spec_last().dn())
                    ==> (final(self).spec_cur() matches Some(d2) && d2.valid()
                        && d2.dn() == d.dn() + 1)
                &&& !(d.dn() < max_day_number() && d.dn() + 1 <= old(self).spec_last().dn())
                    ==> final(self).spec_cur() is None
            },
    {
        match self.cur {
            Some(d) => {
                proof {
                    use_type_invariant(&d);
                    lemma_day_number_bounds(
                        d.spec_year(), d.spec_month(), d.spec_day());
                }
                self.cur = match d.next() {
                    Ok(dd) => {
                        if dd.day_num() <= self.last.day_num() {
                            Some(dd)
                        } else {
                            None
                        }
                    }
                    Err(_) => None,
                };
                Some(d)
            }
            None => None,
        }
    }
}

/// The full-week expansion of a one-day range is the seven-day
/// Monday-to-Sunday week that holds the day: `first_n` and `last_n` are
/// the day numbers `as_full_weeks` promises for the range from `day_n`
/// to itself, and they enclose it exactly one week apart.
pub proof fn lemma_full_weeks_single_day(day_n: int, first_n: int, last_n: int)
    requires
        0 <= day_n,
        first_n == day_n - day_n % 7,
        last_n == day_n - day_n % 7 + 6,
    ensures
        Date::weekday_of(first_n) == 0,
        Date::weekday_of(last_n) == 6,
        last_n - first_n == 6,
        first_n <= day_n <= last_n,
{
}

// --- day-number lemmas ---

/// Unrolls the year sum one step.
proof fn lemma_ydb_unfold(year: int)
    requires
        year > MIN_YEAR as int,
    ensures
        year_days_before(year) == year_days_before(year - 1) + days_in_year_spec(year - 1),
{
}

/// The year prefix sums grow by at least 365 per year.
proof fn lemma_ydb_monotone(y1: int, y2: int)
    requires
        MIN_YEAR as int <= y1 <= y2,
    ensures
        year_days_before(y1) + 365 * (y2 - y1) <= year_days_before(y2),
    decreases y2 - y1,
{
    if y1 < y2 {
        lemma_ydb_monotone(y1, y2 - 1);
    }
}

/// The month prefix sums grow by the month lengths, at least 28 each.
proof fn lemma_mdb_monotone(year: int, m1: int, m2: int)
    requires
        1 <= m1 <= m2,
    ensures
        month_days_before(year, m1) + 28 * (m2 - m1) <= month_days_before(year, m2),
    decreases m2 - m1,
{
    if m1 < m2 {
        lemma_mdb_monotone(year, m1, m2 - 1);
    }
}

/// The twelve months of a year sum to the year's length.
proof fn lemma_months_total(year: int)
    ensures
        month_days_before(year, 13) == days_in_year_spec(year),
{
    reveal_with_fuel(month_days_before, 13);
}

/// A valid day of a valid month stays inside the year.
proof fn lemma_mdb_day_bound(year: int, month: int, day: int)
    requires
        1 <= month <= 12,
        1 <= day <= days_in_month_spec(year, month),
    ensures
        0 <= month_days_before(year, month) + day - 1 < days_in_year_spec(year),
{
    lemma_mdb_monotone(year, 1, month);
    lemma_mdb_monotone(year, month + 1, 13);
    lemma_months_total(year);
    assert(month_days_before(year, month + 1)
        == month_days_before(year, month) + days_in_month_spec(year, month));
}

/// Day numbers of valid dates lie between zero and the last supported day.
proof fn lemma_day_number_bounds(year: int, month: int, day: int)
    requires
        date_valid_spec(year, month, day),
    ensures
        0 <= day_number_spec(year, month, day) <= max_day_number(),
{
    lemma_ydb_monotone(MIN_YEAR as int, year);
    lemma_mdb_day_bound(year, month, day);
    lemma_months_total(year);
    lemma_ydb_unfold(year + 1);
    lemma_ydb_monotone(year + 1, MAX_YEAR as int + 1);
    lemma_ydb_unfold(MAX_YEAR as int + 1);
    lemma_months_total(MAX_YEAR as int);
    assert(month_days_before(MAX_YEAR as int, 13)
        == month_days_before(MAX_YEAR as int, 12)
            + days_in_month_spec(MAX_YEAR as int, 12));
}

/// Day numbers grow strictly along the calendar ordering of valid
/// dates, so consecutive dates have consecutive numbers with no gaps:
/// together with the contracts of `next` and `prev`, which promise a
/// day-number change of exactly one, the count is continuous across
/// month and year ends.
pub proof fn lemma_day_number_increasing(
    y1: int, m1: int, d1: int, y2: int, m2: int, d2: int,
)
    requires
        date_valid_spec(y1, m1, d1),
        date_valid_spec(y2, m2, d2),
        y1 < y2 || (y1 == y2 && m1 < m2) || (y1 == y2 && m1 == m2 && d1 < d2),
    ensures
        day_number_spec(y1, m1, d1) < day_number_spec(y2, m2, d2),
{
    if y1 < y2 {
        lemma_mdb_day_bound(y1, m1, d1);
        lemma_ydb_unfold(y1 + 1);
        lemma_ydb_monotone(y1 + 1, y2);
        lemma_mdb_monotone(y2, 1, m2);
    } else if m1 < m2 {
        lemma_mdb_monotone(y1, m1 + 1, m2);
        assert(month_days_before(y1, m1 + 1)
            == month_days_before(y1, m1) + days_in_month_spec(y1, m1));
    }
}

/// Two valid dates with one day number are one date.
proof fn lemma_day_number_injective(
    y1: int, m1: int, d1: int, y2: int, m2: int, d2: int,
)
    requires
        date_valid_spec(y1, m1, d1),
        date_valid_spec(y2, m2, d2),
        day_number_spec(y1, m1, d1) == day_number_spec(y2, m2, d2),
    ensures
        y1 == y2 && m1 == m2 && d1 == d2,
{
    if y1 < y2 || (y1 == y2 && m1 < m2) || (y1 == y2 && m1 == m2 && d1 < d2) {
        lemma_day_number_increasing(y1, m1, d1, y2, m2, d2);
    } else if y2 < y1 || (y2 == y1 && m2 < m1) || (y2 == y1 && m2 == m1 && d2 < d1) {
        lemma_day_number_increasing(y2, m2, d2, y1, m1, d1);
    }
}

// --- TimeRange ---

/// A half-open working interval on one day: from the first minute up to,
/// not including, the last.
#[derive(Debug, Clone, Copy, PartialEq, Eq, Structural, Hash)]
pub struct TimeRange {
    from: Time,
    to: Time,
}

impl TimeRange {
    #[verifier::type_invariant]
    spec fn wf(self) -> bool {
        self.from.spec_minute_of_day() < self.to.spec_minute_of_day()
    }

    pub closed spec fn spec_from(self) -> int {
        self.from.spec_minute_of_day()
    }

    pub closed spec fn spec_to(self) -> int {
        self.to.spec_minute_of_day()
    }

    /// What construction guarantees of every `TimeRange` value.
    pub open spec fn valid(self) -> bool {
        0 <= self.spec_from() < self.spec_to() < 1440
    }

    pub fn new(from: Time, to: Time) -> (r: Result<TimeRange, Error>)
        ensures
            r is Ok <==> from.spec_minute_of_day() < to.spec_minute_of_day(),
            r matches Ok(t) ==> t.spec_from() == from.spec_minute_of_day()
                && t.spec_to() == to.spec_minute_of_day() && t.valid()
                && t == range_value(from.spec_minute_of_day(), to.spec_minute_of_day()),
            r matches Err(e) ==> e is OutOfOrderTimeRange,
    {
        if from.minute_of_day() >= to.minute_of_day() {
            Err(Error::OutOfOrderTimeRange)
        } else {
            Ok(TimeRange { from, to })
        }
    }

    pub fn from(&self) -> (r: Time)
        ensures
            r.spec_minute_of_day() == self.spec_from(),
    {
        self.from
    }

    pub fn to(&self) -> (r: Time)
        ensures
            r.spec_minute_of_day() == self.spec_to(),
    {
        self.to
    }

    /// Whether the two ranges do not overlap; touching end points still
    /// count as distinct.
    pub open spec fn distinct_spec(a: TimeRange, b: TimeRange) -> bool {
        a.spec_to() <= b.spec_from() || a.spec_from() >= b.spec_to()
    }

    /// Distinctness does not depend on the order of the two ranges,
    /// ranges sharing only an end point are distinct, and ranges
    /// sharing an inner point are not.
    pub proof fn lemma_distinct_symmetric(a: TimeRange, b: TimeRange, m: int)
        ensures
            Self::distinct_spec(a, b) == Self::distinct_spec(b, a),
            a.spec_to() == b.spec_from() ==> Self::distinct_spec(a, b),
            (a.spec_from() <= m < a.spec_to() && b.spec_from() <= m < b.spec_to())
                ==> !Self::distinct_spec(a, b),
    {
    }

    pub fn distinct(a: &TimeRange, b: &TimeRange) -> (r: bool)
        ensures
            r == Self::distinct_spec(*a, *b),
    {
        a.to.minute_of_day() <= b.from.minute_of_day()
            || a.from.minute_of_day() >= b.to.minute_of_day()
    }

    /// Length of the range in minutes.
    pub fn duration(&self) -> (r: u16)
        ensures
            r as int == self.spec_to() - self.spec_from(),
            self.valid(),
    {
        proof {
            use_type_invariant(self);
        }
        self.to.minute_of_day() - self.from.minute_of_day()
    }

    /// The `HHMM-HHMM` rendering of this range.
    pub open spec fn text_spec(self) -> Seq<char> {
        time_text_of(self.spec_from()) + seq!['-'] + time_text_of(self.spec_to())
    }

    /// Renders the range as `HHMM-HHMM`.
    pub fn to_text(&self) -> (r: String)
        ensures
            r@ == self.text_spec(),
    {
        let mut out: Vec<char> = Vec::new();
        let f = self.from.to_text();
        let t = self.to.to_text();
        text::push_str_chars(&mut out, f.as_str());
        out.push('-');
        text::push_str_chars(&mut out, t.as_str());
        proof {
            assert(out@ =~= self.text_spec());
        }
        text::from_chars(&out)
    }
}

// --- Project ---

/// A billable project: client name, code and optional subcode, where an
/// empty subcode means absent.  Identity is the triple of names.
#[derive(Debug, Clone)]
pub struct Project {
    client: String,
    code: String,
    subcode: String,
}

impl Project {
    pub closed spec fn spec_client(self) -> Seq<char> {
        self.client@
    }

    pub closed spec fn spec_code(self) -> Seq<char> {
        self.code@
    }

    pub closed spec fn spec_subcode(self) -> Seq<char> {
        self.subcode@
    }

    /// Whether two projects name the same client, code and subcode.
    pub open spec fn same(a: Project, b: Project) -> bool {
        a.spec_client() == b.spec_client() && a.spec_code() == b.spec_code()
            && a.spec_subcode() == b.spec_subcode()
    }

    pub fn new(client: &str, code: &str) -> (r: Project)
        ensures
            r.spec_client() == client@,
            r.spec_code() == code@,
            r.spec_subcode() == Seq::<char>::empty(),
    {
        Project {
            client: client.to_owned(),
            code: code.to_owned(),
            subcode: String::new(),
        }
    }

    pub fn new_with_subcode(client: &str, code: &str, subcode: &str) -> (r: Project)
        ensures
            r.spec_client() == client@,
            r.spec_code() == code@,
            r.spec_subcode() == subcode@,
    {
        Project {
            client: client.to_owned(),
            code: code.to_owned(),
            subcode: subcode.to_owned(),
        }
    }

    pub fn client(&self) -> (r: &String)
        ensures
            r@ == self.spec_client(),
    {
        &self.client
    }

    pub fn code(&self) -> (r: &String)
        ensures
            r@ == self.spec_code(),
    {
        &self.code
    }

    pub fn subcode(&self) -> (r: &String)
        ensures
            r@ == self.spec_subcode(),
    {
        &self.subcode
    }

    /// An owned copy with the same names.
    pub fn duplicate(&self) -> (r: Project)
        ensures
            Project::same(r, *self),
    {
        Project {
            client: self.client.clone(),
            code: self.code.clone(),
            subcode: self.subcode.clone(),
        }
    }

    /// The same project with the subcode dropped.
    pub fn without_subcode(&self) -> (r: Project)
        ensures
            r.spec_client() == self.spec_client(),
            r.spec_code() == self.spec_code(),
            r.spec_subcode() == Seq::<char>::empty(),
    {
        Project {
            client: self.client.clone(),
            code: self.code.clone(),
            subcode: String::new(),
        }
    }
}

impl PartialEq for Project {
    fn eq(&self, other: &Project) -> (r: bool) {
        self.client == other.client && self.code == other.code
            && self.subcode == other.subcode
    }
}

impl Eq for Project {}

impl vstd::std_specs::cmp::PartialEqSpecImpl for Project {
    open spec fn obeys_eq_spec() -> bool {
        true
    }

    open spec fn eq_spec(&self, other: &Project) -> bool {
        Project::same(*self, *other)
    }
}

// --- ProjectTimes ---

/// The ranges are in ascending order and no two of them overlap: each
/// one ends no later than the next begins.
pub open spec fn ranges_sorted_distinct(rs: Seq<TimeRange>) -> bool {
    forall|i: int, j: int| #![trigger rs[i], rs[j]]
        0 <= i < j < rs.len() ==> rs[i].spec_to() <= rs[j].spec_from()
}

/// Strict ascending order by (from, to).
pub open spec fn range_lt(a: TimeRange, b: TimeRange) -> bool {
    a.spec_from() < b.spec_from()
        || (a.spec_from() == b.spec_from() && a.spec_to() < b.spec_to())
}

pub open spec fn ranges_sorted_lt(rs: Seq<TimeRange>) -> bool {
    forall|i: int, j: int| #![trigger rs[i], rs[j]]
        0 <= i < j < rs.len() ==> range_lt(rs[i], rs[j])
}

/// Some pair of the listed ranges overlaps (a range listed twice
/// overlaps itself).
pub open spec fn has_conflict(rs: Seq<TimeRange>) -> bool {
    exists|i: int, j: int| #![trigger rs[i], rs[j]]
        0 <= i < rs.len() && 0 <= j < rs.len() && i != j
            && !TimeRange::distinct_spec(rs[i], rs[j])
}

/// `x` is one of the listed ranges and overlaps another listed one.
pub open spec fn in_conflict(rs: Seq<TimeRange>, x: TimeRange) -> bool {
    exists|i: int, j: int| #![trigger rs[i], rs[j]]
        0 <= i < rs.len() && 0 <= j < rs.len() && i != j && rs[i] == x
            && !TimeRange::distinct_spec(rs[i], rs[j])
}

/// The range value with the given minute bounds (meaningful for
/// values that fit the field type).
pub closed spec fn range_value(from: int, to: int) -> TimeRange {
    TimeRange { from: Time { minute: from as u16 }, to: Time { minute: to as u16 } }
}

/// The bounds of `range_value` are the given minutes.
pub proof fn lemma_range_value_fields(from: int, to: int)
    requires
        0 <= from < 0x10000,
        0 <= to < 0x10000,
    ensures
        range_value(from, to).spec_from() == from,
        range_value(from, to).spec_to() == to,
{
}

fn range_lt_exec(a: TimeRange, b: TimeRange) -> (r: bool)
    ensures
        r == range_lt(a, b),
{
    let af = a.from().minute_of_day();
    let bf = b.from().minute_of_day();
    af < bf || (af == bf && a.to().minute_of_day() < b.to().minute_of_day())
}

proof fn lemma_range_lt_total(a: TimeRange, b: TimeRange)
    ensures
        !range_lt(a, b) && !range_lt(b, a) ==> a == b,
{
    if !range_lt(a, b) && !range_lt(b, a) {
        assert(a.spec_from() == b.spec_from() && a.spec_to() == b.spec_to());
        lemma_time_range_field_eq(a, b);
    }
}

proof fn lemma_time_range_field_eq(a: TimeRange, b: TimeRange)
    requires
        a.spec_from() == b.spec_from(),
        a.spec_to() == b.spec_to(),
    ensures
        a == b,
{
}

/// Inserts `x` into a strictly sorted range list, keeping it strictly
/// sorted; a range already present is left alone.
fn insert_range_sorted(v: &mut Vec<TimeRange>, x: TimeRange)
    requires
        ranges_sorted_lt(old(v)@),
    ensures
        ranges_sorted_lt(final(v)@),
        forall|y: TimeRange| #![trigger final(v)@.contains(y)]
            final(v)@.contains(y) <==> (old(v)@.contains(y) || y == x),
{
    let mut p: usize = 0;
    while p < v.len() && range_lt_exec(v[p], x)
        invariant
            p <= v@.len(),
            v@ == old(v)@,
            forall|k: int| 0 <= k < p ==> range_lt(#[trigger] v@[k], x),
        decreases v@.len() - p,
    {
        p = p + 1;
    }
    if p < v.len() && !range_lt_exec(x, v[p]) {
        proof {
            lemma_range_lt_total(v@[p as int], x);
            assert(v@[p as int] == x);
            assert(v@.contains(x));
        }
        return;
    }
    let ghost oldv = v@;
    proof {
        assert(p == oldv.len() || range_lt(x, oldv[p as int]));
    }
    v.insert(p, x);
    proof {
        let pp = p as int;
        let newv = v@;
        assert(newv == oldv.insert(pp, x));
        assert forall|i: int| 0 <= i < newv.len() implies #[trigger] newv[i]
            == (if i < pp { oldv[i] } else if i == pp { x } else { oldv[i - 1] }) by {
        }
        assert forall|i: int, j: int| #![trigger newv[i], newv[j]]
            0 <= i < j < newv.len() implies range_lt(newv[i], newv[j]) by {
            if j < pp {
            } else if i < pp && j == pp {
                assert(range_lt(oldv[i], x));
            } else if i < pp && j > pp {
                assert(range_lt(oldv[i], oldv[j - 1]));
            } else if i == pp && j > pp {
                assert(range_lt(x, oldv[pp]));
                if j - 1 > pp {
                    assert(range_lt(oldv[pp], oldv[j - 1]));
                }
            } else {
                assert(range_lt(oldv[i - 1], oldv[j - 1]));
            }
        }
        assert forall|y: TimeRange| #![trigger v@.contains(y)]
            v@.contains(y) <==> (oldv.contains(y) || y == x) by {
            if newv.contains(y) {
                let i = choose|i: int| 0 <= i < newv.len() && newv[i] == y;
                if i < pp {
                    assert(oldv[i] == y);
                    assert(oldv.contains(y));
                } else if i > pp {
                    assert(oldv[i - 1] == y);
                    assert(oldv.contains(y));
                }
            }
            if oldv.contains(y) {
                let i = choose|i: int| 0 <= i < oldv.len() && oldv[i] == y;
                if i < pp {
                    assert(newv[i] == y);
                } else {
                    assert(newv[i + 1] == y);
                }
                assert(newv.contains(y));
            }
            if y == x {
                assert(newv[pp] == y);
                assert(newv.contains(y));
            }
        }
    }
}

/// Collects, in ascending order and without duplicates, every range
/// that overlaps another range of the list.
pub fn find_overlapping_time_ranges(time_ranges: &Vec<TimeRange>) -> (r: Vec<TimeRange>)
    ensures
        ranges_sorted_lt(r@),
        forall|y: TimeRange| #![trigger r@.contains(y)]
            r@.contains(y) <==> in_conflict(time_ranges@, y),
{
    let ghost rs = time_ranges@;
    let mut conflicts: Vec<TimeRange> = Vec::new();
    let n: usize = time_ranges.len();
    let mut i: usize = 0;
    while i < n
        invariant
            n == rs.len(),
            time_ranges@ == rs,
            i <= n,
            ranges_sorted_lt(conflicts@),
            forall|y: TimeRange| #![trigger conflicts@.contains(y)]
                conflicts@.contains(y) <==> in_conflict(rs.take(i as int), y),
        decreases n - i,
    {
        let candidate = time_ranges[i];
        let mut j: usize = 0;
        while j < i
            invariant
                n == rs.len(),
                time_ranges@ == rs,
                j <= i < n,
                candidate == rs[i as int],
                ranges_sorted_lt(conflicts@),
                forall|y: TimeRange| #![trigger conflicts@.contains(y)]
                    conflicts@.contains(y) <==> (in_conflict(rs.take(i as int), y)
                        || exists|b: int| #![trigger rs[b]] 0 <= b < j
                            && !TimeRange::distinct_spec(rs[b], rs[i as int])
                            && (y == rs[b] || y == rs[i as int])),
            decreases i - j,
        {
            let checked = time_ranges[j];
            if !TimeRange::distinct(&candidate, &checked) {
                insert_range_sorted(&mut conflicts, checked);
                insert_range_sorted(&mut conflicts, candidate);
            }
            j = j + 1;
        }
        i = i + 1;
        proof {
            let ii = i as int - 1;
            let t0 = rs.take(ii);
            let t1 = rs.take(i as int);
            assert(t1.len() == ii + 1);
            assert(forall|k: int| 0 <= k <= ii ==> t1[k] == rs[k]);
            assert forall|y: TimeRange| #![trigger conflicts@.contains(y)]
                conflicts@.contains(y) <==> in_conflict(t1, y) by {
                if conflicts@.contains(y) {
                    if in_conflict(t0, y) {
                        let (a, b) = choose|a: int, b: int|
                            #![trigger t0[a], t0[b]]
                            0 <= a < t0.len() && 0 <= b < t0.len() && a != b
                                && t0[a] == y && !TimeRange::distinct_spec(t0[a], t0[b]);
                        assert(t1[a] == y && !TimeRange::distinct_spec(t1[a], t1[b]));
                        assert(in_conflict(t1, y));
                    } else {
                        let b = choose|b: int| #![trigger rs[b]] 0 <= b < ii
                            && !TimeRange::distinct_spec(rs[b], rs[ii])
                            && (y == rs[b] || y == rs[ii]);
                        if y == rs[b] {
                            assert(t1[b] == y
                                && !TimeRange::distinct_spec(t1[b], t1[ii]));
                        } else {
                            assert(t1[ii] == y
                                && !TimeRange::distinct_spec(t1[ii], t1[b]));
                        }
                        assert(in_conflict(t1, y));
                    }
                }
                if in_conflict(t1, y) {
                    let (a, b) = choose|a: int, b: int|
                        #![trigger t1[a], t1[b]]
                        0 <= a < t1.len() && 0 <= b < t1.len() && a != b
                            && t1[a] == y && !TimeRange::distinct_spec(t1[a], t1[b]);
                    if a < ii && b < ii {
                        assert(t0[a] == y && !TimeRange::distinct_spec(t0[a], t0[b]));
                        assert(in_conflict(t0, y));
                    } else if a == ii {
                        assert(rs[b] == t1[b]);
                        assert(!TimeRange::distinct_spec(rs[b], rs[ii]));
                        assert(y == rs[ii]);
                    } else {
                        assert(b == ii);
                        assert(rs[a] == t1[a]);
                        assert(!TimeRange::distinct_spec(rs[ii], rs[a]));
                        assert(!TimeRange::distinct_spec(rs[a], rs[ii]));
                        assert(y == rs[a]);
                    }
                    assert(conflicts@.contains(y));
                }
            }
        }
    }
    proof {
        assert(rs.take(n as int) =~= rs);
    }
    conflicts
}

/// The sorted, conflict-free list of time ranges one project worked on
/// one day.
#[derive(Debug)]
pub struct ProjectTimes {
    project: Project,
    time_ranges: Vec<TimeRange>,
}

impl ProjectTimes {
    #[verifier::type_invariant]
    spec fn wf(self) -> bool {
        ranges_sorted_distinct(self.time_ranges@)
    }

    pub closed spec fn spec_project(self) -> Project {
        self.project
    }

    pub closed spec fn spec_ranges(self) -> Seq<TimeRange> {
        self.time_ranges@
    }

    /// Builds the record, sorting the ranges; fails, naming every range
    /// that takes part in an overlap, when any two ranges overlap.
    pub fn new(project: Project, time_ranges: &Vec<TimeRange>) -> (r: Result<ProjectTimes, Error>)
        ensures
            r is Ok <==> !has_conflict(time_ranges@),
            r matches Ok(pt) ==> Project::same(pt.spec_project(), project)
                && pt.spec_ranges().to_multiset() == time_ranges@.to_multiset()
                && ranges_sorted_distinct(pt.spec_ranges()),
            r matches Err(e) ==> (e matches Error::ConflictingTimeRanges {
                client, code, conflicts,
            } && client@ == project.spec_client() && code@ == project.spec_code()
                && ranges_sorted_lt(conflicts@)
                && forall|y: TimeRange| #![trigger conflicts@.contains(y)]
                    conflicts@.contains(y) <==> in_conflict(time_ranges@, y)),
    {
        let ghost rs = time_ranges@;
        note_ranges_valid(time_ranges);
        let conflicts = find_overlapping_time_ranges(time_ranges);
        if conflicts.len() > 0 {
            proof {
                let y = conflicts@[0];
                assert(conflicts@.contains(y));
                assert(in_conflict(rs, y));
                assert(has_conflict(rs));
            }
            return Err(Error::ConflictingTimeRanges {
                client: project.client.clone(),
                code: project.code.clone(),
                conflicts,
            });
        }
        proof {
            if has_conflict(rs) {
                let (a, b) = choose|a: int, b: int| #![trigger rs[a], rs[b]]
                    0 <= a < rs.len() && 0 <= b < rs.len() && a != b
                        && !TimeRange::distinct_spec(rs[a], rs[b]);
                assert(in_conflict(rs, rs[a]));
                assert(conflicts@.contains(rs[a]));
                assert(false);
            }
        }
        let sorted = sort_ranges(time_ranges);
        proof {
            broadcast use vstd::seq_lib::group_to_multiset_ensures;
            assert forall|i: int, j: int| #![trigger sorted@[i], sorted@[j]]
                0 <= i < j < sorted@.len()
                implies sorted@[i].spec_to() <= sorted@[j].spec_from() by {
                let a = sorted@[i];
                let b = sorted@[j];
                assert(range_lt(a, b));
                assert(sorted@.contains(a) && sorted@.contains(b));
                assert(rs.contains(a) && rs.contains(b));
                let ai = choose|k: int| 0 <= k < rs.len() && rs[k] == a;
                let bi = choose|k: int| 0 <= k < rs.len() && rs[k] == b;
                assert(ai != bi);
                assert(TimeRange::distinct_spec(rs[ai], rs[bi]));
                assert(a.valid() && b.valid());
            }
        }
        Ok(ProjectTimes { project, time_ranges: sorted })
    }

    /// Whether two records list the same project and the same ranges.
    pub open spec fn same(a: ProjectTimes, b: ProjectTimes) -> bool {
        Project::same(a.spec_project(), b.spec_project())
            && a.spec_ranges() == b.spec_ranges()
    }

    /// An owned copy with the same project and ranges.
    pub fn duplicate(&self) -> (r: ProjectTimes)
        ensures
            ProjectTimes::same(r, *self),
    {
        proof {
            use_type_invariant(self);
        }
        let mut ranges: Vec<TimeRange> = Vec::new();
        let mut i: usize = 0;
        while i < self.time_ranges.len()
            invariant
                i <= self.time_ranges@.len(),
                ranges@ == self.time_ranges@.subrange(0, i as int),
            decreases self.time_ranges@.len() - i,
        {
            ranges.push(self.time_ranges[i]);
            i = i + 1;
            proof {
                assert(ranges@ =~= self.time_ranges@.subrange(0, i as int));
            }
        }
        proof {
            assert(ranges@ =~= self.time_ranges@);
        }
        ProjectTimes { project: self.project.duplicate(), time_ranges: ranges }
    }

    pub fn project(&self) -> (r: &Project)
        ensures
            Project::same(*r, self.spec_project()),
    {
        &self.project
    }

    pub fn time_ranges(&self) -> (r: &Vec<TimeRange>)
        ensures
            r@ == self.spec_ranges(),
            ranges_sorted_distinct(r@),
    {
        proof {
            use_type_invariant(self);
        }
        &self.time_ranges
    }
}

/// Records that every range of an executable list lies within one day
/// and runs forward, which holds of every constructed `TimeRange`.
fn note_ranges_valid(v: &Vec<TimeRange>)
    ensures
        forall|k: int| 0 <= k < v@.len() ==> (#[trigger] v@[k]).valid(),
{
    let mut i: usize = 0;
    while i < v.len()
        invariant
            i <= v@.len(),
            forall|k: int| 0 <= k < i ==> (#[trigger] v@[k]).valid(),
        decreases v@.len() - i,
    {
        let x = v[i];
        let f = x.from;
        let t = x.to;
        proof {
            use_type_invariant(x);
            use_type_invariant(f);
            use_type_invariant(t);
        }
        i = i + 1;
    }
}

/// Sorts the ranges of a duplicate-free list into ascending order.
fn sort_ranges(v: &Vec<TimeRange>) -> (r: Vec<TimeRange>)
    requires
        forall|a: int, b: int| #![trigger v@[a], v@[b]]
            0 <= a < v@.len() && 0 <= b < v@.len() && a != b ==> v@[a] != v@[b],
    ensures
        ranges_sorted_lt(r@),
        r@.to_multiset() == v@.to_multiset(),
        forall|y: TimeRange| #![trigger r@.contains(y)]
            r@.contains(y) <==> v@.contains(y),
{
    broadcast use vstd::seq_lib::group_to_multiset_ensures;

    let ghost vs = v@;
    let mut r: Vec<TimeRange> = Vec::new();
    let mut i: usize = 0;
    while i < v.len()
        invariant
            i <= vs.len(),
            v@ == vs,
            forall|a: int, b: int| #![trigger vs[a], vs[b]]
                0 <= a < vs.len() && 0 <= b < vs.len() && a != b ==> vs[a] != vs[b],
            ranges_sorted_lt(r@),
            r@.to_multiset() == vs.take(i as int).to_multiset(),
            forall|y: TimeRange| #![trigger r@.contains(y)]
                r@.contains(y) <==> vs.take(i as int).contains(y),
        decreases vs.len() - i,
    {
        let x = v[i];
        proof {
            broadcast use vstd::seq_lib::group_to_multiset_ensures;
            if r@.contains(x) {
                assert(vs.take(i as int).contains(x));
                let k = choose|k: int| 0 <= k < i && vs.take(i as int)[k] == x;
                assert(vs[k] == x && k != i as int);
                assert(false);
            }
        }
        let ghost old_r = r@;
        insert_range_sorted(&mut r, x);
        proof {
            broadcast use vstd::seq_lib::group_to_multiset_ensures;
            lemma_sorted_insert_multiset(old_r, r@, x);
            assert(vs.take(i as int + 1) =~= vs.take(i as int).push(x));
            assert(vs.take(i as int + 1).to_multiset()
                =~= vs.take(i as int).to_multiset().insert(x));
            assert forall|y: TimeRange| #![trigger r@.contains(y)]
                r@.contains(y) <==> vs.take(i as int + 1).contains(y) by {
                if vs.take(i as int + 1).contains(y) {
                    let k = choose|k: int|
                        0 <= k < i + 1 && #[trigger] vs.take(i as int + 1)[k] == y;
                    if k < i as int {
                        assert(vs.take(i as int)[k] == y);
                        assert(vs.take(i as int).contains(y));
                    } else {
                        assert(y == x);
                    }
                }
                if r@.contains(y) {
                    if y == x {
                        assert(vs.take(i as int + 1)[i as int] == y);
                    } else {
                        assert(old_r.contains(y));
                        assert(vs.take(i as int).contains(y));
                        let k = choose|k: int|
                            0 <= k < i && #[trigger] vs.take(i as int)[k] == y;
                        assert(vs.take(i as int + 1)[k] == y);
                    }
                }
            }
        }
        i = i + 1;
    }
    proof {
        assert(vs.take(vs.len() as int) =~= vs);
    }
    r
}

/// A strictly sorted list that grew by one new range grew exactly by
/// that range, counted once.
proof fn lemma_sorted_insert_multiset(before: Seq<TimeRange>, after: Seq<TimeRange>, x: TimeRange)
    requires
        !before.contains(x),
        ranges_sorted_lt(before),
        ranges_sorted_lt(after),
        forall|y: TimeRange| #![trigger after.contains(y)]
            after.contains(y) <==> (before.contains(y) || y == x),
    ensures
        after.to_multiset() == before.to_multiset().insert(x),
{
    broadcast use vstd::seq_lib::group_to_multiset_ensures;

    lemma_ranges_sorted_lt_no_dup(before);
    lemma_ranges_sorted_lt_no_dup(after);
    before.lemma_multiset_has_no_duplicates();
    after.lemma_multiset_has_no_duplicates();
    assert forall|y: TimeRange| #[trigger] after.to_multiset().count(y)
        == before.to_multiset().insert(x).count(y) by {
        if y == x {
            assert(after.contains(y));
            assert(after.to_multiset().count(y) == 1);
            assert(!before.contains(y));
            assert(before.to_multiset().count(y) == 0);
        } else {
            if after.contains(y) {
                assert(before.contains(y));
                assert(after.to_multiset().count(y) == 1);
                assert(before.to_multiset().count(y) == 1);
            } else {
                assert(!before.contains(y));
                assert(after.to_multiset().count(y) == 0);
                assert(before.to_multiset().count(y) == 0);
            }
        }
    }
    assert(after.to_multiset() =~= before.to_multiset().insert(x));
}

/// Compares two range lists element by element.
pub fn ranges_eq(a: &Vec<TimeRange>, b: &Vec<TimeRange>) -> (r: bool)
    ensures
        r == (a@ == b@),
{
    if a.len() != b.len() {
        return false;
    }
    let mut i: usize = 0;
    while i < a.len()
        invariant
            a@.len() == b@.len(),
            i <= a@.len(),
            forall|j: int| 0 <= j < i ==> a@[j] == b@[j],
        decreases a@.len() - i,
    {
        if !(a[i] == b[i]) {
            return false;
        }
        i = i + 1;
    }
    proof {
        assert(a@ =~= b@);
    }
    true
}

impl PartialEq for ProjectTimes {
    fn eq(&self, other: &ProjectTimes) -> (r: bool) {
        self.project == other.project && ranges_eq(&self.time_ranges, &other.time_ranges)
    }
}

impl vstd::std_specs::cmp::PartialEqSpecImpl for ProjectTimes {
    open spec fn obeys_eq_spec() -> bool {
        true
    }

    open spec fn eq_spec(&self, other: &ProjectTimes) -> bool {
        ProjectTimes::same(*self, *other)
    }
}

// --- DayEntry ---

/// One calendar date's full set of project allocations, together with
/// the ledger line its date line sits on.
#[derive(Debug)]
pub struct DayEntry {
    date: Date,
    projects: Vec<ProjectTimes>,
    line_number: u32,
}

/// Whether two allocation lists are pairwise the same.
pub open spec fn project_times_seq_same(a: Seq<ProjectTimes>, b: Seq<ProjectTimes>) -> bool {
    a.len() == b.len() && forall|i: int| 0 <= i < a.len()
        ==> ProjectTimes::same(#[trigger] a[i], #[trigger] b[i])
}

impl DayEntry {
    pub closed spec fn spec_date(self) -> Date {
        self.date
    }

    pub closed spec fn spec_projects(self) -> Seq<ProjectTimes> {
        self.projects@
    }

    pub closed spec fn spec_line_number(self) -> int {
        self.line_number as int
    }

    /// Whether two entries carry the same date, allocations and line.
    pub open spec fn same(a: DayEntry, b: DayEntry) -> bool {
        a.spec_date() == b.spec_date()
            && project_times_seq_same(a.spec_projects(), b.spec_projects())
            && a.spec_line_number() == b.spec_line_number()
    }

    pub fn new(date: Date, projects: Vec<ProjectTimes>, line_number: u32) -> (r: DayEntry)
        ensures
            r.spec_date() == date,
            r.spec_projects() == projects@,
            r.spec_line_number() == line_number,
    {
        DayEntry { date, projects, line_number }
    }

    pub fn date(&self) -> (r: Date)
        ensures
            r == self.spec_date(),
    {
        self.date
    }

    pub fn projects(&self) -> (r: &Vec<ProjectTimes>)
        ensures
            r@ == self.spec_projects(),
    {
        &self.projects
    }

    pub fn line_number(&self) -> (r: u32)
        ensures
            r as int == self.spec_line_number(),
    {
        self.line_number
    }

    /// An owned copy of the entry.
    pub fn duplicate(&self) -> (r: DayEntry)
        ensures
            DayEntry::same(r, *self),
    {
        let mut projects: Vec<ProjectTimes> = Vec::new();
        let mut i: usize = 0;
        while i < self.projects.len()
            invariant
                i <= self.projects@.len(),
                projects@.len() == i,
                forall|j: int| 0 <= j < i ==> ProjectTimes::same(
                    #[trigger] projects@[j], self.projects@[j]),
            decreases self.projects@.len() - i,
        {
            projects.push(self.projects[i].duplicate());
            i = i + 1;
        }
        DayEntry { date: self.date, projects, line_number: self.line_number }
    }

    /// The same entry with every project's subcode dropped.
    pub fn without_subcodes(&self) -> (r: DayEntry)
        ensures
            collapses(r, *self),
    {
        let mut projects: Vec<ProjectTimes> = Vec::new();
        let mut i: usize = 0;
        while i < self.projects.len()
            invariant
                i <= self.projects@.len(),
                projects@.len() == i,
                forall|j: int| 0 <= j < i ==> {
                    let a = #[trigger] projects@[j];
                    let b = self.projects@[j];
                    a.spec_project().spec_client() == b.spec_project().spec_client()
                        && a.spec_project().spec_code() == b.spec_project().spec_code()
                        && a.spec_project().spec_subcode() == Seq::<char>::empty()
                        && a.spec_ranges() == b.spec_ranges()
                },
            decreases self.projects@.len() - i,
        {
            let pt = &self.projects[i];
            proof {
                use_type_invariant(pt);
            }
            let stripped = pt.duplicate();
            let dup = ProjectTimes {
                project: stripped.project.without_subcode(),
                time_ranges: stripped.time_ranges,
            };
            projects.push(dup);
            i = i + 1;
        }
        DayEntry { date: self.date, projects, line_number: self.line_number }
    }
}

/// How a subcode-collapsed entry relates to its source: same date and
/// line, and allocation by allocation the same client, code and ranges
/// with an empty subcode.
pub open spec fn collapses(a: DayEntry, b: DayEntry) -> bool {
    a.spec_date() == b.spec_date() && a.spec_line_number() == b.spec_line_number()
        && a.spec_projects().len() == b.spec_projects().len()
        && forall|i: int| 0 <= i < b.spec_projects().len() ==> {
            let x = #[trigger] a.spec_projects()[i];
            let y = b.spec_projects()[i];
            x.spec_project().spec_client() == y.spec_project().spec_client()
                && x.spec_project().spec_code() == y.spec_project().spec_code()
                && x.spec_project().spec_subcode() == Seq::<char>::empty()
                && x.spec_ranges() == y.spec_ranges()
        }
}

impl PartialEq for DayEntry {
    fn eq(&self, other: &DayEntry) -> (r: bool) {
        if !(self.date == other.date) || self.line_number != other.line_number {
            return false;
        }
        if self.projects.len() != other.projects.len() {
            return false;
        }
        let mut i: usize = 0;
        while i < self.projects.len()
            invariant
                self.projects@.len() == other.projects@.len(),
                i <= self.projects@.len(),
                self.spec_date() == other.spec_date(),
                self.spec_line_number() == other.spec_line_number(),
                forall|j: int| 0 <= j < i ==> ProjectTimes::same(
                    #[trigger] self.projects@[j], other.projects@[j]),
            decreases self.projects@.len() - i,
        {
            if !(self.projects[i] == other.projects[i]) {
                return false;
            }
            i = i + 1;
        }
        true
    }
}

impl vstd::std_specs::cmp::PartialEqSpecImpl for DayEntry {
    open spec fn obeys_eq_spec() -> bool {
        true
    }

    open spec fn eq_spec(&self, other: &DayEntry) -> bool {
        DayEntry::same(*self, *other)
    }
}

/// A strictly sorted range list holds no range twice.
proof fn lemma_ranges_sorted_lt_no_dup(rs: Seq<TimeRange>)
    requires
        ranges_sorted_lt(rs),
    ensures
        rs.no_duplicates(),
{
    assert forall|i: int, j: int| 0 <= i < rs.len() && 0 <= j < rs.len() && i != j
        implies rs[i] != rs[j] by {
        if i < j {
            assert(range_lt(rs[i], rs[j]));
        } else {
            assert(range_lt(rs[j], rs[i]));
        }
    }
}

} // verus!
