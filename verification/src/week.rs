//! The week selector: a Monday-to-Friday span kept as two "YYYY-MM-DD"
//! strings.  Days are counted in the proleptic Gregorian calendar with
//! January 1 of year 1 as day 1, the count chrono uses; Mondays satisfy
//! `day % 7 == 1`.
use vstd::prelude::*;
use crate::text::digit_char;

verus! {

/// What formatting a day number with "%Y-%m-%d" yields.
pub uninterp spec fn ymd_text(day: int) -> Seq<char>;

/// What parsing a "%Y-%m-%d" string yields: the day number, when the text is
/// a valid date.
pub uninterp spec fn day_of_text(s: Seq<char>) -> Option<u32>;

/// The month and day-of-month of a day number.
pub uninterp spec fn month_day_of(day: int) -> (int, int);

/// Relies on chrono's `Local::now` and `Datelike::num_days_from_ce`: the
/// current local date as a day count; valid dates stay below 100 000 000
/// days.  The result depends on the clock, so nothing more is promised.
#[verifier::external_body]
fn today_day_number() -> (r: Option<u32>)
    ensures
        r matches Some(d) ==> d < 100_000_000,
{
    u32::try_from(chrono::Datelike::num_days_from_ce(&chrono::Local::now().date_naive())).ok()
}

/// Relies on chrono's `NaiveDate::from_num_days_from_ce_opt` and `format`
/// with "%Y-%m-%d": the text rendered for a day number depends on the day
/// number alone.
#[verifier::external_body]
fn format_day(day: u32) -> (r: String)
    requires
        1 <= day < 100_000_000,
    ensures
        r@ == ymd_text(day as int),
{
    match chrono::NaiveDate::from_num_days_from_ce_opt(day as i32) {
        Some(d) => d.format("%Y-%m-%d").to_string(),
        None => String::new(),
    }
}

/// Relies on chrono's `NaiveDate::parse_from_str` with "%Y-%m-%d" and
/// `num_days_from_ce`: the result depends on the text alone, and every valid
/// date lies below day 100 000 000.
#[verifier::external_body]
pub(crate) fn parse_day(s: &str) -> (r: Option<u32>)
    ensures
        r == day_of_text(s@),
        r matches Some(d) ==> d < 100_000_000,
{
    chrono::NaiveDate::parse_from_str(s, "%Y-%m-%d")
        .ok()
        .and_then(|d| u32::try_from(chrono::Datelike::num_days_from_ce(&d)).ok())
}

/// Relies on chrono's `Datelike::month` and `Datelike::day`: months run 1 to
/// 12 and days of the month 1 to 31, determined by the day number alone.
#[verifier::external_body]
fn month_day(day: u32) -> (r: (u32, u32))
    requires
        1 <= day < 100_000_000,
    ensures
        (r.0 as int, r.1 as int) == month_day_of(day as int),
        1 <= r.0 <= 12,
        1 <= r.1 <= 31,
{
    match chrono::NaiveDate::from_num_days_from_ce_opt(day as i32) {
        Some(d) => (chrono::Datelike::month(&d), chrono::Datelike::day(&d)),
        None => (1, 1),
    }
}

/// The Monday on or before a day: Mondays are the days with `day % 7 == 1`.
pub open spec fn monday_of(day: int) -> int {
    day - ((day + 6) % 7)
}

/// Where a week lands after shifting by `offset` weeks: the shifted Monday,
/// or the unshifted one when the shift leaves the calendar.
pub open spec fn shifted_monday(day: int, offset: int) -> int {
    if 1 <= monday_of(day) + 7 * offset && monday_of(day) + 7 * offset + 4 < 100_000_000 {
        monday_of(day) + 7 * offset
    } else {
        monday_of(day)
    }
}

/// A Monday-to-Friday span, as the remote service's date strings.
#[derive(Clone, Debug, PartialEq, Eq, Hash)]
pub struct Week {
    pub start: String,
    pub end: String,
}

pub ghost struct WeekSpanView {
    pub start: Seq<char>,
    pub end: Seq<char>,
}

impl View for Week {
    type V = WeekSpanView;

    open spec fn view(&self) -> WeekSpanView {
        WeekSpanView { start: self.start@, end: self.end@ }
    }
}

impl DeepView for Week {
    type V = WeekSpanView;

    open spec fn deep_view(&self) -> WeekSpanView {
        self.view()
    }
}

/// A day usable as the base of week arithmetic.
pub open spec fn usable_day(d: int) -> bool {
    8 <= d < 99_000_000
}

fn fallback_today() -> (r: u32)
    ensures
        usable_day(r as int),
{
    match today_day_number() {
        Some(t) => {
            if 8 <= t && t < 99_000_000 {
                t
            } else {
                719163
            }
        },
        None => 719163,
    }
}

/// The week start parses to a day usable for shifting.
pub open spec fn parsed_usable(s: Seq<char>) -> bool {
    day_of_text(s) matches Some(d) && usable_day(d as int)
}

/// The parsed day of a date string; meaningful only when parsing succeeds.
pub open spec fn parsed_day(s: Seq<char>) -> int {
    day_of_text(s)->Some_0 as int
}

impl Week {
    /// The week of today.
    pub fn current() -> (r: Week)
        ensures
            exists|d: int|
                usable_day(d) && r@ == (WeekSpanView {
                    start: ymd_text(shifted_monday(d, 0)),
                    end: ymd_text(shifted_monday(d, 0) + 4),
                }),
    {
        Self::current_plus(0)
    }

    /// The week `offset` weeks away from today's week.
    pub fn current_plus(offset: i32) -> (r: Week)
        requires
            -1_000_000 <= offset <= 1_000_000,
        ensures
            exists|d: int|
                usable_day(d) && r@ == (WeekSpanView {
                    start: ymd_text(shifted_monday(d, offset as int)),
                    end: ymd_text(shifted_monday(d, offset as int) + 4),
                }),
    {
        let today = fallback_today();
        let monday = today - (today + 6) % 7;
        proof {
            assert(monday as int == monday_of(today as int));
            assert(monday % 7 == 1) by {
                assert((today as int + 6) % 7 == (today as int - 1) % 7) by {
                    assert((today as int + 6) - (today as int - 1) == 7);
                    assert((today as int + 6) % 7 == ((today as int - 1) + 7) % 7);
                }
            }
            assert(1 <= monday);
        }
        let target = monday as i64 + 7 * (offset as i64);
        let m: u32 = if 1 <= target && target + 4 < 100_000_000 {
            target as u32
        } else {
            monday
        };
        proof {
            assert(m as int == shifted_monday(today as int, offset as int));
        }
        let start = format_day(m);
        let end = format_day(m + 4);
        let r = Week { start, end };
        proof {
            let d = today as int;
            assert(usable_day(d) && r@ == (WeekSpanView {
                start: ymd_text(shifted_monday(d, offset as int)),
                end: ymd_text(shifted_monday(d, offset as int) + 4),
            }));
        }
        r
    }

    /// The week that holds the given day.
    pub fn from_day(day: u32) -> (r: Week)
        requires
            usable_day(day as int),
        ensures
            r@ == (WeekSpanView {
                start: ymd_text(monday_of(day as int)),
                end: ymd_text(monday_of(day as int) + 4),
            }),
    {
        let monday = day - (day + 6) % 7;
        proof {
            assert(monday as int == monday_of(day as int));
        }
        let start = format_day(monday);
        let end = format_day(monday + 4);
        Week { start, end }
    }

    /// The previous week: seven days back from this week's start.
    pub fn previous(&self) -> (r: Week)
        ensures
            parsed_usable(self@.start) ==> r@ == (WeekSpanView {
                start: ymd_text(parsed_day(self@.start) - 7),
                end: ymd_text(parsed_day(self@.start) - 3),
            }),
            !parsed_usable(self@.start) ==> exists|b: int|
                usable_day(b) && r@ == (WeekSpanView { start: ymd_text(b - 7), end: ymd_text(b - 3) }),
    {
        self.shift_weeks(false)
    }

    /// The next week: seven days on from this week's start.
    pub fn next(&self) -> (r: Week)
        ensures
            parsed_usable(self@.start) ==> r@ == (WeekSpanView {
                start: ymd_text(parsed_day(self@.start) + 7),
                end: ymd_text(parsed_day(self@.start) + 11),
            }),
            !parsed_usable(self@.start) ==> exists|b: int|
                usable_day(b) && r@ == (WeekSpanView { start: ymd_text(b + 7), end: ymd_text(b + 11) }),
    {
        self.shift_weeks(true)
    }

    fn shift_weeks(&self, forward: bool) -> (r: Week)
        ensures
            parsed_usable(self@.start) ==> r@ == (WeekSpanView {
                start: ymd_text(if forward {
                    parsed_day(self@.start) + 7
                } else {
                    parsed_day(self@.start) - 7
                }),
                end: ymd_text(if forward {
                    parsed_day(self@.start) + 11
                } else {
                    parsed_day(self@.start) - 3
                }),
            }),
            !parsed_usable(self@.start) ==> exists|b: int|
                usable_day(b) && r@ == (WeekSpanView {
                    start: ymd_text(if forward {
                        b + 7
                    } else {
                        b - 7
                    }),
                    end: ymd_text(if forward {
                        b + 11
                    } else {
                        b - 3
                    }),
                }),
    {
        let parsed = parse_day(self.start.as_str());
        let base: u32 = match parsed {
            Some(d) => {
                if 8 <= d && d < 99_000_000 {
                    d
                } else {
                    fallback_today()
                }
            },
            None => fallback_today(),
        };
        let nm = if forward {
            base + 7
        } else {
            base - 7
        };
        let start = format_day(nm);
        let end = format_day(nm + 4);
        Week { start, end }
    }

    /// Render the span as "d.m - d.m".
    pub fn to_string(&self) -> (r: String)
        ensures
            parses_positive(self@.start) && parses_positive(self@.end) ==> r@ == day_dot_month(
                parsed_day(self@.start),
            ) + " - "@ + day_dot_month(parsed_day(self@.end)),
            !(parses_positive(self@.start) && parses_positive(self@.end)) ==> r@
                == Seq::<char>::empty(),
    {
        let a = parse_day(self.start.as_str());
        let b = parse_day(self.end.as_str());
        match (a, b) {
            (Some(x), Some(y)) => {
                if x >= 1 && y >= 1 {
                    let mut out = String::new();
                    push_day_dot_month(&mut out, x);
                    out.append(" - ");
                    push_day_dot_month(&mut out, y);
                    proof {
                        assert(out@ =~= day_dot_month(x as int) + " - "@ + day_dot_month(y as int));
                    }
                    out
                } else {
                    String::new()
                }
            },
            _ => String::new(),
        }
    }
}

/// The text parses to a day number of at least 1.
pub open spec fn parses_positive(s: Seq<char>) -> bool {
    day_of_text(s) matches Some(d) && d >= 1
}

/// A number below 100 without leading zero.
pub open spec fn short_num(n: int) -> Seq<char> {
    if n < 10 {
        seq![digit_char(n)]
    } else {
        seq![digit_char(n / 10), digit_char(n % 10)]
    }
}

/// A date rendered as "d.m", without leading zeros.
pub open spec fn day_dot_month(day: int) -> Seq<char> {
    short_num(month_day_of(day).1) + "."@ + short_num(month_day_of(day).0)
}

fn push_short_num(s: &mut String, n: u32)
    requires
        n < 100,
    ensures
        final(s)@ == old(s)@ + short_num(n as int),
{
    if n < 10 {
        s.append(crate::text::digit_str(n as u64));
    } else {
        s.append(crate::text::digit_str((n / 10) as u64));
        s.append(crate::text::digit_str((n % 10) as u64));
        proof {
            assert(s@ =~= old(s)@ + short_num(n as int));
        }
    }
}

fn push_day_dot_month(s: &mut String, day: u32)
    requires
        1 <= day < 100_000_000,
    ensures
        final(s)@ == old(s)@ + day_dot_month(day as int),
{
    let (m, d) = month_day(day);
    push_short_num(s, d);
    s.append(".");
    push_short_num(s, m);
    proof {
        assert(s@ =~= old(s)@ + day_dot_month(day as int));
    }
}

} // verus!
