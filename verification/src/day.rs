//! Calendar days. The store keys completions by local calendar day; a day is
//! held as plain year, month and day-of-month numbers in the ranges that the
//! `YYYY-MM-DD` day-key format can carry. Stepping a day backwards, as the
//! statistics window needs, is calendar arithmetic and is left to chrono
//! behind a trusted wrapper.
use vstd::prelude::*;

verus! {

/// A calendar day, as the `YYYY-MM-DD` day key names one.
#[derive(Clone, Copy, PartialEq, Eq, Structural, Debug)]
pub struct Day {
    pub year: u32,
    pub month: u32,
    pub day: u32,
}

/// The day `back` days before the day `(year, month, day)` of the proleptic
/// Gregorian calendar, as year, month and day-of-month. Left uninterpreted:
/// the library relies on chrono to compute it.
pub uninterp spec fn days_earlier(year: int, month: int, day: int, back: int) -> (int, int, int);

/// Whether chrono places `(year, month, day)` as a real calendar date and
/// can step it `back` days into its supported range. A function of the four
/// arguments alone, like `days_earlier`; left uninterpreted.
pub uninterp spec fn days_back_defined(year: int, month: int, day: int, back: int) -> bool;

/// When stepping `d` back by `k` days yields a day again: chrono places and
/// steps the date, and the resulting year still fits the day-key format.
pub open spec fn back_in_range(d: Day, k: int) -> bool {
    &&& days_back_defined(d.year as int, d.month as int, d.day as int, k)
    &&& 0 <= days_earlier(d.year as int, d.month as int, d.day as int, k).0 <= 9999
}

impl Day {
    /// Field ranges that the `YYYY-MM-DD` day-key format can carry.
    pub open spec fn wf(self) -> bool {
        self.year <= 9999 && 1 <= self.month <= 12 && 1 <= self.day <= 31
    }

    /// Builds a day from plain numbers, accepting exactly the ranges of the
    /// day-key format.
    pub fn from_ymd(year: i64, month: u32, day: u32) -> (r: Option<Day>)
        ensures
            r is Some <==> (0 <= year <= 9999 && 1 <= month <= 12 && 1 <= day <= 31),
            r matches Some(d) ==> d.year == year && d.month == month && d.day == day && d.wf(),
    {
        if 0 <= year && year <= 9999 && 1 <= month && month <= 12 && 1 <= day && day <= 31 {
            Some(Day { year: year as u32, month, day })
        } else {
            None
        }
    }

    /// The day `back` days before `self`, through chrono's calendar
    /// arithmetic; a day comes back exactly when chrono steps the date and
    /// the result stays in the day-key ranges.
    pub fn back(&self, back: u32) -> (r: Option<Day>)
        requires
            self.wf(),
        ensures
            r is Some <==> back_in_range(*self, back as int),
            r matches Some(d) ==> d.wf() && (d.year as int, d.month as int, d.day as int)
                == days_earlier(self.year as int, self.month as int, self.day as int, back as int),
    {
        match days_back_raw(self.year, self.month, self.day, back) {
            Some((y, m, d)) => Day::from_ymd(y, m, d),
            None => None,
        }
    }
}

/// Relies on chrono's `NaiveDate::from_ymd_opt`, `NaiveDate::checked_sub_days`
/// and the `Datelike` accessors to step a calendar day backwards. The result
/// is a function of the four arguments alone: `days_back_defined` names when
/// a date comes back, `days_earlier` names which; chrono documents `month()`
/// as 1..=12 and `day()` as 1..=31.
#[verifier::external_body]
fn days_back_raw(year: u32, month: u32, day: u32, back: u32) -> (r: Option<(i64, u32, u32)>)
    requires
        year <= 9999,
        1 <= month <= 12,
        1 <= day <= 31,
    ensures
        r is Some <==> days_back_defined(year as int, month as int, day as int, back as int),
        r matches Some(t) ==> {
            &&& 1 <= t.1 <= 12
            &&& 1 <= t.2 <= 31
            &&& (t.0 as int, t.1 as int, t.2 as int) == days_earlier(
                year as int,
                month as int,
                day as int,
                back as int,
            )
        },
{
    let date = match chrono::NaiveDate::from_ymd_opt(year as i32, month, day) {
        Some(d) => d,
        None => return None,
    };
    let earlier = match date.checked_sub_days(chrono::Days::new(back as u64)) {
        Some(d) => d,
        None => return None,
    };
    Some((
        chrono::Datelike::year(&earlier) as i64,
        chrono::Datelike::month(&earlier),
        chrono::Datelike::day(&earlier),
    ))
}

/// The trailing window of `len` days that ends at `last`: oldest first, with
/// `last` standing at the end. The window comes back exactly when every day
/// of it steps back within the calendar and the day-key ranges.
pub fn window_ending(last: &Day, len: u32) -> (r: Option<Vec<Day>>)
    requires
        last.wf(),
    ensures
        r is Some <==> forall|j: int| 0 <= j < len ==> #[trigger] back_in_range(*last, len - 1 - j),
        r matches Some(w) ==> {
            &&& w@.len() == len
            &&& forall|j: int| 0 <= j < len ==> (#[trigger] w@[j]).wf()
            &&& forall|j: int|
                0 <= j < len ==> (w@[j].year as int, w@[j].month as int, w@[j].day as int)
                    == days_earlier(
                    last.year as int,
                    last.month as int,
                    last.day as int,
                    len - 1 - j,
                )
        },
{
    let mut w: Vec<Day> = Vec::new();
    let mut j: u32 = 0;
    while j < len
        invariant
            last.wf(),
            j <= len,
            w@.len() == j,
            forall|k: int| 0 <= k < j ==> #[trigger] back_in_range(*last, len - 1 - k),
            forall|k: int| 0 <= k < j ==> (#[trigger] w@[k]).wf(),
            forall|k: int|
                0 <= k < j ==> (w@[k].year as int, w@[k].month as int, w@[k].day as int)
                    == days_earlier(
                    last.year as int,
                    last.month as int,
                    last.day as int,
                    len - 1 - k,
                ),
        decreases len - j,
    {
        match last.back(len - 1 - j) {
            Some(d) => w.push(d),
            None => {
                proof {
                    assert(!back_in_range(*last, len - 1 - j as int));
                }
                return None;
            },
        }
        j = j + 1;
    }
    Some(w)
}

} // verus!
