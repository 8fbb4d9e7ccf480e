//! Days of the week.
use vstd::prelude::*;

verus! {

/// Day of week.
#[derive(Debug, Clone, Copy, PartialEq, Eq, Structural)]
pub enum DayOfWeek {
    /// Sunday.
    Sun,
    /// Monday.
    Mon,
    /// Tuesday.
    Tue,
    /// Wednesday.
    Wed,
    /// Thursday.
    Thu,
    /// Friday.
    Fri,
    /// Saturday.
    Sat,
}

/// The working day that follows `day`: weekdays advance by one, and Friday, Saturday and
/// Sunday are all followed by Monday.
pub open spec fn spec_next_weekday(day: DayOfWeek) -> DayOfWeek {
    match day {
        DayOfWeek::Mon => DayOfWeek::Tue,
        DayOfWeek::Tue => DayOfWeek::Wed,
        DayOfWeek::Wed => DayOfWeek::Thu,
        DayOfWeek::Thu => DayOfWeek::Fri,
        _ => DayOfWeek::Mon,
    }
}

/// The next day of week: `next_weekday(Thu)` is `Fri`; and `next_weekday(Fri)` is `Mon`.
pub fn next_weekday(day: DayOfWeek) -> (r: DayOfWeek)
    ensures
        r == spec_next_weekday(day),
{
    match day {
        DayOfWeek::Thu => DayOfWeek::Fri,
        DayOfWeek::Fri | DayOfWeek::Sat | DayOfWeek::Sun => DayOfWeek::Mon,
        DayOfWeek::Mon => DayOfWeek::Tue,
        DayOfWeek::Tue => DayOfWeek::Wed,
        DayOfWeek::Wed => DayOfWeek::Thu,
    }
}

/// The position of a day in the week, Sunday first.
pub open spec fn day_number(day: DayOfWeek) -> int {
    match day {
        DayOfWeek::Sun => 0,
        DayOfWeek::Mon => 1,
        DayOfWeek::Tue => 2,
        DayOfWeek::Wed => 3,
        DayOfWeek::Thu => 4,
        DayOfWeek::Fri => 5,
        DayOfWeek::Sat => 6,
    }
}

/// The next working day is the following day of the week when that is a working day (Monday
/// to Friday), and Monday otherwise.
pub proof fn lemma_next_weekday_follows(day: DayOfWeek)
    ensures
        1 <= day_number(day) <= 4 ==> day_number(spec_next_weekday(day)) == day_number(day) + 1,
        day_number(day) >= 5 || day_number(day) == 0 ==> spec_next_weekday(day) == DayOfWeek::Mon,
{
}

/// The day returned by `next_weekday` is always a weekday (never Saturday or Sunday).
pub proof fn lemma_next_weekday_is_weekday(day: DayOfWeek)
    ensures
        spec_next_weekday(day) != DayOfWeek::Sat,
        spec_next_weekday(day) != DayOfWeek::Sun,
{
}

} // verus!
