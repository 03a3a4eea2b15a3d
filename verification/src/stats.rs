//! Personal stats time windows.
use vstd::prelude::*;
use crate::text::{chars_eq, chars_of};

verus! {

/// A Personal Stats time window.
#[derive(Debug, Clone, Copy, PartialEq, Eq, Structural)]
pub enum StatsRange {
    SevenDays,
    TwentyEightDays,
    OneYear,
}

/// The name a window is written as.
pub open spec fn range_name(r: StatsRange) -> Seq<char> {
    match r {
        StatsRange::SevenDays => "7d"@,
        StatsRange::TwentyEightDays => "28d"@,
        StatsRange::OneYear => "1y"@,
    }
}

/// The window a name stands for.
pub open spec fn range_named(raw: Seq<char>) -> Option<StatsRange> {
    if raw == "7d"@ {
        Some(StatsRange::SevenDays)
    } else if raw == "28d"@ {
        Some(StatsRange::TwentyEightDays)
    } else if raw == "1y"@ {
        Some(StatsRange::OneYear)
    } else {
        None
    }
}

/// The length of a window in days.
pub open spec fn range_days(r: StatsRange) -> int {
    match r {
        StatsRange::SevenDays => 7,
        StatsRange::TwentyEightDays => 28,
        StatsRange::OneYear => 365,
    }
}

/// Seconds in a day.
pub const SECONDS_PER_DAY: i64 = 86_400;

impl StatsRange {
    pub fn parse(raw: &str) -> (r: Option<StatsRange>)
        ensures
            r == range_named(raw@),
    {
        let v = chars_of(raw);
        if chars_eq(v.as_slice(), chars_of("7d").as_slice()) {
            Some(StatsRange::SevenDays)
        } else if chars_eq(v.as_slice(), chars_of("28d").as_slice()) {
            Some(StatsRange::TwentyEightDays)
        } else if chars_eq(v.as_slice(), chars_of("1y").as_slice()) {
            Some(StatsRange::OneYear)
        } else {
            None
        }
    }

    pub fn as_str(&self) -> (s: &'static str)
        ensures
            s@ == range_name(*self),
    {
        match self {
            StatsRange::SevenDays => "7d",
            StatsRange::TwentyEightDays => "28d",
            StatsRange::OneYear => "1y",
        }
    }

    pub fn days(&self) -> (d: i64)
        ensures
            d == range_days(*self),
    {
        match self {
            StatsRange::SevenDays => 7,
            StatsRange::TwentyEightDays => 28,
            StatsRange::OneYear => 365,
        }
    }
}

/// Parsing a window's name gives the window back.
pub proof fn stats_range_round_trip(r: StatsRange)
    ensures
        range_named(range_name(r)) == Some(r),
{
    reveal_strlit("7d");
    reveal_strlit("28d");
    reveal_strlit("1y");
    assert("7d"@.len() != "28d"@.len());
    assert("7d"@ != "1y"@) by {
        assert("7d"@[0] != "1y"@[0]);
    }
    assert("28d"@.len() != "1y"@.len());
}

/// The start of the window ending at `now`: `now - days * 86400`.
pub fn range_start_unix(range: StatsRange, now: i64) -> (s: i64)
    requires
        now >= i64::MIN + 365 * 86_400,
    ensures
        s == now - range_days(range) * 86_400,
{
    now - range.days() * SECONDS_PER_DAY
}

} // verus!
