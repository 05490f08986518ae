//! The feed records that the library works on, as handed over by a feed parser.

use crate::time::{date_text, format_date};
use vstd::prelude::*;

verus! {

/// Travel sense of a trip along its route.
#[derive(Clone, Copy, Debug, PartialEq, Eq, Structural)]
pub enum Direction {
    Inbound,
    Outbound,
    Unknown,
}

/// Whether a calendar exception adds or removes service on its date.
#[derive(Clone, Copy, Debug, PartialEq, Eq, Structural)]
pub enum ExceptionType {
    Added,
    Removed,
}

/// A calendar date; see `Date::is_valid` for the dates a feed may hold.
#[derive(Clone, Copy, Debug, PartialEq, Eq, Structural)]
pub struct Date {
    pub year: u32,
    pub month: u32,
    pub day: u32,
}

/// One stop visit within a trip.
#[derive(Clone, Debug)]
pub struct StopTime {
    pub stop_id: String,
    /// Seconds past midnight of the service date; absent when the feed gives none.
    pub arrival: Option<u32>,
}

/// One scheduled run along a route, with its stop visits in feed order.
#[derive(Clone, Debug)]
pub struct Trip {
    pub id: String,
    pub route_id: String,
    pub service_id: String,
    pub direction: Direction,
    pub stop_times: Vec<StopTime>,
}

/// Service added to or removed from one date for one service.
#[derive(Clone, Debug)]
pub struct CalendarException {
    pub service_id: String,
    pub date: Date,
    pub exception_type: ExceptionType,
}

pub open spec fn is_leap_year(year: int) -> bool {
    (year % 4 == 0 && year % 100 != 0) || year % 400 == 0
}

pub open spec fn days_in_month(year: int, month: int) -> int {
    if month == 2 {
        if is_leap_year(year) {
            29
        } else {
            28
        }
    } else if month == 4 || month == 6 || month == 9 || month == 11 {
        30
    } else {
        31
    }
}

impl Date {
    /// A real day of the Gregorian calendar with a four-digit year.
    pub open spec fn is_valid(self) -> bool {
        &&& 1 <= self.year <= 9999
        &&& 1 <= self.month <= 12
        &&& 1 <= self.day <= days_in_month(self.year as int, self.month as int)
    }

    /// The date as "YYYY-MM-DD", the key of its timetables.
    pub fn to_iso_string(&self) -> (r: String)
        requires
            self.is_valid(),
        ensures
            r@ == date_text(self.year as nat, self.month as nat, self.day as nat),
    {
        format_date(self.year, self.month, self.day)
    }
}

} // verus!
