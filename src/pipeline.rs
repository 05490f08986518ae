//! The lookup tables of a whole feed, built once, and the timetables of a
//! date read from them.

use crate::calendar::{all_dates_valid, expand_calendar, is_calendar_index, CalendarIndex, FeedError};
use crate::feed::{CalendarException, Date, Trip};
use crate::service_index::{index_trips_by_service, is_service_trip_index};
use crate::stop_order::{is_route_order_table, resolve_route_orders, RouteStopOrder};
use crate::timetable::{
    active_on, assemble_date, date_keys_unique, has_trip_id, is_active_selection,
    is_route_grouping, service_keys_unique, warns_all_missing, RouteTimetable, Warning,
};
use vstd::prelude::*;

verus! {

/// Calendar tables, trips of each service and stop orders of each route.
#[derive(Debug)]
pub struct FeedIndex {
    pub calendar: CalendarIndex,
    pub service_trips: Vec<(String, Vec<String>)>,
    pub route_orders: Vec<(String, RouteStopOrder)>,
}

impl FeedIndex {
    /// No date and no service has two entries.
    pub open spec fn is_consistent(self) -> bool {
        date_keys_unique(self.calendar) && service_keys_unique(self.service_trips@)
    }

    /// The timetables of date `d`, one per route with a trip running that
    /// day, and a warning for each listed trip the table lacks.
    pub fn timetables_for(&self, d: Date, trips: &Vec<Trip>) -> (r: (Vec<RouteTimetable>, Vec<Warning>))
        requires
            self.is_consistent(),
        ensures
            exists|sel: Seq<usize>|
                is_active_selection(self.calendar, self.service_trips@, trips@, d, sel)
                    && is_route_grouping(trips@, sel, self.route_orders@, r.0@),
            warns_all_missing(self.calendar, self.service_trips@, trips@, d, r.1@),
            forall|w: int|
                0 <= w < r.1@.len() ==> match #[trigger] r.1@[w] {
                    Warning::MissingTrip { service_id, trip_id } => active_on(
                        self.calendar,
                        self.service_trips@,
                        d,
                        service_id@,
                        trip_id@,
                    ) && !has_trip_id(trips@, trip_id@),
                },
    {
        assemble_date(d, &self.calendar, &self.service_trips, trips, &self.route_orders)
    }
}

/// Builds the tables of a feed from its route ids, the service ids of its
/// base calendar, its trips and its calendar exceptions: fails, before anything else, on the first
/// calendar exception whose date does not exist.
pub fn build_feed_index(
    routes: &Vec<String>,
    services: &Vec<String>,
    trips: &Vec<Trip>,
    exceptions: &Vec<CalendarException>,
) -> (r: Result<FeedIndex, FeedError>)
    ensures
        r is Ok <==> all_dates_valid(exceptions@),
        r matches Err(FeedError::InvalidDate { index }) ==> {
            &&& index < exceptions@.len()
            &&& !exceptions@[index as int].date.is_valid()
            &&& forall|k: int| 0 <= k < index ==> (#[trigger] exceptions@[k]).date.is_valid()
        },
        r matches Ok(ix) ==> {
            &&& is_calendar_index(services@, exceptions@, ix.calendar)
            &&& is_service_trip_index(trips@, ix.service_trips@)
            &&& is_route_order_table(routes@, trips@, ix.route_orders@)
            &&& ix.is_consistent()
        },
{
    let calendar = match expand_calendar(services, exceptions) {
        Ok(c) => c,
        Err(e) => {
            return Err(e);
        },
    };
    let service_trips = index_trips_by_service(trips);
    let route_orders = resolve_route_orders(routes, trips);
    Ok(FeedIndex { calendar, service_trips, route_orders })
}

} // verus!
