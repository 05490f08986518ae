//! Turns a static transit feed into per-date, per-route timetables: expands
//! service calendars into dates, infers a canonical stop order for each route
//! and groups the trips running on each date by route and direction.

pub mod time;
pub mod feed;
pub mod topo;
pub mod stop_order;
pub mod calendar;
pub mod service_index;
pub mod timetable;
pub mod pipeline;
