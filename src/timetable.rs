//! Timetables of one date: the trips running that day, with their arrival
//! times as "H:MM", grouped by route and direction.

use crate::calendar::{dates_of, is_calendar_index, services_on, CalendarIndex};
use crate::service_index::{is_service_trip_index, runs_service, trip_ids_of_service};
use crate::calendar::contains_text;
use crate::feed::{CalendarException, Date, Direction, StopTime, Trip};
use crate::service_index::find_service_trips;
use crate::stop_order::{find_route_order, has_order_entry, selects, texts, RouteStopOrder};
use crate::time::{format_time, lemma_time_text_round_trip, parse_time_text, time_text};
use vstd::prelude::*;

verus! {

/// Arrival times of one trip: (stop id, "H:MM") for each visit that has an
/// arrival, in visit order, and the earliest arrival in seconds.
#[derive(Debug)]
pub struct TripTimetable {
    pub times: Vec<(String, String)>,
    pub first_time: Option<u32>,
    /// Positions of the visits left out for want of an arrival time.
    pub missing_arrivals: Vec<usize>,
}

/// The entry of a visit: its stop and formatted arrival, if it has one.
pub open spec fn visit_entry(st: StopTime) -> Option<(Seq<char>, Seq<char>)> {
    match st.arrival {
        Some(a) => Some((st.stop_id@, time_text(a as nat))),
        None => None,
    }
}

/// The least arrival among the visits, if any has one.
pub open spec fn earliest_arrival(sts: Seq<StopTime>) -> Option<u32>
    decreases sts.len(),
{
    if sts.len() == 0 {
        None
    } else {
        let rest = earliest_arrival(sts.drop_last());
        match sts.last().arrival {
            None => rest,
            Some(b) => match rest {
                None => Some(b),
                Some(a) => Some(
                    if b < a {
                        b
                    } else {
                        a
                    },
                ),
            },
        }
    }
}

/// The views of (stop id, time) pairs.
pub open spec fn entries(v: Seq<(String, String)>) -> Seq<(Seq<char>, Seq<char>)> {
    v.map_values(|p: (String, String)| (p.0@, p.1@))
}

/// `m` lists, in increasing order, the positions below `n` of the visits
/// without an arrival.
pub open spec fn lists_missing(sts: Seq<StopTime>, n: int, m: Seq<usize>) -> bool {
    &&& forall|a: int, b: int| 0 <= a < b < m.len() ==> m[a] < m[b]
    &&& forall|a: int| 0 <= a < m.len() ==> #[trigger] m[a] < n && sts[m[a] as int].arrival is None
    &&& forall|j: int|
        0 <= j < n && (#[trigger] sts[j]).arrival is None ==> exists|a: int|
            0 <= a < m.len() && m[a] == j
}

/// `tt` is the timetable of trip `t`.
pub open spec fn is_trip_timetable(t: Trip, tt: TripTimetable) -> bool {
    &&& entries(tt.times@) == t.stop_times@.filter_map(|st: StopTime| visit_entry(st))
    &&& tt.first_time == earliest_arrival(t.stop_times@)
    &&& lists_missing(t.stop_times@, t.stop_times@.len() as int, tt.missing_arrivals@)
}

/// Formats the arrivals of a trip and finds its earliest one; visits
/// without an arrival are left out, and their positions reported.
pub fn trip_timetable(trip: &Trip) -> (r: TripTimetable)
    ensures
        is_trip_timetable(*trip, r),
{
    let sts = &trip.stop_times;
    let mut times: Vec<(String, String)> = Vec::new();
    let mut first: Option<u32> = None;
    let mut missing: Vec<usize> = Vec::new();
    let mut j: usize = 0;
    while j < sts.len()
        invariant
            j <= sts.len(),
            lists_missing(sts@, j as int, missing@),
            entries(times@) == sts@.take(j as int).filter_map(|st: StopTime| visit_entry(st)),
            first == earliest_arrival(sts@.take(j as int)),
        decreases sts.len() - j,
    {
        proof {
            sts@.lemma_filter_map_take_succ(|st: StopTime| visit_entry(st), j as int);
            assert(sts@.take(j + 1).drop_last() =~= sts@.take(j as int));
        }
        let ghost old_missing = missing@;
        match sts[j].arrival {
            Some(a) => {
                let ghost before = times@;
                times.push((sts[j].stop_id.clone(), format_time(a)));
                assert(entries(times@) =~= entries(before) + seq![(sts@[j as int].stop_id@, time_text(a as nat))]);
                first = match first {
                    None => Some(a),
                    Some(b) => Some(
                        if a < b {
                            a
                        } else {
                            b
                        },
                    ),
                };
            },
            None => {
                missing.push(j);
            },
        }
        proof {
            assert forall|a: int| 0 <= a < old_missing.len() implies #[trigger] missing@[a]
                == old_missing[a] by {}
            assert forall|x: int|
                0 <= x < j + 1 && (#[trigger] sts@[x]).arrival is None implies exists|a: int|
                0 <= a < missing@.len() && missing@[a] == x by {
                if x < j {
                    let a = choose|a: int| 0 <= a < old_missing.len() && old_missing[a] == x;
                    assert(missing@[a] == x);
                } else {
                    assert(missing@[old_missing.len() as int] == x);
                }
            }
        }
        j += 1;
    }
    assert(sts@.take(j as int) =~= sts@);
    TripTimetable { times, first_time: first, missing_arrivals: missing }
}

} // verus!

verus! {

/// A problem in the feed that skips one trip and nothing more.
#[derive(Debug)]
pub enum Warning {
    /// A service lists a trip id that the trip table does not hold.
    MissingTrip { service_id: String, trip_id: String },
}

/// No two entries of the service-to-trips index share a service id.
pub open spec fn service_keys_unique(sidx: Seq<(String, Vec<String>)>) -> bool {
    forall|k: int, m: int| 0 <= k < m < sidx.len() ==> sidx[k].0@ != sidx[m].0@
}

/// No two entries of the date-to-services table share a date.
pub open spec fn date_keys_unique(cal: CalendarIndex) -> bool {
    forall|k: int, m: int|
        0 <= k < m < cal.date_services@.len() ==> cal.date_services@[k].0
            != cal.date_services@[m].0
}

/// Service `sid` is listed on date `d`, and lists trip id `tid`.
pub open spec fn active_on(
    cal: CalendarIndex,
    sidx: Seq<(String, Vec<String>)>,
    d: Date,
    sid: Seq<char>,
    tid: Seq<char>,
) -> bool {
    &&& exists|m: int|
        0 <= m < cal.date_services@.len() && #[trigger] cal.date_services@[m].0 == d && texts(
            cal.date_services@[m].1@,
        ).contains(sid)
    &&& exists|k: int|
        0 <= k < sidx.len() && #[trigger] sidx[k].0@ == sid && texts(sidx[k].1@).contains(tid)
}

/// The service and trip ids that a warning names.
pub open spec fn warning_ids(w: Warning) -> (Seq<char>, Seq<char>) {
    match w {
        Warning::MissingTrip { service_id, trip_id } => (service_id@, trip_id@),
    }
}

/// Some warning of `ws` names service `sid` and trip id `tid`.
pub open spec fn warned(ws: Seq<Warning>, sid: Seq<char>, tid: Seq<char>) -> bool {
    exists|w: int| 0 <= w < ws.len() && #[trigger] warning_ids(ws[w]) == (sid, tid)
}

/// A warning for every listed trip id of date `d` that the table lacks.
pub open spec fn warns_all_missing(
    cal: CalendarIndex,
    sidx: Seq<(String, Vec<String>)>,
    trips: Seq<Trip>,
    d: Date,
    ws: Seq<Warning>,
) -> bool {
    forall|sid: Seq<char>, tid: Seq<char>|
        #[trigger] active_on(cal, sidx, d, sid, tid) && !has_trip_id(trips, tid) ==> warned(
            ws,
            sid,
            tid,
        )
}

/// Some trip of the table has id `tid`.
pub open spec fn has_trip_id(trips: Seq<Trip>, tid: Seq<char>) -> bool {
    exists|i: int| 0 <= i < trips.len() && #[trigger] trips[i].id@ == tid
}

/// `sel` holds the positions of the trips running on date `d`: each is the
/// first trip of the table with an id that a service of that date lists,
/// and every such id of the table is there.
pub open spec fn is_active_selection(
    cal: CalendarIndex,
    sidx: Seq<(String, Vec<String>)>,
    trips: Seq<Trip>,
    d: Date,
    sel: Seq<usize>,
) -> bool {
    &&& sel.no_duplicates()
    &&& forall|q: int|
        #![trigger sel[q]]
        0 <= q < sel.len() ==> {
            &&& sel[q] < trips.len()
            &&& exists|sid: Seq<char>| #[trigger]
                active_on(cal, sidx, d, sid, trips[sel[q] as int].id@)
            &&& forall|j: int| 0 <= j < sel[q] ==> (#[trigger] trips[j]).id@ != trips[sel[q] as int].id@
        }
    &&& forall|sid: Seq<char>, tid: Seq<char>|
        #[trigger] active_on(cal, sidx, d, sid, tid) && has_trip_id(trips, tid) ==> exists|q: int|
            0 <= q < sel.len() && trips[#[trigger] sel[q] as int].id@ == tid
}

fn contains_index(v: &Vec<usize>, x: usize) -> (r: bool)
    ensures
        r == v@.contains(x),
{
    let mut i: usize = 0;
    while i < v.len()
        invariant
            i <= v.len(),
            forall|k: int| 0 <= k < i ==> v@[k] != x,
        decreases v.len() - i,
    {
        if v[i] == x {
            return true;
        }
        i += 1;
    }
    false
}

/// Position of the first trip with id `tid`.
pub fn find_trip(trips: &Vec<Trip>, tid: &String) -> (r: Option<usize>)
    ensures
        r matches Some(i) ==> i < trips@.len() && trips@[i as int].id@ == tid@ && forall|j: int|
            0 <= j < i ==> trips@[j].id@ != tid@,
        r is None ==> !has_trip_id(trips@, tid@),
{
    let mut i: usize = 0;
    while i < trips.len()
        invariant
            i <= trips.len(),
            forall|j: int| 0 <= j < i ==> trips@[j].id@ != tid@,
        decreases trips.len() - i,
    {
        if trips[i].id == *tid {
            return Some(i);
        }
        i += 1;
    }
    None
}

fn find_date(cal: &CalendarIndex, d: Date) -> (r: Option<usize>)
    ensures
        r matches Some(m) ==> m < cal.date_services@.len() && cal.date_services@[m as int].0 == d,
        r is None ==> forall|m: int|
            0 <= m < cal.date_services@.len() ==> #[trigger] cal.date_services@[m].0 != d,
{
    let mut i: usize = 0;
    while i < cal.date_services.len()
        invariant
            i <= cal.date_services@.len(),
            forall|m: int| 0 <= m < i ==> #[trigger] cal.date_services@[m].0 != d,
        decreases cal.date_services@.len() - i,
    {
        if cal.date_services[i].0 == d {
            return Some(i);
        }
        i += 1;
    }
    None
}

/// The trips running on date `d`, by position in the trip table, and a
/// warning for each listed trip id that the table lacks.
pub fn active_trips(
    cal: &CalendarIndex,
    sidx: &Vec<(String, Vec<String>)>,
    trips: &Vec<Trip>,
    d: Date,
) -> (r: (Vec<usize>, Vec<Warning>))
    requires
        date_keys_unique(*cal),
        service_keys_unique(sidx@),
    ensures
        is_active_selection(*cal, sidx@, trips@, d, r.0@),
        warns_all_missing(*cal, sidx@, trips@, d, r.1@),
        forall|w: int|
            0 <= w < r.1@.len() ==> match #[trigger] r.1@[w] {
                Warning::MissingTrip { service_id, trip_id } => active_on(
                    *cal,
                    sidx@,
                    d,
                    service_id@,
                    trip_id@,
                ) && !has_trip_id(trips@, trip_id@),
            },
{
    let mut sel: Vec<usize> = Vec::new();
    let mut warnings: Vec<Warning> = Vec::new();
    let m = match find_date(cal, d) {
        Some(m) => m,
        None => {
            proof {
                assert forall|sid: Seq<char>, tid: Seq<char>|
                    #[trigger] active_on(*cal, sidx@, d, sid, tid) implies false by {
                    let m2 = choose|m2: int|
                        0 <= m2 < cal.date_services@.len() && #[trigger] cal.date_services@[m2].0 == d
                            && texts(cal.date_services@[m2].1@).contains(sid);
                }
            }
            return (sel, warnings);
        },
    };
    let sids = &cal.date_services[m].1;
    let mut a: usize = 0;
    while a < sids.len()
        invariant
            date_keys_unique(*cal),
            service_keys_unique(sidx@),
            m < cal.date_services@.len(),
            cal.date_services@[m as int].0 == d,
            sids == cal.date_services@[m as int].1,
            a <= sids@.len(),
            sel@.no_duplicates(),
            forall|sid: Seq<char>, tid: Seq<char>|
                #[trigger] active_on(*cal, sidx@, d, sid, tid) && !has_trip_id(trips@, tid)
                    && texts(sids@.take(a as int)).contains(sid) ==> warned(warnings@, sid, tid),
            forall|q: int|
                #![trigger sel@[q]]
                0 <= q < sel@.len() ==> {
                    &&& sel@[q] < trips@.len()
                    &&& exists|sid: Seq<char>| #[trigger]
                        active_on(*cal, sidx@, d, sid, trips@[sel@[q] as int].id@)
                    &&& forall|j: int|
                        0 <= j < sel@[q] ==> (#[trigger] trips@[j]).id@ != trips@[sel@[q] as int].id@
                },
            forall|w: int|
                0 <= w < warnings@.len() ==> match #[trigger] warnings@[w] {
                    Warning::MissingTrip { service_id, trip_id } => active_on(
                        *cal,
                        sidx@,
                        d,
                        service_id@,
                        trip_id@,
                    ) && !has_trip_id(trips@, trip_id@),
                },
            forall|sid: Seq<char>, tid: Seq<char>|
                #[trigger] active_on(*cal, sidx@, d, sid, tid) && has_trip_id(trips@, tid)
                    && texts(sids@.take(a as int)).contains(sid) ==> exists|q: int|
                    0 <= q < sel@.len() && trips@[#[trigger] sel@[q] as int].id@ == tid,
        decreases sids@.len() - a,
    {
        let sid = &sids[a];
        assert(texts(sids@)[a as int] == sid@);
        match find_service_trips(sidx, sid) {
            Some(k) => {
                let ids = &sidx[k].1;
                let mut b: usize = 0;
                while b < ids.len()
                    invariant
                        service_keys_unique(sidx@),
                        m < cal.date_services@.len(),
                        cal.date_services@[m as int].0 == d,
                        sids == cal.date_services@[m as int].1,
                        a < sids@.len(),
                        sid == sids@[a as int],
                        texts(sids@)[a as int] == sid@,
                        k < sidx@.len(),
                        sidx@[k as int].0@ == sid@,
                        ids == sidx@[k as int].1,
                        b <= ids@.len(),
                        sel@.no_duplicates(),
                        forall|sid: Seq<char>, tid: Seq<char>|
                            #[trigger] active_on(*cal, sidx@, d, sid, tid) && !has_trip_id(trips@, tid)
                                && texts(sids@.take(a as int)).contains(sid) ==> warned(
                                warnings@,
                                sid,
                                tid,
                            ),
                        forall|tid: Seq<char>|
                            !has_trip_id(trips@, tid) && #[trigger] texts(ids@.take(b as int)).contains(
                                tid,
                            ) ==> warned(warnings@, sid@, tid),
                        forall|q: int|
                            #![trigger sel@[q]]
                            0 <= q < sel@.len() ==> {
                                &&& sel@[q] < trips@.len()
                                &&& exists|sid: Seq<char>| #[trigger]
                                    active_on(*cal, sidx@, d, sid, trips@[sel@[q] as int].id@)
                                &&& forall|j: int|
                                    0 <= j < sel@[q] ==> (#[trigger] trips@[j]).id@ != trips@[sel@[q] as int].id@
                            },
                        forall|w: int|
                            0 <= w < warnings@.len() ==> match #[trigger] warnings@[w] {
                                Warning::MissingTrip { service_id, trip_id } => active_on(
                                    *cal,
                                    sidx@,
                                    d,
                                    service_id@,
                                    trip_id@,
                                ) && !has_trip_id(trips@, trip_id@),
                            },
                        forall|sid: Seq<char>, tid: Seq<char>|
                            #[trigger] active_on(*cal, sidx@, d, sid, tid) && has_trip_id(trips@, tid)
                                && texts(sids@.take(a as int)).contains(sid) ==> exists|q: int|
                                0 <= q < sel@.len() && trips@[#[trigger] sel@[q] as int].id@ == tid,
                        forall|tid: Seq<char>|
                            has_trip_id(trips@, tid) && #[trigger] texts(ids@.take(b as int)).contains(
                                tid,
                            ) ==> exists|q: int|
                                0 <= q < sel@.len() && trips@[#[trigger] sel@[q] as int].id@ == tid,
                    decreases ids@.len() - b,
                {
                    let tid = &ids[b];
                    proof {
                        assert(texts(ids@)[b as int] == tid@);
                        assert(texts(sids@).contains(sid@));
                        assert(texts(ids@).contains(tid@));
                        assert(active_on(*cal, sidx@, d, sid@, tid@));
                        assert(texts(ids@.take(b + 1)) =~= texts(ids@.take(b as int)).push(tid@));
                    }
                    let ghost old_sel = sel@;
                    match find_trip(trips, tid) {
                        Some(i) => {
                            if contains_index(&sel, i) {
                                proof {
                                    assert forall|tid2: Seq<char>|
                                        has_trip_id(trips@, tid2) && #[trigger] texts(ids@.take(b + 1)).contains(
                                            tid2,
                                        ) implies exists|q: int|
                                            0 <= q < sel@.len() && trips@[#[trigger] sel@[q] as int].id@ == tid2 by {
                                        if tid2 == tid@ {
                                            let q = choose|q: int| 0 <= q < sel@.len() && sel@[q] == i;
                                            assert(trips@[sel@[q] as int].id@ == tid2);
                                        } else {
                                            assert(texts(ids@.take(b as int)).contains(tid2));
                                        }
                                    }
                                }
                            } else {
                                sel.push(i);
                                proof {
                                    assert(sel@ == old_sel.push(i));
                                    assert(sel@.no_duplicates()) by {
                                        assert forall|x: int, y: int| 0 <= x < y < sel@.len() implies sel@[x] != sel@[y] by {
                                            if y == old_sel.len() {
                                                assert(old_sel[x] == sel@[x]);
                                            }
                                        }
                                    }
                                }
                                proof {
                                    assert(sel@[old_sel.len() as int] == i);
                                    assert forall|q: int|
                                        #![trigger sel@[q]]
                                        0 <= q < sel@.len() implies {
                                            &&& sel@[q] < trips@.len()
                                            &&& exists|sid: Seq<char>| #[trigger]
                                                active_on(*cal, sidx@, d, sid, trips@[sel@[q] as int].id@)
                                            &&& forall|j: int|
                                                0 <= j < sel@[q] ==> (#[trigger] trips@[j]).id@
                                                    != trips@[sel@[q] as int].id@
                                        } by {
                                        if q < old_sel.len() {
                                            assert(sel@[q] == old_sel[q]);
                                        } else {
                                            assert(active_on(*cal, sidx@, d, sid@, trips@[sel@[q] as int].id@));
                                        }
                                    }
                                    assert forall|sid2: Seq<char>, tid2: Seq<char>|
                                        #[trigger] active_on(*cal, sidx@, d, sid2, tid2) && has_trip_id(trips@, tid2)
                                            && texts(sids@.take(a as int)).contains(sid2) implies exists|q: int|
                                            0 <= q < sel@.len() && trips@[#[trigger] sel@[q] as int].id@ == tid2 by {
                                        let q = choose|q: int|
                                            0 <= q < old_sel.len() && trips@[#[trigger] old_sel[q] as int].id@ == tid2;
                                        assert(sel@[q] == old_sel[q]);
                                    }
                                    assert forall|tid2: Seq<char>|
                                        has_trip_id(trips@, tid2) && #[trigger] texts(ids@.take(b + 1)).contains(
                                            tid2,
                                        ) implies exists|q: int|
                                            0 <= q < sel@.len() && trips@[#[trigger] sel@[q] as int].id@ == tid2 by {
                                        if tid2 == tid@ {
                                            assert(trips@[sel@[old_sel.len() as int] as int].id@ == tid2);
                                        } else {
                                            assert(texts(ids@.take(b as int)).contains(tid2));
                                            let q = choose|q: int|
                                                0 <= q < old_sel.len() && trips@[#[trigger] old_sel[q] as int].id@ == tid2;
                                            assert(sel@[q] == old_sel[q]);
                                        }
                                    }
                                }
                            }
                            proof {
                                assert(has_trip_id(trips@, tid@));
                                assert forall|tid2: Seq<char>|
                                    !has_trip_id(trips@, tid2) && #[trigger] texts(ids@.take(b + 1)).contains(
                                        tid2,
                                    ) implies warned(warnings@, sid@, tid2) by {
                                    assert(texts(ids@.take(b as int)).contains(tid2));
                                }
                            }
                        },
                        None => {
                            let ghost old_w = warnings@;
                            warnings.push(Warning::MissingTrip { service_id: sid.clone(), trip_id: tid.clone() });
                            proof {
                                assert forall|w: int| 0 <= w < warnings@.len() implies match #[trigger] warnings@[w] {
                                    Warning::MissingTrip { service_id, trip_id } => active_on(
                                        *cal,
                                        sidx@,
                                        d,
                                        service_id@,
                                        trip_id@,
                                    ) && !has_trip_id(trips@, trip_id@),
                                } by {
                                    if w < old_w.len() {
                                        assert(warnings@[w] == old_w[w]);
                                    }
                                }
                                assert forall|tid2: Seq<char>|
                                    has_trip_id(trips@, tid2) && #[trigger] texts(ids@.take(b + 1)).contains(
                                        tid2,
                                    ) implies exists|q: int|
                                        0 <= q < sel@.len() && trips@[#[trigger] sel@[q] as int].id@ == tid2 by {
                                    assert(tid2 != tid@);
                                    assert(texts(ids@.take(b as int)).contains(tid2));
                                }
                                let last = old_w.len() as int;
                                assert(warning_ids(warnings@[last]) == (sid@, tid@));
                                assert forall|sid2: Seq<char>, tid2: Seq<char>| warned(old_w, sid2, tid2) implies warned(
                                    warnings@,
                                    sid2,
                                    tid2,
                                ) by {
                                    let w = choose|w: int| 0 <= w < old_w.len() && #[trigger] warning_ids(old_w[w]) == (sid2, tid2);
                                    assert(warnings@[w] == old_w[w]);
                                }
                                assert forall|tid2: Seq<char>|
                                    !has_trip_id(trips@, tid2) && #[trigger] texts(ids@.take(b + 1)).contains(
                                        tid2,
                                    ) implies warned(warnings@, sid@, tid2) by {
                                    if tid2 != tid@ {
                                        assert(texts(ids@.take(b as int)).contains(tid2));
                                    }
                                }
                            }
                        },
                    }
                    b += 1;
                }
                proof {
                    assert(ids@.take(b as int) =~= ids@);
                    assert(texts(sids@.take(a + 1)) =~= texts(sids@.take(a as int)).push(sid@));
                    assert forall|sid2: Seq<char>, tid2: Seq<char>|
                        #[trigger] active_on(*cal, sidx@, d, sid2, tid2) && has_trip_id(trips@, tid2)
                            && texts(sids@.take(a + 1)).contains(sid2) implies exists|q: int|
                            0 <= q < sel@.len() && trips@[#[trigger] sel@[q] as int].id@ == tid2 by {
                        if sid2 == sid@ {
                            let k2 = choose|k2: int|
                                0 <= k2 < sidx@.len() && #[trigger] sidx@[k2].0@ == sid2 && texts(sidx@[k2].1@).contains(tid2);
                            assert(k2 == k as int) by {
                                if k2 < k {
                                    assert(sidx@[k2].0@ != sidx@[k as int].0@);
                                } else if k2 > k {
                                    assert(sidx@[k as int].0@ != sidx@[k2].0@);
                                }
                            }
                            assert(texts(ids@.take(b as int)).contains(tid2));
                        } else {
                            assert(texts(sids@.take(a as int)).contains(sid2));
                        }
                    }
                    assert forall|sid2: Seq<char>, tid2: Seq<char>|
                        #[trigger] active_on(*cal, sidx@, d, sid2, tid2) && !has_trip_id(trips@, tid2)
                            && texts(sids@.take(a + 1)).contains(sid2) implies warned(warnings@, sid2, tid2) by {
                        if sid2 == sid@ {
                            let k2 = choose|k2: int|
                                0 <= k2 < sidx@.len() && #[trigger] sidx@[k2].0@ == sid2 && texts(sidx@[k2].1@).contains(tid2);
                            assert(k2 == k as int) by {
                                if k2 < k {
                                    assert(sidx@[k2].0@ != sidx@[k as int].0@);
                                } else if k2 > k {
                                    assert(sidx@[k as int].0@ != sidx@[k2].0@);
                                }
                            }
                            assert(texts(ids@.take(b as int)).contains(tid2));
                        } else {
                            assert(texts(sids@.take(a as int)).contains(sid2));
                        }
                    }
                }
            },
            None => {
                proof {
                    assert(texts(sids@.take(a + 1)) =~= texts(sids@.take(a as int)).push(sid@));
                    assert forall|sid2: Seq<char>, tid2: Seq<char>|
                        #[trigger] active_on(*cal, sidx@, d, sid2, tid2) && has_trip_id(trips@, tid2)
                            && texts(sids@.take(a + 1)).contains(sid2) implies exists|q: int|
                            0 <= q < sel@.len() && trips@[#[trigger] sel@[q] as int].id@ == tid2 by {
                        if sid2 != sid@ {
                            assert(texts(sids@.take(a as int)).contains(sid2));
                        } else {
                            let k2 = choose|k2: int|
                                0 <= k2 < sidx@.len() && #[trigger] sidx@[k2].0@ == sid2 && texts(sidx@[k2].1@).contains(tid2);
                            assert(sidx@[k2].0@ != sid@);
                        }
                    }
                    assert forall|sid2: Seq<char>, tid2: Seq<char>|
                        #[trigger] active_on(*cal, sidx@, d, sid2, tid2) && !has_trip_id(trips@, tid2)
                            && texts(sids@.take(a + 1)).contains(sid2) implies warned(warnings@, sid2, tid2) by {
                        if sid2 != sid@ {
                            assert(texts(sids@.take(a as int)).contains(sid2));
                        } else {
                            let k2 = choose|k2: int|
                                0 <= k2 < sidx@.len() && #[trigger] sidx@[k2].0@ == sid2 && texts(sidx@[k2].1@).contains(tid2);
                            assert(sidx@[k2].0@ != sid@);
                        }
                    }
                }
            },
        }
        a += 1;
    }
    proof {
        assert(sids@.take(a as int) =~= sids@);
        assert forall|sid: Seq<char>, tid: Seq<char>|
            #[trigger] active_on(*cal, sidx@, d, sid, tid) && has_trip_id(trips@, tid) implies exists|q: int|
                0 <= q < sel@.len() && trips@[#[trigger] sel@[q] as int].id@ == tid by {
            let m2 = choose|m2: int|
                0 <= m2 < cal.date_services@.len() && #[trigger] cal.date_services@[m2].0 == d && texts(
                    cal.date_services@[m2].1@,
                ).contains(sid);
            assert(m2 == m as int) by {
                if m2 < m {
                    assert(cal.date_services@[m2].0 != cal.date_services@[m as int].0);
                } else if m2 > m {
                    assert(cal.date_services@[m as int].0 != cal.date_services@[m2].0);
                }
            }
            assert(texts(sids@.take(a as int)).contains(sid));
        }
        assert forall|sid: Seq<char>, tid: Seq<char>|
            #[trigger] active_on(*cal, sidx@, d, sid, tid) && !has_trip_id(trips@, tid) implies warned(
            warnings@,
            sid,
            tid,
        ) by {
            let m2 = choose|m2: int|
                0 <= m2 < cal.date_services@.len() && #[trigger] cal.date_services@[m2].0 == d && texts(
                    cal.date_services@[m2].1@,
                ).contains(sid);
            assert(m2 == m as int) by {
                if m2 < m {
                    assert(cal.date_services@[m2].0 != cal.date_services@[m as int].0);
                } else if m2 > m {
                    assert(cal.date_services@[m as int].0 != cal.date_services@[m2].0);
                }
            }
            assert(texts(sids@.take(a as int)).contains(sid));
        }
    }
    (sel, warnings)
}

} // verus!

verus! {

/// The timetables of one route on one date, by direction, with the route's
/// stop orders where one could be computed.
#[derive(Debug)]
pub struct RouteTimetable {
    pub route_id: String,
    pub inbound: Vec<TripTimetable>,
    pub outbound: Vec<TripTimetable>,
    /// Trips whose direction the feed does not give.
    pub unknown: Vec<TripTimetable>,
    pub inbound_order: Option<Vec<String>>,
    pub outbound_order: Option<Vec<String>>,
    /// False where a cycle left the inbound order partial.
    pub inbound_order_total: bool,
    /// False where a cycle left the outbound order partial.
    pub outbound_order_total: bool,
}

/// The trips at the positions `sel`.
pub open spec fn selected_trips(trips: Seq<Trip>, sel: Seq<usize>) -> Seq<Trip> {
    sel.map_values(|i: usize| trips[i as int])
}

/// The trip runs on `route` in direction `dir`.
pub open spec fn on_route(route: Seq<char>, dir: Direction) -> spec_fn(Trip) -> bool {
    |t: Trip| selects(t, route, dir)
}

/// `b` holds the timetables of the trips of `ts` on `route` in direction
/// `dir`, in the order of `ts`.
pub open spec fn is_bucket(ts: Seq<Trip>, route: Seq<char>, dir: Direction, b: Seq<TripTimetable>) -> bool {
    let f = ts.filter(on_route(route, dir));
    &&& b.len() == f.len()
    &&& forall|p: int| 0 <= p < b.len() ==> is_trip_timetable(f[p], #[trigger] b[p])
}

/// `rt` is the timetable of its route over the trips at `sel`, with the
/// first stop-order entry of that route, if any.
pub open spec fn is_route_timetable(
    trips: Seq<Trip>,
    sel: Seq<usize>,
    orders: Seq<(String, RouteStopOrder)>,
    rt: RouteTimetable,
) -> bool {
    let ts = selected_trips(trips, sel);
    let route = rt.route_id@;
    &&& is_bucket(ts, route, Direction::Outbound, rt.outbound@)
    &&& is_bucket(ts, route, Direction::Inbound, rt.inbound@)
    &&& is_bucket(ts, route, Direction::Unknown, rt.unknown@)
    &&& !has_order_entry(orders, route) ==> rt.outbound_order is None && rt.inbound_order is None
    &&& has_order_entry(orders, route) ==> exists|k: int|
        #![trigger orders[k]]
        0 <= k < orders.len() && orders[k].0@ == route && (forall|j: int|
            0 <= j < k ==> (#[trigger] orders[j]).0@ != route) && rt.outbound_order is Some
            && texts(rt.outbound_order->0@) == texts(orders[k].1.outbound@) && rt.inbound_order is Some
            && texts(rt.inbound_order->0@) == texts(orders[k].1.inbound@) && rt.outbound_order_total
            == orders[k].1.outbound_total && rt.inbound_order_total == orders[k].1.inbound_total
}

/// One of the first `n` trips of `ts` runs on route `rid`.
pub open spec fn route_seen(ts: Seq<Trip>, n: int, rid: Seq<char>) -> bool {
    exists|p: int| 0 <= p < n && #[trigger] ts[p].route_id@ == rid
}

/// Some timetable of `recs` is for route `rid`.
pub open spec fn has_record(recs: Seq<RouteTimetable>, rid: Seq<char>) -> bool {
    exists|k: int| 0 <= k < recs.len() && #[trigger] recs[k].route_id@ == rid
}

/// One timetable per route of the trips at `sel`, each route once.
pub open spec fn is_route_grouping(
    trips: Seq<Trip>,
    sel: Seq<usize>,
    orders: Seq<(String, RouteStopOrder)>,
    recs: Seq<RouteTimetable>,
) -> bool {
    let ts = selected_trips(trips, sel);
    &&& forall|k: int, m: int| 0 <= k < m < recs.len() ==> recs[k].route_id@ != recs[m].route_id@
    &&& forall|k: int| 0 <= k < recs.len() ==> route_seen(ts, ts.len() as int, (#[trigger] recs[k]).route_id@)
    &&& forall|q: int| 0 <= q < ts.len() ==> has_record(recs, (#[trigger] ts[q]).route_id@)
    &&& forall|k: int| 0 <= k < recs.len() ==> is_route_timetable(trips, sel, orders, #[trigger] recs[k])
}

/// A copy of a list of strings.
pub fn copy_texts(v: &Vec<String>) -> (r: Vec<String>)
    ensures
        texts(r@) == texts(v@),
{
    let mut r: Vec<String> = Vec::new();
    let mut i: usize = 0;
    while i < v.len()
        invariant
            i <= v.len(),
            r@.len() == i,
            forall|k: int| 0 <= k < i ==> #[trigger] r@[k]@ == v@[k]@,
        decreases v.len() - i,
    {
        r.push(v[i].clone());
        i += 1;
    }
    assert(texts(r@) =~= texts(v@));
    r
}

/// The timetable of route `route_id` over the trips at `sel`.
pub fn route_timetable(
    trips: &Vec<Trip>,
    sel: &Vec<usize>,
    orders: &Vec<(String, RouteStopOrder)>,
    route_id: &String,
) -> (r: RouteTimetable)
    requires
        forall|q: int| 0 <= q < sel@.len() ==> #[trigger] sel@[q] < trips@.len(),
    ensures
        r.route_id@ == route_id@,
        is_route_timetable(trips@, sel@, orders@, r),
{
    let ghost ts = selected_trips(trips@, sel@);
    let ghost route = route_id@;
    let mut outbound: Vec<TripTimetable> = Vec::new();
    let mut inbound: Vec<TripTimetable> = Vec::new();
    let mut unknown: Vec<TripTimetable> = Vec::new();
    let mut q: usize = 0;
    while q < sel.len()
        invariant
            q <= sel@.len(),
            ts == selected_trips(trips@, sel@),
            route == route_id@,
            forall|q: int| 0 <= q < sel@.len() ==> #[trigger] sel@[q] < trips@.len(),
            is_bucket(ts.take(q as int), route, Direction::Outbound, outbound@),
            is_bucket(ts.take(q as int), route, Direction::Inbound, inbound@),
            is_bucket(ts.take(q as int), route, Direction::Unknown, unknown@),
        decreases sel@.len() - q,
    {
        let trip = &trips[sel[q]];
        proof {
            assert(ts[q as int] == *trip);
            assert(ts.take(q + 1) =~= ts.take(q as int).push(*trip));
            ts.take(q as int).lemma_filter_push(*trip, on_route(route, Direction::Outbound));
            ts.take(q as int).lemma_filter_push(*trip, on_route(route, Direction::Inbound));
            ts.take(q as int).lemma_filter_push(*trip, on_route(route, Direction::Unknown));
        }
        if trip.route_id == *route_id {
            let tt = trip_timetable(trip);
            match trip.direction {
                Direction::Outbound => {
                    outbound.push(tt);
                },
                Direction::Inbound => {
                    inbound.push(tt);
                },
                Direction::Unknown => {
                    unknown.push(tt);
                },
            }
        }
        q += 1;
    }
    assert(ts.take(q as int) =~= ts);
    let (outbound_order, inbound_order, outbound_order_total, inbound_order_total) = match find_route_order(orders, route_id) {
        Some(k) => {
            let o = &orders[k].1;
            (Some(copy_texts(&o.outbound)), Some(copy_texts(&o.inbound)), o.outbound_total, o.inbound_total)
        },
        None => (None, None, false, false),
    };
    RouteTimetable {
        route_id: route_id.clone(),
        inbound,
        outbound,
        unknown,
        inbound_order,
        outbound_order,
        inbound_order_total,
        outbound_order_total,
    }
}

} // verus!

verus! {

/// One timetable per route of the trips at `sel`, routes in order of first
/// appearance.
pub fn group_by_route(
    trips: &Vec<Trip>,
    sel: &Vec<usize>,
    orders: &Vec<(String, RouteStopOrder)>,
) -> (r: Vec<RouteTimetable>)
    requires
        forall|q: int| 0 <= q < sel@.len() ==> #[trigger] sel@[q] < trips@.len(),
    ensures
        is_route_grouping(trips@, sel@, orders@, r@),
{
    let ghost ts = selected_trips(trips@, sel@);
    let mut routes: Vec<String> = Vec::new();
    let mut q: usize = 0;
    while q < sel.len()
        invariant
            q <= sel@.len(),
            ts == selected_trips(trips@, sel@),
            forall|q: int| 0 <= q < sel@.len() ==> #[trigger] sel@[q] < trips@.len(),
            texts(routes@).no_duplicates(),
            forall|k: int| 0 <= k < routes@.len() ==> route_seen(ts, q as int, (#[trigger] routes@[k])@),
            forall|p: int| 0 <= p < q ==> texts(routes@).contains((#[trigger] ts[p]).route_id@),
        decreases sel@.len() - q,
    {
        let rid = &trips[sel[q]].route_id;
        assert(ts[q as int].route_id == *rid);
        let ghost before = routes@;
        if !contains_text(&routes, rid) {
            routes.push(rid.clone());
            proof {
                assert(texts(routes@) =~= texts(before).push(rid@));
                assert forall|p: int| 0 <= p < q + 1 implies texts(routes@).contains(
                    (#[trigger] ts[p]).route_id@,
                ) by {
                    if p < q {
                        assert(texts(before).contains(ts[p].route_id@));
                        let k = choose|k: int|
                            0 <= k < texts(before).len() && texts(before)[k] == ts[p].route_id@;
                        assert(texts(routes@)[k] == ts[p].route_id@);
                    } else {
                        assert(texts(routes@)[before.len() as int] == ts[p].route_id@);
                    }
                }
                assert forall|k: int| 0 <= k < routes@.len() implies route_seen(
                    ts,
                    q + 1,
                    (#[trigger] routes@[k])@,
                ) by {
                    if k < before.len() {
                        assert(routes@[k] == before[k]);
                        assert(route_seen(ts, q as int, before[k]@));
                    } else {
                        assert(ts[q as int].route_id@ == routes@[k]@);
                    }
                }
            }
        } else {
            proof {
                assert forall|k: int| 0 <= k < routes@.len() implies route_seen(
                    ts,
                    q + 1,
                    (#[trigger] routes@[k])@,
                ) by {
                    assert(route_seen(ts, q as int, routes@[k]@));
                }
            }
        }
        q += 1;
    }
    let mut recs: Vec<RouteTimetable> = Vec::new();
    let mut n: usize = 0;
    while n < routes.len()
        invariant
            n <= routes@.len(),
            forall|q: int| 0 <= q < sel@.len() ==> #[trigger] sel@[q] < trips@.len(),
            recs@.len() == n,
            forall|m: int| 0 <= m < n ==> (#[trigger] recs@[m]).route_id@ == routes@[m]@,
            forall|m: int|
                0 <= m < n ==> is_route_timetable(trips@, sel@, orders@, #[trigger] recs@[m]),
        decreases routes@.len() - n,
    {
        let rt = route_timetable(trips, sel, orders, &routes[n]);
        recs.push(rt);
        n += 1;
    }
    proof {
        assert forall|a: int, b: int| 0 <= a < b < recs@.len() implies recs@[a].route_id@
            != recs@[b].route_id@ by {
            assert(texts(routes@)[a] == routes@[a]@);
            assert(texts(routes@)[b] == routes@[b]@);
        }
        assert forall|m: int| 0 <= m < recs@.len() implies route_seen(
            ts,
            ts.len() as int,
            (#[trigger] recs@[m]).route_id@,
        ) by {
            assert(route_seen(ts, q as int, routes@[m]@));
        }
        assert forall|p: int| 0 <= p < ts.len() implies has_record(
            recs@,
            (#[trigger] ts[p]).route_id@,
        ) by {
            assert(texts(routes@).contains(ts[p].route_id@));
            let m = choose|m: int| 0 <= m < texts(routes@).len() && texts(routes@)[m] == ts[p].route_id@;
            assert(recs@[m].route_id@ == routes@[m]@);
        }
    }
    recs
}

/// The timetables of date `d`: one per route with a trip running that day,
/// and a warning for each listed trip that the trip table lacks.
pub fn assemble_date(
    d: Date,
    cal: &CalendarIndex,
    sidx: &Vec<(String, Vec<String>)>,
    trips: &Vec<Trip>,
    orders: &Vec<(String, RouteStopOrder)>,
) -> (r: (Vec<RouteTimetable>, Vec<Warning>))
    requires
        date_keys_unique(*cal),
        service_keys_unique(sidx@),
    ensures
        exists|sel: Seq<usize>|
            is_active_selection(*cal, sidx@, trips@, d, sel) && is_route_grouping(
                trips@,
                sel,
                orders@,
                r.0@,
            ),
        warns_all_missing(*cal, sidx@, trips@, d, r.1@),
        forall|w: int|
            0 <= w < r.1@.len() ==> match #[trigger] r.1@[w] {
                Warning::MissingTrip { service_id, trip_id } => active_on(
                    *cal,
                    sidx@,
                    d,
                    service_id@,
                    trip_id@,
                ) && !has_trip_id(trips@, trip_id@),
            },
{
    let (sel, warnings) = active_trips(cal, sidx, trips, d);
    assert(forall|q: int| 0 <= q < sel@.len() ==> #[trigger] sel@[q] < trips@.len());
    let recs = group_by_route(trips, &sel, orders);
    (recs, warnings)
}

/// A trip whose service has no added date runs on no date: no selection of
/// active trips holds it, so no timetable of any date lists it. Trip ids
/// are taken to be unique, as in a feed's trip table.
pub proof fn lemma_trip_without_dates_never_runs(
    services: Seq<String>,
    exc: Seq<CalendarException>,
    cal: CalendarIndex,
    trips: Seq<Trip>,
    sidx: Seq<(String, Vec<String>)>,
    d: Date,
    sel: Seq<usize>,
    i: int,
)
    requires
        is_calendar_index(services, exc, cal),
        is_service_trip_index(trips, sidx),
        forall|a: int, b: int| 0 <= a < b < trips.len() ==> trips[a].id@ != trips[b].id@,
        0 <= i < trips.len(),
        dates_of(exc, trips[i].service_id@) == Set::<Date>::empty(),
        is_active_selection(cal, sidx, trips, d, sel),
    ensures
        forall|q: int| 0 <= q < sel.len() ==> trips[#[trigger] sel[q] as int].id@ != trips[i].id@,
{
    assert forall|q: int| 0 <= q < sel.len() implies trips[#[trigger] sel[q] as int].id@
        != trips[i].id@ by {
        let tid = trips[sel[q] as int].id@;
        if tid == trips[i].id@ {
            let sid = choose|sid: Seq<char>| #[trigger] active_on(cal, sidx, d, sid, tid);
            let k = choose|k: int|
                0 <= k < sidx.len() && #[trigger] sidx[k].0@ == sid && texts(sidx[k].1@).contains(tid);
            let m = choose|m: int|
                0 <= m < cal.date_services@.len() && #[trigger] cal.date_services@[m].0 == d && texts(
                    cal.date_services@[m].1@,
                ).contains(sid);
            assert(texts(sidx[k].1@) == trip_ids_of_service(trips, sid));
            let f = trips.filter(runs_service(sid));
            let g = f.map_values(|t: Trip| t.id@);
            assert(g == trip_ids_of_service(trips, sid));
            assert(g.contains(tid));
            let p = choose|p: int| 0 <= p < g.len() && #[trigger] g[p] == tid;
            assert(f.contains(f[p]));
            trips.lemma_filter_contains_rev(runs_service(sid), f[p]);
            let j = choose|j: int| 0 <= j < trips.len() && trips[j] == f[p];
            assert(trips[j].id@ == tid);
            assert(j == i) by {
                if j < i {
                    assert(trips[j].id@ != trips[i].id@);
                } else if j > i {
                    assert(trips[i].id@ != trips[j].id@);
                }
            }
            trips.lemma_filter_pred(runs_service(sid), p);
            assert(sid == trips[i].service_id@);
            assert(texts(cal.date_services@[m].1@).to_set() == services_on(exc, d));
            assert(texts(cal.date_services@[m].1@).to_set().contains(sid));
            assert(dates_of(exc, sid).contains(d));
        }
    }
}

} // verus!

verus! {

/// Each time in a trip's timetable is the formatted arrival of one of its
/// visits, at that visit's stop, and reads back as that arrival rounded
/// down to the minute.
pub proof fn lemma_trip_times_round_trip(t: Trip, tt: TripTimetable, p: int)
    requires
        is_trip_timetable(t, tt),
        0 <= p < tt.times@.len(),
    ensures
        exists|st: StopTime|
            #[trigger] t.stop_times@.contains(st) && st.arrival is Some && tt.times@[p].0@
                == st.stop_id@ && tt.times@[p].1@ == time_text(st.arrival->0 as nat)
                && parse_time_text(tt.times@[p].1@) == st.arrival->0 - st.arrival->0 % 60,
{
    let f = |st: StopTime| visit_entry(st);
    let e = entries(tt.times@)[p];
    assert(e == (tt.times@[p].0@, tt.times@[p].1@));
    assert(t.stop_times@.filter_map(f).contains(e));
    t.stop_times@.lemma_filter_map_contains(f, e);
    let st = choose|st: StopTime| #[trigger] t.stop_times@.contains(st) && f(st) == Some(e);
    let a = st.arrival->0;
    lemma_time_text_round_trip(a as nat);
}

} // verus!
