//! The trips of each service.

use crate::feed::Trip;
use crate::stop_order::texts;
use vstd::prelude::*;

verus! {

/// The trip runs under service `sid`.
pub open spec fn runs_service(sid: Seq<char>) -> spec_fn(Trip) -> bool {
    |t: Trip| t.service_id@ == sid
}

/// Ids of the trips of service `sid`, in trip-table order.
pub open spec fn trip_ids_of_service(trips: Seq<Trip>, sid: Seq<char>) -> Seq<Seq<char>> {
    trips.filter(runs_service(sid)).map_values(|t: Trip| t.id@)
}

/// Some trip runs under service `sid`.
pub open spec fn trips_name_service(trips: Seq<Trip>, sid: Seq<char>) -> bool {
    exists|i: int| 0 <= i < trips.len() && #[trigger] trips[i].service_id@ == sid
}

/// One entry per service that a trip names, holding the ids of its trips:
/// every trip sits under its own service, once.
pub open spec fn is_service_trip_index(trips: Seq<Trip>, idx: Seq<(String, Vec<String>)>) -> bool {
    &&& forall|k: int, m: int| 0 <= k < m < idx.len() ==> idx[k].0@ != idx[m].0@
    &&& forall|k: int| 0 <= k < idx.len() ==> trips_name_service(trips, (#[trigger] idx[k]).0@)
    &&& forall|sid: Seq<char>|
        trips_name_service(trips, sid) ==> exists|k: int|
            0 <= k < idx.len() && #[trigger] idx[k].0@ == sid
    &&& forall|k: int|
        0 <= k < idx.len() ==> texts((#[trigger] idx[k]).1@) == trip_ids_of_service(
            trips,
            idx[k].0@,
        )
}

fn collect_trip_ids(trips: &Vec<Trip>, sid: &String) -> (r: Vec<String>)
    ensures
        texts(r@) == trip_ids_of_service(trips@, sid@),
{
    let mut r: Vec<String> = Vec::new();
    let mut i: usize = 0;
    while i < trips.len()
        invariant
            i <= trips.len(),
            texts(r@) == trips@.take(i as int).filter(runs_service(sid@)).map_values(
                |t: Trip| t.id@,
            ),
        decreases trips.len() - i,
    {
        proof {
            assert(trips@.take(i + 1) =~= trips@.take(i as int).push(trips@[i as int]));
            trips@.take(i as int).lemma_filter_push(trips@[i as int], runs_service(sid@));
        }
        if trips[i].service_id == *sid {
            let ghost before = r@;
            r.push(trips[i].id.clone());
            proof {
                assert(texts(r@) =~= texts(before).push(trips@[i as int].id@));
                assert(texts(r@) =~= trips@.take(i + 1).filter(runs_service(sid@)).map_values(
                    |t: Trip| t.id@,
                ));
            }
        }
        i += 1;
    }
    assert(trips@.take(i as int) =~= trips@);
    r
}

/// Groups the trip ids of the trip table by service.
pub fn index_trips_by_service(trips: &Vec<Trip>) -> (r: Vec<(String, Vec<String>)>)
    ensures
        is_service_trip_index(trips@, r@),
{
    let mut idx: Vec<(String, Vec<String>)> = Vec::new();
    let mut i: usize = 0;
    while i < trips.len()
        invariant
            i <= trips.len(),
            forall|k: int, m: int| 0 <= k < m < idx@.len() ==> idx@[k].0@ != idx@[m].0@,
            forall|k: int|
                0 <= k < idx@.len() ==> trips_name_service(trips@, (#[trigger] idx@[k]).0@),
            forall|j: int|
                0 <= j < i ==> exists|k: int|
                    0 <= k < idx@.len() && #[trigger] idx@[k].0@ == (
                    #[trigger] trips@[j]).service_id@,
            forall|k: int|
                0 <= k < idx@.len() ==> texts((#[trigger] idx@[k]).1@) == trip_ids_of_service(
                    trips@,
                    idx@[k].0@,
                ),
        decreases trips.len() - i,
    {
        let ghost before = idx@;
        let sid = &trips[i].service_id;
        if find_service_trips(&idx, sid).is_none() {
            let ids = collect_trip_ids(trips, sid);
            idx.push((sid.clone(), ids));
            proof {
                assert(trips_name_service(trips@, trips@[i as int].service_id@));
                assert forall|j: int| 0 <= j < i + 1 implies exists|k: int|
                    0 <= k < idx@.len() && #[trigger] idx@[k].0@ == (
                    #[trigger] trips@[j]).service_id@ by {
                    if j < i {
                        let k = choose|k: int|
                            0 <= k < before.len() && #[trigger] before[k].0@ == trips@[j].service_id@;
                        assert(idx@[k] == before[k]);
                    } else {
                        assert(idx@[before.len() as int].0@ == trips@[j].service_id@);
                    }
                }
            }
        }
        i += 1;
    }
    proof {
        assert forall|sid: Seq<char>| trips_name_service(trips@, sid) implies exists|k: int|
            0 <= k < idx@.len() && #[trigger] idx@[k].0@ == sid by {
            let j = choose|j: int| 0 <= j < trips@.len() && #[trigger] trips@[j].service_id@ == sid;
            assert(exists|k: int|
                0 <= k < idx@.len() && #[trigger] idx@[k].0@ == (#[trigger] trips@[j]).service_id@);
        }
    }
    idx
}

/// Index of the entry of service `sid`.
pub fn find_service_trips(idx: &Vec<(String, Vec<String>)>, sid: &String) -> (r: Option<usize>)
    ensures
        r matches Some(k) ==> k < idx@.len() && idx@[k as int].0@ == sid@,
        r is None ==> forall|k: int| 0 <= k < idx@.len() ==> #[trigger] idx@[k].0@ != sid@,
{
    let mut i: usize = 0;
    while i < idx.len()
        invariant
            i <= idx.len(),
            forall|k: int| 0 <= k < i ==> #[trigger] idx@[k].0@ != sid@,
        decreases idx.len() - i,
    {
        if idx[i].0 == *sid {
            return Some(i);
        }
        i += 1;
    }
    None
}

} // verus!
