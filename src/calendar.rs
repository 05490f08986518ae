//! Expansion of calendar exceptions into the dates each service runs on, and
//! the inverse table from date to services.
//!
//! Only added service is recognised; removed dates suspend a weekly pattern
//! that is not expanded here, so they change nothing.

use crate::feed::{CalendarException, Date, ExceptionType};
use crate::stop_order::texts;
use vstd::prelude::*;

verus! {

/// A feed error that makes the whole calendar untrustworthy.
#[derive(Clone, Copy, Debug, PartialEq, Eq, Structural)]
pub enum FeedError {
    /// The exception at this position holds a date that does not exist.
    InvalidDate { index: usize },
}

/// Service ids to their dates, and dates to their service ids.
#[derive(Debug)]
pub struct CalendarIndex {
    pub service_dates: Vec<(String, Vec<Date>)>,
    pub date_services: Vec<(Date, Vec<String>)>,
}

/// Some exception names service `sid`.
pub open spec fn names_service(exc: Seq<CalendarException>, sid: Seq<char>) -> bool {
    exists|i: int| 0 <= i < exc.len() && #[trigger] exc[i].service_id@ == sid
}

/// Some exception adds service `sid` on date `d`.
pub open spec fn is_added_on(exc: Seq<CalendarException>, sid: Seq<char>, d: Date) -> bool {
    exists|i: int|
        0 <= i < exc.len() && #[trigger] exc[i].service_id@ == sid && exc[i].date == d
            && exc[i].exception_type == ExceptionType::Added
}

/// Some exception adds service on date `d`.
pub open spec fn has_added_service(exc: Seq<CalendarException>, d: Date) -> bool {
    exists|i: int|
        0 <= i < exc.len() && #[trigger] exc[i].date == d && exc[i].exception_type
            == ExceptionType::Added
}

/// The dates added for service `sid`.
pub open spec fn dates_of(exc: Seq<CalendarException>, sid: Seq<char>) -> Set<Date> {
    Set::new(|d: Date| is_added_on(exc, sid, d))
}

/// The services added on date `d`.
pub open spec fn services_on(exc: Seq<CalendarException>, d: Date) -> Set<Seq<char>> {
    Set::new(|sid: Seq<char>| is_added_on(exc, sid, d))
}

/// `a` comes before `b` in the calendar.
pub open spec fn date_before(a: Date, b: Date) -> bool {
    a.year < b.year || (a.year == b.year && (a.month < b.month || (a.month == b.month && a.day
        < b.day)))
}

/// The dates go strictly forward in the calendar.
pub open spec fn strictly_increasing(v: Seq<Date>) -> bool {
    forall|x: int, y: int| 0 <= x < y < v.len() ==> date_before(v[x], v[y])
}

/// The service is listed by the base calendar or named by an exception.
pub open spec fn known_service(services: Seq<String>, exc: Seq<CalendarException>, sid: Seq<char>) -> bool {
    names_service(exc, sid) || exists|q: int| 0 <= q < services.len() && #[trigger] services[q]@ == sid
}

/// Keys unique; each entry holds its service's added dates, in calendar
/// order, once each.
pub open spec fn forward_ok(exc: Seq<CalendarException>, fwd: Seq<(String, Vec<Date>)>) -> bool {
    &&& forall|k: int, m: int| 0 <= k < m < fwd.len() ==> fwd[k].0@ != fwd[m].0@
    &&& forall|k: int|
        0 <= k < fwd.len() ==> strictly_increasing((#[trigger] fwd[k]).1@) && fwd[k].1@.no_duplicates()
            && fwd[k].1@.to_set() == dates_of(exc, fwd[k].0@)
}

/// The forward table has an entry for service `sid`.
pub open spec fn has_entry(fwd: Seq<(String, Vec<Date>)>, sid: Seq<char>) -> bool {
    exists|k: int| 0 <= k < fwd.len() && #[trigger] fwd[k].0@ == sid
}

/// Every exception holds a real date.
pub open spec fn all_dates_valid(exc: Seq<CalendarException>) -> bool {
    forall|i: int| 0 <= i < exc.len() ==> (#[trigger] exc[i]).date.is_valid()
}

/// The forward table has one entry per service listed by the base calendar
/// or named by an exception, with its added dates in calendar order, once
/// each; the inverse table has one entry per date with
/// added service, with the services added on it once each.
pub open spec fn is_calendar_index(
    services: Seq<String>,
    exc: Seq<CalendarException>,
    idx: CalendarIndex,
) -> bool {
    let fwd = idx.service_dates@;
    let inv = idx.date_services@;
    &&& forward_ok(exc, fwd)
    &&& forall|k: int| 0 <= k < fwd.len() ==> known_service(services, exc, (#[trigger] fwd[k]).0@)
    &&& forall|sid: Seq<char>|
        known_service(services, exc, sid) ==> exists|k: int|
            0 <= k < fwd.len() && #[trigger] fwd[k].0@ == sid
    &&& forall|k: int, m: int| 0 <= k < m < inv.len() ==> inv[k].0 != inv[m].0
    &&& forall|k: int| 0 <= k < inv.len() ==> has_added_service(exc, (#[trigger] inv[k]).0)
    &&& forall|d: Date|
        has_added_service(exc, d) ==> exists|k: int| 0 <= k < inv.len() && #[trigger] inv[k].0 == d
    &&& forall|k: int|
        0 <= k < inv.len() ==> texts((#[trigger] inv[k]).1@).no_duplicates() && texts(
            inv[k].1@,
        ).to_set() == services_on(exc, inv[k].0)
}

impl Date {
    /// Whether the date exists, with a year of four digits.
    pub fn check_valid(&self) -> (r: bool)
        ensures
            r == self.is_valid(),
    {
        if self.year < 1 || self.year > 9999 || self.month < 1 || self.month > 12 || self.day < 1 {
            return false;
        }
        let leap = (self.year % 4 == 0 && self.year % 100 != 0) || self.year % 400 == 0;
        let days: u32 = if self.month == 2 {
            if leap {
                29
            } else {
                28
            }
        } else if self.month == 4 || self.month == 6 || self.month == 9 || self.month == 11 {
            30
        } else {
            31
        };
        self.day <= days
    }
}

fn contains_date(v: &Vec<Date>, d: Date) -> (r: bool)
    ensures
        r == v@.contains(d),
{
    let mut i: usize = 0;
    while i < v.len()
        invariant
            i <= v.len(),
            forall|k: int| 0 <= k < i ==> v@[k] != d,
        decreases v.len() - i,
    {
        if v[i] == d {
            return true;
        }
        i += 1;
    }
    false
}

/// Whether one of the strings of `v` equals `s`.
pub fn contains_text(v: &Vec<String>, s: &String) -> (r: bool)
    ensures
        r == texts(v@).contains(s@),
{
    let mut i: usize = 0;
    while i < v.len()
        invariant
            i <= v.len(),
            forall|k: int| 0 <= k < i ==> v@[k]@ != s@,
        decreases v.len() - i,
    {
        if v[i] == *s {
            assert(texts(v@)[i as int] == s@);
            return true;
        }
        i += 1;
    }
    false
}

fn date_lt(a: Date, b: Date) -> (r: bool)
    ensures
        r == date_before(a, b),
{
    a.year < b.year || (a.year == b.year && (a.month < b.month || (a.month == b.month && a.day
        < b.day)))
}

/// The added dates of service `sid`, each once, in calendar order.
fn collect_dates(exc: &Vec<CalendarException>, sid: &String) -> (r: Vec<Date>)
    ensures
        strictly_increasing(r@),
        r@.no_duplicates(),
        r@.to_set() == dates_of(exc@, sid@),
{
    let mut r: Vec<Date> = Vec::new();
    let mut i: usize = 0;
    while i < exc.len()
        invariant
            i <= exc.len(),
            strictly_increasing(r@),
            r@.to_set() == dates_of(exc@.take(i as int), sid@),
        decreases exc.len() - i,
    {
        let ghost before = r@;
        let e = &exc[i];
        proof {
            assert forall|d: Date|
                is_added_on(exc@.take(i + 1), sid@, d) <==> (is_added_on(
                    exc@.take(i as int),
                    sid@,
                    d,
                ) || (e.service_id@ == sid@ && e.date == d && e.exception_type
                    == ExceptionType::Added)) by {
                if is_added_on(exc@.take(i + 1), sid@, d) {
                    let j = choose|j: int|
                        0 <= j < i + 1 && #[trigger] exc@.take(i + 1)[j].service_id@ == sid@
                            && exc@.take(i + 1)[j].date == d && exc@.take(i + 1)[j].exception_type
                            == ExceptionType::Added;
                    if j < i {
                        assert(exc@.take(i as int)[j] == exc@.take(i + 1)[j]);
                    }
                }
                if is_added_on(exc@.take(i as int), sid@, d) {
                    let j = choose|j: int|
                        0 <= j < i && #[trigger] exc@.take(i as int)[j].service_id@ == sid@
                            && exc@.take(i as int)[j].date == d && exc@.take(i as int)[j].exception_type
                            == ExceptionType::Added;
                    assert(exc@.take(i + 1)[j] == exc@.take(i as int)[j]);
                }
                if e.service_id@ == sid@ && e.date == d && e.exception_type == ExceptionType::Added {
                    assert(exc@.take(i + 1)[i as int] == *e);
                }
            }
        }
        if e.service_id == *sid && e.exception_type == ExceptionType::Added {
            let d = e.date;
            let mut p: usize = 0;
            while p < r.len() && date_lt(r[p], d)
                invariant
                    r@ == before,
                    p <= r@.len(),
                    forall|x: int| 0 <= x < p ==> date_before(#[trigger] r@[x], d),
                decreases r@.len() - p,
            {
                p += 1;
            }
            if p < r.len() && r[p] == d {
                assert(r@.to_set() =~= dates_of(exc@.take(i + 1), sid@)) by {
                    assert(r@.to_set().contains(d));
                }
            } else {
                r.insert(p, d);
                proof {
                    assert(r@ == before.insert(p as int, d));
                    assert forall|x: int, y: int| 0 <= x < y < r@.len() implies date_before(
                        r@[x],
                        r@[y],
                    ) by {
                        if y < p {
                        } else if y == p {
                            assert(r@[x] == before[x]);
                        } else if x < p {
                            assert(r@[x] == before[x]);
                            assert(r@[y] == before[y - 1]);
                            assert(!date_before(before[p as int], d));
                            if y - 1 > p {
                                assert(date_before(before[p as int], before[y - 1]));
                            }
                        } else if x == p {
                            assert(r@[y] == before[y - 1]);
                            assert(!date_before(before[p as int], d));
                            if y - 1 > p {
                                assert(date_before(before[p as int], before[y - 1]));
                            }
                        } else {
                            assert(r@[x] == before[x - 1]);
                            assert(r@[y] == before[y - 1]);
                        }
                    }
                    assert forall|x: Date| r@.to_set().contains(x) <==> before.to_set().insert(
                        d,
                    ).contains(x) by {
                        if r@.to_set().contains(x) {
                            let k = choose|k: int| 0 <= k < r@.len() && r@[k] == x;
                            if k < p {
                                assert(before[k] == x);
                            } else if k > p {
                                assert(before[k - 1] == x);
                            }
                        }
                        if before.to_set().contains(x) {
                            let k = choose|k: int| 0 <= k < before.len() && before[k] == x;
                            if k < p {
                                assert(r@[k] == x);
                            } else {
                                assert(r@[k + 1] == x);
                            }
                        }
                        if x == d {
                            assert(r@[p as int] == d);
                        }
                    }
                    assert(r@.to_set() =~= dates_of(exc@.take(i + 1), sid@));
                }
            }
        } else {
            assert(r@.to_set() =~= dates_of(exc@.take(i + 1), sid@));
        }
        i += 1;
    }
    assert(exc@.take(i as int) =~= exc@);
    assert(r@.no_duplicates()) by {
        assert forall|x: int, y: int| 0 <= x < r@.len() && 0 <= y < r@.len() && x != y implies r@[x]
            != r@[y] by {
            if x < y {
                assert(date_before(r@[x], r@[y]));
            } else {
                assert(date_before(r@[y], r@[x]));
            }
        }
    }
    r
}

/// The services added on date `d`, each once, in order of first mention.
fn collect_services(exc: &Vec<CalendarException>, d: Date) -> (r: Vec<String>)
    ensures
        texts(r@).no_duplicates(),
        texts(r@).to_set() == services_on(exc@, d),
{
    let mut r: Vec<String> = Vec::new();
    let mut i: usize = 0;
    while i < exc.len()
        invariant
            i <= exc.len(),
            texts(r@).no_duplicates(),
            texts(r@).to_set() == services_on(exc@.take(i as int), d),
        decreases exc.len() - i,
    {
        let ghost before = texts(r@);
        let e = &exc[i];
        proof {
            assert forall|sid: Seq<char>|
                is_added_on(exc@.take(i + 1), sid, d) <==> (is_added_on(
                    exc@.take(i as int),
                    sid,
                    d,
                ) || (e.service_id@ == sid && e.date == d && e.exception_type
                    == ExceptionType::Added)) by {
                if is_added_on(exc@.take(i + 1), sid, d) {
                    let j = choose|j: int|
                        0 <= j < i + 1 && #[trigger] exc@.take(i + 1)[j].service_id@ == sid
                            && exc@.take(i + 1)[j].date == d && exc@.take(i + 1)[j].exception_type
                            == ExceptionType::Added;
                    if j < i {
                        assert(exc@.take(i as int)[j] == exc@.take(i + 1)[j]);
                    }
                }
                if is_added_on(exc@.take(i as int), sid, d) {
                    let j = choose|j: int|
                        0 <= j < i && #[trigger] exc@.take(i as int)[j].service_id@ == sid
                            && exc@.take(i as int)[j].date == d && exc@.take(i as int)[j].exception_type
                            == ExceptionType::Added;
                    assert(exc@.take(i + 1)[j] == exc@.take(i as int)[j]);
                }
                if e.service_id@ == sid && e.date == d && e.exception_type == ExceptionType::Added {
                    assert(exc@.take(i + 1)[i as int] == *e);
                }
            }
        }
        if e.date == d && e.exception_type == ExceptionType::Added && !contains_text(
            &r,
            &e.service_id,
        ) {
            r.push(e.service_id.clone());
            proof {
                assert(texts(r@) =~= before.push(e.service_id@));
                before.lemma_push_to_set_commute(e.service_id@);
                assert(texts(r@).to_set() =~= services_on(exc@.take(i + 1), d));
            }
        } else {
            assert(texts(r@).to_set() =~= services_on(exc@.take(i + 1), d));
        }
        i += 1;
    }
    assert(exc@.take(i as int) =~= exc@);
    r
}

} // verus!

verus! {

fn has_service_entry(fwd: &Vec<(String, Vec<Date>)>, sid: &String) -> (r: bool)
    ensures
        r == exists|k: int| 0 <= k < fwd@.len() && #[trigger] fwd@[k].0@ == sid@,
{
    let mut i: usize = 0;
    while i < fwd.len()
        invariant
            i <= fwd.len(),
            forall|k: int| 0 <= k < i ==> #[trigger] fwd@[k].0@ != sid@,
        decreases fwd.len() - i,
    {
        if fwd[i].0 == *sid {
            return true;
        }
        i += 1;
    }
    false
}

fn has_date_entry(inv: &Vec<(Date, Vec<String>)>, d: Date) -> (r: bool)
    ensures
        r == exists|k: int| 0 <= k < inv@.len() && #[trigger] inv@[k].0 == d,
{
    let mut i: usize = 0;
    while i < inv.len()
        invariant
            i <= inv.len(),
            forall|k: int| 0 <= k < i ==> #[trigger] inv@[k].0 != d,
        decreases inv.len() - i,
    {
        if inv[i].0 == d {
            return true;
        }
        i += 1;
    }
    false
}

/// Adds an entry for service `sid` unless the table has one.
fn add_service(fwd: &mut Vec<(String, Vec<Date>)>, exc: &Vec<CalendarException>, sid: &String)
    requires
        forward_ok(exc@, old(fwd)@),
    ensures
        forward_ok(exc@, final(fwd)@),
        old(fwd)@.len() <= final(fwd)@.len(),
        forall|k: int| 0 <= k < old(fwd)@.len() ==> #[trigger] final(fwd)@[k] == old(fwd)@[k],
        forall|k: int|
            old(fwd)@.len() <= k < final(fwd)@.len() ==> (#[trigger] final(fwd)@[k]).0@ == sid@,
        exists|k: int| 0 <= k < final(fwd)@.len() && #[trigger] final(fwd)@[k].0@ == sid@,
{
    if !has_service_entry(fwd, sid) {
        let dates = collect_dates(exc, sid);
        fwd.push((sid.clone(), dates));
        assert(fwd@[fwd@.len() - 1].0@ == sid@);
    }
}

/// Builds both calendar tables from the service ids of the base calendar
/// and the exceptions of a feed. The first exception holding a date that
/// does not exist fails the whole expansion.
pub fn expand_calendar(services: &Vec<String>, exc: &Vec<CalendarException>) -> (r: Result<
    CalendarIndex,
    FeedError,
>)
    ensures
        r is Ok <==> all_dates_valid(exc@),
        r matches Err(FeedError::InvalidDate { index }) ==> {
            &&& index < exc@.len()
            &&& !exc@[index as int].date.is_valid()
            &&& forall|k: int| 0 <= k < index ==> (#[trigger] exc@[k]).date.is_valid()
        },
        r matches Ok(idx) ==> is_calendar_index(services@, exc@, idx),
{
    let mut i: usize = 0;
    while i < exc.len()
        invariant
            i <= exc.len(),
            forall|k: int| 0 <= k < i ==> (#[trigger] exc@[k]).date.is_valid(),
        decreases exc.len() - i,
    {
        if !exc[i].date.check_valid() {
            return Err(FeedError::InvalidDate { index: i });
        }
        i += 1;
    }
    let mut fwd: Vec<(String, Vec<Date>)> = Vec::new();
    let mut i: usize = 0;
    while i < services.len()
        invariant
            i <= services.len(),
            forward_ok(exc@, fwd@),
            forall|k: int|
                0 <= k < fwd@.len() ==> known_service(services@, exc@, (#[trigger] fwd@[k]).0@),
            forall|j: int|
                0 <= j < i ==> has_entry(fwd@, (#[trigger] services@[j])@),
        decreases services.len() - i,
    {
        let ghost before = fwd@;
        add_service(&mut fwd, exc, &services[i]);
        proof {
            assert forall|k: int| 0 <= k < fwd@.len() implies known_service(
                services@,
                exc@,
                (#[trigger] fwd@[k]).0@,
            ) by {
                if k < before.len() {
                    assert(fwd@[k] == before[k]);
                } else {
                    assert(fwd@[k].0@ == services@[i as int]@);
                }
            }
            assert forall|j: int| 0 <= j < i + 1 implies has_entry(fwd@, (#[trigger] services@[j])@) by {
                if j < i {
                    let k = choose|k: int|
                        0 <= k < before.len() && #[trigger] before[k].0@ == services@[j]@;
                    assert(fwd@[k] == before[k]);
                }
            }
        }
        i += 1;
    }
    let mut i: usize = 0;
    while i < exc.len()
        invariant
            i <= exc.len(),
            forward_ok(exc@, fwd@),
            forall|k: int|
                0 <= k < fwd@.len() ==> known_service(services@, exc@, (#[trigger] fwd@[k]).0@),
            forall|j: int|
                0 <= j < services@.len() ==> has_entry(fwd@, (#[trigger] services@[j])@),
            forall|j: int|
                0 <= j < i ==> has_entry(fwd@, (#[trigger] exc@[j]).service_id@),
        decreases exc.len() - i,
    {
        let ghost before = fwd@;
        add_service(&mut fwd, exc, &exc[i].service_id);
        proof {
            assert(names_service(exc@, exc@[i as int].service_id@));
            assert forall|k: int| 0 <= k < fwd@.len() implies known_service(
                services@,
                exc@,
                (#[trigger] fwd@[k]).0@,
            ) by {
                if k < before.len() {
                    assert(fwd@[k] == before[k]);
                } else {
                    assert(fwd@[k].0@ == exc@[i as int].service_id@);
                }
            }
            assert forall|j: int| 0 <= j < services@.len() implies has_entry(fwd@, (#[trigger] services@[j])@) by {
                let k = choose|k: int|
                    0 <= k < before.len() && #[trigger] before[k].0@ == services@[j]@;
                assert(fwd@[k] == before[k]);
            }
            assert forall|j: int| 0 <= j < i + 1 implies has_entry(fwd@, (#[trigger] exc@[j]).service_id@) by {
                if j < i {
                    let k = choose|k: int|
                        0 <= k < before.len() && #[trigger] before[k].0@ == exc@[j].service_id@;
                    assert(fwd@[k] == before[k]);
                }
            }
        }
        i += 1;
    }
    let mut inv: Vec<(Date, Vec<String>)> = Vec::new();
    let mut i: usize = 0;
    while i < exc.len()
        invariant
            i <= exc.len(),
            forall|k: int, m: int| 0 <= k < m < inv@.len() ==> inv@[k].0 != inv@[m].0,
            forall|k: int| 0 <= k < inv@.len() ==> has_added_service(exc@, (#[trigger] inv@[k]).0),
            forall|j: int|
                0 <= j < i && (#[trigger] exc@[j]).exception_type == ExceptionType::Added
                    ==> exists|k: int| 0 <= k < inv@.len() && #[trigger] inv@[k].0 == exc@[j].date,
            forall|k: int|
                0 <= k < inv@.len() ==> texts((#[trigger] inv@[k]).1@).no_duplicates() && texts(
                    inv@[k].1@,
                ).to_set() == services_on(exc@, inv@[k].0),
        decreases exc.len() - i,
    {
        let ghost before = inv@;
        let d = exc[i].date;
        if exc[i].exception_type == ExceptionType::Added && !has_date_entry(&inv, d) {
            let sids = collect_services(exc, d);
            inv.push((d, sids));
            proof {
                assert(has_added_service(exc@, exc@[i as int].date));
                assert forall|j: int|
                    0 <= j < i + 1 && (#[trigger] exc@[j]).exception_type
                        == ExceptionType::Added implies exists|k: int|
                    0 <= k < inv@.len() && #[trigger] inv@[k].0 == exc@[j].date by {
                    if j < i {
                        let k = choose|k: int|
                            0 <= k < before.len() && #[trigger] before[k].0 == exc@[j].date;
                        assert(inv@[k] == before[k]);
                    } else {
                        assert(inv@[before.len() as int].0 == exc@[j].date);
                    }
                }
            }
        }
        i += 1;
    }
    let idx = CalendarIndex { service_dates: fwd, date_services: inv };
    proof {
        assert forall|sid: Seq<char>| known_service(services@, exc@, sid) implies exists|k: int|
            0 <= k < fwd@.len() && #[trigger] fwd@[k].0@ == sid by {
            if names_service(exc@, sid) {
                let j = choose|j: int| 0 <= j < exc@.len() && #[trigger] exc@[j].service_id@ == sid;
                assert(has_entry(fwd@, exc@[j].service_id@));
            } else {
                let j = choose|j: int| 0 <= j < services@.len() && #[trigger] services@[j]@ == sid;
                assert(has_entry(fwd@, services@[j]@));
            }
        }
        assert forall|d: Date| has_added_service(exc@, d) implies exists|k: int|
            0 <= k < inv@.len() && #[trigger] inv@[k].0 == d by {
            let j = choose|j: int|
                0 <= j < exc@.len() && #[trigger] exc@[j].date == d && exc@[j].exception_type
                    == ExceptionType::Added;
            assert(exc@[j].exception_type == ExceptionType::Added);
        }
        assert(idx.service_dates@ == fwd@);
        assert(idx.date_services@ == inv@);
    }
    Ok(idx)
}

/// Forward and inverse tables agree: a date listed under a service lists
/// that service, and a service listed under a date lists that date. The
/// dates under a service are exactly its added dates, in calendar order,
/// each once.
pub proof fn lemma_calendar_tables_agree(
    services: Seq<String>,
    exc: Seq<CalendarException>,
    idx: CalendarIndex,
    k: int,
)
    requires
        is_calendar_index(services, exc, idx),
        0 <= k < idx.service_dates@.len(),
    ensures
        strictly_increasing(idx.service_dates@[k].1@),
        idx.service_dates@[k].1@.no_duplicates(),
        idx.service_dates@[k].1@.to_set() == dates_of(exc, idx.service_dates@[k].0@),
        forall|d: Date|
            #[trigger] idx.service_dates@[k].1@.contains(d) ==> exists|m: int|
                0 <= m < idx.date_services@.len() && #[trigger] idx.date_services@[m].0 == d
                    && texts(idx.date_services@[m].1@).contains(idx.service_dates@[k].0@),
        forall|m: int|
            0 <= m < idx.date_services@.len() && #[trigger] texts(
                idx.date_services@[m].1@,
            ).contains(idx.service_dates@[k].0@) ==> idx.service_dates@[k].1@.contains(
                idx.date_services@[m].0,
            ),
{
    let fwd = idx.service_dates@;
    let inv = idx.date_services@;
    let sid = fwd[k].0@;
    assert(fwd[k].1@.to_set() == dates_of(exc, sid));
    assert forall|d: Date| #[trigger] fwd[k].1@.contains(d) implies exists|m: int|
        0 <= m < inv.len() && #[trigger] inv[m].0 == d && texts(inv[m].1@).contains(sid) by {
        assert(fwd[k].1@.to_set().contains(d));
        assert(is_added_on(exc, sid, d));
        let j = choose|j: int|
            0 <= j < exc.len() && #[trigger] exc[j].service_id@ == sid && exc[j].date == d
                && exc[j].exception_type == ExceptionType::Added;
        assert(has_added_service(exc, exc[j].date));
        let m = choose|m: int| 0 <= m < inv.len() && #[trigger] inv[m].0 == d;
        assert(services_on(exc, d).contains(sid));
        assert(texts(inv[m].1@).to_set().contains(sid));
    }
    assert forall|m: int|
        0 <= m < inv.len() && #[trigger] texts(inv[m].1@).contains(sid) implies fwd[k].1@.contains(
        inv[m].0,
    ) by {
        assert(texts(inv[m].1@).to_set().contains(sid));
        assert(services_on(exc, inv[m].0).contains(sid));
        assert(dates_of(exc, sid).contains(inv[m].0));
        assert(fwd[k].1@.to_set().contains(inv[m].0));
    }
}

} // verus!
