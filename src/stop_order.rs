//! Canonical stop order of a route, inferred from the stop sequences of its
//! trips by a topological sort of "stop A is followed by stop B" links.
//!
//! Among the stops that are ready at a step, the least in code-point order is
//! taken first, so equal inputs always give equal orders. A cycle stops the
//! sort; the stops taken until then are kept and the order is marked partial.

use crate::feed::{Direction, StopTime, Trip};
use crate::topo::{
    is_ready, sort_add_dependency, sort_insert, sort_items, sort_len, sort_links, sort_new,
    sort_ready, sort_remove,
};
use topological_sort::TopologicalSort;
use vstd::prelude::*;

verus! {

/// Code-point lexicographic order on texts (shorter prefix first).
pub open spec fn text_less(a: Seq<char>, b: Seq<char>) -> bool
    decreases a.len(),
{
    if a.len() == 0 {
        b.len() > 0
    } else if b.len() == 0 {
        false
    } else if a[0] != b[0] {
        a[0] < b[0]
    } else {
        text_less(a.drop_first(), b.drop_first())
    }
}

proof fn lemma_text_less_transitive(a: Seq<char>, b: Seq<char>, c: Seq<char>)
    requires
        text_less(a, b),
        text_less(b, c),
    ensures
        text_less(a, c),
    decreases a.len(),
{
    if a.len() > 0 && b.len() > 0 && c.len() > 0 && a[0] == b[0] && b[0] == c[0] {
        lemma_text_less_transitive(a.drop_first(), b.drop_first(), c.drop_first());
    }
}

/// The views of a sequence of strings.
pub open spec fn texts(v: Seq<String>) -> Seq<Seq<char>> {
    v.map_values(|s: String| s@)
}

/// Compares two strings in code-point lexicographic order.
pub fn text_lt(a: &String, b: &String) -> (r: bool)
    ensures
        r == text_less(a@, b@),
{
    let la = a.as_str().unicode_len();
    let lb = b.as_str().unicode_len();
    let mut i: usize = 0;
    assert(a@.skip(0) =~= a@);
    assert(b@.skip(0) =~= b@);
    while i < la && i < lb
        invariant
            i <= la,
            i <= lb,
            la == a@.len(),
            lb == b@.len(),
            text_less(a@, b@) == text_less(a@.skip(i as int), b@.skip(i as int)),
        decreases la - i,
    {
        let ca = a.as_str().get_char(i);
        let cb = b.as_str().get_char(i);
        proof {
            assert(a@.skip(i as int)[0] == ca);
            assert(b@.skip(i as int)[0] == cb);
        }
        if ca != cb {
            return ca < cb;
        }
        proof {
            assert(a@.skip(i as int).drop_first() =~= a@.skip(i + 1));
            assert(b@.skip(i as int).drop_first() =~= b@.skip(i + 1));
        }
        i += 1;
    }
    i < lb
}

/// Index of the least string of a non-empty vector.
fn least_index(v: &Vec<String>) -> (r: usize)
    requires
        v.len() > 0,
    ensures
        r < v.len(),
        forall|k: int| 0 <= k < v.len() ==> !text_less(#[trigger] v@[k]@, v@[r as int]@),
{
    let mut best: usize = 0;
    let mut i: usize = 1;
    proof {
        lemma_text_less_irreflexive(v@[0]@);
    }
    while i < v.len()
        invariant
            best < i <= v.len(),
            forall|k: int| 0 <= k < i ==> !text_less(#[trigger] v@[k]@, v@[best as int]@),
        decreases v.len() - i,
    {
        if text_lt(&v[i], &v[best]) {
            proof {
                assert forall|k: int| 0 <= k <= i implies !text_less(
                    #[trigger] v@[k]@,
                    v@[i as int]@,
                ) by {
                    if k < i && text_less(v@[k]@, v@[i as int]@) {
                        lemma_text_less_transitive(v@[k]@, v@[i as int]@, v@[best as int]@);
                    }
                    if k == i {
                        lemma_text_less_irreflexive(v@[k]@);
                    }
                }
            }
            best = i;
        }
        i += 1;
    }
    best
}

proof fn lemma_text_less_irreflexive(a: Seq<char>)
    ensures
        !text_less(a, a),
    decreases a.len(),
{
    if a.len() > 0 {
        lemma_text_less_irreflexive(a.drop_first());
    }
}

/// The trip runs on `route` in direction `dir`.
pub open spec fn selects(t: Trip, route: Seq<char>, dir: Direction) -> bool {
    t.route_id@ == route && t.direction == dir
}

/// The stop of the `j`-th visit of the `i`-th trip.
pub open spec fn stop_at(trips: Seq<Trip>, i: int, j: int) -> Seq<char> {
    trips[i].stop_times@[j].stop_id@
}

/// Stops visited by the selected trips among the first `n` trips, and by the
/// first `m` visits of trip `n` if it is selected.
pub open spec fn nodes_upto(
    trips: Seq<Trip>,
    route: Seq<char>,
    dir: Direction,
    n: int,
    m: int,
) -> Set<Seq<char>> {
    Set::new(
        |s: Seq<char>|
            exists|i: int, j: int|
                0 <= i <= n && i < trips.len() && selects(trips[i], route, dir) && 0 <= j
                    < trips[i].stop_times@.len() && (i < n || j < m) && #[trigger] stop_at(
                    trips,
                    i,
                    j,
                ) == s,
    )
}

/// Links between consecutive visits, over the same part of the trips as
/// `nodes_upto`.
pub open spec fn edges_upto(
    trips: Seq<Trip>,
    route: Seq<char>,
    dir: Direction,
    n: int,
    m: int,
) -> Set<(Seq<char>, Seq<char>)> {
    Set::new(
        |e: (Seq<char>, Seq<char>)|
            exists|i: int, j: int|
                0 <= i <= n && i < trips.len() && selects(trips[i], route, dir) && 0 <= j && j + 1
                    < trips[i].stop_times@.len() && (i < n || j + 1 < m) && e == (
                    #[trigger] stop_at(trips, i, j),
                    stop_at(trips, i, j + 1),
                ),
    )
}

/// Every stop that a trip of `route` in direction `dir` visits.
pub open spec fn graph_nodes(trips: Seq<Trip>, route: Seq<char>, dir: Direction) -> Set<
    Seq<char>,
> {
    nodes_upto(trips, route, dir, trips.len() as int, 0)
}

/// Every pair (A, B) where such a trip visits B right after A.
pub open spec fn graph_edges(trips: Seq<Trip>, route: Seq<char>, dir: Direction) -> Set<
    (Seq<char>, Seq<char>),
> {
    edges_upto(trips, route, dir, trips.len() as int, 0)
}

/// The links that still count once the stops in `done` are taken.
pub open spec fn links_left(edges: Set<(Seq<char>, Seq<char>)>, done: Set<Seq<char>>) -> Set<
    (Seq<char>, Seq<char>),
> {
    edges.filter(|l: (Seq<char>, Seq<char>)| !done.contains(l.0))
}

/// `x` is not taken yet and no link from a stop not yet taken leads into it.
pub open spec fn ready_after(
    nodes: Set<Seq<char>>,
    edges: Set<(Seq<char>, Seq<char>)>,
    done: Set<Seq<char>>,
    x: Seq<char>,
) -> bool {
    is_ready(nodes.difference(done), links_left(edges, done), x)
}

/// `order` is the sort of the graph that takes, at each step, the least stop
/// that is ready, and that ends when no stop is ready.
pub open spec fn is_sorted_order(
    nodes: Set<Seq<char>>,
    edges: Set<(Seq<char>, Seq<char>)>,
    order: Seq<Seq<char>>,
) -> bool {
    &&& forall|k: int|
        0 <= k < order.len() ==> ready_after(nodes, edges, order.take(k).to_set(), #[trigger] order[k])
    &&& forall|k: int, x: Seq<char>|
        0 <= k < order.len() && ready_after(nodes, edges, order.take(k).to_set(), x)
            ==> !#[trigger] text_less(x, order[k])
    &&& forall|x: Seq<char>| !ready_after(nodes, edges, order.to_set(), x)
}

/// Stops of one direction of a route, in order; `total` tells whether every
/// stop could be placed (false when conflicting trips form a cycle).
#[derive(Debug)]
pub struct DirectionOrder {
    pub stops: Vec<String>,
    pub total: bool,
}

proof fn lemma_nodes_step(trips: Seq<Trip>, route: Seq<char>, dir: Direction, i: int, j: int)
    requires
        0 <= i < trips.len(),
        selects(trips[i], route, dir),
        0 <= j < trips[i].stop_times@.len(),
    ensures
        nodes_upto(trips, route, dir, i, j + 1) == nodes_upto(trips, route, dir, i, j).insert(
            stop_at(trips, i, j),
        ),
        j > 0 ==> nodes_upto(trips, route, dir, i, j).contains(stop_at(trips, i, j - 1)),
{
    assert(nodes_upto(trips, route, dir, i, j + 1) =~= nodes_upto(trips, route, dir, i, j).insert(
        stop_at(trips, i, j),
    ));
}

proof fn lemma_edges_step(trips: Seq<Trip>, route: Seq<char>, dir: Direction, i: int, j: int)
    requires
        0 <= i < trips.len(),
        selects(trips[i], route, dir),
        0 <= j < trips[i].stop_times@.len(),
    ensures
        j == 0 ==> edges_upto(trips, route, dir, i, j + 1) == edges_upto(trips, route, dir, i, j),
        j > 0 ==> edges_upto(trips, route, dir, i, j + 1) == edges_upto(
            trips,
            route,
            dir,
            i,
            j,
        ).insert((stop_at(trips, i, j - 1), stop_at(trips, i, j))),
{
    if j == 0 {
        assert(edges_upto(trips, route, dir, i, j + 1) =~= edges_upto(trips, route, dir, i, j));
    } else {
        assert(edges_upto(trips, route, dir, i, j + 1) =~= edges_upto(
            trips,
            route,
            dir,
            i,
            j,
        ).insert((stop_at(trips, i, j - 1), stop_at(trips, i, j))));
    }
}

proof fn lemma_trip_step(trips: Seq<Trip>, route: Seq<char>, dir: Direction, i: int)
    requires
        0 <= i < trips.len(),
    ensures
        selects(trips[i], route, dir) ==> nodes_upto(trips, route, dir, i + 1, 0) == nodes_upto(
            trips,
            route,
            dir,
            i,
            trips[i].stop_times@.len() as int,
        ),
        selects(trips[i], route, dir) ==> edges_upto(trips, route, dir, i + 1, 0) == edges_upto(
            trips,
            route,
            dir,
            i,
            trips[i].stop_times@.len() as int,
        ),
        !selects(trips[i], route, dir) ==> nodes_upto(trips, route, dir, i + 1, 0) == nodes_upto(
            trips,
            route,
            dir,
            i,
            0,
        ),
        !selects(trips[i], route, dir) ==> edges_upto(trips, route, dir, i + 1, 0) == edges_upto(
            trips,
            route,
            dir,
            i,
            0,
        ),
{
    let m = trips[i].stop_times@.len() as int;
    if selects(trips[i], route, dir) {
        assert(nodes_upto(trips, route, dir, i + 1, 0) =~= nodes_upto(trips, route, dir, i, m));
        assert(edges_upto(trips, route, dir, i + 1, 0) =~= edges_upto(trips, route, dir, i, m));
    } else {
        assert(nodes_upto(trips, route, dir, i + 1, 0) =~= nodes_upto(trips, route, dir, i, 0));
        assert(edges_upto(trips, route, dir, i + 1, 0) =~= edges_upto(trips, route, dir, i, 0));
    }
}

/// Builds the sort holding every stop of the trips of `route_id` in direction
/// `dir` and a link for each pair of consecutive visits.
fn build_stop_graph(trips: &Vec<Trip>, route_id: &String, dir: Direction) -> (t: TopologicalSort<
    String,
>)
    ensures
        sort_items(t) == graph_nodes(trips@, route_id@, dir),
        sort_links(t) == graph_edges(trips@, route_id@, dir),
        sort_items(t).finite(),
{
    let mut t = sort_new();
    let mut i: usize = 0;
    assert(sort_items(t) =~= nodes_upto(trips@, route_id@, dir, 0, 0));
    assert(sort_links(t) =~= edges_upto(trips@, route_id@, dir, 0, 0));
    while i < trips.len()
        invariant
            i <= trips.len(),
            sort_items(t) == nodes_upto(trips@, route_id@, dir, i as int, 0),
            sort_links(t) == edges_upto(trips@, route_id@, dir, i as int, 0),
            sort_items(t).finite(),
        decreases trips.len() - i,
    {
        let trip = &trips[i];
        proof {
            lemma_trip_step(trips@, route_id@, dir, i as int);
        }
        if trip.route_id == *route_id && trip.direction == dir {
            let mut j: usize = 0;
            while j < trip.stop_times.len()
                invariant
                    i < trips.len(),
                    trip == trips@[i as int],
                    selects(*trip, route_id@, dir),
                    j <= trip.stop_times.len(),
                    sort_items(t) == nodes_upto(trips@, route_id@, dir, i as int, j as int),
                    sort_links(t) == edges_upto(trips@, route_id@, dir, i as int, j as int),
                    sort_items(t).finite(),
                decreases trip.stop_times.len() - j,
            {
                proof {
                    lemma_nodes_step(trips@, route_id@, dir, i as int, j as int);
                    lemma_edges_step(trips@, route_id@, dir, i as int, j as int);
                }
                let stop = trip.stop_times[j].stop_id.clone();
                if j == 0 {
                    sort_insert(&mut t, stop);
                } else {
                    let prev = trip.stop_times[j - 1].stop_id.clone();
                    let ghost before = sort_items(t);
                    sort_add_dependency(&mut t, prev, stop);
                    assert(before.insert(prev@) =~= before);
                }
                j += 1;
            }
        }
        i += 1;
    }
    t
}

} // verus!

verus! {

/// Sorts the stops of the trips of `route_id` in direction `dir`: at each
/// step the least ready stop is taken; a cycle ends the sort early, and the
/// order is then partial.
pub fn order_direction(trips: &Vec<Trip>, route_id: &String, dir: Direction) -> (r: DirectionOrder)
    ensures
        is_sorted_order(
            graph_nodes(trips@, route_id@, dir),
            graph_edges(trips@, route_id@, dir),
            texts(r.stops@),
        ),
        r.total == (texts(r.stops@).to_set() == graph_nodes(trips@, route_id@, dir)),
{
    let ghost nodes = graph_nodes(trips@, route_id@, dir);
    let ghost edges = graph_edges(trips@, route_id@, dir);
    let mut t = build_stop_graph(trips, route_id, dir);
    let mut order: Vec<String> = Vec::new();
    proof {
        assert(texts(order@).to_set() =~= Set::<Seq<char>>::empty());
        assert(nodes.difference(texts(order@).to_set()) =~= nodes);
        assert(links_left(edges, texts(order@).to_set()) =~= edges);
    }
    loop
        invariant
            sort_items(t) == nodes.difference(texts(order@).to_set()),
            sort_links(t) == links_left(edges, texts(order@).to_set()),
            sort_items(t).finite(),
            forall|k: int|
                0 <= k < order@.len() ==> ready_after(
                    nodes,
                    edges,
                    texts(order@).take(k).to_set(),
                    #[trigger] texts(order@)[k],
                ),
            forall|k: int, x: Seq<char>|
                0 <= k < order@.len() && ready_after(nodes, edges, texts(order@).take(k).to_set(), x)
                    ==> !#[trigger] text_less(x, texts(order@)[k]),
        ensures
            is_sorted_order(nodes, edges, texts(order@)),
            sort_items(t) == nodes.difference(texts(order@).to_set()),
        decreases sort_items(t).len(),
    {
        let ready = sort_ready(&t);
        if ready.len() == 0 {
            proof {
                assert forall|x: Seq<char>| !ready_after(nodes, edges, texts(order@).to_set(), x) by {
                    if ready_after(nodes, edges, texts(order@).to_set(), x) {
                        assert(is_ready(sort_items(t), sort_links(t), x));
                    }
                }
            }
            break;
        }
        let b = least_index(&ready);
        let m = ready[b].clone();
        let ghost done = texts(order@).to_set();
        let ghost old_order = texts(order@);
        let ghost items = sort_items(t);
        let ghost links = sort_links(t);
        assert(is_ready(items, links, m@));
        let _ = sort_remove(&mut t, &m);
        order.push(m);
        proof {
            let new_order = texts(order@);
            assert(new_order =~= old_order.push(m@));
            assert(new_order.take(old_order.len() as int) =~= old_order);
            old_order.lemma_push_to_set_commute(m@);
            assert(new_order.to_set() =~= done.insert(m@));
            assert(sort_items(t) =~= nodes.difference(new_order.to_set()));
            assert(sort_links(t) =~= links_left(edges, new_order.to_set()));
            assert forall|k: int| 0 <= k < new_order.len() implies ready_after(
                nodes,
                edges,
                new_order.take(k).to_set(),
                #[trigger] new_order[k],
            ) by {
                if k < old_order.len() {
                    assert(new_order.take(k) =~= old_order.take(k));
                }
            }
            assert forall|k: int, x: Seq<char>|
                0 <= k < new_order.len() && ready_after(nodes, edges, new_order.take(k).to_set(), x)
                implies !#[trigger] text_less(x, new_order[k]) by {
                if k < old_order.len() {
                    assert(new_order.take(k) =~= old_order.take(k));
                    assert(ready_after(nodes, edges, old_order.take(k).to_set(), x));
                    assert(!text_less(x, old_order[k]));
                } else {
                    assert(is_ready(items, links, x));
                    let i = choose|i: int| 0 <= i < ready@.len() && #[trigger] ready@[i]@ == x;
                    assert(!text_less(ready@[i]@, ready@[b as int]@));
                }
            }
        }
    }
    let total = sort_len(&t) == 0;
    proof {
        if total {
            assert(texts(order@).to_set() =~= nodes) by {
                assert forall|x: Seq<char>| nodes.contains(x) implies texts(
                    order@,
                ).to_set().contains(x) by {
                    if !texts(order@).to_set().contains(x) {
                        assert(sort_items(t).contains(x));
                    }
                }
            }
        } else {
            let x = sort_items(t).choose();
            assert(sort_items(t).contains(x));
            assert(!texts(order@).to_set().contains(x));
        }
    }
    DirectionOrder { stops: order, total }
}

} // verus!

verus! {

/// Some trip runs on `route` in direction `dir`.
pub open spec fn has_trips(trips: Seq<Trip>, route: Seq<char>, dir: Direction) -> bool {
    exists|i: int| 0 <= i < trips.len() && #[trigger] selects(trips[i], route, dir)
}

/// `stops` is the sorted order of the trips of `route` in direction `dir`, and
/// `total` tells whether it places every stop.
pub open spec fn is_direction_order(
    trips: Seq<Trip>,
    route: Seq<char>,
    dir: Direction,
    stops: Seq<String>,
    total: bool,
) -> bool {
    &&& is_sorted_order(graph_nodes(trips, route, dir), graph_edges(trips, route, dir), texts(stops))
    &&& total == (texts(stops).to_set() == graph_nodes(trips, route, dir))
}

/// Canonical stop orders of a route in both directions; a `*_total` flag is
/// false where a cycle left that order partial.
#[derive(Debug)]
pub struct RouteStopOrder {
    pub outbound: Vec<String>,
    pub inbound: Vec<String>,
    pub outbound_total: bool,
    pub inbound_total: bool,
}

/// Some trip of `route` in direction `dir` visits at least two stops, so
/// that its trips give at least one link.
pub open spec fn carries_links(trips: Seq<Trip>, route: Seq<char>, dir: Direction) -> bool {
    exists|i: int|
        0 <= i < trips.len() && #[trigger] selects(trips[i], route, dir)
            && trips[i].stop_times@.len() >= 2
}

/// The inbound order is the reverse of the outbound one: the route has
/// outbound trips, and either no inbound trip or inbound trips that give no
/// link while the outbound ones do.
pub open spec fn inbound_reversed(trips: Seq<Trip>, route: Seq<char>) -> bool {
    has_trips(trips, route, Direction::Outbound) && (!has_trips(trips, route, Direction::Inbound) || (
    !carries_links(trips, route, Direction::Inbound) && carries_links(
        trips,
        route,
        Direction::Outbound,
    )))
}

/// The outbound order is the reverse of the inbound one, in the mirror case.
pub open spec fn outbound_reversed(trips: Seq<Trip>, route: Seq<char>) -> bool {
    has_trips(trips, route, Direction::Inbound) && (!has_trips(trips, route, Direction::Outbound) || (
    !carries_links(trips, route, Direction::Outbound) && carries_links(
        trips,
        route,
        Direction::Inbound,
    )))
}

/// A direction whose trips give ordering information is sorted from them; a
/// direction without trips, or whose trips give no link while the other
/// direction's do, takes the exact reverse of the other one.
pub open spec fn is_route_order(trips: Seq<Trip>, route: Seq<char>, o: RouteStopOrder) -> bool {
    &&& (has_trips(trips, route, Direction::Outbound) && !outbound_reversed(trips, route))
        ==> is_direction_order(trips, route, Direction::Outbound, o.outbound@, o.outbound_total)
    &&& (has_trips(trips, route, Direction::Inbound) && !inbound_reversed(trips, route))
        ==> is_direction_order(trips, route, Direction::Inbound, o.inbound@, o.inbound_total)
    &&& inbound_reversed(trips, route) ==> texts(o.inbound@) == texts(o.outbound@).reverse()
        && o.inbound_total == o.outbound_total
    &&& outbound_reversed(trips, route) ==> texts(o.outbound@) == texts(o.inbound@).reverse()
        && o.outbound_total == o.inbound_total
}

/// A direction carries links exactly when its link set is not empty.
pub proof fn lemma_carries_links_iff_edges(trips: Seq<Trip>, route: Seq<char>, dir: Direction)
    ensures
        carries_links(trips, route, dir) <==> graph_edges(trips, route, dir) != Set::<
            (Seq<char>, Seq<char>),
        >::empty(),
{
    let n = trips.len() as int;
    if carries_links(trips, route, dir) {
        let i = choose|i: int|
            0 <= i < trips.len() && #[trigger] selects(trips[i], route, dir)
                && trips[i].stop_times@.len() >= 2;
        assert(graph_edges(trips, route, dir).contains((stop_at(trips, i, 0), stop_at(trips, i, 1))));
    }
    if graph_edges(trips, route, dir) != Set::<(Seq<char>, Seq<char>)>::empty() {
        let e = choose|e: (Seq<char>, Seq<char>)| graph_edges(trips, route, dir).contains(e);
        assert(graph_edges(trips, route, dir).contains(e)) by {
            if !graph_edges(trips, route, dir).contains(e) {
                assert(graph_edges(trips, route, dir) =~= Set::<(Seq<char>, Seq<char>)>::empty());
            }
        }
        let (i, j) = choose|i: int, j: int|
            0 <= i <= n && i < trips.len() && selects(trips[i], route, dir) && 0 <= j && j + 1
                < trips[i].stop_times@.len() && (i < n || j + 1 < 0) && e == (
                #[trigger] stop_at(trips, i, j),
                stop_at(trips, i, j + 1),
            );
        assert(selects(trips[i], route, dir) && trips[i].stop_times@.len() >= 2);
    }
}

/// Whether some trip of `route_id` in direction `dir` visits two stops or more.
pub fn has_links(trips: &Vec<Trip>, route_id: &String, dir: Direction) -> (r: bool)
    ensures
        r == carries_links(trips@, route_id@, dir),
{
    let mut i: usize = 0;
    while i < trips.len()
        invariant
            i <= trips.len(),
            forall|k: int|
                0 <= k < i ==> !(#[trigger] selects(trips@[k], route_id@, dir)
                    && trips@[k].stop_times@.len() >= 2),
        decreases trips.len() - i,
    {
        if trips[i].route_id == *route_id && trips[i].direction == dir && trips[i].stop_times.len()
            >= 2 {
            assert(selects(trips@[i as int], route_id@, dir));
            return true;
        }
        i += 1;
    }
    false
}

/// Whether some trip runs on `route_id` in direction `dir`.
pub fn has_direction(trips: &Vec<Trip>, route_id: &String, dir: Direction) -> (r: bool)
    ensures
        r == has_trips(trips@, route_id@, dir),
{
    let mut i: usize = 0;
    while i < trips.len()
        invariant
            i <= trips.len(),
            forall|k: int| 0 <= k < i ==> !#[trigger] selects(trips@[k], route_id@, dir),
        decreases trips.len() - i,
    {
        if trips[i].route_id == *route_id && trips[i].direction == dir {
            assert(selects(trips@[i as int], route_id@, dir));
            return true;
        }
        i += 1;
    }
    false
}

/// The strings of `v` in reverse order.
pub fn reversed(v: &Vec<String>) -> (r: Vec<String>)
    ensures
        texts(r@) == texts(v@).reverse(),
{
    let mut r: Vec<String> = Vec::new();
    let mut i: usize = v.len();
    while i > 0
        invariant
            i <= v.len(),
            r@.len() == v.len() - i,
            forall|k: int| 0 <= k < r@.len() ==> #[trigger] r@[k]@ == v@[v.len() - 1 - k]@,
        decreases i,
    {
        i -= 1;
        r.push(v[i].clone());
    }
    assert(texts(r@) =~= texts(v@).reverse());
    r
}

/// Stop orders of one route, or `None` when it has neither outbound nor
/// inbound trips. A direction is sorted from its own trips when they give
/// ordering information, and is otherwise the reverse of the other
/// direction. Trips of unknown direction take no part.
pub fn resolve_route(trips: &Vec<Trip>, route_id: &String) -> (r: Option<RouteStopOrder>)
    ensures
        r is None <==> (!has_trips(trips@, route_id@, Direction::Outbound) && !has_trips(
            trips@,
            route_id@,
            Direction::Inbound,
        )),
        r matches Some(o) ==> is_route_order(trips@, route_id@, o),
{
    let has_out = has_direction(trips, route_id, Direction::Outbound);
    let has_in = has_direction(trips, route_id, Direction::Inbound);
    if !has_out && !has_in {
        return None;
    }
    let links_out = has_links(trips, route_id, Direction::Outbound);
    let links_in = has_links(trips, route_id, Direction::Inbound);
    let reverse_in = has_out && (!has_in || (!links_in && links_out));
    let reverse_out = has_in && (!has_out || (!links_out && links_in));
    if reverse_in {
        let out = order_direction(trips, route_id, Direction::Outbound);
        let back = reversed(&out.stops);
        Some(
            RouteStopOrder {
                outbound: out.stops,
                inbound: back,
                outbound_total: out.total,
                inbound_total: out.total,
            },
        )
    } else if reverse_out {
        let inb = order_direction(trips, route_id, Direction::Inbound);
        let ahead = reversed(&inb.stops);
        Some(
            RouteStopOrder {
                outbound: ahead,
                inbound: inb.stops,
                outbound_total: inb.total,
                inbound_total: inb.total,
            },
        )
    } else {
        let out = order_direction(trips, route_id, Direction::Outbound);
        let inb = order_direction(trips, route_id, Direction::Inbound);
        Some(
            RouteStopOrder {
                outbound: out.stops,
                inbound: inb.stops,
                outbound_total: out.total,
                inbound_total: inb.total,
            },
        )
    }
}

/// `id` is one of the route ids of `routes`.
pub open spec fn lists_route(routes: Seq<String>, id: Seq<char>) -> bool {
    exists|q: int| 0 <= q < routes.len() && #[trigger] routes[q]@ == id
}

/// `id` has an entry in a table of route orders.
pub open spec fn has_order_entry(orders: Seq<(String, RouteStopOrder)>, id: Seq<char>) -> bool {
    exists|k: int| 0 <= k < orders.len() && #[trigger] orders[k].0@ == id
}

/// Some trip runs on `route` outbound or inbound.
pub open spec fn has_directed_trips(trips: Seq<Trip>, route: Seq<char>) -> bool {
    has_trips(trips, route, Direction::Outbound) || has_trips(trips, route, Direction::Inbound)
}

/// `r` lists the stop orders of exactly the routes of `routes` that have
/// directed trips.
pub open spec fn is_route_order_table(
    routes: Seq<String>,
    trips: Seq<Trip>,
    r: Seq<(String, RouteStopOrder)>,
) -> bool {
    &&& forall|k: int| 0 <= k < r.len() ==> lists_route(routes, (#[trigger] r[k]).0@)
    &&& forall|k: int| 0 <= k < r.len() ==> #[trigger] is_route_order(trips, r[k].0@, r[k].1)
    &&& forall|q: int|
        0 <= q < routes.len() ==> (has_directed_trips(trips, #[trigger] routes[q]@)
            <==> has_order_entry(r, routes[q]@))
}

/// The stop orders of every route of `routes` that has directed trips, in
/// the order of `routes`.
pub fn resolve_route_orders(routes: &Vec<String>, trips: &Vec<Trip>) -> (r: Vec<
    (String, RouteStopOrder),
>)
    ensures
        is_route_order_table(routes@, trips@, r@),
{
    let mut r: Vec<(String, RouteStopOrder)> = Vec::new();
    let mut i: usize = 0;
    while i < routes.len()
        invariant
            i <= routes.len(),
            forall|k: int|
                0 <= k < r@.len() ==> lists_route(routes@.take(i as int), (#[trigger] r@[k]).0@),
            forall|k: int|
                0 <= k < r@.len() ==> #[trigger] is_route_order(trips@, r@[k].0@, r@[k].1),
            forall|k: int|
                0 <= k < r@.len() ==> has_directed_trips(trips@, (#[trigger] r@[k]).0@),
            forall|q: int|
                0 <= q < i ==> (has_directed_trips(trips@, #[trigger] routes@[q]@)
                    ==> has_order_entry(r@, routes@[q]@)),
        decreases routes.len() - i,
    {
        let ghost before = r@;
        let ghost head = routes@.take(i as int);
        let ghost next = routes@.take(i + 1);
        assert forall|id: Seq<char>| lists_route(head, id) implies lists_route(next, id) by {
            let q = choose|q: int| 0 <= q < head.len() && #[trigger] head[q]@ == id;
            assert(next[q]@ == id);
        }
        assert(next[i as int] == routes@[i as int]);
        match resolve_route(trips, &routes[i]) {
            Some(o) => {
                r.push((routes[i].clone(), o));
                proof {
                    let n = before.len() as int;
                    assert(r@[n].0@ == routes@[i as int]@);
                    assert(has_order_entry(r@, routes@[i as int]@));
                    assert forall|q: int|
                        0 <= q <= i && has_directed_trips(
                            trips@,
                            #[trigger] routes@[q]@,
                        ) implies has_order_entry(r@, routes@[q]@) by {
                        if q < i {
                            let k = choose|k: int|
                                0 <= k < before.len() && #[trigger] before[k].0@ == routes@[q]@;
                            assert(r@[k] == before[k]);
                        }
                    }
                    assert forall|k: int| 0 <= k < r@.len() implies lists_route(
                        next,
                        (#[trigger] r@[k]).0@,
                    ) by {
                        if k < n {
                            assert(r@[k] == before[k]);
                        } else {
                            assert(next[i as int]@ == r@[k].0@);
                        }
                    }
                }
            },
            None => {},
        }
        i += 1;
    }
    proof {
        assert(routes@.take(i as int) =~= routes@);
        assert forall|q: int|
            0 <= q < routes@.len() && has_order_entry(r@, routes@[q]@) implies has_directed_trips(
            trips@,
            #[trigger] routes@[q]@,
        ) by {
            let k = choose|k: int| 0 <= k < r@.len() && #[trigger] r@[k].0@ == routes@[q]@;
            assert(has_directed_trips(trips@, r@[k].0@));
        }
    }
    r
}

/// Index of the entry of `route_id` in a table of route orders.
pub fn find_route_order(orders: &Vec<(String, RouteStopOrder)>, route_id: &String) -> (r: Option<
    usize,
>)
    ensures
        r matches Some(k) ==> k < orders@.len() && orders@[k as int].0@ == route_id@ && forall|j: int|
            0 <= j < k ==> #[trigger] orders@[j].0@ != route_id@,
        r is None ==> forall|k: int| 0 <= k < orders@.len() ==> #[trigger] orders@[k].0@ != route_id@,
{
    let mut i: usize = 0;
    while i < orders.len()
        invariant
            i <= orders.len(),
            forall|k: int| 0 <= k < i ==> #[trigger] orders@[k].0@ != route_id@,
        decreases orders.len() - i,
    {
        if orders[i].0 == *route_id {
            return Some(i);
        }
        i += 1;
    }
    None
}

} // verus!

verus! {

/// The stops of a trip's visits, in order.
pub open spec fn stop_ids(t: Trip) -> Seq<Seq<char>> {
    t.stop_times@.map_values(|st: StopTime| st.stop_id@)
}

/// The links between consecutive stops of `chain`.
pub open spec fn chain_links(chain: Seq<Seq<char>>) -> Set<(Seq<char>, Seq<char>)> {
    Set::new(
        |e: (Seq<char>, Seq<char>)|
            exists|j: int| 0 <= j && j + 1 < chain.len() && e == (#[trigger] chain[j], chain[j + 1]),
    )
}

proof fn lemma_chain_graph(trips: Seq<Trip>, route: Seq<char>, dir: Direction, chain: Seq<Seq<char>>)
    requires
        has_trips(trips, route, dir),
        forall|i: int|
            0 <= i < trips.len() && #[trigger] selects(trips[i], route, dir) ==> stop_ids(trips[i])
                == chain,
    ensures
        graph_nodes(trips, route, dir) == chain.to_set(),
        graph_edges(trips, route, dir) == chain_links(chain),
{
    let n = trips.len() as int;
    let i0 = choose|i: int| 0 <= i < trips.len() && #[trigger] selects(trips[i], route, dir);
    assert(stop_ids(trips[i0]).len() == chain.len());
    assert forall|x: Seq<char>| #[trigger]
        graph_nodes(trips, route, dir).contains(x) <==> chain.to_set().contains(x) by {
        if graph_nodes(trips, route, dir).contains(x) {
            let (i, j) = choose|i: int, j: int|
                0 <= i <= n && i < trips.len() && selects(trips[i], route, dir) && 0 <= j
                    < trips[i].stop_times@.len() && (i < n || j < 0) && #[trigger] stop_at(
                    trips,
                    i,
                    j,
                ) == x;
            assert(stop_ids(trips[i])[j] == x);
            assert(chain[j] == x);
        }
        if chain.to_set().contains(x) {
            let j = choose|j: int| 0 <= j < chain.len() && #[trigger] chain[j] == x;
            assert(stop_ids(trips[i0])[j] == stop_at(trips, i0, j));
        }
    }
    assert(graph_nodes(trips, route, dir) =~= chain.to_set());
    assert forall|e: (Seq<char>, Seq<char>)| #[trigger]
        graph_edges(trips, route, dir).contains(e) <==> chain_links(chain).contains(e) by {
        if graph_edges(trips, route, dir).contains(e) {
            let (i, j) = choose|i: int, j: int|
                0 <= i <= n && i < trips.len() && selects(trips[i], route, dir) && 0 <= j && j + 1
                    < trips[i].stop_times@.len() && (i < n || j + 1 < 0) && e == (
                    #[trigger] stop_at(trips, i, j),
                    stop_at(trips, i, j + 1),
                );
            assert(stop_ids(trips[i])[j] == stop_at(trips, i, j));
            assert(stop_ids(trips[i])[j + 1] == stop_at(trips, i, j + 1));
            assert(e == (chain[j], chain[j + 1]));
        }
        if chain_links(chain).contains(e) {
            let j = choose|j: int| 0 <= j && j + 1 < chain.len() && e == (#[trigger] chain[j], chain[j + 1]);
            assert(stop_ids(trips[i0])[j] == stop_at(trips, i0, j));
            assert(stop_ids(trips[i0])[j + 1] == stop_at(trips, i0, j + 1));
        }
    }
    assert(graph_edges(trips, route, dir) =~= chain_links(chain));
}

proof fn lemma_chain_prefix(
    nodes: Set<Seq<char>>,
    edges: Set<(Seq<char>, Seq<char>)>,
    chain: Seq<Seq<char>>,
    order: Seq<Seq<char>>,
    k: int,
)
    requires
        nodes == chain.to_set(),
        edges == chain_links(chain),
        chain.no_duplicates(),
        is_sorted_order(nodes, edges, order),
        0 <= k <= order.len(),
    ensures
        k <= chain.len(),
        order.take(k) == chain.take(k),
    decreases k,
{
    if k > 0 {
        lemma_chain_prefix(nodes, edges, chain, order, k - 1);
        let done = order.take(k - 1).to_set();
        let x = order[k - 1];
        assert(ready_after(nodes, edges, done, x));
        assert(chain.to_set().contains(x));
        let j = choose|j: int| 0 <= j < chain.len() && #[trigger] chain[j] == x;
        if j < k - 1 {
            assert(chain.take(k - 1)[j] == x);
            assert(done.contains(x));
        }
        if j > k - 1 {
            let p = chain[j - 1];
            assert(chain_links(chain).contains((p, x))) by {
                assert((p, x) == (chain[j - 1], chain[(j - 1) + 1]));
            }
            assert(!done.contains(p)) by {
                if done.contains(p) {
                    let q = choose|q: int| 0 <= q < k - 1 && #[trigger] order.take(k - 1)[q] == p;
                    assert(chain.take(k - 1)[q] == p);
                    assert(chain[q] == chain[j - 1]);
                }
            }
            assert(links_left(edges, done).contains((p, x)));
        }
        assert(j == k - 1);
        assert(order.take(k) =~= chain.take(k)) by {
            assert forall|q: int| 0 <= q < k implies order.take(k)[q] == chain.take(k)[q] by {
                if q < k - 1 {
                    assert(order.take(k - 1)[q] == chain.take(k - 1)[q]);
                }
            }
        }
    }
}

/// When every trip of a route in one direction visits the same stops in the
/// same order, with no stop twice, the sorted order of that direction is
/// exactly that sequence and places every stop, whatever the order of the
/// trips.
#[verifier::rlimit(40)]
pub proof fn lemma_shared_linear_order_is_kept(
    trips: Seq<Trip>,
    route: Seq<char>,
    dir: Direction,
    chain: Seq<Seq<char>>,
    order: Seq<Seq<char>>,
)
    requires
        chain.no_duplicates(),
        has_trips(trips, route, dir),
        forall|i: int|
            0 <= i < trips.len() && #[trigger] selects(trips[i], route, dir) ==> stop_ids(trips[i])
                == chain,
        is_sorted_order(graph_nodes(trips, route, dir), graph_edges(trips, route, dir), order),
    ensures
        order == chain,
        order.to_set() == graph_nodes(trips, route, dir),
{
    let nodes = graph_nodes(trips, route, dir);
    let edges = graph_edges(trips, route, dir);
    lemma_chain_graph(trips, route, dir, chain);
    let n = order.len() as int;
    lemma_chain_prefix(nodes, edges, chain, order, n);
    assert(order.take(n) =~= order);
    if n < chain.len() {
        let x = chain[n];
        let done = order.to_set();
        assert(!done.contains(x)) by {
            if done.contains(x) {
                let q = choose|q: int| 0 <= q < n && #[trigger] order[q] == x;
                assert(chain.take(n)[q] == x);
            }
        }
        assert forall|p: Seq<char>| !#[trigger] links_left(edges, done).contains((p, x)) by {
            if links_left(edges, done).contains((p, x)) {
                let j = choose|j: int|
                    0 <= j && j + 1 < chain.len() && (p, x) == (#[trigger] chain[j], chain[j + 1]);
                assert(j + 1 == n);
                assert(order[j] == chain.take(n)[j]);
                assert(done.contains(p));
            }
        }
        assert(ready_after(nodes, edges, done, x));
    }
    assert(chain.take(n) =~= chain);
}

/// Two links in opposite senses between the same stops (A before B in one
/// trip, B before A in another) leave the sorted order partial: it cannot
/// place every stop.
pub proof fn lemma_conflicting_trips_leave_order_partial(
    trips: Seq<Trip>,
    route: Seq<char>,
    dir: Direction,
    order: Seq<Seq<char>>,
    a: Seq<char>,
    b: Seq<char>,
)
    requires
        is_sorted_order(graph_nodes(trips, route, dir), graph_edges(trips, route, dir), order),
        graph_edges(trips, route, dir).contains((a, b)),
        graph_edges(trips, route, dir).contains((b, a)),
    ensures
        order.to_set() != graph_nodes(trips, route, dir),
{
    let nodes = graph_nodes(trips, route, dir);
    let edges = graph_edges(trips, route, dir);
    let n = trips.len() as int;
    let (i, j) = choose|i: int, j: int|
        0 <= i <= n && i < trips.len() && selects(trips[i], route, dir) && 0 <= j && j + 1
            < trips[i].stop_times@.len() && (i < n || j + 1 < 0) && (a, b) == (
            #[trigger] stop_at(trips, i, j),
            stop_at(trips, i, j + 1),
        );
    assert(nodes.contains(stop_at(trips, i, j)));
    assert(nodes.contains(stop_at(trips, i, j + 1)));
    assert(nodes.contains(a));
    assert(nodes.contains(b));
    if order.to_set() == nodes {
        assert(order.to_set().contains(a));
        assert(order.to_set().contains(b));
        assert(order.contains(a));
        assert(order.contains(b));
        let ia = choose|q: int| 0 <= q < order.len() && #[trigger] order[q] == a;
        let ib = choose|q: int| 0 <= q < order.len() && #[trigger] order[q] == b;
        let k = if ia <= ib { ia } else { ib };
        let kd = if ia <= ib { ib } else { ia };
        let c = order[k];
        let d = order[kd];
        assert(order[ia] == a && order[ib] == b);
        assert(edges.contains((d, c)));
        let done = order.take(k).to_set();
        assert(ready_after(nodes, edges, done, c));
        assert(ready_after(nodes, edges, order.take(kd).to_set(), d));
        assert(!done.contains(d)) by {
            if done.contains(d) {
                let q = choose|q: int| 0 <= q < k && #[trigger] order.take(k)[q] == d;
                assert(order.take(kd)[q] == d);
            }
        }
        assert(links_left(edges, done).contains((d, c)));
    }
}

/// A route with inbound trips and no outbound trip gets its inbound order
/// from its own inbound trips: as soon as one of their stops has no
/// predecessor, that order is not empty; the outbound order is its reverse.
pub proof fn lemma_inbound_only_route_has_order(
    trips: Seq<Trip>,
    route: Seq<char>,
    o: RouteStopOrder,
    x: Seq<char>,
)
    requires
        is_route_order(trips, route, o),
        !has_trips(trips, route, Direction::Outbound),
        graph_nodes(trips, route, Direction::Inbound).contains(x),
        forall|p: Seq<char>| !graph_edges(trips, route, Direction::Inbound).contains((p, x)),
    ensures
        o.inbound@.len() > 0,
        texts(o.outbound@) == texts(o.inbound@).reverse(),
{
    let nodes = graph_nodes(trips, route, Direction::Inbound);
    let edges = graph_edges(trips, route, Direction::Inbound);
    let n = trips.len() as int;
    let (i, j) = choose|i: int, j: int|
        0 <= i <= n && i < trips.len() && selects(trips[i], route, Direction::Inbound) && 0 <= j
            < trips[i].stop_times@.len() && (i < n || j < 0) && #[trigger] stop_at(trips, i, j)
            == x;
    assert(has_trips(trips, route, Direction::Inbound));
    if o.inbound@.len() == 0 {
        let done = texts(o.inbound@).to_set();
        assert(done =~= Set::<Seq<char>>::empty());
        assert(ready_after(nodes, edges, done, x));
    }
}

} // verus!

verus! {

/// A sorted order places each stop at most once.
pub proof fn lemma_sorted_order_has_no_duplicates(
    nodes: Set<Seq<char>>,
    edges: Set<(Seq<char>, Seq<char>)>,
    order: Seq<Seq<char>>,
)
    requires
        is_sorted_order(nodes, edges, order),
    ensures
        order.no_duplicates(),
{
    assert forall|a: int, b: int| 0 <= a < b < order.len() implies order[a] != order[b] by {
        assert(ready_after(nodes, edges, order.take(b).to_set(), order[b]));
        assert(order.take(b)[a] == order[a]);
        assert(order.take(b).to_set().contains(order[a]));
    }
}

} // verus!

verus! {

proof fn lemma_text_less_total(a: Seq<char>, b: Seq<char>)
    requires
        a != b,
    ensures
        text_less(a, b) || text_less(b, a),
    decreases a.len(),
{
    if a.len() > 0 && b.len() > 0 && a[0] == b[0] {
        if a.drop_first() == b.drop_first() {
            assert(a =~= seq![a[0]] + a.drop_first());
            assert(b =~= seq![b[0]] + b.drop_first());
        }
        lemma_text_less_total(a.drop_first(), b.drop_first());
    } else if a.len() == 0 && b.len() == 0 {
        assert(a =~= b);
    } else if a.len() > 0 && b.len() > 0 {
        assert(a[0] != b[0]);
    }
}

proof fn lemma_sorted_prefix_agrees(
    nodes: Set<Seq<char>>,
    edges: Set<(Seq<char>, Seq<char>)>,
    o1: Seq<Seq<char>>,
    o2: Seq<Seq<char>>,
    k: int,
)
    requires
        is_sorted_order(nodes, edges, o1),
        is_sorted_order(nodes, edges, o2),
        0 <= k <= o1.len(),
        k <= o2.len(),
    ensures
        o1.take(k) == o2.take(k),
    decreases k,
{
    if k > 0 {
        lemma_sorted_prefix_agrees(nodes, edges, o1, o2, k - 1);
        let done = o1.take(k - 1).to_set();
        assert(o2.take(k - 1).to_set() == done);
        let x = o1[k - 1];
        let y = o2[k - 1];
        assert(ready_after(nodes, edges, done, x));
        assert(ready_after(nodes, edges, done, y));
        assert(!text_less(y, x));
        assert(!text_less(x, y));
        if x != y {
            lemma_text_less_total(x, y);
        }
        assert(o1.take(k) =~= o2.take(k)) by {
            assert forall|q: int| 0 <= q < k implies o1.take(k)[q] == o2.take(k)[q] by {
                if q < k - 1 {
                    assert(o1.take(k - 1)[q] == o2.take(k - 1)[q]);
                }
            }
        }
    }
}

/// A graph has one sorted order: the result depends on the stops and links
/// alone.
pub proof fn lemma_sorted_order_is_unique(
    nodes: Set<Seq<char>>,
    edges: Set<(Seq<char>, Seq<char>)>,
    o1: Seq<Seq<char>>,
    o2: Seq<Seq<char>>,
)
    requires
        is_sorted_order(nodes, edges, o1),
        is_sorted_order(nodes, edges, o2),
    ensures
        o1 == o2,
{
    if o1.len() < o2.len() {
        let n = o1.len() as int;
        lemma_sorted_prefix_agrees(nodes, edges, o1, o2, n);
        assert(o1.take(n) =~= o1);
        assert(ready_after(nodes, edges, o2.take(n).to_set(), o2[n]));
    } else if o2.len() < o1.len() {
        let n = o2.len() as int;
        lemma_sorted_prefix_agrees(nodes, edges, o2, o1, n);
        assert(o2.take(n) =~= o2);
        assert(ready_after(nodes, edges, o1.take(n).to_set(), o1[n]));
    } else {
        let n = o1.len() as int;
        lemma_sorted_prefix_agrees(nodes, edges, o1, o2, n);
        assert(o1.take(n) =~= o1);
        assert(o2.take(n) =~= o2);
    }
}

proof fn lemma_same_trips_same_graph(
    trips1: Seq<Trip>,
    trips2: Seq<Trip>,
    route: Seq<char>,
    dir: Direction,
)
    requires
        trips1.to_set() == trips2.to_set(),
    ensures
        graph_nodes(trips1, route, dir) == graph_nodes(trips2, route, dir),
        graph_edges(trips1, route, dir) == graph_edges(trips2, route, dir),
{
    assert forall|a: Seq<Trip>, b: Seq<Trip>, x: Seq<char>|
        a.to_set() == b.to_set() && #[trigger] graph_nodes(a, route, dir).contains(x)
            implies #[trigger] graph_nodes(b, route, dir).contains(x) by {
        let n = a.len() as int;
        let (i, j) = choose|i: int, j: int|
            0 <= i <= n && i < a.len() && selects(a[i], route, dir) && 0 <= j
                < a[i].stop_times@.len() && (i < n || j < 0) && #[trigger] stop_at(a, i, j) == x;
        assert(a.to_set().contains(a[i]));
        assert(b.to_set().contains(a[i]));
        let i2 = choose|i2: int| 0 <= i2 < b.len() && b[i2] == a[i];
        assert(stop_at(b, i2, j) == x);
    }
    assert forall|a: Seq<Trip>, b: Seq<Trip>, e: (Seq<char>, Seq<char>)|
        a.to_set() == b.to_set() && #[trigger] graph_edges(a, route, dir).contains(e)
            implies #[trigger] graph_edges(b, route, dir).contains(e) by {
        let n = a.len() as int;
        let (i, j) = choose|i: int, j: int|
            0 <= i <= n && i < a.len() && selects(a[i], route, dir) && 0 <= j && j + 1
                < a[i].stop_times@.len() && (i < n || j + 1 < 0) && e == (
                #[trigger] stop_at(a, i, j),
                stop_at(a, i, j + 1),
            );
        assert(a.to_set().contains(a[i]));
        assert(b.to_set().contains(a[i]));
        let i2 = choose|i2: int| 0 <= i2 < b.len() && b[i2] == a[i];
        assert(e == (stop_at(b, i2, j), stop_at(b, i2, j + 1)));
    }
    assert(graph_nodes(trips1, route, dir) =~= graph_nodes(trips2, route, dir));
    assert(graph_edges(trips1, route, dir) =~= graph_edges(trips2, route, dir));
}

/// The order of a direction does not depend on how the trips are
/// presented: any two trip tables holding the same trips (in any order,
/// with any repetition) give the same sorted order.
pub proof fn lemma_order_ignores_trip_order(
    trips1: Seq<Trip>,
    trips2: Seq<Trip>,
    route: Seq<char>,
    dir: Direction,
    o1: Seq<Seq<char>>,
    o2: Seq<Seq<char>>,
)
    requires
        trips1.to_set() == trips2.to_set(),
        is_sorted_order(graph_nodes(trips1, route, dir), graph_edges(trips1, route, dir), o1),
        is_sorted_order(graph_nodes(trips2, route, dir), graph_edges(trips2, route, dir), o2),
    ensures
        o1 == o2,
{
    lemma_same_trips_same_graph(trips1, trips2, route, dir);
    lemma_sorted_order_is_unique(
        graph_nodes(trips1, route, dir),
        graph_edges(trips1, route, dir),
        o1,
        o2,
    );
}

} // verus!

verus! {

proof fn lemma_edge_ends_are_nodes(
    trips: Seq<Trip>,
    route: Seq<char>,
    dir: Direction,
    e: (Seq<char>, Seq<char>),
)
    requires
        graph_edges(trips, route, dir).contains(e),
    ensures
        graph_nodes(trips, route, dir).contains(e.0),
        graph_nodes(trips, route, dir).contains(e.1),
{
    let n = trips.len() as int;
    let (i, j) = choose|i: int, j: int|
        0 <= i <= n && i < trips.len() && selects(trips[i], route, dir) && 0 <= j && j + 1
            < trips[i].stop_times@.len() && (i < n || j + 1 < 0) && e == (
            #[trigger] stop_at(trips, i, j),
            stop_at(trips, i, j + 1),
        );
    assert(graph_nodes(trips, route, dir).contains(stop_at(trips, i, j)));
    assert(graph_nodes(trips, route, dir).contains(stop_at(trips, i, j + 1)));
}

proof fn lemma_link_goes_forward(
    nodes: Set<Seq<char>>,
    edges: Set<(Seq<char>, Seq<char>)>,
    order: Seq<Seq<char>>,
    kp: int,
    kx: int,
)
    requires
        is_sorted_order(nodes, edges, order),
        0 <= kp < order.len(),
        0 <= kx < order.len(),
        edges.contains((order[kp], order[kx])),
    ensures
        kp < kx,
{
    lemma_sorted_order_has_no_duplicates(nodes, edges, order);
    let done = order.take(kx).to_set();
    assert(ready_after(nodes, edges, done, order[kx]));
    if kp >= kx {
        assert(!done.contains(order[kp])) by {
            if done.contains(order[kp]) {
                let q = choose|q: int| 0 <= q < kx && #[trigger] order.take(kx)[q] == order[kp];
                assert(order[q] == order[kp]);
            }
        }
        assert(links_left(edges, done).contains((order[kp], order[kx])));
    }
}

/// Position in `order` of the `i`-th stop of `c`.
spec fn position_of(order: Seq<Seq<char>>, c: Seq<Seq<char>>, i: int) -> int {
    choose|k: int| 0 <= k < order.len() && order[k] == c[i]
}

proof fn lemma_cycle_positions_grow(
    nodes: Set<Seq<char>>,
    edges: Set<(Seq<char>, Seq<char>)>,
    order: Seq<Seq<char>>,
    c: Seq<Seq<char>>,
    i: int,
)
    requires
        is_sorted_order(nodes, edges, order),
        forall|j: int| 0 <= j < c.len() ==> order.contains(#[trigger] c[j]),
        forall|j: int| 0 <= j < c.len() - 1 ==> edges.contains((#[trigger] c[j], c[j + 1])),
        0 <= i < c.len(),
    ensures
        0 <= position_of(order, c, i) < order.len(),
        order[position_of(order, c, i)] == c[i],
        position_of(order, c, 0) <= position_of(order, c, i),
    decreases i,
{
    assert(order.contains(c[i]));
    if i > 0 {
        lemma_cycle_positions_grow(nodes, edges, order, c, i - 1);
        assert(edges.contains((c[i - 1], c[i])));
        lemma_link_goes_forward(
            nodes,
            edges,
            order,
            position_of(order, c, i - 1),
            position_of(order, c, i),
        );
    }
}

/// Links that close a cycle of stops (each stop of `c` followed by the next
/// in some trip, and the last by the first) leave the sorted order partial:
/// it cannot place every stop.
pub proof fn lemma_cycle_leaves_order_partial(
    trips: Seq<Trip>,
    route: Seq<char>,
    dir: Direction,
    order: Seq<Seq<char>>,
    c: Seq<Seq<char>>,
)
    requires
        is_sorted_order(graph_nodes(trips, route, dir), graph_edges(trips, route, dir), order),
        c.len() >= 1,
        forall|j: int|
            0 <= j < c.len() - 1 ==> graph_edges(trips, route, dir).contains(
                (#[trigger] c[j], c[j + 1]),
            ),
        graph_edges(trips, route, dir).contains((c[c.len() - 1], c[0])),
    ensures
        order.to_set() != graph_nodes(trips, route, dir),
{
    let nodes = graph_nodes(trips, route, dir);
    let edges = graph_edges(trips, route, dir);
    let n = c.len() - 1;
    if order.to_set() == nodes {
        assert forall|j: int| 0 <= j < c.len() implies order.contains(#[trigger] c[j]) by {
            if j < n {
                lemma_edge_ends_are_nodes(trips, route, dir, (c[j], c[j + 1]));
            } else {
                lemma_edge_ends_are_nodes(trips, route, dir, (c[n], c[0]));
            }
            assert(order.to_set().contains(c[j]));
        }
        lemma_cycle_positions_grow(nodes, edges, order, c, n);
        lemma_cycle_positions_grow(nodes, edges, order, c, 0);
        lemma_link_goes_forward(
            nodes,
            edges,
            order,
            position_of(order, c, n),
            position_of(order, c, 0),
        );
    }
}

} // verus!
