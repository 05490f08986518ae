//! The dependency graph of the `topological_sort` crate, as the stop-order
//! resolver uses it.
//!
//! A sort holds items and links `(prec, succ)`; an item is ready when no link
//! leads into it. Removing a ready item drops the links that leave it.

use topological_sort::TopologicalSort;
use vstd::prelude::*;

verus! {

#[verifier::external_type_specification]
#[verifier::external_body]
#[verifier::reject_recursive_types(T)]
pub struct ExTopologicalSort<T>(TopologicalSort<T>);

/// The items that a sort of strings still holds.
pub uninterp spec fn sort_items(t: TopologicalSort<String>) -> Set<Seq<char>>;

/// The links `(prec, succ)` that a sort of strings still holds.
pub uninterp spec fn sort_links(t: TopologicalSort<String>) -> Set<(Seq<char>, Seq<char>)>;

/// `x` is held and no remaining link leads into it.
pub open spec fn is_ready(
    items: Set<Seq<char>>,
    links: Set<(Seq<char>, Seq<char>)>,
    x: Seq<char>,
) -> bool {
    items.contains(x) && forall|p: Seq<char>| !#[trigger] links.contains((p, x))
}

/// Relies on `TopologicalSort::new`: a sort with no items and no links.
#[verifier::external_body]
pub(crate) fn sort_new() -> (t: TopologicalSort<String>)
    ensures
        sort_items(t) == Set::<Seq<char>>::empty(),
        sort_links(t) == Set::<(Seq<char>, Seq<char>)>::empty(),
{
    TopologicalSort::new()
}

/// Relies on `TopologicalSort::insert`: the item is held afterwards, the
/// links are unchanged.
#[verifier::external_body]
pub(crate) fn sort_insert(t: &mut TopologicalSort<String>, item: String)
    ensures
        sort_items(*final(t)) == sort_items(*old(t)).insert(item@),
        sort_links(*final(t)) == sort_links(*old(t)),
        sort_items(*old(t)).finite() ==> sort_items(*final(t)).finite(),
{
    t.insert(item);
}

/// Relies on `TopologicalSort::add_dependency`: both items are held and the
/// link from `prec` to `succ` is recorded once.
#[verifier::external_body]
pub(crate) fn sort_add_dependency(t: &mut TopologicalSort<String>, prec: String, succ: String)
    ensures
        sort_items(*final(t)) == sort_items(*old(t)).insert(prec@).insert(succ@),
        sort_links(*final(t)) == sort_links(*old(t)).insert((prec@, succ@)),
        sort_items(*old(t)).finite() ==> sort_items(*final(t)).finite(),
{
    t.add_dependency(prec, succ);
}

/// Relies on `TopologicalSort::len`: the number of items still held.
#[verifier::external_body]
pub(crate) fn sort_len(t: &TopologicalSort<String>) -> (r: usize)
    ensures
        r == sort_items(*t).len(),
{
    t.len()
}

/// Relies on `TopologicalSort::peek_batch`: every ready item, each once.
#[verifier::external_body]
pub(crate) fn sort_ready(t: &TopologicalSort<String>) -> (r: Vec<String>)
    ensures
        forall|i: int, j: int| 0 <= i < j < r@.len() ==> r@[i]@ != r@[j]@,
        forall|i: int|
            0 <= i < r@.len() ==> is_ready(sort_items(*t), sort_links(*t), #[trigger] r@[i]@),
        forall|x: Seq<char>|
            is_ready(sort_items(*t), sort_links(*t), x) ==> exists|i: int|
                0 <= i < r@.len() && #[trigger] r@[i]@ == x,
{
    t.peek_batch().cloned().collect()
}

/// Relies on `TopologicalSort::remove`: a ready item is taken out with the
/// links leaving it; any other call changes nothing and returns `None`.
#[verifier::external_body]
pub(crate) fn sort_remove(t: &mut TopologicalSort<String>, item: &String) -> (r: Option<String>)
    ensures
        is_ready(sort_items(*old(t)), sort_links(*old(t)), item@) ==> {
            &&& r is Some
            &&& sort_items(*final(t)) == sort_items(*old(t)).remove(item@)
            &&& sort_links(*final(t)) == sort_links(*old(t)).filter(
                |l: (Seq<char>, Seq<char>)| l.0 != item@,
            )
        },
        !is_ready(sort_items(*old(t)), sort_links(*old(t)), item@) ==> {
            &&& r is None
            &&& sort_items(*final(t)) == sort_items(*old(t))
            &&& sort_links(*final(t)) == sort_links(*old(t))
        },
{
    t.remove(item)
}

} // verus!
