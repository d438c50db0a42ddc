use std::collections::hash_map::RandomState;
use vstd::prelude::*;

verus! {

#[verifier::external_type_specification]
#[verifier::external_body]
#[verifier::reject_recursive_types(I)]
#[verifier::reject_recursive_types(P)]
#[verifier::reject_recursive_types(H)]
pub struct ExPriorityQueue<I, P, H>(priority_queue::PriorityQueue<I, P, H>);

/// The priority structure behind the search frontier: arena indices of search
/// nodes, each carrying one priority.
pub type Frontier = priority_queue::PriorityQueue<usize, u128, RandomState>;

/// The contents of a frontier: the priority each queued index carries. The
/// queue keys items by equality, so a mathematical map is its exact shape.
pub uninterp spec fn pq_view(q: Frontier) -> Map<usize, u128>;

/// The empty frontier contents.
pub open spec fn pq_empty() -> Map<usize, u128> {
    Map::empty()
}

/// Relies on `PriorityQueue::new`: the fresh queue is empty.
#[verifier::external_body]
pub(crate) fn pq_new() -> (q: Frontier)
    ensures
        pq_view(q) == pq_empty(),
{
    priority_queue::PriorityQueue::new()
}

/// Relies on `PriorityQueue::is_empty`: true exactly when the queue holds no
/// elements.
#[verifier::external_body]
pub(crate) fn pq_is_empty(q: &Frontier) -> (r: bool)
    ensures
        r <==> pq_view(*q) == pq_empty(),
{
    q.is_empty()
}

/// Relies on `PriorityQueue::push`: the pair is inserted, and an item equal to
/// one already present has its priority replaced.
#[verifier::external_body]
pub(crate) fn pq_push(q: &mut Frontier, item: usize, priority: u128)
    ensures
        pq_view(*final(q)) == pq_view(*old(q)).insert(item, priority),
{
    q.push(item, priority);
}

/// Relies on `PriorityQueue::pop`: it removes and returns an item with the
/// greatest priority, or returns None and changes nothing when the queue is
/// empty.
#[verifier::external_body]
pub(crate) fn pq_pop(q: &mut Frontier) -> (r: Option<(usize, u128)>)
    ensures
        match r {
            None => pq_view(*old(q)) == pq_empty() && pq_view(*final(q))
                == pq_view(*old(q)),
            Some((item, priority)) => pq_view(*old(q)).contains_pair(item, priority) && pq_view(
                *final(q),
            ) == pq_view(*old(q)).remove(item) && forall|j: usize|
                #[trigger] pq_view(*old(q)).dom().contains(j) ==> pq_view(*old(q))[j] <= priority,
        },
{
    q.pop()
}

/// Relies on `PriorityQueue::remove`: the entry for the item leaves the queue
/// and is returned, or None is returned and nothing changes when the item is
/// not queued.
#[verifier::external_body]
pub(crate) fn pq_remove(q: &mut Frontier, item: usize) -> (r: Option<(usize, u128)>)
    ensures
        pq_view(*final(q)) == pq_view(*old(q)).remove(item),
        match r {
            None => !pq_view(*old(q)).dom().contains(item),
            Some((i, priority)) => i == item && pq_view(*old(q)).contains_pair(item, priority),
        },
{
    q.remove(&item)
}

}
