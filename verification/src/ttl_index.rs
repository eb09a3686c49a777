//! The expiration index: a double-ended priority queue from an outside
//! crate, keyed by the stored keys and ordered by absolute expiry instants
//! in milliseconds. Only this module touches the queue; everything it states
//! about the queue is said over `dpq_entries`, the name given to what a
//! queue value holds.

use priority_queue::double_priority_queue::DoublePriorityQueue;
use vstd::prelude::*;

verus! {

#[verifier::external_type_specification]
#[verifier::external_body]
#[verifier::reject_recursive_types(I)]
#[verifier::reject_recursive_types(P)]
#[verifier::reject_recursive_types(H)]
pub struct ExDoublePriorityQueue<I, P, H>(DoublePriorityQueue<I, P, H>);

/// The concrete expiration queue: stored keys ordered by expiry instant.
pub type TtlQueue = DoublePriorityQueue<String, i64>;

/// What an expiration queue holds: each tracked key, mapped to the expiry
/// instant it was pushed with.
pub uninterp spec fn dpq_entries(q: TtlQueue) -> Map<Seq<char>, int>;

/// An expiration queue that tracks nothing.
pub open spec fn dpq_no_entries(q: TtlQueue) -> bool {
    dpq_entries(q) == Map::<Seq<char>, int>::empty()
}

/// Relies on `DoublePriorityQueue::new`: the queue starts empty.
#[verifier::external_body]
pub(crate) fn dpq_new() -> (q: TtlQueue)
    ensures
        dpq_no_entries(q),
{
    DoublePriorityQueue::new()
}

/// Relies on `DoublePriorityQueue::push`: inserts the pair, or updates the
/// priority of an item already present.
#[verifier::external_body]
pub(crate) fn dpq_push(q: &mut TtlQueue, key: String, expiry: i64)
    ensures
        dpq_entries(*final(q)) == dpq_entries(*old(q)).insert(key@, expiry as int),
{
    q.push(key, expiry);
}

/// Relies on `DoublePriorityQueue::get`: returns the tracked pair exactly
/// when the item is present.
#[verifier::external_body]
pub(crate) fn dpq_contains(q: &TtlQueue, key: &String) -> (r: bool)
    ensures
        r == dpq_entries(*q).dom().contains(key@),
{
    q.get(key).is_some()
}

/// Relies on `DoublePriorityQueue::remove`: removes the item if tracked, a
/// no-op otherwise.
#[verifier::external_body]
pub(crate) fn dpq_remove(q: &mut TtlQueue, key: &String)
    ensures
        dpq_entries(*final(q)) == dpq_entries(*old(q)).remove(key@),
{
    q.remove(key);
}

/// Relies on `DoublePriorityQueue::peek_min`: returns a pair with the lowest
/// priority in the queue, or nothing exactly when the queue is empty. Which
/// of several equally low pairs comes back is left open.
#[verifier::external_body]
pub(crate) fn dpq_peek_min(q: &TtlQueue) -> (r: Option<(String, i64)>)
    ensures
        match r {
            None => dpq_no_entries(*q),
            Some((k, e)) => dpq_entries(*q).contains_pair(k@, e as int) && (forall|k2: Seq<char>|
                dpq_entries(*q).dom().contains(k2) ==> e as int <= #[trigger] dpq_entries(*q)[k2]),
        },
{
    q.peek_min().map(|(k, e)| (k.clone(), *e))
}

} // verus!
