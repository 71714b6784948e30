//! The priority queue that orders the handles of queued tasks.
//!
//! The queue itself is `priority_queue::PriorityQueue`. Its contents are named
//! here, and each of its methods that this crate calls is given the contract
//! that the rest of the crate is proved against. None of these contracts is
//! proved: they restate what the queue's implementation does.

use priority_queue::PriorityQueue;
use std::cmp::Reverse;
use vstd::prelude::*;

verus! {

#[verifier::external_type_specification]
#[verifier::external_body]
#[verifier::reject_recursive_types(I)]
#[verifier::reject_recursive_types(P)]
#[verifier::reject_recursive_types(H)]
pub struct ExPriorityQueue<I, P, H>(PriorityQueue<I, P, H>);

#[verifier::external_type_specification]
#[verifier::external_body]
#[verifier::reject_recursive_types(T)]
pub struct ExReverse<T>(Reverse<T>);

/// A queue of handles. The priority of a handle is the reverse of its pair
/// `(key, sequence number)`, so the handle with the least pair comes out first.
pub type Heap = PriorityQueue<u64, Reverse<(u32, u64)>>;

/// A handle together with the pair it is queued under.
#[derive(Clone, Copy, Debug)]
pub struct Ticket {
    pub handle: u64,
    pub key: u32,
    pub seq: u64,
}

/// The handles that a queue holds, each with the pair it is queued under.
pub uninterp spec fn heap_contents(q: Heap) -> Map<u64, (u32, u64)>;

/// The order of `Reverse<(u32, u64)>`: `a` has the greater priority when it is
/// the lesser pair, pairs being compared by their first parts and then by
/// their second.
pub open spec fn outranks(a: (u32, u64), b: (u32, u64)) -> bool {
    a.0 < b.0 || (a.0 == b.0 && a.1 < b.1)
}

/// Whether `t` is a ticket of `m` that no other outranks.
pub open spec fn is_top(m: Map<u64, (u32, u64)>, t: Ticket) -> bool {
    &&& m.contains_key(t.handle)
    &&& m[t.handle] == (t.key, t.seq)
    &&& forall|h: u64| #[trigger] m.contains_key(h) ==> !outranks(m[h], (t.key, t.seq))
}

/// `PriorityQueue::new`: a queue that holds nothing.
#[verifier::external_body]
pub(crate) fn heap_new() -> (q: Heap)
    ensures
        heap_contents(q).dom() == Set::<u64>::empty(),
{
    PriorityQueue::new()
}

/// `PriorityQueue::is_empty`: whether the queue holds no handle.
#[verifier::external_body]
pub(crate) fn heap_is_empty(q: &Heap) -> (b: bool)
    ensures
        b == (heap_contents(*q).dom() == Set::<u64>::empty()),
{
    q.is_empty()
}

/// `PriorityQueue::push`: the handle is queued under the given pair; if it
/// was queued already, the pair replaces the one it had.
#[verifier::external_body]
pub(crate) fn heap_push(q: &mut Heap, t: Ticket)
    ensures
        heap_contents(*final(q)) == heap_contents(*old(q)).insert(t.handle, (t.key, t.seq)),
{
    q.push(t.handle, Reverse((t.key, t.seq)));
}

/// `PriorityQueue::peek`: a handle that no other outranks, with its pair, or
/// `None` when the queue holds nothing.
#[verifier::external_body]
pub(crate) fn heap_peek(q: &Heap) -> (r: Option<Ticket>)
    ensures
        match r {
            Some(t) => is_top(heap_contents(*q), t),
            None => heap_contents(*q).dom() == Set::<u64>::empty(),
        },
{
    match q.peek() {
        Some((h, p)) => Some(Ticket { handle: *h, key: p.0.0, seq: p.0.1 }),
        None => None,
    }
}

/// `PriorityQueue::pop`: takes out a handle that no other outranks and
/// returns it with its pair; `None`, and no change, when the queue holds
/// nothing.
#[verifier::external_body]
pub(crate) fn heap_pop(q: &mut Heap) -> (r: Option<Ticket>)
    ensures
        match r {
            Some(t) => is_top(heap_contents(*old(q)), t) && heap_contents(*final(q))
                == heap_contents(*old(q)).remove(t.handle),
            None => heap_contents(*old(q)).dom() == Set::<u64>::empty() && heap_contents(
                *final(q),
            ) == heap_contents(*old(q)),
        },
{
    match q.pop() {
        Some((h, p)) => Some(Ticket { handle: h, key: p.0.0, seq: p.0.1 }),
        None => None,
    }
}

/// `PriorityQueue::iter`: every handle of the queue once, with its pair, in
/// an order that is not stated.
#[verifier::external_body]
pub(crate) fn heap_tickets(q: &Heap) -> (v: Vec<Ticket>)
    ensures
        forall|i: int|
            0 <= i < v@.len() ==> heap_contents(*q).contains_key((#[trigger] v@[i]).handle)
                && heap_contents(*q)[v@[i].handle] == (v@[i].key, v@[i].seq),
        forall|i: int, j: int|
            0 <= i < j < v@.len() ==> (#[trigger] v@[i]).handle != (#[trigger] v@[j]).handle,
        forall|h: u64| #[trigger]
            heap_contents(*q).contains_key(h) ==> exists|i: int|
                0 <= i < v@.len() && (#[trigger] v@[i]).handle == h,
{
    q.iter().map(|(h, p)| Ticket { handle: *h, key: p.0.0, seq: p.0.1 }).collect()
}

} // verus!
