use vstd::prelude::*;

use queues::IsQueue;
use queues::Queue;

verus! {

/// Declares queues::Queue so that its values can stand in signatures;
/// Verus sees nothing inside one.
#[verifier::external_type_specification]
#[verifier::external_body]
#[verifier::reject_recursive_types(T)]
pub struct ExQueue<T: Clone>(Queue<T>);

/// What a queue of node indices holds, front first.
pub uninterp spec fn queue_indices(q: Queue<usize>) -> Seq<usize>;

/// Relies on queues::Queue::new: it creates a queue holding nothing.
#[verifier::external_body]
pub(crate) fn queue_new() -> (q: Queue<usize>)
    ensures
        queue_indices(q) == Seq::<usize>::empty(),
{
    Queue::new()
}

/// Relies on queues::Queue::add: it appends the value at the back and,
/// on this unbounded queue, always returns Ok.
#[verifier::external_body]
pub(crate) fn queue_add(q: &mut Queue<usize>, v: usize)
    ensures
        queue_indices(*final(q)) == queue_indices(*old(q)).push(v),
{
    let _ = q.add(v);
}

/// Relies on queues::Queue::remove: it removes and returns the front
/// element, and fails only on an empty queue.
#[verifier::external_body]
pub(crate) fn queue_remove(q: &mut Queue<usize>) -> (r: usize)
    requires
        queue_indices(*old(q)).len() > 0,
    ensures
        r == queue_indices(*old(q))[0],
        queue_indices(*final(q)) == queue_indices(*old(q)).drop_first(),
{
    q.remove().unwrap()
}

/// Relies on queues::Queue::size: it returns the number of held elements.
#[verifier::external_body]
pub(crate) fn queue_size(q: &Queue<usize>) -> (n: usize)
    ensures
        n == queue_indices(*q).len(),
{
    q.size()
}

} // verus!
