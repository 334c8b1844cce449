//! The fixed-capacity containers the scheduler works with, from `arrayvec`
//! and `heapless`.
use arrayvec::ArrayVec;
use heapless::Deque;
use vstd::prelude::*;

verus! {

/// Most nodes a graph holds.
pub const MAX_NODES: usize = 64;

#[verifier::external_type_specification]
#[verifier::external_body]
#[verifier::reject_recursive_types(T)]
pub struct ExArrayVec<T, const CAP: usize>(ArrayVec<T, CAP>);

#[verifier::external_type_specification]
#[verifier::external_body]
#[verifier::reject_recursive_types(T)]
pub struct ExDeque<T, const N: usize>(Deque<T, N>);

/// What an order vector holds, front to back.
pub uninterp spec fn order_items(v: ArrayVec<usize, 64>) -> Seq<usize>;

/// What a ready queue holds, front to back.
pub uninterp spec fn queue_items(q: Deque<usize, 64>) -> Seq<usize>;

/// Relies on `ArrayVec::new`: a new vector is empty.
#[verifier::external_body]
pub(crate) fn order_new() -> (r: ArrayVec<usize, 64>)
    ensures
        order_items(r) == Seq::<usize>::empty(),
{
    ArrayVec::new()
}

/// Relies on `ArrayVec::try_push`: appends while below capacity, else
/// returns an error and leaves the vector as it was.
#[verifier::external_body]
pub(crate) fn order_try_push(v: &mut ArrayVec<usize, 64>, x: usize) -> (r: bool)
    ensures
        order_items(*old(v)).len() < 64 ==> r && order_items(*final(v)) == order_items(*old(v)).push(x),
        order_items(*old(v)).len() >= 64 ==> !r && order_items(*final(v)) == order_items(*old(v)),
{
    v.try_push(x).is_ok()
}

/// Relies on `ArrayVec::len`: the number of items held.
#[verifier::external_body]
pub(crate) fn order_len(v: &ArrayVec<usize, 64>) -> (r: usize)
    ensures
        r == order_items(*v).len(),
{
    v.len()
}

/// Relies on indexing an `ArrayVec` through its slice.
#[verifier::external_body]
pub(crate) fn order_get(v: &ArrayVec<usize, 64>, i: usize) -> (r: usize)
    requires
        i < order_items(*v).len(),
    ensures
        r == order_items(*v)[i as int],
{
    v.as_slice()[i]
}

/// Relies on `Deque::new`: a new deque is empty.
#[verifier::external_body]
pub(crate) fn queue_new() -> (r: Deque<usize, 64>)
    ensures
        queue_items(r) == Seq::<usize>::empty(),
{
    Deque::new()
}

/// Relies on `Deque::push_back`: appends at the back unless the deque is
/// full, in which case it hands the item back and stays as it was.
#[verifier::external_body]
pub(crate) fn queue_push_back(q: &mut Deque<usize, 64>, x: usize) -> (r: bool)
    ensures
        queue_items(*old(q)).len() < 64 ==> r && queue_items(*final(q)) == queue_items(*old(q)).push(x),
        queue_items(*old(q)).len() >= 64 ==> !r && queue_items(*final(q)) == queue_items(*old(q)),
{
    q.push_back(x).is_ok()
}

/// Relies on `Deque::pop_front`: removes and returns the front item, or
/// `None` on an empty deque.
#[verifier::external_body]
pub(crate) fn queue_pop_front(q: &mut Deque<usize, 64>) -> (r: Option<usize>)
    ensures
        queue_items(*old(q)).len() == 0 ==> r is None && queue_items(*final(q)) == queue_items(*old(q)),
        queue_items(*old(q)).len() > 0 ==> r == Some(queue_items(*old(q))[0])
            && queue_items(*final(q)) == queue_items(*old(q)).drop_first(),
{
    q.pop_front()
}

/// Relies on `Deque::is_empty`.
#[verifier::external_body]
pub(crate) fn queue_is_empty(q: &Deque<usize, 64>) -> (r: bool)
    ensures
        r == (queue_items(*q).len() == 0),
{
    q.is_empty()
}

} // verus!
