//! A queue of pending work items (indices of directories still to be
//! processed), backed by crossbeam's unbounded concurrent queue. The library
//! drains it sequentially; a surrounding application may share one queue
//! between several workers.
//!
//! No ordering is assumed between items: `pop` is only specified to remove
//! some element of the queue.

use vstd::prelude::*;
use vstd::multiset::Multiset;
use vstd::seq_lib::group_to_multiset_ensures;
use crossbeam::queue::SegQueue;

verus! {

#[verifier::external_type_specification]
#[verifier::external_body]
#[verifier::reject_recursive_types(T)]
pub struct ExSegQueue<T>(SegQueue<T>);

/// The items currently in the queue, oldest first.
pub uninterp spec fn seg_queue_items(q: SegQueue<usize>) -> Seq<usize>;

/// Relies on `crossbeam::queue::SegQueue::new`: creates a new empty queue.
#[verifier::external_body]
fn seg_new() -> (q: SegQueue<usize>)
    ensures
        seg_queue_items(q) == Seq::<usize>::empty(),
{
    SegQueue::new()
}

/// Relies on `crossbeam::queue::SegQueue::push`: appends an element to the
/// back of the queue.
#[verifier::external_body]
fn seg_push(q: &mut SegQueue<usize>, value: usize)
    ensures
        seg_queue_items(*final(q)) == seg_queue_items(*old(q)).push(value),
{
    q.push(value)
}

/// Relies on `crossbeam::queue::SegQueue::pop`: removes an element from the
/// queue, returning `None` if the queue is empty. Stated weakly: some
/// element of the queue is removed.
#[verifier::external_body]
fn seg_pop(q: &mut SegQueue<usize>) -> (r: Option<usize>)
    ensures
        match r {
            None => seg_queue_items(*old(q)).len() == 0 && seg_queue_items(*final(q))
                == seg_queue_items(*old(q)),
            Some(v) => exists|k: int|
                0 <= k < seg_queue_items(*old(q)).len() && seg_queue_items(*old(q))[k] == v
                    && seg_queue_items(*final(q)) == seg_queue_items(*old(q)).remove(k),
        },
{
    q.pop()
}

/// Relies on `crossbeam::queue::SegQueue::len`: returns the number of
/// elements in the queue.
#[verifier::external_body]
fn seg_len(q: &SegQueue<usize>) -> (n: usize)
    ensures
        n == seg_queue_items(*q).len(),
{
    q.len()
}

/// A queue of pending work items.
pub struct WorkQueue {
    q: SegQueue<usize>,
}

impl WorkQueue {
    /// The items currently in the queue.
    pub closed spec fn items(&self) -> Seq<usize> {
        seg_queue_items(self.q)
    }

    /// Creates an empty queue.
    pub fn new() -> (r: WorkQueue)
        ensures
            r.items() == Seq::<usize>::empty(),
    {
        WorkQueue { q: seg_new() }
    }

    /// Appends an item.
    pub fn push(&mut self, value: usize)
        ensures
            final(self).items() == old(self).items().push(value),
    {
        seg_push(&mut self.q, value)
    }

    /// Removes and returns some item, or `None` if the queue is empty.
    pub fn pop(&mut self) -> (r: Option<usize>)
        ensures
            match r {
                None => old(self).items().len() == 0 && final(self).items() == old(self).items(),
                Some(v) => exists|k: int|
                    0 <= k < old(self).items().len() && old(self).items()[k] == v
                        && final(self).items() == old(self).items().remove(k),
            },
    {
        let ghost pre = seg_queue_items(self.q);
        let r = seg_pop(&mut self.q);
        proof {
            assert(pre == old(self).items());
            assert(self.items() == seg_queue_items(self.q));
        }
        r
    }

    /// The number of items in the queue.
    pub fn len(&self) -> (n: usize)
        ensures
            n == self.items().len(),
    {
        seg_len(&self.q)
    }

    /// Drains the queue fully: every item that was in the queue comes out
    /// exactly once, regardless of the order in which items are popped, and
    /// the queue is left empty.
    pub fn drain(&mut self) -> (r: Vec<usize>)
        ensures
            final(self).items() == Seq::<usize>::empty(),
            r@.to_multiset() == old(self).items().to_multiset(),
            r@.len() == old(self).items().len(),
    {
        broadcast use group_to_multiset_ensures;

        let mut out: Vec<usize> = Vec::new();
        proof {
            assert(out@.to_multiset().add(self.items().to_multiset()) =~= old(
                self,
            ).items().to_multiset());
        }
        loop
            invariant
                out@.to_multiset().add(self.items().to_multiset()) == old(
                    self,
                ).items().to_multiset(),
                out@.len() + self.items().len() == old(self).items().len(),
            ensures
                self.items().len() == 0,
                out@.to_multiset() == old(self).items().to_multiset(),
                out@.len() == old(self).items().len(),
            decreases self.items().len(),
        {
            let ghost prev_items = self.items();
            let ghost prev_out = out@;
            match self.pop() {
                Some(v) => {
                    out.push(v);
                    proof {
                        let k = choose|k: int|
                            0 <= k < prev_items.len() && prev_items[k] == v && self.items()
                                == prev_items.remove(k);
                        prev_items.to_multiset_ensures();
                        prev_out.to_multiset_ensures();
                        assert(prev_items.remove(k).to_multiset() =~= prev_items.to_multiset()
                            .remove(v));
                        assert(prev_out.push(v).to_multiset() =~= prev_out.to_multiset().insert(
                            v,
                        ));
                        assert(out@.to_multiset().add(self.items().to_multiset())
                            =~= prev_out.to_multiset().add(prev_items.to_multiset()));
                    }
                },
                None => {
                    proof {
                        broadcast use vstd::multiset::lemma_multiset_empty_len;

                        self.items().to_multiset_ensures();
                        assert(self.items().to_multiset().len() == 0);
                        assert(self.items().to_multiset() =~= Multiset::<usize>::empty());
                        assert(out@.to_multiset().add(Multiset::<usize>::empty())
                            =~= out@.to_multiset());
                    }
                    break ;
                },
            }
        }
        proof {
            assert(self.items() =~= Seq::<usize>::empty());
        }
        out
    }
}

} // verus!
