//! Pending-message queue. The chat loop processes one message per turn;
//! messages staged between turns (`/queue add <msg>`) are dequeued and
//! sent, oldest first, as the next prompts until the queue is empty.

use vstd::prelude::*;
use std::collections::VecDeque;

verus! {

/// Queue of pending user messages, oldest first.
pub struct PendingQueue {
    items: VecDeque<String>,
}

impl View for PendingQueue {
    type V = Seq<Seq<char>>;

    /// The queued messages, oldest first.
    closed spec fn view(&self) -> Seq<Seq<char>> {
        self.items@.map_values(|s: String| s@)
    }
}

impl PendingQueue {
    /// An empty queue.
    pub fn new() -> (r: Self)
        ensures
            r@ == Seq::<Seq<char>>::empty(),
    {
        let r = PendingQueue { items: VecDeque::new() };
        assert(r@ =~= Seq::<Seq<char>>::empty());
        r
    }

    /// Appends `msg` at the back.
    pub fn push(&mut self, msg: String)
        ensures
            final(self)@ == old(self)@.push(msg@),
    {
        self.items.push_back(msg);
        assert(self@ =~= old(self)@.push(msg@));
    }

    /// Removes and returns the oldest message; `None` when empty.
    pub fn pop_front(&mut self) -> (r: Option<String>)
        ensures
            old(self)@.len() == 0 ==> r is None && final(self)@ == old(self)@,
            old(self)@.len() > 0 ==> r is Some && r->0@ == old(self)@[0] && final(self)@
                == old(self)@.drop_first(),
    {
        let r = self.items.pop_front();
        assert(r is Some ==> self@ =~= old(self)@.drop_first());
        r
    }

    /// Number of queued messages.
    pub fn len(&self) -> (r: usize)
        ensures
            r == self@.len(),
    {
        broadcast use vstd::std_specs::vecdeque::group_vec_dequeue_axioms;
        self.items.len()
    }

    /// Whether nothing is queued.
    pub fn is_empty(&self) -> (r: bool)
        ensures
            r == (self@.len() == 0),
    {
        broadcast use vstd::std_specs::vecdeque::group_vec_dequeue_axioms;
        self.items.len() == 0
    }

    /// A copy of the queued messages, oldest first; nothing is dequeued.
    pub fn peek_all(&self) -> (r: Vec<String>)
        ensures
            r@.map_values(|s: String| s@) == self@,
    {
        broadcast use vstd::std_specs::vecdeque::group_vec_dequeue_axioms;
        let mut out: Vec<String> = Vec::new();
        let mut i: usize = 0;
        while i < self.items.len()
            invariant
                i <= self.items@.len(),
                out@.len() == i,
                forall|k: int| 0 <= k < i ==> #[trigger] out@[k]@ == self.items@[k]@,
            decreases self.items@.len() - i,
        {
            let s = self.items[i].clone();
            out.push(s);
            i += 1;
        }
        assert(out@.map_values(|s: String| s@) =~= self@);
        out
    }

    /// Drops every queued message.
    pub fn clear(&mut self)
        ensures
            final(self)@ == Seq::<Seq<char>>::empty(),
    {
        self.items.clear();
        assert(self@ =~= Seq::<Seq<char>>::empty());
    }
}

/// Messages come out in the order they went in: pushing `m` onto a queue
/// and then popping yields the old head if there was one, else `m`; and
/// the remaining queue is what was left plus `m` at the back.
pub proof fn lemma_fifo(q: Seq<Seq<char>>, m: Seq<char>)
    ensures
        q.len() > 0 ==> q.push(m)[0] == q[0] && q.push(m).drop_first() == q.drop_first().push(m),
        q.len() == 0 ==> q.push(m)[0] == m && q.push(m).drop_first() == Seq::<Seq<char>>::empty(),
{
    if q.len() > 0 {
        assert(q.push(m).drop_first() =~= q.drop_first().push(m));
    } else {
        assert(q.push(m).drop_first() =~= Seq::<Seq<char>>::empty());
    }
}

} // verus!
