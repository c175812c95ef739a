//! Resting orders: a priority queue that yields the best order first.

use vstd::multiset::Multiset;
use vstd::prelude::*;

verus! {

/// An order at rest: the bid on the signed scale, and the place of the agent
/// that made it.
#[derive(Clone, Copy, Debug, PartialEq, Eq, Structural)]
pub struct Order {
    /// The bid on the signed scale.
    pub bid: i64,
    /// The place of the agent in its population.
    pub agent: usize,
}

impl Order {
    /// `self` is served before `other`: it bids more, or bids the same and
    /// belongs to the agent that comes first.
    pub open spec fn outranks(self, other: Order) -> bool {
        self.bid > other.bid || (self.bid == other.bid && self.agent < other.agent)
    }

    /// Whether `self` is served before `other`.
    pub fn beats(&self, other: &Order) -> (b: bool)
        ensures
            b == self.outranks(*other),
    {
        self.bid > other.bid || (self.bid == other.bid && self.agent < other.agent)
    }
}

/// The slot above slot `i` in the implicit tree.
spec fn parent(i: int) -> int {
    (i - 1) / 2
}

/// No slot outranks the slot above it, except that slot `hole` may outrank
/// its parent; the slots below `hole` do not outrank the slot above it.
spec fn sound_but_above(s: Seq<Order>, hole: int) -> bool {
    &&& forall|i: int| 0 < i < s.len() && i != hole ==> !(#[trigger] s[i]).outranks(s[parent(i)])
    &&& forall|i: int|
        0 < i < s.len() && parent(i) == hole && hole > 0 ==> !(#[trigger] s[i]).outranks(
            s[parent(hole)],
        )
}

/// No slot outranks the slot above it, except that the slots below `hole` may
/// outrank it; they do not outrank the slot above `hole`.
spec fn sound_but_below(s: Seq<Order>, hole: int) -> bool {
    &&& forall|i: int|
        0 < i < s.len() && parent(i) != hole ==> !(#[trigger] s[i]).outranks(s[parent(i)])
    &&& forall|i: int|
        0 < i < s.len() && parent(i) == hole && hole > 0 ==> !(#[trigger] s[i]).outranks(
            s[parent(hole)],
        )
}

/// No slot outranks the slot above it.
spec fn sound(s: Seq<Order>) -> bool {
    forall|i: int| 0 < i < s.len() ==> !(#[trigger] s[i]).outranks(s[parent(i)])
}

/// In a sound tree nothing outranks the root.
proof fn lemma_root_is_best(s: Seq<Order>, i: int)
    requires
        sound(s),
        0 <= i < s.len(),
    ensures
        !s[i].outranks(s[0]),
    decreases i,
{
    if i > 0 {
        lemma_root_is_best(s, parent(i));
    }
}

/// Exchanging two slots keeps what the sequence holds.
proof fn lemma_swap_keeps_contents(s: Seq<Order>, i: int, j: int)
    requires
        0 <= i < s.len(),
        0 <= j < s.len(),
    ensures
        s.update(i, s[j]).update(j, s[i]).to_multiset() == s.to_multiset(),
{
    broadcast use vstd::seq_lib::group_to_multiset_ensures;

    let mid = s.update(i, s[j]);
    let end = mid.update(j, s[i]);
    assert(mid =~= s.remove(i).insert(i, s[j]));
    assert(end =~= mid.remove(j).insert(j, s[i]));
    assert(s.contains(s[i]));
    assert(mid.contains(mid[j]));
    assert(end.to_multiset() =~= s.to_multiset());
}

/// The resting orders of one side of a market, best first.
pub struct OrderQueue {
    heap: Vec<Order>,
}

impl View for OrderQueue {
    type V = Multiset<Order>;

    /// The orders at rest, each as often as it was pushed and not yet popped.
    closed spec fn view(&self) -> Multiset<Order> {
        self.heap@.to_multiset()
    }
}

impl OrderQueue {
    /// The queue is in the shape its operations keep.
    pub closed spec fn wf(&self) -> bool {
        sound(self.heap@)
    }

    /// `order` is at rest and no order at rest outranks it.
    pub open spec fn is_best(&self, order: Order) -> bool {
        &&& self@.contains(order)
        &&& forall|x: Order| self@.contains(x) ==> !x.outranks(order)
    }

    /// The first slot of a queue that is not empty holds its best order.
    proof fn lemma_first_is_best(&self)
        requires
            self.wf(),
            self.heap@.len() > 0,
        ensures
            self.is_best(self.heap@[0]),
    {
        broadcast use vstd::seq_lib::group_to_multiset_ensures;

        let order = self.heap@[0];
        assert(self.heap@.contains(order));
        assert forall|x: Order| self@.contains(x) implies !x.outranks(order) by {
            assert(self.heap@.contains(x));
            let i = choose|i: int| 0 <= i < self.heap@.len() && self.heap@[i] == x;
            lemma_root_is_best(self.heap@, i);
        }
    }

    /// A queue has at most one best order.
    pub proof fn lemma_best_unique(&self, a: Order, b: Order)
        requires
            self.is_best(a),
            self.is_best(b),
        ensures
            a == b,
    {
        assert(!a.outranks(b));
        assert(!b.outranks(a));
    }

    /// A queue with no order at rest.
    pub fn new() -> (queue: Self)
        ensures
            queue.wf(),
            queue@ == Multiset::<Order>::empty(),
    {
        let queue = OrderQueue { heap: Vec::new() };
        assert(queue.heap@.to_multiset() =~= Multiset::<Order>::empty()) by {
            broadcast use vstd::seq_lib::group_to_multiset_ensures;

        }
        queue
    }

    /// The number of orders at rest.
    pub fn len(&self) -> (n: usize)
        ensures
            n == self@.len(),
    {
        proof {
            broadcast use vstd::seq_lib::group_to_multiset_ensures;

        }
        self.heap.len()
    }

    /// The best order at rest, if any is.
    pub fn peek(&self) -> (top: Option<Order>)
        requires
            self.wf(),
        ensures
            match top {
                Some(order) => self.is_best(order),
                None => self@.len() == 0,
            },
    {
        proof {
            broadcast use vstd::seq_lib::group_to_multiset_ensures;

        }
        if self.heap.len() == 0 {
            None
        } else {
            proof {
                self.lemma_first_is_best();
            }
            Some(self.heap[0])
        }
    }

    /// Puts `order` to rest.
    pub fn push(&mut self, order: Order)
        requires
            old(self).wf(),
        ensures
            final(self).wf(),
            final(self)@ == old(self)@.insert(order),
    {
        proof {
            broadcast use vstd::seq_lib::group_to_multiset_ensures;

        }
        self.heap.push(order);
        let ghost pushed = self.heap@;
        let mut i: usize = self.heap.len() - 1;
        while i > 0
            invariant
                0 <= i < self.heap.len(),
                sound_but_above(self.heap@, i as int),
                self.heap@.to_multiset() == pushed.to_multiset(),
            ensures
                sound(self.heap@),
                self.heap@.to_multiset() == pushed.to_multiset(),
            decreases i,
        {
            let above: usize = (i - 1) / 2;
            let low: Order = self.heap[i];
            let high: Order = self.heap[above];
            if !low.beats(&high) {
                break ;
            }
            proof {
                lemma_swap_keeps_contents(self.heap@, i as int, above as int);
            }
            self.heap[i] = high;
            self.heap[above] = low;
            i = above;
        }
    }

    /// Takes the best order from the queue, if any is at rest.
    pub fn pop(&mut self) -> (top: Option<Order>)
        requires
            old(self).wf(),
        ensures
            final(self).wf(),
            match top {
                Some(order) => old(self).is_best(order) && final(self)@ == old(self)@.remove(order)
                    && final(self)@.len() == old(self)@.len() - 1,
                None => old(self)@.len() == 0 && final(self)@ == old(self)@,
            },
    {
        proof {
            broadcast use vstd::seq_lib::group_to_multiset_ensures;

        }
        if self.heap.len() == 0 {
            return None;
        }
        proof {
            self.lemma_first_is_best();
        }
        let first: Order = self.heap[0];
        let top: Option<Order> = Some(first);
        let last: Order = self.heap.pop().unwrap();
        let n: usize = self.heap.len();
        if n == 0 {
            assert(self.heap@ =~= old(self).heap@.remove(0));
            return top;
        }
        self.heap[0] = last;
        let ghost moved = self.heap@;
        proof {
            let before = old(self).heap@;
            assert(moved =~= before.update(0, last).remove(n as int));
            lemma_swap_keeps_contents(before, 0, n as int);
            assert(before.update(0, last).update(n as int, first).remove(n as int) =~= moved);
            assert(moved.to_multiset() =~= before.to_multiset().remove(first));
        }
        let mut i: usize = 0;
        while i < n / 2
            invariant
                n == self.heap.len(),
                0 <= i < n,
                sound_but_below(self.heap@, i as int),
                self.heap@.to_multiset() == moved.to_multiset(),
            ensures
                sound(self.heap@),
                self.heap@.to_multiset() == moved.to_multiset(),
            decreases n - i,
        {
            let left: usize = 2 * i + 1;
            let right: usize = left + 1;
            let child: usize = if right < n && self.heap[right].beats(&self.heap[left]) {
                right
            } else {
                left
            };
            let low: Order = self.heap[child];
            let high: Order = self.heap[i];
            if !low.beats(&high) {
                break ;
            }
            proof {
                lemma_swap_keeps_contents(self.heap@, i as int, child as int);
            }
            self.heap[i] = low;
            self.heap[child] = high;
            i = child;
        }
        top
    }
}

} // verus!
