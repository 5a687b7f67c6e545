//! A binary min-heap of search states, ordered by cost and then by vertex.

use vstd::multiset::Multiset;
use vstd::prelude::*;
use vstd::seq_lib::{to_multiset_build, to_multiset_contains, to_multiset_len, to_multiset_update};

verus! {

/// A queue entry: a tentative distance and the vertex it was found for.
#[derive(Clone, Copy, Debug, PartialEq, Eq)]
pub struct State {
    pub cost: i64,
    pub position: usize,
}

impl State {
    /// The queue's order: lower cost first, and among equal costs the lower
    /// vertex index first.
    pub open spec fn precedes(self, other: State) -> bool {
        self.cost < other.cost || (self.cost == other.cost && self.position <= other.position)
    }

    /// Decides `precedes`.
    pub fn goes_before(&self, other: &State) -> (b: bool)
        ensures
            b == self.precedes(*other),
    {
        self.cost < other.cost || (self.cost == other.cost && self.position <= other.position)
    }
}

/// Slot `i` is one of the two slots below slot `j`.
spec fn is_child(j: int, i: int) -> bool {
    i == 2 * j + 1 || i == 2 * j + 2
}

/// Each slot precedes the slots below it, except that nothing is said of the
/// pair above slot `loose_child` nor of the pairs below slot `loose_parent`.
spec fn ordered_but(s: Seq<State>, loose_child: int, loose_parent: int) -> bool {
    forall|j: int, i: int|
        0 <= j && i < s.len() && #[trigger] is_child(j, i) && i != loose_child && j
            != loose_parent ==> s[j].precedes(s[i])
}

/// The slot above slot `k` precedes the slots below slot `k`.
spec fn bridged(s: Seq<State>, k: int) -> bool {
    forall|j: int, i: int|
        0 <= j && i < s.len() && #[trigger] is_child(j, k) && #[trigger] is_child(k, i)
            ==> s[j].precedes(s[i])
}

/// The heap order: each slot precedes the slots below it.
spec fn heap_ordered(s: Seq<State>) -> bool {
    ordered_but(s, -1, -1)
}

/// The first slot of a heap precedes every slot.
proof fn lemma_root_least(s: Seq<State>, i: int)
    requires
        heap_ordered(s),
        0 <= i < s.len(),
    ensures
        s[0].precedes(s[i]),
    decreases i,
{
    if i > 0 {
        let j = (i - 1) / 2;
        assert(is_child(j, i));
        lemma_root_least(s, j);
    }
}

/// Exchanging two slots keeps the contents.
proof fn lemma_exchange_keeps_contents(s: Seq<State>, i: int, j: int)
    requires
        0 <= i < s.len(),
        0 <= j < s.len(),
    ensures
        s.update(i, s[j]).update(j, s[i]).to_multiset() == s.to_multiset(),
{
    broadcast use vstd::multiset::group_multiset_axioms;

    let t = s.update(i, s[j]);
    to_multiset_update(s, i, s[j]);
    to_multiset_update(t, j, s[i]);
    to_multiset_contains(s, s[i]);
    to_multiset_contains(s, s[j]);
    assert(s.contains(s[i]));
    assert(s.contains(s[j]));
    assert(t.update(j, s[i]).to_multiset() =~= s.to_multiset());
}

/// A min-priority queue of states.
pub struct MinQueue {
    items: Vec<State>,
}

impl View for MinQueue {
    type V = Multiset<State>;

    /// The states waiting in the queue, each as often as it was pushed and
    /// not yet popped.
    closed spec fn view(&self) -> Multiset<State> {
        self.items@.to_multiset()
    }
}

impl MinQueue {
    /// The representation invariant: the slots are in heap order.
    pub closed spec fn well_formed(&self) -> bool {
        heap_ordered(self.items@)
    }

    /// An empty queue.
    pub fn new() -> (q: MinQueue)
        ensures
            q.well_formed(),
            q@ == Multiset::<State>::empty(),
    {
        let q = MinQueue { items: Vec::new() };
        proof {
            broadcast use vstd::multiset::group_multiset_axioms;

            to_multiset_len(q.items@);
            assert(q@.len() == 0);
            assert(q@ =~= Multiset::<State>::empty());
        }
        q
    }

    /// The number of waiting states.
    pub fn len(&self) -> (n: usize)
        ensures
            n == self@.len(),
    {
        proof {
            to_multiset_len(self.items@);
        }
        self.items.len()
    }

    /// Whether no state waits.
    pub fn is_empty(&self) -> (b: bool)
        ensures
            b == (self@.len() == 0),
    {
        proof {
            to_multiset_len(self.items@);
        }
        self.items.len() == 0
    }

    /// Adds `state` to the queue.
    pub fn push(&mut self, state: State)
        requires
            old(self).well_formed(),
        ensures
            final(self).well_formed(),
            final(self)@ == old(self)@.insert(state),
    {
        proof {
            to_multiset_build(self.items@, state);
        }
        self.items.push(state);
        let mut k: usize = self.items.len() - 1;
        while k > 0
            invariant
                k < self.items.len(),
                self.items@.to_multiset() == old(self)@.insert(state),
                ordered_but(self.items@, k as int, -1),
                bridged(self.items@, k as int),
            ensures
                self.items@.to_multiset() == old(self)@.insert(state),
                heap_ordered(self.items@),
            decreases k,
        {
            let parent: usize = (k - 1) / 2;
            let below = self.items[k];
            let above = self.items[parent];
            assert(is_child(parent as int, k as int));
            if above.goes_before(&below) {
                break ;
            }
            let ghost before = self.items@;
            self.items[k] = above;
            self.items[parent] = below;
            proof {
                lemma_exchange_keeps_contents(before, k as int, parent as int);
                let after = self.items@;
                assert forall|j: int, i: int|
                    0 <= j && i < after.len() && #[trigger] is_child(j, i) && i
                        != parent implies after[j].precedes(after[i]) by {
                    if j == k {
                        assert(is_child(parent as int, k as int));
                    } else if j == parent && i != k {
                        assert(before[j].precedes(before[i]));
                    }
                }
                assert forall|j: int, i: int|
                    0 <= j && i < after.len() && #[trigger] is_child(j, parent as int)
                        && #[trigger] is_child(parent as int, i) implies after[j].precedes(
                    after[i],
                ) by {
                    assert(before[j].precedes(before[parent as int]));
                    if i != k {
                        assert(before[parent as int].precedes(before[i]));
                    }
                }
            }
            k = parent;
        }
    }

    /// Takes out a state that precedes every waiting state, if any waits.
    pub fn pop(&mut self) -> (least: Option<State>)
        requires
            old(self).well_formed(),
        ensures
            final(self).well_formed(),
            least is None ==> old(self)@.len() == 0 && final(self)@ == old(self)@,
            least matches Some(s) ==> old(self)@.contains(s),
            least matches Some(s) ==> final(self)@ == old(self)@.remove(s),
            least matches Some(s) ==> forall|t: State| old(self)@.contains(t) ==> s.precedes(t),
    {
        let n = self.items.len();
        proof {
            to_multiset_len(self.items@);
        }
        if n == 0 {
            return None;
        }
        let top = self.items[0];
        let ghost start = self.items@;
        proof {
            broadcast use vstd::multiset::group_multiset_axioms;

            assert forall|t: State| start.to_multiset().contains(t) implies top.precedes(t) by {
                to_multiset_contains(start, t);
                let i = choose|i: int| 0 <= i < start.len() && start[i] == t;
                lemma_root_least(start, i);
            }
            to_multiset_contains(start, top);
            assert(start.contains(top));
            to_multiset_contains(start, start.last());
            assert(start.contains(start.last()));
            to_multiset_build(start.drop_last(), start.last());
            assert(start.drop_last().push(start.last()) =~= start);
            assert(start.drop_last().to_multiset() =~= start.to_multiset().remove(start.last()));
        }
        let last = self.items.pop().unwrap();
        assert(self.items@ =~= start.drop_last());
        if n == 1 {
            return Some(top);
        }
        self.items[0] = last;
        proof {
            broadcast use vstd::multiset::group_multiset_axioms;

            to_multiset_update(start.drop_last(), 0, last);
            assert(self.items@.to_multiset() =~= start.to_multiset().remove(top));
            assert forall|j: int, i: int|
                0 <= j && i < self.items@.len() && #[trigger] is_child(j, i) && j
                    != 0 implies self.items@[j].precedes(self.items@[i]) by {
                assert(start[j].precedes(start[i]));
            }
        }
        let len = n - 1;
        let mut k: usize = 0;
        while k < len / 2
            invariant
                len == self.items.len(),
                k < len,
                self.items@.to_multiset() == start.to_multiset().remove(top),
                ordered_but(self.items@, -1, k as int),
                bridged(self.items@, k as int),
            ensures
                self.items@.to_multiset() == start.to_multiset().remove(top),
                heap_ordered(self.items@),
            decreases len - k,
        {
            let left: usize = 2 * k + 1;
            let right: usize = left + 1;
            let mut child = left;
            if right < len && !self.items[left].goes_before(&self.items[right]) {
                child = right;
            }
            let above = self.items[k];
            let below = self.items[child];
            assert(is_child(k as int, left as int));
            assert(is_child(k as int, right as int));
            if above.goes_before(&below) {
                proof {
                    assert forall|j: int, i: int|
                        0 <= j && i < self.items@.len() && #[trigger] is_child(j, i)
                            implies self.items@[j].precedes(self.items@[i]) by {
                        if j == k {
                            assert(i == left || i == right);
                        }
                    }
                }
                break ;
            }
            let ghost before = self.items@;
            self.items[k] = below;
            self.items[child] = above;
            proof {
                lemma_exchange_keeps_contents(before, k as int, child as int);
                let after = self.items@;
                assert forall|j: int, i: int|
                    0 <= j && i < after.len() && #[trigger] is_child(j, i) && j
                        != child implies after[j].precedes(after[i]) by {
                    if j == k {
                        assert(i == left || i == right);
                    } else if i == k {
                        assert(is_child(k as int, child as int));
                    } else {
                        assert(before[j].precedes(before[i]));
                    }
                }
                assert forall|j: int, i: int|
                    0 <= j && i < after.len() && #[trigger] is_child(j, child as int)
                        && #[trigger] is_child(child as int, i) implies after[j].precedes(
                    after[i],
                ) by {
                    assert(j == k);
                    assert(before[child as int].precedes(before[i]));
                }
            }
            k = child;
        }
        proof {
            if k >= len / 2 {
                assert forall|j: int, i: int|
                    0 <= j && i < self.items@.len() && #[trigger] is_child(j, i)
                        implies self.items@[j].precedes(self.items@[i]) by {
                    assert(j != k);
                }
            }
        }
        Some(top)
    }
}

} // verus!
