//! The frontier of a best-first search: a bag of states that gives back the
//! cheapest one first.

use std::cmp::Ordering;
use vstd::multiset::Multiset;
use vstd::prelude::*;

verus! {

/// State of the search: a node together with the cost of one way to reach it.
#[derive(Copy, Clone, Debug, PartialEq, Eq, Structural)]
pub struct State {
    /// Cost of the path.
    pub cost: usize,
    /// Position of the node.
    pub position: usize,
}

impl State {
    /// `self` is served no later than `other`: the lower cost goes first, and of
    /// two states with one cost the one with the higher position.
    pub open spec fn outranks(self, other: State) -> bool {
        self.cost < other.cost || (self.cost == other.cost && self.position >= other.position)
    }

    /// Compare two states so that the greater one is the one to serve first.
    pub fn cmp(&self, other: &State) -> (order: Ordering)
        ensures
            (order == Ordering::Equal) == (*self == *other),
            (order == Ordering::Less) == !self.outranks(*other),
            (order == Ordering::Greater) == (self.outranks(*other) && *self != *other),
    {
        if other.cost < self.cost {
            Ordering::Less
        } else if other.cost > self.cost {
            Ordering::Greater
        } else if self.position < other.position {
            Ordering::Less
        } else if self.position > other.position {
            Ordering::Greater
        } else {
            Ordering::Equal
        }
    }

    /// Compare two states; the order is total, so the answer is never `None`.
    pub fn partial_cmp(&self, other: &State) -> (order: Option<Ordering>)
        ensures
            order is Some,
            (order == Some(Ordering::Equal)) == (*self == *other),
            (order == Some(Ordering::Less)) == !self.outranks(*other),
            (order == Some(Ordering::Greater)) == (self.outranks(*other) && *self != *other),
    {
        Some(self.cmp(other))
    }

    /// Whether `self` is served no later than `other`.
    pub fn is_served_before(&self, other: &State) -> (first: bool)
        ensures
            first == self.outranks(*other),
    {
        match self.cmp(other) {
            Ordering::Less => false,
            Ordering::Equal => true,
            Ordering::Greater => true,
        }
    }
}

/// In a heap laid out in a sequence, place `c` is a child of place `p`.
pub open spec fn is_child(p: int, c: int) -> bool {
    0 <= p && (c == 2 * p + 1 || c == 2 * p + 2)
}

/// Every state outranks its children, but that the state at place `up` need
/// not be outranked by its parent, nor the state at place `down` outrank its
/// children. With no place left out, this is the order of a heap.
pub open spec fn ordered_but(s: Seq<State>, up: int, down: int) -> bool {
    forall|p: int, c: int|
        #![trigger s[p], s[c]]
        is_child(p, c) && c < s.len() && c != up && p != down ==> s[p].outranks(s[c])
}

/// The order of a heap: every state outranks its children.
pub open spec fn ordered(s: Seq<State>) -> bool {
    ordered_but(s, -1, -1)
}

/// The parent of place `at` outranks the children of place `at`.
pub open spec fn bridged(s: Seq<State>, at: int) -> bool {
    forall|g: int, c: int|
        #![trigger s[g], s[c]]
        is_child(g, at) && is_child(at, c) && c < s.len() ==> s[g].outranks(s[c])
}

/// In a heap the first state outranks every state.
pub proof fn lemma_first_outranks(s: Seq<State>, i: int)
    requires
        ordered(s),
        0 <= i < s.len(),
    ensures
        s[0].outranks(s[i]),
    decreases i,
{
    if i > 0 {
        let p = (i - 1) / 2;
        assert(is_child(p, i));
        lemma_first_outranks(s, p);
        assert(s[p].outranks(s[i]));
    }
}

/// Exchanging two states of a sequence leaves the bag of its states as it was.
pub proof fn lemma_exchange(s: Seq<State>, i: int, j: int)
    requires
        0 <= i < s.len(),
        0 <= j < s.len(),
    ensures
        s.update(i, s[j]).update(j, s[i]).to_multiset() == s.to_multiset(),
{
    vstd::seq_lib::to_multiset_update(s, i, s[j]);
    vstd::seq_lib::to_multiset_update(s.update(i, s[j]), j, s[i]);
    s.to_multiset_ensures();
    assert(s.update(i, s[j]).update(j, s[i]).to_multiset() =~= s.to_multiset());
}

/// Where a state outranks its parent, and the heap is in order but for that,
/// exchanging the two leaves the heap in order but for the parent's place.
pub proof fn lemma_lift(s: Seq<State>, at: int, above: int)
    requires
        is_child(above, at),
        at < s.len(),
        ordered_but(s, at, -1),
        bridged(s, at),
        !s[above].outranks(s[at]),
    ensures
        ordered_but(s.update(at, s[above]).update(above, s[at]), above, -1),
        bridged(s.update(at, s[above]).update(above, s[at]), above),
{
    let t = s.update(at, s[above]).update(above, s[at]);
    assert forall|p: int, c: int|
        #![trigger t[p], t[c]]
        is_child(p, c) && c < t.len() && c != above implies t[p].outranks(t[c]) by {
        if c == at {
        } else if p == at {
            assert(s[above].outranks(s[c]));
        } else if p == above {
            assert(s[above].outranks(s[c]));
        } else {
            assert(s[p].outranks(s[c]));
        }
    }
    assert forall|g: int, c: int|
        #![trigger t[g], t[c]]
        is_child(g, above) && is_child(above, c) && c < t.len() implies t[g].outranks(t[c]) by {
        assert(s[g].outranks(s[above]));
        if c != at {
            assert(s[above].outranks(s[c]));
        }
    }
}

/// Where a state is outranked by the child at place `best`, which outranks
/// its sibling, and the heap is in order but for that state's children,
/// exchanging the two leaves the heap in order but for the children of `best`.
pub proof fn lemma_sink(s: Seq<State>, at: int, best: int)
    requires
        is_child(at, best),
        best < s.len(),
        ordered_but(s, -1, at),
        bridged(s, at),
        !s[at].outranks(s[best]),
        forall|c: int| is_child(at, c) && c < s.len() ==> s[best].outranks(#[trigger] s[c]),
    ensures
        ordered_but(s.update(at, s[best]).update(best, s[at]), -1, best),
        bridged(s.update(at, s[best]).update(best, s[at]), best),
{
    let t = s.update(at, s[best]).update(best, s[at]);
    assert forall|p: int, c: int|
        #![trigger t[p], t[c]]
        is_child(p, c) && c < t.len() && p != best implies t[p].outranks(t[c]) by {
        if p == at {
            assert(s[best].outranks(s[c]));
        } else if c == at {
            assert(s[p].outranks(s[best]));
        } else {
            assert(s[p].outranks(s[c]));
        }
    }
    assert forall|g: int, c: int|
        #![trigger t[g], t[c]]
        is_child(g, best) && is_child(best, c) && c < t.len() implies t[g].outranks(t[c]) by {
        assert(s[best].outranks(s[c]));
    }
}

/// Put `state` into the heap.
fn heap_push(items: &mut Vec<State>, state: State)
    requires
        ordered(old(items)@),
    ensures
        ordered(final(items)@),
        final(items)@.to_multiset() == old(items)@.to_multiset().insert(state),
{
    proof {
        old(items)@.to_multiset_ensures();
    }
    items.push(state);
    let ghost bag = items@.to_multiset();
    let mut at: usize = items.len() - 1;
    proof {
        assert forall|p: int, c: int|
            #![trigger items@[p], items@[c]]
            is_child(p, c) && c < items@.len() && c != at implies items@[p].outranks(items@[c]) by {
            assert(old(items)@[p].outranks(old(items)@[c]));
        }
    }
    while at > 0
        invariant
            0 <= at < items@.len(),
            items@.to_multiset() == bag,
            ordered_but(items@, at as int, -1),
            bridged(items@, at as int),
        ensures
            ordered(items@),
            items@.to_multiset() == bag,
        decreases at,
    {
        let above: usize = (at - 1) / 2;
        let child = items[at];
        let elder = items[above];
        if elder.is_served_before(&child) {
            proof {
                assert forall|p: int, c: int|
                    #![trigger items@[p], items@[c]]
                    is_child(p, c) && c < items@.len() implies items@[p].outranks(items@[c]) by {
                    if c == at {
                        assert(p == above);
                    }
                }
            }
            break ;
        }
        proof {
            lemma_exchange(items@, at as int, above as int);
            lemma_lift(items@, at as int, above as int);
        }
        items[at] = elder;
        items[above] = child;
        at = above;
    }
}

/// Take the first state out of the heap, if it holds any.
fn heap_pop(items: &mut Vec<State>) -> (top: Option<State>)
    requires
        ordered(old(items)@),
    ensures
        ordered(final(items)@),
        old(items)@.len() == 0 ==> top is None && final(items)@ == old(items)@,
        old(items)@.len() > 0 ==> top == Some(old(items)@[0]) && final(items)@.to_multiset() == old(
            items,
        )@.to_multiset().remove(old(items)@[0]),
{
    if items.len() == 0 {
        return None;
    }
    let top = items[0];
    let ghost before = items@;
    let last = items.pop().unwrap();
    proof {
        assert(items@ =~= before.remove(before.len() - 1));
        vstd::seq_lib::to_multiset_remove(before, before.len() - 1);
        before.to_multiset_ensures();
        assert forall|p: int, c: int|
            #![trigger items@[p], items@[c]]
            is_child(p, c) && c < items@.len() implies items@[p].outranks(items@[c]) by {
            assert(before[p].outranks(before[c]));
        }
    }
    if items.len() == 0 {
        return Some(top);
    }
    let ghost short = items@;
    proof {
        vstd::seq_lib::to_multiset_update(short, 0, last);
        short.to_multiset_ensures();
        assert(short.update(0, last).to_multiset() =~= before.to_multiset().remove(top));
    }
    items[0] = last;
    proof {
        assert forall|p: int, c: int|
            #![trigger items@[p], items@[c]]
            is_child(p, c) && c < items@.len() && p != 0 implies items@[p].outranks(items@[c]) by {
            assert(short[p].outranks(short[c]));
        }
    }
    let ghost bag = items@.to_multiset();
    let mut at: usize = 0;
    loop
        invariant
            0 <= at < items@.len(),
            items@.to_multiset() == bag,
            ordered_but(items@, -1, at as int),
            bridged(items@, at as int),
        ensures
            ordered(items@),
            items@.to_multiset() == bag,
        decreases items@.len() - at,
    {
        if at >= items.len() / 2 {
            proof {
                assert forall|p: int, c: int|
                    #![trigger items@[p], items@[c]]
                    is_child(p, c) && c < items@.len() implies items@[p].outranks(items@[c]) by {
                    assert(p != at);
                }
            }
            break ;
        }
        let left: usize = 2 * at + 1;
        let mut best: usize = left;
        if left + 1 < items.len() && items[left + 1].is_served_before(&items[left]) {
            best = left + 1;
        }
        let here = items[at];
        let child = items[best];
        proof {
            assert forall|c: int| is_child(at as int, c) && c < items@.len() implies items@[best as int].outranks(
                #[trigger] items@[c],
            ) by {
                assert(c == left || c == left + 1);
            }
        }
        if here.is_served_before(&child) {
            proof {
                assert forall|p: int, c: int|
                    #![trigger items@[p], items@[c]]
                    is_child(p, c) && c < items@.len() implies items@[p].outranks(items@[c]) by {
                    if p == at {
                        assert(items@[best as int].outranks(items@[c]));
                    }
                }
            }
            break ;
        }
        proof {
            lemma_exchange(items@, at as int, best as int);
            lemma_sink(items@, at as int, best as int);
        }
        items[at] = child;
        items[best] = here;
        at = best;
    }
    Some(top)
}

/// A bag of states from which the one that outranks all others is taken first.
/// The states are kept as a heap, so that adding one and taking one out each
/// touch only a path between the top and the bottom.
pub struct Frontier {
    items: Vec<State>,
}

impl Frontier {
    /// The states that wait, as a bag.
    pub closed spec fn view(&self) -> Multiset<State> {
        self.items@.to_multiset()
    }

    /// The states are in the order of a heap.
    pub closed spec fn well_formed(&self) -> bool {
        ordered(self.items@)
    }

    /// An empty frontier.
    pub fn new() -> (frontier: Frontier)
        ensures
            frontier.well_formed(),
            frontier@ == Multiset::<State>::empty(),
    {
        let frontier = Frontier { items: Vec::new() };
        proof {
            frontier.items@.to_multiset_ensures();
            assert(frontier@.len() == 0);
            assert(frontier@ =~= Multiset::<State>::empty());
        }
        frontier
    }

    /// Add one state.
    pub fn push(&mut self, state: State)
        requires
            old(self).well_formed(),
        ensures
            final(self).well_formed(),
            final(self)@ == old(self)@.insert(state),
    {
        heap_push(&mut self.items, state);
    }

    /// Take out the state that outranks every other one, if any state waits.
    pub fn pop(&mut self) -> (top: Option<State>)
        requires
            old(self).well_formed(),
        ensures
            final(self).well_formed(),
            old(self)@.len() == 0 ==> top is None && final(self)@ == old(self)@,
            old(self)@.len() > 0 ==> top is Some,
            top is Some ==> {
                &&& old(self)@.contains(top->0)
                &&& final(self)@ == old(self)@.remove(top->0)
                &&& forall|other: State| #[trigger]
                    old(self)@.contains(other) ==> (top->0).outranks(other)
            },
    {
        proof {
            self.items@.to_multiset_ensures();
        }
        let ghost before = self.items@;
        let top = heap_pop(&mut self.items);
        proof {
            if before.len() > 0 {
                assert(before.contains(before[0]));
                assert forall|other: State| #[trigger]
                    before.to_multiset().contains(other) implies before[0].outranks(other) by {
                    assert(before.contains(other));
                    let i = choose|i: int| 0 <= i < before.len() && before[i] == other;
                    lemma_first_outranks(before, i);
                }
            }
        }
        top
    }
}

} // verus!
