//! The open cells of a search, handed out cheapest first.

use vstd::multiset::Multiset;
use vstd::prelude::*;

verus! {

/// One entry of the frontier: a cell, the cost at which it was reached and
/// the estimate of a whole route through it.
#[derive(Debug, Clone, Copy, PartialEq, Eq, Structural)]
pub struct State {
    /// The estimated cost of a route through the cell.
    pub f: u32,
    /// The cost of reaching the cell.
    pub g: u32,
    /// The flat index of the cell.
    pub idx: usize,
}

impl State {
    /// `self` leaves the frontier no later than `other`: the lower estimate
    /// first, then the lower cost so far, then the lower index.
    pub open spec fn precedes(self, other: State) -> bool {
        ||| self.f < other.f
        ||| self.f == other.f && self.g < other.g
        ||| self.f == other.f && self.g == other.g && self.idx <= other.idx
    }

    /// Whether `self` leaves the frontier no later than `other`.
    pub fn comes_before(&self, other: &State) -> (first: bool)
        ensures
            first == self.precedes(*other),
    {
        if self.f != other.f {
            self.f < other.f
        } else if self.g != other.g {
            self.g < other.g
        } else {
            self.idx <= other.idx
        }
    }
}

/// The entry at `i` does not leave before the entry above it in the heap.
spec fn above_precedes(s: Seq<State>, i: int) -> bool {
    s[(i - 1) / 2].precedes(s[i])
}

/// Every entry but the first has an entry above it that leaves no later.
spec fn heap_ordered(s: Seq<State>) -> bool {
    forall|i: int| 1 <= i < s.len() ==> #[trigger] above_precedes(s, i)
}

/// In a heap, the first entry leaves no later than any other.
proof fn lemma_first_precedes(s: Seq<State>, i: int)
    requires
        heap_ordered(s),
        0 <= i < s.len(),
    ensures
        s[0].precedes(s[i]),
    decreases i,
{
    if i > 0 {
        assert(above_precedes(s, i));
        lemma_first_precedes(s, (i - 1) / 2);
    }
}

/// Exchanging two entries changes their order and nothing else.
proof fn lemma_exchange_keeps_entries(s: Seq<State>, i: int, j: int)
    requires
        0 <= i < s.len(),
        0 <= j < s.len(),
    ensures
        s.update(i, s[j]).update(j, s[i]).to_multiset() == s.to_multiset(),
{
    let t = s.update(i, s[j]);
    vstd::seq_lib::to_multiset_update(s, i, s[j]);
    vstd::seq_lib::to_multiset_update(t, j, s[i]);
    s.to_multiset_ensures();
    assert(s.contains(s[i]));
    assert(s.contains(s[j]));
    assert(t.update(j, s[i]).to_multiset() =~= s.to_multiset());
}

/// Exchanges the entries at `i` and `j`.
fn exchange(items: &mut Vec<State>, i: usize, j: usize)
    requires
        i < old(items)@.len(),
        j < old(items)@.len(),
    ensures
        final(items)@ == old(items)@.update(i as int, old(items)@[j as int]).update(
            j as int,
            old(items)@[i as int],
        ),
        final(items)@.to_multiset() == old(items)@.to_multiset(),
{
    proof {
        lemma_exchange_keeps_entries(items@, i as int, j as int);
    }
    let a = items[i];
    let b = items[j];
    items[i] = b;
    items[j] = a;
}

/// Lets the last entry rise until the entry above it leaves no later.
fn sift_up(items: &mut Vec<State>)
    requires
        old(items)@.len() >= 1,
        heap_ordered(old(items)@.drop_last()),
    ensures
        heap_ordered(final(items)@),
        final(items)@.to_multiset() == old(items)@.to_multiset(),
{
    let mut i: usize = items.len() - 1;
    assert forall|k: int| 1 <= k < items@.len() && k != i implies #[trigger] above_precedes(
        items@,
        k,
    ) by {
        assert(above_precedes(old(items)@.drop_last(), k));
    }
    while i > 0 && !items[(i - 1) / 2].comes_before(&items[i])
        invariant
            i < items@.len(),
            items@.to_multiset() == old(items)@.to_multiset(),
            forall|k: int| 1 <= k < items@.len() && k != i ==> #[trigger] above_precedes(items@, k),
            forall|k: int|
                1 <= k < items@.len() && (k - 1) / 2 == i && i > 0 ==> items@[(i - 1) / 2].precedes(
                    #[trigger] items@[k],
                ),
        decreases i,
    {
        let above: usize = (i - 1) / 2;
        let ghost before = items@;
        exchange(items, above, i);
        assert forall|k: int|
            1 <= k < items@.len() && k != above implies #[trigger] above_precedes(items@, k) by {
            if k == i {
            } else if (k - 1) / 2 == i {
                assert(before[above as int].precedes(before[k]));
            } else {
                assert(above_precedes(before, k));
            }
        }
        assert forall|k: int|
            1 <= k < items@.len() && (k - 1) / 2 == above && above > 0 implies items@[(above - 1)
            / 2].precedes(#[trigger] items@[k]) by {
            assert(above_precedes(before, above as int));
            if k != i {
                assert(above_precedes(before, k));
            }
        }
        i = above;
    }
    assert forall|k: int| 1 <= k < items@.len() implies #[trigger] above_precedes(items@, k) by {}
}

/// Lets the first entry sink until no entry below it leaves before it.
fn sift_down(items: &mut Vec<State>)
    requires
        old(items)@.len() >= 1,
        forall|k: int|
            1 <= k < old(items)@.len() && (k - 1) / 2 != 0 ==> #[trigger] above_precedes(
                old(items)@,
                k,
            ),
    ensures
        heap_ordered(final(items)@),
        final(items)@.to_multiset() == old(items)@.to_multiset(),
{
    let len: usize = items.len();
    let mut i: usize = 0;
    while i < len / 2
        invariant
            len == items@.len(),
            i < len,
            items@.to_multiset() == old(items)@.to_multiset(),
            forall|k: int|
                1 <= k < items@.len() && (k - 1) / 2 != i ==> #[trigger] above_precedes(items@, k),
            forall|k: int|
                1 <= k < items@.len() && (k - 1) / 2 == i && i > 0 ==> items@[(i - 1) / 2].precedes(
                    #[trigger] items@[k],
                ),
        ensures
            items@.to_multiset() == old(items)@.to_multiset(),
            heap_ordered(items@),
        decreases len - i,
    {
        let left: usize = 2 * i + 1;
        let right: usize = left + 1;
        let mut child: usize = left;
        if right < len && items[right].comes_before(&items[left]) {
            child = right;
        }
        if items[i].comes_before(&items[child]) {
            assert forall|k: int| 1 <= k < items@.len() implies #[trigger] above_precedes(
                items@,
                k,
            ) by {
                if (k - 1) / 2 == i {
                    assert(k == left || k == right);
                }
            }
            break;
        }
        let ghost before = items@;
        exchange(items, i, child);
        assert forall|k: int|
            1 <= k < items@.len() && (k - 1) / 2 != child implies #[trigger] above_precedes(
            items@,
            k,
        ) by {
            if k == i {
                assert(before[(i - 1) / 2].precedes(before[child as int]));
            } else if (k - 1) / 2 == i {
                assert(k == left || k == right);
            } else {
                assert(above_precedes(before, k));
            }
        }
        assert forall|k: int|
            1 <= k < items@.len() && (k - 1) / 2 == child && child > 0 implies items@[(child - 1)
            / 2].precedes(#[trigger] items@[k]) by {
            assert(above_precedes(before, k));
        }
        i = child;
    }
    assert forall|k: int| 1 <= k < items@.len() implies #[trigger] above_precedes(items@, k) by {}
}

/// A priority queue of search states. [`Frontier::pop`] hands out the entry
/// that precedes all others.
pub struct Frontier {
    items: Vec<State>,
}

impl View for Frontier {
    type V = Multiset<State>;

    closed spec fn view(&self) -> Multiset<State> {
        self.items@.to_multiset()
    }
}

impl Frontier {
    /// The entries are laid out as a binary heap.
    #[verifier::type_invariant]
    spec fn heap(&self) -> bool {
        heap_ordered(self.items@)
    }

    /// An empty frontier.
    pub fn new() -> (frontier: Self)
        ensures
            frontier@ == Multiset::<State>::empty(),
    {
        let frontier = Frontier { items: Vec::new() };
        assert(frontier.items@.to_multiset() =~= Multiset::<State>::empty()) by {
            frontier.items@.to_multiset_ensures();
        }
        frontier
    }

    /// The number of entries.
    pub fn len(&self) -> (n: usize)
        ensures
            n == self@.len(),
    {
        proof {
            self.items@.to_multiset_ensures();
        }
        self.items.len()
    }

    /// Whether there is no entry.
    pub fn is_empty(&self) -> (empty: bool)
        ensures
            empty == (self@.len() == 0),
    {
        self.len() == 0
    }

    /// Adds `entry`.
    pub fn push(&mut self, entry: State)
        ensures
            final(self)@ == old(self)@.insert(entry),
            final(self)@.len() == old(self)@.len() + 1,
    {
        proof {
            use_type_invariant(&*self);
        }
        let mut items: Vec<State> = Vec::new();
        std::mem::swap(&mut items, &mut self.items);
        proof {
            items@.to_multiset_ensures();
        }
        items.push(entry);
        proof {
            assert(items@.drop_last() =~= old(self).items@);
            items@.to_multiset_ensures();
        }
        sift_up(&mut items);
        proof {
            items@.to_multiset_ensures();
        }
        self.items = items;
    }

    /// Takes out the entry that precedes all others; `None` when there is none.
    pub fn pop(&mut self) -> (top: Option<State>)
        ensures
            top is None <==> old(self)@.len() == 0,
            top is None ==> final(self)@ == old(self)@,
            top matches Some(e) ==> {
                &&& old(self)@.count(e) > 0
                &&& final(self)@ == old(self)@.remove(e)
                &&& final(self)@.len() == old(self)@.len() - 1
                &&& forall|x: State| old(self)@.count(x) > 0 ==> e.precedes(x)
            },
    {
        proof {
            use_type_invariant(&*self);
            self.items@.to_multiset_ensures();
        }
        let n: usize = self.items.len();
        if n == 0 {
            return None;
        }
        let mut items: Vec<State> = Vec::new();
        std::mem::swap(&mut items, &mut self.items);
        let ghost all = items@;
        let top: State = items[0];
        assert(all.contains(top));
        assert forall|x: State| old(self)@.count(x) > 0 implies top.precedes(x) by {
            let j = choose|j: int| 0 <= j < all.len() && all[j] == x;
            lemma_first_precedes(all, j);
        }
        let last: State = items.pop().unwrap();
        proof {
            assert(all =~= items@.push(last));
            items@.to_multiset_ensures();
        }
        if n > 1 {
            proof {
                vstd::seq_lib::to_multiset_update(items@, 0, last);
            }
            items[0] = last;
            assert(items@.to_multiset() =~= old(self)@.remove(top));
            assert forall|k: int|
                1 <= k < items@.len() && (k - 1) / 2 != 0 implies #[trigger] above_precedes(
                items@,
                k,
            ) by {
                assert(above_precedes(all, k));
            }
            sift_down(&mut items);
        } else {
            assert(items@.to_multiset() =~= old(self)@.remove(top));
        }
        proof {
            items@.to_multiset_ensures();
        }
        self.items = items;
        Some(top)
    }
}

} // verus!
