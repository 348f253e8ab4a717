//! Priority queue that hands out its entries in increasing order.

use vstd::multiset::*;
use vstd::prelude::*;

use crate::ordered::OrderedKey;

verus! {

/// A binary heap whose first entry is the least.
#[derive(Clone, Debug)]
pub struct MinQueue<E> {
    items: Vec<E>,
}

/// Position of the parent of an entry.
spec fn up(index: int) -> int {
    (index - 1) / 2
}

/// The entry is at least its parent.
spec fn settled<E: OrderedKey>(items: Seq<E>, index: int) -> bool {
    items[index].rank() >= items[up(index)].rank()
}

/// The entry is at least its grandparent.
spec fn dominated<E: OrderedKey>(items: Seq<E>, index: int) -> bool {
    items[index].rank() >= items[up(up(index))].rank()
}

/// Every entry is at least its parent, except perhaps the one at `hole`.
spec fn heap_except<E: OrderedKey>(items: Seq<E>, hole: int) -> bool {
    forall|i: int| 0 < i < items.len() && i != hole ==> #[trigger] settled(items, i)
}

/// Every entry is at least its parent, except perhaps the children of `hole`.
spec fn heap_below_except<E: OrderedKey>(items: Seq<E>, hole: int) -> bool {
    forall|i: int| 0 < i < items.len() && up(i) != hole ==> #[trigger] settled(items, i)
}

/// The children of `hole` are at least its parent.
spec fn children_dominated<E: OrderedKey>(items: Seq<E>, hole: int) -> bool {
    forall|i: int|
        0 < i < items.len() && up(i) == hole && hole > 0 ==> #[trigger] dominated(items, i)
}

/// Replacing one entry replaces it in the multiset.
proof fn lemma_update_multiset<E>(items: Seq<E>, index: int, entry: E)
    requires
        0 <= index < items.len(),
    ensures
        items.update(index, entry).to_multiset() == items.to_multiset().remove(items[index]).insert(
            entry,
        ),
{
    broadcast use group_multiset_axioms;

    let changed = items.update(index, entry);
    items.to_multiset_ensures();
    changed.to_multiset_ensures();
    vstd::seq_lib::to_multiset_remove(items, index);
    vstd::seq_lib::to_multiset_remove(changed, index);
    assert(changed.remove(index) =~= items.remove(index));
    assert(changed.to_multiset().remove(entry) =~= items.to_multiset().remove(items[index]));
    assert(changed.contains(changed[index]));
    assert(changed.to_multiset().count(entry) > 0);
    assert(changed.to_multiset() =~= items.to_multiset().remove(items[index]).insert(entry));
}

/// Exchanging two entries keeps the multiset.
proof fn lemma_swap_multiset<E>(items: Seq<E>, a: int, b: int)
    requires
        0 <= a < items.len(),
        0 <= b < items.len(),
        a != b,
    ensures
        items.update(a, items[b]).update(b, items[a]).to_multiset() == items.to_multiset(),
{
    broadcast use group_multiset_axioms;

    let first = items.update(a, items[b]);
    lemma_update_multiset(items, a, items[b]);
    lemma_update_multiset(first, b, items[a]);
    items.to_multiset_ensures();
    assert(items.contains(items[a]));
    assert(items.contains(items[b]));
    let m = items.to_multiset();
    assert(first.update(b, items[a]).to_multiset() == m.remove(items[a]).insert(items[b]).remove(
        items[b],
    ).insert(items[a]));
    assert(m.remove(items[a]).insert(items[b]).remove(items[b]) =~= m.remove(items[a]));
    assert(m.remove(items[a]).insert(items[a]) =~= m);
}

/// The first entry of a heap is the least.
proof fn lemma_first_is_least<E: OrderedKey>(items: Seq<E>, index: int)
    requires
        heap_except(items, -1),
        0 <= index < items.len(),
    ensures
        items[0].rank() <= items[index].rank(),
    decreases index,
{
    if index > 0 {
        lemma_first_is_least(items, up(index));
        assert(settled(items, index));
    }
}

impl<E: OrderedKey> View for MinQueue<E> {
    type V = Multiset<E>;

    closed spec fn view(&self) -> Multiset<E> {
        self.items@.to_multiset()
    }
}

impl<E: OrderedKey> MinQueue<E> {
    /// Every entry is at least its parent.
    pub closed spec fn wf(&self) -> bool {
        heap_except(self.items@, -1)
    }

    /// The empty queue.
    pub fn new() -> (result: Self)
        ensures
            result.wf(),
            result@ == Multiset::<E>::empty(),
    {
        let result = MinQueue { items: Vec::new() };
        proof {
            result.items@.to_multiset_ensures();
            assert(result@ =~= Multiset::<E>::empty());
        }
        result
    }

    /// Removes every entry.
    pub fn clear(&mut self)
        ensures
            final(self).wf(),
            final(self)@ == Multiset::<E>::empty(),
    {
        self.items.clear();
        proof {
            self.items@.to_multiset_ensures();
            assert(self@ =~= Multiset::<E>::empty());
        }
    }

    /// Adds one entry.
    pub fn push(&mut self, entry: E)
        requires
            old(self).wf(),
        ensures
            final(self).wf(),
            final(self)@ == old(self)@.insert(entry),
    {
        let ghost goal = self.items@.to_multiset().insert(entry);
        let mut hole: usize = self.items.len();
        proof {
            self.items@.to_multiset_ensures();
        }
        let ghost start = self.items@;
        self.items.push(entry);
        proof {
            assert forall|i: int|
                0 < i < self.items@.len() && i != hole implies #[trigger] settled(self.items@, i) by {
                assert(settled(start, i));
            }
        }
        while hole > 0
            invariant
                hole < self.items@.len(),
                heap_except(self.items@, hole as int),
                children_dominated(self.items@, hole as int),
                self.items@.to_multiset() == goal,
            ensures
                heap_except(self.items@, -1),
                self.items@.to_multiset() == goal,
            decreases hole,
        {
            let parent: usize = (hole - 1) / 2;
            assert(parent == up(hole as int));
            if !self.items[hole].precedes(self.items[parent]) {
                assert(settled(self.items@, hole as int));
                break;
            }
            let upper = self.items[parent];
            let lower = self.items[hole];
            let ghost before = self.items@;
            self.items.set(parent, lower);
            self.items.set(hole, upper);
            proof {
                lemma_swap_multiset(before, parent as int, hole as int);
                let after = self.items@;
                assert(after =~= before.update(parent as int, before[hole as int]).update(
                    hole as int,
                    before[parent as int],
                ));
                assert forall|i: int| 0 < i < after.len() && i != parent implies #[trigger] settled(
                    after,
                    i,
                ) by {
                    if i != hole {
                        assert(settled(before, i));
                        if up(i) == hole {
                            assert(dominated(before, i));
                        }
                    }
                }
                assert forall|i: int|
                    0 < i < after.len() && up(i) == parent && parent > 0 implies #[trigger] dominated(
                    after,
                    i,
                ) by {
                    assert(settled(before, parent as int));
                    if i != hole {
                        assert(settled(before, i));
                    }
                }
            }
            hole = parent;
        }
    }

    /// Takes the least entry out.
    pub fn pop(&mut self) -> (result: Option<E>)
        requires
            old(self).wf(),
        ensures
            final(self).wf(),
            result is None <==> old(self)@.len() == 0,
            result is None ==> final(self)@ == old(self)@,
            result matches Some(entry) ==> {
                &&& old(self)@.contains(entry)
                &&& final(self)@ == old(self)@.remove(entry)
                &&& forall|other: E|
                    #[trigger] old(self)@.contains(other) ==> entry.rank() <= other.rank()
            },
    {
        proof {
            self.items@.to_multiset_ensures();
        }
        if self.items.len() == 0 {
            return None;
        }
        let ghost original = self.items@;
        let least = self.items[0];
        proof {
            assert(original.contains(original[0]));
            assert forall|other: E| #[trigger] old(self)@.contains(other) implies least.rank()
                <= other.rank() by {
                assert(original.contains(other));
                let at = original.index_of(other);
                lemma_first_is_least(original, at);
            }
        }
        let last = self.items.swap_remove(0);
        let ghost goal = original.to_multiset().remove(least);
        let mut hole: usize = 0;
        proof {
            let shrunk = self.items@;
            let tail = original.len() - 1;
            assert(original.remove(0).to_multiset() == goal);
            assert(shrunk =~= original.update(0, original[tail]).drop_last());
            let moved = original.update(0, original[tail]);
            lemma_update_multiset(original, 0, original[tail]);
            moved.to_multiset_ensures();
            assert(moved.remove(tail) =~= shrunk);
            broadcast use group_multiset_axioms;

            assert(shrunk.to_multiset() =~= goal) by {
                let m = original.to_multiset();
                assert(moved.to_multiset() == m.remove(original[0]).insert(original[tail]));
                assert(moved[tail] == original[tail] || tail == 0);
                assert(shrunk.to_multiset() == moved.to_multiset().remove(moved[tail]));
                assert(m.remove(original[0]).insert(original[tail]).remove(original[tail])
                    =~= m.remove(original[0]));
            }
            assert forall|i: int| 0 < i < shrunk.len() && up(i) != 0 implies #[trigger] settled(
                shrunk,
                i,
            ) by {
                assert(settled(original, i));
            }
        }
        loop
            invariant
                hole < self.items@.len() || (hole == 0 && self.items@.len() == 0),
                heap_below_except(self.items@, hole as int),
                children_dominated(self.items@, hole as int),
                self.items@.to_multiset() == goal,
            ensures
                heap_except(self.items@, -1),
                self.items@.to_multiset() == goal,
            decreases self.items@.len() - hole,
        {
            let count: usize = self.items.len();
            if count == 0 || hole >= count / 2 {
                proof {
                    assert forall|i: int| 0 < i < self.items@.len() implies #[trigger] settled(
                        self.items@,
                        i,
                    ) by {
                        assert(up(i) != hole);
                    }
                }
                break;
            }
            let mut child: usize = 2 * hole + 1;
            if child + 1 < count && self.items[child + 1].precedes(self.items[child]) {
                child = child + 1;
            }
            assert(up(child as int) == hole);
            assert forall|i: int| 0 < i < count && up(i) == hole implies #[trigger] self.items@[i].rank()
                >= self.items@[child as int].rank() by {
                assert(i == 2 * hole + 1 || i == 2 * hole + 2);
            }
            if !self.items[child].precedes(self.items[hole]) {
                proof {
                    assert forall|i: int| 0 < i < self.items@.len() implies #[trigger] settled(
                        self.items@,
                        i,
                    ) by {
                        if up(i) == hole {
                            assert(self.items@[i].rank() >= self.items@[child as int].rank());
                        }
                    }
                }
                break;
            }
            let upper = self.items[hole];
            let lower = self.items[child];
            let ghost before = self.items@;
            self.items.set(hole, lower);
            self.items.set(child, upper);
            proof {
                lemma_swap_multiset(before, hole as int, child as int);
                let after = self.items@;
                assert(after =~= before.update(hole as int, before[child as int]).update(
                    child as int,
                    before[hole as int],
                ));
                assert forall|i: int| 0 < i < after.len() && up(i) != child implies #[trigger] settled(
                    after,
                    i,
                ) by {
                    if up(i) == hole {
                        assert(before[i].rank() >= before[child as int].rank());
                    } else {
                        assert(settled(before, i));
                        if i == hole {
                            assert(dominated(before, child as int));
                        }
                    }
                }
                assert forall|i: int|
                    0 < i < after.len() && up(i) == child && child > 0 implies #[trigger] dominated(
                    after,
                    i,
                ) by {
                    assert(settled(before, i));
                    assert(i != child && i != hole);
                }
            }
            hole = child;
        }
        Some(least)
    }
}

} // verus!
