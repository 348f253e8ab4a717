//! Bounding boxes of nets, kept up to date as endpoints move.

use vstd::prelude::*;

use crate::model::Point;
use crate::ordered::{increasing, OrderedKey, OrderedMap};

verus! {

/// How often the coordinate is counted.
pub open spec fn count_of(counts: Map<u32, usize>, coordinate: u32) -> int {
    if counts.contains_key(coordinate) {
        counts[coordinate] as int
    } else {
        0
    }
}

/// Coordinates that are counted at all.
pub open spec fn counted(counts: Map<u32, usize>) -> Set<u32> {
    Set::new(|c: u32| count_of(counts, c) != 0)
}

/// The bounds are the least and the greatest of the coordinates.
pub open spec fn bounds(set: Set<u32>, least: u32, greatest: u32) -> bool {
    &&& set.contains(least)
    &&& set.contains(greatest)
    &&& forall|c: u32| #[trigger] set.contains(c) ==> least <= c <= greatest
}

/// The least coordinate.
pub open spec fn lowest(set: Set<u32>) -> u32 {
    choose|c: u32| set.contains(c) && forall|d: u32| #[trigger] set.contains(d) ==> c <= d
}

/// The greatest coordinate.
pub open spec fn highest(set: Set<u32>) -> u32 {
    choose|c: u32| set.contains(c) && forall|d: u32| #[trigger] set.contains(d) ==> d <= c
}

/// Distance from the least to the greatest coordinate.
pub open spec fn extent_of(set: Set<u32>) -> int {
    if set == Set::<u32>::empty() {
        0
    } else {
        highest(set) - lowest(set)
    }
}

/// Bounds are unique.
pub proof fn bounds_are_extremes(set: Set<u32>, least: u32, greatest: u32)
    requires
        bounds(set, least, greatest),
    ensures
        lowest(set) == least,
        highest(set) == greatest,
        extent_of(set) == greatest - least,
        least <= greatest,
{
    assert(set.contains(least));
    assert(set != Set::<u32>::empty());
    let c = choose|c: u32| set.contains(c) && forall|d: u32| #[trigger] set.contains(d) ==> c <= d;
    assert(set.contains(c) && c <= least);
    let e = choose|c: u32| set.contains(c) && forall|d: u32| #[trigger] set.contains(d) ==> d <= c;
    assert(set.contains(e) && e >= greatest);
}

/// Coordinates that leave and coordinates that come, each with how often.
pub struct DetailedCoordinateDelta {
    /// Coordinates that leave.
    pub removals: OrderedMap<u32, usize>,
    /// Coordinates that come.
    pub additions: OrderedMap<u32, usize>,
}

impl DetailedCoordinateDelta {
    /// The entries are in order.
    pub open spec fn wf(&self) -> bool {
        &&& self.removals.wf()
        &&& self.additions.wf()
    }

    /// Nothing leaves or comes.
    pub open spec fn is_clear(&self) -> bool {
        &&& self.removals@ == Map::<u32, usize>::empty()
        &&& self.additions@ == Map::<u32, usize>::empty()
    }

    /// An empty delta.
    pub fn new() -> (result: Self)
        ensures
            result.wf(),
            result.is_clear(),
    {
        DetailedCoordinateDelta { removals: OrderedMap::new(), additions: OrderedMap::new() }
    }

    /// Counts the coordinate some more times.
    pub fn increment(entries: &mut OrderedMap<u32, usize>, coordinate: u32, multiplicity: usize)
        requires
            old(entries).wf(),
            count_of(old(entries)@, coordinate) + multiplicity <= usize::MAX,
        ensures
            final(entries).wf(),
            final(entries)@ == old(entries)@.insert(
                coordinate,
                (count_of(old(entries)@, coordinate) + multiplicity) as usize,
            ),
    {
        let known: usize = Self::count(entries, coordinate);
        entries.insert(coordinate, known + multiplicity);
    }

    /// How often the coordinate is counted.
    pub fn count(entries: &OrderedMap<u32, usize>, coordinate: u32) -> (result: usize)
        requires
            entries.wf(),
        ensures
            result == count_of(entries@, coordinate),
    {
        match entries.get(coordinate) {
            Some(count) => *count,
            None => 0,
        }
    }

    /// Lets the coordinate leave some more times.
    pub fn remove(&mut self, coordinate: u32, multiplicity: usize)
        requires
            old(self).wf(),
            count_of(old(self).removals@, coordinate) + multiplicity <= usize::MAX,
        ensures
            final(self).wf(),
            final(self).additions == old(self).additions,
            final(self).removals@ == old(self).removals@.insert(
                coordinate,
                (count_of(old(self).removals@, coordinate) + multiplicity) as usize,
            ),
    {
        Self::increment(&mut self.removals, coordinate, multiplicity);
    }

    /// Lets the coordinate come some more times.
    pub fn add(&mut self, coordinate: u32, multiplicity: usize)
        requires
            old(self).wf(),
            count_of(old(self).additions@, coordinate) + multiplicity <= usize::MAX,
        ensures
            final(self).wf(),
            final(self).removals == old(self).removals,
            final(self).additions@ == old(self).additions@.insert(
                coordinate,
                (count_of(old(self).additions@, coordinate) + multiplicity) as usize,
            ),
    {
        Self::increment(&mut self.additions, coordinate, multiplicity);
    }

    /// Forgets every entry.
    pub fn clear(&mut self)
        ensures
            final(self).wf(),
            final(self).is_clear(),
    {
        self.removals = OrderedMap::new();
        self.additions = OrderedMap::new();
    }
}

/// Coordinates of the endpoints of a net, each with how often it occurs.
pub struct DetailedCoordinateMultiset {
    /// How often each coordinate occurs.
    pub counts: OrderedMap<u32, usize>,
}

/// How often the coordinate occurs after the delta, unless more would leave
/// than there are or the count would not fit.
pub open spec fn count_after(
    counts: Map<u32, usize>,
    delta: DetailedCoordinateDelta,
    coordinate: u32,
) -> Option<usize> {
    let left = count_of(counts, coordinate) - count_of(delta.removals@, coordinate);
    let after = left + count_of(delta.additions@, coordinate);
    if left < 0 || after > usize::MAX {
        None
    } else {
        Some(after as usize)
    }
}

/// Coordinates that remain after the delta or that come with it.
pub open spec fn remaining(counts: Map<u32, usize>, delta: DetailedCoordinateDelta) -> Set<u32> {
    Set::new(
        |c: u32|
            (counts.contains_key(c) && (count_after(counts, delta, c) matches Some(n) && n != 0))
                || delta.additions@.contains_key(c),
    )
}

/// The removal can be made.
pub open spec fn can_leave(counts: Map<u32, usize>, coordinate: u32, times: usize) -> bool {
    counts.contains_key(coordinate) && counts[coordinate] >= times
}

/// Counts after the first removals: a coordinate with nothing left is dropped.
pub open spec fn after_removals(
    counts: Map<u32, usize>,
    removals: OrderedMap<u32, usize>,
    done: int,
) -> Map<u32, usize> {
    let gone = removals.ordered().take(done);
    Map::new(
        |c: u32| counts.contains_key(c) && !(gone.contains(c) && counts[c] <= removals@[c]),
        |c: u32|
            if gone.contains(c) {
                (counts[c] - removals@[c]) as usize
            } else {
                counts[c]
            },
    )
}

/// Counts after the first additions.
pub open spec fn after_additions(
    counts: Map<u32, usize>,
    additions: OrderedMap<u32, usize>,
    done: int,
) -> Map<u32, usize> {
    let come = additions.ordered().take(done);
    Map::new(
        |c: u32| counts.contains_key(c) || come.contains(c),
        |c: u32|
            if come.contains(c) {
                (count_of(counts, c) + additions@[c]) as usize
            } else {
                counts[c]
            },
    )
}

impl DetailedCoordinateMultiset {
    /// The entries are in order.
    pub open spec fn wf(&self) -> bool {
        self.counts.wf()
    }

    /// Every removal of the delta can be made.
    pub open spec fn admits(&self, delta: DetailedCoordinateDelta) -> bool {
        forall|c: u32| #[trigger]
            delta.removals@.contains_key(c) ==> can_leave(self.counts@, c, delta.removals@[c])
    }

    /// The additions of the delta fit the counters.
    pub open spec fn has_room(&self, delta: DetailedCoordinateDelta) -> bool {
        forall|c: u32| #[trigger]
            delta.additions@.contains_key(c) ==> count_of(
                after_removals(
                    self.counts@,
                    delta.removals,
                    delta.removals.ordered().len() as int,
                ),
                c,
            ) + delta.additions@[c] <= usize::MAX
    }

    /// No coordinates.
    pub fn new() -> (result: Self)
        ensures
            result.wf(),
            result.counts@ == Map::<u32, usize>::empty(),
    {
        DetailedCoordinateMultiset { counts: OrderedMap::new() }
    }

    /// Counts the coordinate some more times.
    pub fn insert(&mut self, coordinate: u32, multiplicity: usize)
        requires
            old(self).wf(),
            count_of(old(self).counts@, coordinate) + multiplicity <= usize::MAX,
        ensures
            final(self).wf(),
            final(self).counts@ == old(self).counts@.insert(
                coordinate,
                (count_of(old(self).counts@, coordinate) + multiplicity) as usize,
            ),
    {
        DetailedCoordinateDelta::increment(&mut self.counts, coordinate, multiplicity);
    }

    /// How often the coordinate occurs after the delta.
    pub fn count_after_delta(&self, coordinate: u32, delta: &DetailedCoordinateDelta) -> (result:
        Option<usize>)
        requires
            self.wf(),
            delta.wf(),
        ensures
            result == count_after(self.counts@, *delta, coordinate),
    {
        let known: usize = DetailedCoordinateDelta::count(&self.counts, coordinate);
        let removed: usize = DetailedCoordinateDelta::count(&delta.removals, coordinate);
        if removed > known {
            return None;
        }
        let left: usize = known - removed;
        left.checked_add(DetailedCoordinateDelta::count(&delta.additions, coordinate))
    }

    /// Whether a coordinate that was counted remains after the delta.
    fn is_retained(&self, coordinate: u32, delta: &DetailedCoordinateDelta) -> (result: bool)
        requires
            self.wf(),
            delta.wf(),
        ensures
            result == (count_after(self.counts@, *delta, coordinate) matches Some(n) && n != 0),
    {
        match self.count_after_delta(coordinate, delta) {
            Some(count) => count != 0,
            None => false,
        }
    }

    /// Least counted coordinate that remains.
    fn retained_minimum(&self, delta: &DetailedCoordinateDelta) -> (result: Option<u32>)
        requires
            self.wf(),
            delta.wf(),
        ensures
            result matches Some(least) ==> self.counts@.contains_key(least) && (count_after(
                self.counts@,
                *delta,
                least,
            ) matches Some(n) && n != 0),
            forall|c: u32| #[trigger]
                self.counts@.contains_key(c) && (count_after(self.counts@, *delta, c) matches Some(
                    n,
                ) && n != 0) ==> (result matches Some(least) && least <= c),
    {
        let mut index: usize = 0;
        while index < self.counts.len()
            invariant
                index <= self.counts.ordered().len(),
                self.wf(),
                delta.wf(),
                forall|i: int|
                    0 <= i < index ==> !(count_after(
                        self.counts@,
                        *delta,
                        #[trigger] self.counts.ordered()[i],
                    ) matches Some(n) && n != 0),
            decreases self.counts.ordered().len() - index,
        {
            let coordinate: u32 = self.counts.key_at(index);
            proof {
                self.counts.entry(index as int);
            }
            if self.is_retained(coordinate, delta) {
                proof {
                    assert forall|c: u32| #[trigger]
                        self.counts@.contains_key(c) && (count_after(
                            self.counts@,
                            *delta,
                            c,
                        ) matches Some(n) && n != 0) implies coordinate <= c by {
                        let k = self.counts.key_index(c);
                        if k < index {
                        } else if k > index {
                            assert(self.counts.ordered()[index as int].rank()
                                < self.counts.ordered()[k].rank());
                        }
                    }
                }
                return Some(coordinate);
            }
            index = index + 1;
        }
        proof {
            assert forall|c: u32| #[trigger] self.counts@.contains_key(c) implies !(count_after(
                self.counts@,
                *delta,
                c,
            ) matches Some(n) && n != 0) by {
                let k = self.counts.key_index(c);
            }
        }
        None
    }

    /// Greatest counted coordinate that remains.
    fn retained_maximum(&self, delta: &DetailedCoordinateDelta) -> (result: Option<u32>)
        requires
            self.wf(),
            delta.wf(),
        ensures
            result matches Some(greatest) ==> self.counts@.contains_key(greatest) && (count_after(
                self.counts@,
                *delta,
                greatest,
            ) matches Some(n) && n != 0),
            forall|c: u32| #[trigger]
                self.counts@.contains_key(c) && (count_after(self.counts@, *delta, c) matches Some(
                    n,
                ) && n != 0) ==> (result matches Some(greatest) && c <= greatest),
    {
        let mut index: usize = self.counts.len();
        while index > 0
            invariant
                index <= self.counts.ordered().len(),
                self.wf(),
                delta.wf(),
                forall|i: int|
                    index <= i < self.counts.ordered().len() ==> !(count_after(
                        self.counts@,
                        *delta,
                        #[trigger] self.counts.ordered()[i],
                    ) matches Some(n) && n != 0),
            decreases index,
        {
            index = index - 1;
            let coordinate: u32 = self.counts.key_at(index);
            proof {
                self.counts.entry(index as int);
            }
            if self.is_retained(coordinate, delta) {
                proof {
                    assert forall|c: u32| #[trigger]
                        self.counts@.contains_key(c) && (count_after(
                            self.counts@,
                            *delta,
                            c,
                        ) matches Some(n) && n != 0) implies c <= coordinate by {
                        let k = self.counts.key_index(c);
                        if k > index {
                        } else if k < index {
                            assert(self.counts.ordered()[k].rank()
                                < self.counts.ordered()[index as int].rank());
                        }
                    }
                }
                return Some(coordinate);
            }
        }
        proof {
            assert forall|c: u32| #[trigger] self.counts@.contains_key(c) implies !(count_after(
                self.counts@,
                *delta,
                c,
            ) matches Some(n) && n != 0) by {
                let k = self.counts.key_index(c);
            }
        }
        None
    }

    /// Least and greatest coordinate after the delta.
    ///
    /// Only coordinates that leave can disappear from the current extremes, so
    /// the searches skip at most as many coordinates as the delta touches. A
    /// coordinate that comes is considered on its own.
    pub fn extrema_after_delta(&self, delta: &DetailedCoordinateDelta) -> (result: Option<
        (u32, u32),
    >)
        requires
            self.wf(),
            delta.wf(),
        ensures
            match result {
                Some(found) => bounds(remaining(self.counts@, *delta), found.0, found.1),
                None => remaining(self.counts@, *delta) == Set::<u32>::empty(),
            },
    {
        let mut minimum: Option<u32> = self.retained_minimum(delta);
        let mut maximum: Option<u32> = self.retained_maximum(delta);
        let count: usize = delta.additions.len();
        let ghost keys = delta.additions.ordered();
        let ghost rest = remaining(self.counts@, *delta);
        proof {
            assert forall|c: u32| #[trigger] delta.additions@.contains_key(c) implies keys.len() > 0
                && keys[0] <= c <= keys[keys.len() - 1] by {
                let k = delta.additions.key_index(c);
                if k > 0 {
                    assert(keys[0].rank() < keys[k].rank());
                }
                if k < keys.len() - 1 {
                    assert(keys[k].rank() < keys[keys.len() - 1].rank());
                }
            }
        }
        if count > 0 {
            let first: u32 = delta.additions.key_at(0);
            let last: u32 = delta.additions.key_at(count - 1);
            proof {
                delta.additions.entry(0);
                delta.additions.entry(count - 1);
                assert(rest.contains(first));
                assert(rest.contains(last));
            }
            minimum = match minimum {
                Some(known) => if known < first {
                    Some(known)
                } else {
                    Some(first)
                },
                None => Some(first),
            };
            maximum = match maximum {
                Some(known) => if known > last {
                    Some(known)
                } else {
                    Some(last)
                },
                None => Some(last),
            };
        }
        match (minimum, maximum) {
            (Some(least), Some(greatest)) => {
                proof {
                    assert(rest.contains(least));
                    assert(rest.contains(greatest));
                    assert forall|c: u32| #[trigger] rest.contains(c) implies least <= c
                        <= greatest by {
                        if delta.additions@.contains_key(c) {
                            assert(count > 0);
                        } else {
                            assert(self.counts@.contains_key(c));
                        }
                    }
                }
                Some((least, greatest))
            },
            _ => {
                proof {
                    assert forall|c: u32| !rest.contains(c) by {
                        if rest.contains(c) {
                            if delta.additions@.contains_key(c) {
                                assert(count > 0);
                            } else {
                                assert(self.counts@.contains_key(c));
                            }
                        }
                    }
                    assert(rest =~= Set::<u32>::empty());
                }
                None
            },
        }
    }

    /// Applies the delta; stops at the first removal that cannot be made.
    pub fn apply_delta(&mut self, delta: &DetailedCoordinateDelta) -> (result: Option<()>)
        requires
            old(self).wf(),
            delta.wf(),
            old(self).admits(*delta) ==> old(self).has_room(*delta),
        ensures
            final(self).wf(),
            result is Some <==> old(self).admits(*delta),
            result is Some ==> final(self).counts@ == after_additions(
                after_removals(
                    old(self).counts@,
                    delta.removals,
                    delta.removals.ordered().len() as int,
                ),
                delta.additions,
                delta.additions.ordered().len() as int,
            ),
            result is None ==> exists|done: int|
                {
                    &&& 0 <= done < delta.removals.ordered().len()
                    &&& !can_leave(
                        old(self).counts@,
                        delta.removals.ordered()[done],
                        delta.removals@[delta.removals.ordered()[done]],
                    )
                    &&& final(self).counts@ == #[trigger] after_removals(
                        old(self).counts@,
                        delta.removals,
                        done,
                    )
                },
    {
        let ghost before = self.counts@;
        let ghost keys = delta.removals.ordered();
        let mut index: usize = 0;
        assert(self.counts@ =~= after_removals(before, delta.removals, 0));
        while index < delta.removals.len()
            invariant
                index <= keys.len(),
                keys == delta.removals.ordered(),
                increasing(keys),
                delta.wf(),
                self.wf(),
                old(self).counts@ == before,
                self.counts@ == after_removals(before, delta.removals, index as int),
                forall|i: int|
                    0 <= i < index ==> can_leave(
                        before,
                        #[trigger] keys[i],
                        delta.removals@[keys[i]],
                    ),
            decreases keys.len() - index,
        {
            let coordinate: u32 = delta.removals.key_at(index);
            let removed: usize = *delta.removals.value_at(index);
            proof {
                delta.removals.entry(index as int);
                assert(!keys.take(index as int).contains(coordinate)) by {
                    if keys.take(index as int).contains(coordinate) {
                        let i = keys.take(index as int).index_of(coordinate);
                        assert(keys[i].rank() < keys[index as int].rank());
                    }
                }
                assert(self.counts@.contains_key(coordinate) == before.contains_key(coordinate));
            }
            let known: usize = match self.counts.get(coordinate) {
                Some(count) => *count,
                None => {
                    assert(!can_leave(before, coordinate, removed));
                    assert(!old(self).admits(*delta));
                    return None;
                },
            };
            if known < removed {
                assert(!can_leave(before, coordinate, removed));
                assert(!old(self).admits(*delta));
                return None;
            }
            if known == removed {
                let _ = self.counts.remove(coordinate);
            } else {
                self.counts.insert(coordinate, known - removed);
            }
            proof {
                assert forall|c: u32| #[trigger]
                    keys.take(index + 1).contains(c) <==> keys.take(index as int).contains(c) || c
                        == coordinate by {
                    lemma_take_contains(keys, index as int, c);
                }
                assert(self.counts@ =~= after_removals(before, delta.removals, index + 1));
            }
            index = index + 1;
        }
        let ghost middle = self.counts@;
        let ghost come = delta.additions.ordered();
        proof {
            assert(old(self).admits(*delta)) by {
                assert forall|c: u32| #[trigger] delta.removals@.contains_key(c) implies can_leave(
                    before,
                    c,
                    delta.removals@[c],
                ) by {
                    let k = delta.removals.key_index(c);
                    assert(can_leave(before, keys[k], delta.removals@[keys[k]]));
                }
            }
            assert(middle =~= after_additions(middle, delta.additions, 0));
        }
        let mut at: usize = 0;
        while at < delta.additions.len()
            invariant
                at <= come.len(),
                come == delta.additions.ordered(),
                increasing(come),
                delta.wf(),
                self.wf(),
                forall|c: u32| #[trigger]
                    delta.additions@.contains_key(c) ==> count_of(middle, c) + delta.additions@[c]
                        <= usize::MAX,
                self.counts@ == after_additions(middle, delta.additions, at as int),
            decreases come.len() - at,
        {
            let coordinate: u32 = delta.additions.key_at(at);
            let added: usize = *delta.additions.value_at(at);
            proof {
                delta.additions.entry(at as int);
                assert(!come.take(at as int).contains(coordinate)) by {
                    if come.take(at as int).contains(coordinate) {
                        let i = come.take(at as int).index_of(coordinate);
                        assert(come[i].rank() < come[at as int].rank());
                    }
                }
                assert(count_of(self.counts@, coordinate) == count_of(middle, coordinate));
            }
            self.insert(coordinate, added);
            proof {
                assert forall|c: u32| #[trigger]
                    come.take(at + 1).contains(c) <==> come.take(at as int).contains(c) || c
                        == coordinate by {
                    lemma_take_contains(come, at as int, c);
                }
                assert(self.counts@ =~= after_additions(middle, delta.additions, at + 1));
            }
            at = at + 1;
        }
        Some(())
    }
}

/// One more element of a prefix.
proof fn lemma_take_contains(keys: Seq<u32>, index: int, key: u32)
    requires
        0 <= index < keys.len(),
    ensures
        keys.take(index + 1).contains(key) <==> keys.take(index).contains(key) || key
            == keys[index],
{
    assert(keys.take(index + 1) =~= keys.take(index).push(keys[index]));
    if keys.take(index).contains(key) {
        let i = keys.take(index).index_of(key);
        assert(keys.take(index + 1)[i] == key);
    }
    if key == keys[index] {
        assert(keys.take(index + 1)[index] == key);
    }
}

/// A delta that can be made leaves each coordinate counted as predicted.
pub proof fn applied_counts_are_predicted(
    counts: Map<u32, usize>,
    delta: DetailedCoordinateDelta,
    coordinate: u32,
)
    requires
        delta.wf(),
        forall|c: u32| #[trigger]
            delta.removals@.contains_key(c) ==> can_leave(counts, c, delta.removals@[c]),
        forall|c: u32| #[trigger]
            delta.additions@.contains_key(c) ==> count_of(
                after_removals(counts, delta.removals, delta.removals.ordered().len() as int),
                c,
            ) + delta.additions@[c] <= usize::MAX,
    ensures
        count_after(counts, delta, coordinate) == Some(
            count_of(
                after_additions(
                    after_removals(counts, delta.removals, delta.removals.ordered().len() as int),
                    delta.additions,
                    delta.additions.ordered().len() as int,
                ),
                coordinate,
            ) as usize,
        ),
{
    let gone = delta.removals.ordered();
    let come = delta.additions.ordered();
    assert(gone.take(gone.len() as int) =~= gone);
    assert(come.take(come.len() as int) =~= come);
    delta.removals.lemma_size();
    delta.additions.lemma_size();
    assert(gone.contains(coordinate) <==> delta.removals@.contains_key(coordinate)) by {
        assert(gone.to_set().contains(coordinate) <==> gone.contains(coordinate));
    }
    assert(come.contains(coordinate) <==> delta.additions@.contains_key(coordinate)) by {
        assert(come.to_set().contains(coordinate) <==> come.contains(coordinate));
    }
}

/// The two axes of a net's endpoints.
pub struct DetailedNetBoundingBox {
    /// Columns.
    pub x: DetailedCoordinateMultiset,
    /// Rows.
    pub y: DetailedCoordinateMultiset,
}

/// What changes on the two axes.
pub struct DetailedNetBoundingBoxDelta {
    /// Columns.
    pub x: DetailedCoordinateDelta,
    /// Rows.
    pub y: DetailedCoordinateDelta,
}

impl DetailedNetBoundingBoxDelta {
    /// The entries are in order.
    pub open spec fn wf(&self) -> bool {
        &&& self.x.wf()
        &&& self.y.wf()
    }

    /// Nothing changes.
    pub open spec fn is_clear(&self) -> bool {
        &&& self.x.is_clear()
        &&& self.y.is_clear()
    }

    /// An empty delta.
    pub fn new() -> (result: Self)
        ensures
            result.wf(),
            result.is_clear(),
    {
        DetailedNetBoundingBoxDelta {
            x: DetailedCoordinateDelta::new(),
            y: DetailedCoordinateDelta::new(),
        }
    }

    /// Forgets every entry.
    pub fn clear(&mut self)
        ensures
            final(self).wf(),
            final(self).is_clear(),
    {
        self.x.clear();
        self.y.clear();
    }
}

impl DetailedNetBoundingBox {
    /// The entries are in order.
    pub open spec fn wf(&self) -> bool {
        &&& self.x.wf()
        &&& self.y.wf()
    }

    /// Either both axes hold coordinates or neither does.
    pub open spec fn axes_match(&self) -> bool {
        counted(self.x.counts@) == Set::<u32>::empty() <==> counted(self.y.counts@) == Set::<
            u32,
        >::empty()
    }

    /// Half of the perimeter of the box.
    pub open spec fn half_perimeter(&self) -> int {
        extent_of(counted(self.x.counts@)) + extent_of(counted(self.y.counts@))
    }

    /// No endpoints.
    pub fn new() -> (result: Self)
        ensures
            result.wf(),
            result.x.counts@ == Map::<u32, usize>::empty(),
            result.y.counts@ == Map::<u32, usize>::empty(),
    {
        DetailedNetBoundingBox {
            x: DetailedCoordinateMultiset::new(),
            y: DetailedCoordinateMultiset::new(),
        }
    }

    /// Counts endpoints at the point.
    pub fn insert(&mut self, point: Point, multiplicity: usize)
        requires
            old(self).wf(),
            count_of(old(self).x.counts@, point.x) + multiplicity <= usize::MAX,
            count_of(old(self).y.counts@, point.y) + multiplicity <= usize::MAX,
        ensures
            final(self).wf(),
            final(self).x.counts@ == old(self).x.counts@.insert(
                point.x,
                (count_of(old(self).x.counts@, point.x) + multiplicity) as usize,
            ),
            final(self).y.counts@ == old(self).y.counts@.insert(
                point.y,
                (count_of(old(self).y.counts@, point.y) + multiplicity) as usize,
            ),
    {
        self.x.insert(point.x, multiplicity);
        self.y.insert(point.y, multiplicity);
    }

    /// Half of the perimeter of the box after the delta; nothing where only
    /// one axis holds coordinates.
    pub fn cost_after_delta(&self, delta: &DetailedNetBoundingBoxDelta) -> (result: Option<u64>)
        requires
            self.wf(),
            delta.wf(),
        ensures
            ({
                let columns = remaining(self.x.counts@, delta.x);
                let rows = remaining(self.y.counts@, delta.y);
                if (columns == Set::<u32>::empty()) != (rows == Set::<u32>::empty()) {
                    result is None
                } else {
                    result matches Some(cost) && cost == extent_of(columns) + extent_of(rows)
                }
            }),
    {
        match (self.x.extrema_after_delta(&delta.x), self.y.extrema_after_delta(&delta.y)) {
            (Some(columns), Some(rows)) => {
                proof {
                    bounds_are_extremes(remaining(self.x.counts@, delta.x), columns.0, columns.1);
                    bounds_are_extremes(remaining(self.y.counts@, delta.y), rows.0, rows.1);
                    assert(remaining(self.x.counts@, delta.x).contains(columns.0));
                    assert(remaining(self.y.counts@, delta.y).contains(rows.0));
                }
                Some((columns.1 - columns.0) as u64 + (rows.1 - rows.0) as u64)
            },
            (None, None) => Some(0),
            (Some(columns), None) => {
                assert(remaining(self.x.counts@, delta.x).contains(columns.0));
                None
            },
            (None, Some(rows)) => {
                assert(remaining(self.y.counts@, delta.y).contains(rows.0));
                None
            },
        }
    }

    /// Half of the perimeter of the box.
    pub fn cost(&self) -> (result: u64)
        requires
            self.wf(),
            self.axes_match(),
        ensures
            result == self.half_perimeter(),
    {
        let unchanged = DetailedNetBoundingBoxDelta::new();
        proof {
            clear_delta_changes_nothing(self.x.counts@, unchanged.x);
            clear_delta_changes_nothing(self.y.counts@, unchanged.y);
        }
        match self.cost_after_delta(&unchanged) {
            Some(cost) => cost,
            None => 0,
        }
    }

    /// Applies the delta, the columns first.
    pub fn apply_delta(&mut self, delta: &DetailedNetBoundingBoxDelta) -> (result: Option<()>)
        requires
            old(self).wf(),
            delta.wf(),
            old(self).x.admits(delta.x) ==> old(self).x.has_room(delta.x),
            old(self).y.admits(delta.y) ==> old(self).y.has_room(delta.y),
        ensures
            final(self).wf(),
            result is Some <==> old(self).x.admits(delta.x) && old(self).y.admits(delta.y),
            !old(self).x.admits(delta.x) ==> final(self).y == old(self).y,
            old(self).x.admits(delta.x) ==> final(self).x.counts@ == after_additions(
                after_removals(
                    old(self).x.counts@,
                    delta.x.removals,
                    delta.x.removals.ordered().len() as int,
                ),
                delta.x.additions,
                delta.x.additions.ordered().len() as int,
            ),
            result is Some ==> final(self).y.counts@ == after_additions(
                after_removals(
                    old(self).y.counts@,
                    delta.y.removals,
                    delta.y.removals.ordered().len() as int,
                ),
                delta.y.additions,
                delta.y.additions.ordered().len() as int,
            ),
    {
        match self.x.apply_delta(&delta.x) {
            Some(_) => self.y.apply_delta(&delta.y),
            None => None,
        }
    }
}

/// An empty delta leaves the counted coordinates as they are.
pub proof fn clear_delta_changes_nothing(counts: Map<u32, usize>, delta: DetailedCoordinateDelta)
    requires
        delta.is_clear(),
    ensures
        remaining(counts, delta) == counted(counts),
{
    assert(remaining(counts, delta) =~= counted(counts));
}

/// Where every addition counts something, the predicted box is the box that
/// applying the delta gives.
pub proof fn predicted_box_is_exact(counts: Map<u32, usize>, delta: DetailedCoordinateDelta)
    requires
        delta.wf(),
        forall|c: u32| #[trigger]
            delta.removals@.contains_key(c) ==> can_leave(counts, c, delta.removals@[c]),
        forall|c: u32| #[trigger]
            delta.additions@.contains_key(c) ==> delta.additions@[c] > 0 && count_of(
                after_removals(counts, delta.removals, delta.removals.ordered().len() as int),
                c,
            ) + delta.additions@[c] <= usize::MAX,
    ensures
        remaining(counts, delta) == counted(
            after_additions(
                after_removals(counts, delta.removals, delta.removals.ordered().len() as int),
                delta.additions,
                delta.additions.ordered().len() as int,
            ),
        ),
{
    let after = after_additions(
        after_removals(counts, delta.removals, delta.removals.ordered().len() as int),
        delta.additions,
        delta.additions.ordered().len() as int,
    );
    assert forall|c: u32| #[trigger]
        remaining(counts, delta).contains(c) <==> counted(after).contains(c) by {
        applied_counts_are_predicted(counts, delta, c);
    }
    assert(remaining(counts, delta) =~= counted(after));
}

} // verus!
