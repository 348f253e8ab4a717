//! Sets and maps kept as strictly increasing vectors.
//!
//! Every collection the placer and the router walk has one fixed order, so
//! that two runs on the same input visit the same elements in the same order.

use vstd::prelude::*;

verus! {

/// A key with a total order, given by an injective integer rank.
pub trait OrderedKey: Copy {
    /// Position of the key in the total order.
    spec fn rank(self) -> int;

    /// Two keys of one rank are one key.
    proof fn rank_is_injective(a: Self, b: Self)
        requires
            a.rank() == b.rank(),
        ensures
            a == b,
    ;

    /// Strict order on keys.
    fn precedes(self, other: Self) -> (result: bool)
        ensures
            result == (self.rank() < other.rank()),
    ;
}

/// The keys stand in strictly increasing order.
pub open spec fn increasing<K: OrderedKey>(keys: Seq<K>) -> bool {
    forall|i: int, j: int|
        0 <= i < j < keys.len() ==> (#[trigger] keys[i]).rank() < (#[trigger] keys[j]).rank()
}

/// Leading and last digit of a number in one base.
pub proof fn lemma_digits(a: int, x: int, b: int, y: int, base: int)
    requires
        0 <= x < base,
        0 <= y < base,
        a * base + x == b * base + y,
    ensures
        a == b,
        x == y,
{
    assert(a == b) by (nonlinear_arith)
        requires
            0 <= x < base,
            0 <= y < base,
            a * base + x == b * base + y,
    ;
}

/// In an increasing sequence a key stands at one index at most.
pub proof fn increasing_has_no_duplicates<K: OrderedKey>(keys: Seq<K>)
    requires
        increasing(keys),
    ensures
        keys.no_duplicates(),
{
    assert forall|i: int, j: int| 0 <= i < keys.len() && 0 <= j < keys.len() && i != j implies keys[i]
        != keys[j] by {
        if i < j {
            assert(keys[i].rank() < keys[j].rank());
        } else {
            assert(keys[j].rank() < keys[i].rank());
        }
    }
}

/// Index at which `key` stands, or the index at which it would be inserted.
pub fn lower_bound<K: OrderedKey>(keys: &Vec<K>, key: K) -> (index: usize)
    requires
        increasing(keys@),
    ensures
        index <= keys@.len(),
        forall|i: int| 0 <= i < index ==> (#[trigger] keys@[i]).rank() < key.rank(),
        forall|i: int| index <= i < keys@.len() ==> (#[trigger] keys@[i]).rank() >= key.rank(),
        keys@.contains(key) <==> (index < keys@.len() && keys@[index as int] == key),
{
    let mut low: usize = 0;
    let mut high: usize = keys.len();
    while low < high
        invariant
            low <= high <= keys@.len(),
            increasing(keys@),
            forall|i: int| 0 <= i < low ==> (#[trigger] keys@[i]).rank() < key.rank(),
            forall|i: int| high <= i < keys@.len() ==> (#[trigger] keys@[i]).rank() >= key.rank(),
        decreases high - low,
    {
        let middle: usize = low + (high - low) / 2;
        if keys[middle].precedes(key) {
            low = middle + 1;
        } else {
            high = middle;
        }
    }
    proof {
        if keys@.contains(key) {
            let at = choose|i: int| 0 <= i < keys@.len() && keys@[i] == key;
            assert(at >= low);
            assert(keys@[low as int].rank() >= key.rank());
            if at > low {
                assert(keys@[low as int].rank() < keys@[at].rank());
            }
            assert(at == low);
        }
    }
    low
}

/// Equality of two keys.
pub fn same_key<K: OrderedKey>(a: K, b: K) -> (result: bool)
    ensures
        result == (a == b),
{
    if a.precedes(b) {
        false
    } else if b.precedes(a) {
        false
    } else {
        proof {
            K::rank_is_injective(a, b);
        }
        true
    }
}

/// A set of keys, walked in increasing order.
#[derive(Clone, Debug, PartialEq, Eq)]
pub struct OrderedSet<K> {
    items: Vec<K>,
}

impl<K: OrderedKey> View for OrderedSet<K> {
    type V = Set<K>;

    closed spec fn view(&self) -> Set<K> {
        self.items@.to_set()
    }
}

impl<K: OrderedKey> OrderedSet<K> {
    /// The members in increasing order.
    pub closed spec fn ordered(&self) -> Seq<K> {
        self.items@
    }

    /// The members are stored in strictly increasing order.
    pub open spec fn wf(&self) -> bool {
        increasing(self.ordered())
    }

    /// Membership is occurrence in the ordered sequence.
    pub broadcast proof fn membership(&self, key: K)
        ensures
            #[trigger] self@.contains(key) <==> self.ordered().contains(key),
    {
    }

    /// The keys stand in increasing order.
    pub proof fn lemma_position_order(&self, a: int, b: int)
        requires
            self.wf(),
            0 <= a <= b < self.ordered().len(),
        ensures
            self.ordered()[a].rank() <= self.ordered()[b].rank(),
    {
        if a < b {
            assert(self.ordered()[a].rank() < self.ordered()[b].rank());
        }
    }

    /// The set has as many members as its ordered sequence has entries.
    pub proof fn size(&self)
        requires
            self.wf(),
        ensures
            self@.finite(),
            self@.len() == self.ordered().len(),
    {
        increasing_has_no_duplicates(self.ordered());
        self.items@.unique_seq_to_set();
    }

    /// The empty set.
    pub fn new() -> (result: Self)
        ensures
            result.wf(),
            result.ordered() == Seq::<K>::empty(),
            result@ == Set::<K>::empty(),
    {
        let result = OrderedSet { items: Vec::new() };
        assert(result@ =~= Set::<K>::empty());
        result
    }

    /// Number of members.
    pub fn len(&self) -> (result: usize)
        ensures
            result == self.ordered().len(),
    {
        self.items.len()
    }

    /// Whether the set has no member.
    pub fn is_empty(&self) -> (result: bool)
        ensures
            result == (self.ordered().len() == 0),
            result == (self@ == Set::<K>::empty()),
    {
        let result = self.items.len() == 0;
        proof {
            if result {
                assert(self@ =~= Set::<K>::empty());
            } else {
                assert(self.items@.contains(self.items@[0]));
                assert(self@.contains(self.items@[0]));
            }
        }
        result
    }

    /// The member at one position of the increasing order.
    pub fn at(&self, index: usize) -> (result: K)
        requires
            index < self.ordered().len(),
        ensures
            result == self.ordered()[index as int],
            self@.contains(result),
    {
        proof {
            assert(self.items@.contains(self.items@[index as int]));
        }
        self.items[index]
    }

    /// The members as one increasing slice.
    pub fn as_slice(&self) -> (result: &[K])
        ensures
            result@ == self.ordered(),
    {
        self.items.as_slice()
    }

    /// Whether `key` is a member.
    pub fn contains(&self, key: K) -> (result: bool)
        requires
            self.wf(),
        ensures
            result == self@.contains(key),
    {
        let index = lower_bound(&self.items, key);
        index < self.items.len() && same_key(self.items[index], key)
    }

    /// Adds `key`; says whether it was new.
    pub fn insert(&mut self, key: K) -> (fresh: bool)
        requires
            old(self).wf(),
        ensures
            final(self).wf(),
            fresh == !old(self)@.contains(key),
            final(self)@ == old(self)@.insert(key),
            !fresh ==> final(self).ordered() == old(self).ordered(),
            fresh ==> final(self).ordered().len() == old(self).ordered().len() + 1,
    {
        let ghost before = self.items@;
        let index = lower_bound(&self.items, key);
        if index < self.items.len() && same_key(self.items[index], key) {
            assert(self@ =~= old(self)@.insert(key));
            return false;
        }
        self.items.insert(index, key);
        proof {
            let after = self.items@;
            assert(after == before.insert(index as int, key));
            assert forall|i: int, j: int| 0 <= i < j < after.len() implies (#[trigger] after[i]).rank()
                < (#[trigger] after[j]).rank() by {
                let a = if i < index { i } else { i - 1 };
                let b = if j < index { j } else { j - 1 };
                if i != index && j != index {
                    assert(before[a].rank() < before[b].rank());
                }
                if i == index {
                    if before[b].rank() == key.rank() { K::rank_is_injective(before[b], key); }
                    assert(before.contains(before[b]));
                }
            }
            assert forall|k: K| self@.contains(k) <==> old(self)@.insert(key).contains(k) by {
                if before.contains(k) {
                    let at = choose|i: int| 0 <= i < before.len() && before[i] == k;
                    let to = if at < index { at } else { at + 1 };
                    assert(after[to] == k);
                }
                assert(after[index as int] == key);
                if after.contains(k) && k != key {
                    let at = choose|i: int| 0 <= i < after.len() && after[i] == k;
                    let from = if at < index { at } else { at - 1 };
                    assert(before[from] == k);
                }
            }
            assert(self@ =~= old(self)@.insert(key));
        }
        true
    }

    /// Removes `key`; says whether it was a member.
    pub fn remove(&mut self, key: K) -> (present: bool)
        requires
            old(self).wf(),
        ensures
            final(self).wf(),
            present == old(self)@.contains(key),
            final(self)@ == old(self)@.remove(key),
            !present ==> final(self).ordered() == old(self).ordered(),
    {
        let ghost before = self.items@;
        let index = lower_bound(&self.items, key);
        if index < self.items.len() && same_key(self.items[index], key) {
            self.items.remove(index);
            proof {
                let after = self.items@;
                assert forall|i: int, j: int| 0 <= i < j < after.len() implies (
                #[trigger] after[i]).rank() < (#[trigger] after[j]).rank() by {
                    let a = if i < index { i } else { i + 1 };
                    let b = if j < index { j } else { j + 1 };
                    assert(before[a].rank() < before[b].rank());
                }
                increasing_has_no_duplicates(before);
                assert forall|k: K| self@.contains(k) <==> old(self)@.remove(key).contains(k) by {
                    if before.contains(k) && k != key {
                        let at = choose|i: int| 0 <= i < before.len() && before[i] == k;
                        let to = if at < index { at } else { at - 1 };
                        assert(after[to] == k);
                    }
                    if after.contains(k) {
                        let at = choose|i: int| 0 <= i < after.len() && after[i] == k;
                        let from = if at < index { at } else { at + 1 };
                        assert(before[from] == k);
                    }
                }
                assert(self@ =~= old(self)@.remove(key));
            }
            return true;
        }
        assert(self@ =~= old(self)@.remove(key));
        false
    }

    /// A copy of the set.
    pub fn copied(&self) -> (result: Self)
        ensures
            result.ordered() == self.ordered(),
            result@ == self@,
    {
        OrderedSet { items: copy_keys(&self.items) }
    }

    /// Adds every key of a slice.
    pub fn extend(&mut self, keys: &[K])
        requires
            old(self).wf(),
        ensures
            final(self).wf(),
            final(self)@ == old(self)@.union(keys@.to_set()),
    {
        let mut index: usize = 0;
        proof {
            assert(keys@.take(0).to_set() =~= Set::<K>::empty());
            assert(self@ =~= old(self)@.union(keys@.take(0).to_set()));
        }
        while index < keys.len()
            invariant
                index <= keys@.len(),
                self.wf(),
                self@ == old(self)@.union(keys@.take(index as int).to_set()),
            decreases keys@.len() - index,
        {
            self.insert(keys[index]);
            proof {
                lemma_take_step(keys@, index as int);
                assert(self@ =~= old(self)@.union(keys@.take(index + 1).to_set()));
            }
            index = index + 1;
        }
        proof {
            assert(keys@.take(keys@.len() as int) =~= keys@);
        }
    }

    /// The set of the keys of a slice.
    pub fn from_slice(keys: &[K]) -> (result: Self)
        ensures
            result.wf(),
            result@ == keys@.to_set(),
    {
        let mut result = Self::new();
        result.extend(keys);
        assert(result@ =~= keys@.to_set());
        result
    }

    /// Whether the two sets have the same members.
    pub fn same(&self, other: &Self) -> (result: bool)
        requires
            self.wf(),
            other.wf(),
        ensures
            result == (self@ == other@),
            result == (self.ordered() == other.ordered()),
    {
        let result = same_keys(&self.items, &other.items);
        proof {
            if self@ == other@ {
                lemma_increasing_is_canonical(self.items@, other.items@);
            }
        }
        result
    }
}

/// Taking one more key adds that key to the set of the keys taken.
pub proof fn lemma_take_step<K>(keys: Seq<K>, index: int)
    requires
        0 <= index < keys.len(),
    ensures
        keys.take(index + 1).to_set() == keys.take(index).to_set().insert(keys[index]),
{
    let more = keys.take(index + 1);
    let less = keys.take(index);
    assert(more =~= less.push(keys[index]));
    assert forall|k: K| more.to_set().contains(k) <==> less.to_set().insert(keys[index]).contains(k) by {
        if less.contains(k) {
            let at = choose|i: int| 0 <= i < less.len() && less[i] == k;
            assert(more[at] == k);
        }
        assert(more[index] == keys[index]);
        if more.contains(k) && k != keys[index] {
            let at = choose|i: int| 0 <= i < more.len() && more[i] == k;
            assert(less[at] == k);
        }
    }
    assert(more.to_set() =~= less.to_set().insert(keys[index]));
}

/// Two increasing sequences over the same members are one sequence.
pub proof fn lemma_increasing_is_canonical<K: OrderedKey>(a: Seq<K>, b: Seq<K>)
    requires
        increasing(a),
        increasing(b),
        a.to_set() == b.to_set(),
    ensures
        a == b,
    decreases a.len(),
{
    if a.len() == 0 {
        if b.len() > 0 {
            assert(b.contains(b[0]));
            assert(b.to_set().contains(b[0]));
            assert(a.to_set().contains(b[0]));
        }
        assert(a =~= b);
    } else {
        let x = a.last();
        assert(a.contains(a[a.len() - 1]));
        assert(a.to_set().contains(x));
        assert(b.contains(x));
        let at = choose|i: int| 0 <= i < b.len() && b[i] == x;
        let y = b.last();
        assert(b.contains(b[b.len() - 1]));
        assert(b.to_set().contains(y));
        assert(a.contains(y));
        let back = choose|i: int| 0 <= i < a.len() && a[i] == y;
        if at < b.len() - 1 {
            assert(b[at].rank() < b[b.len() - 1].rank());
            if back < a.len() - 1 {
                assert(a[back].rank() < a[a.len() - 1].rank());
            }
        }
        assert(x == y);
        let c = a.drop_last();
        let d = b.drop_last();
        assert forall|k: K| c.to_set().contains(k) <==> d.to_set().contains(k) by {
            if c.contains(k) {
                let i = choose|i: int| 0 <= i < c.len() && c[i] == k;
                assert(a[i] == k && a[i].rank() < a[a.len() - 1].rank());
                assert(a.to_set().contains(k));
                assert(b.contains(k));
                let j = choose|j: int| 0 <= j < b.len() && b[j] == k;
                assert(d[j] == k);
            }
            if d.contains(k) {
                let i = choose|i: int| 0 <= i < d.len() && d[i] == k;
                assert(b[i] == k && b[i].rank() < b[b.len() - 1].rank());
                assert(b.to_set().contains(k));
                assert(a.contains(k));
                let j = choose|j: int| 0 <= j < a.len() && a[j] == k;
                assert(c[j] == k);
            }
        }
        assert(c.to_set() =~= d.to_set());
        lemma_increasing_is_canonical(c, d);
        assert(a =~= c.push(x));
        assert(b =~= d.push(y));
    }
}

/// A copy of a vector of keys.
pub fn copy_keys<K: Copy>(keys: &Vec<K>) -> (result: Vec<K>)
    ensures
        result@ == keys@,
{
    let mut result: Vec<K> = Vec::new();
    let mut index: usize = 0;
    while index < keys.len()
        invariant
            index <= keys@.len(),
            result@ == keys@.take(index as int),
        decreases keys@.len() - index,
    {
        result.push(keys[index]);
        assert(keys@.take(index + 1) =~= keys@.take(index as int).push(keys@[index as int]));
        index = index + 1;
    }
    assert(keys@.take(index as int) =~= keys@);
    result
}

/// Whether two vectors of keys are equal element by element.
pub fn same_keys<K: OrderedKey>(a: &Vec<K>, b: &Vec<K>) -> (result: bool)
    ensures
        result == (a@ == b@),
{
    if a.len() != b.len() {
        return false;
    }
    let mut index: usize = 0;
    while index < a.len()
        invariant
            index <= a@.len(),
            a@.len() == b@.len(),
            forall|i: int| 0 <= i < index ==> a@[i] == b@[i],
        decreases a@.len() - index,
    {
        if !same_key(a[index], b[index]) {
            return false;
        }
        index = index + 1;
    }
    assert(a@ =~= b@);
    true
}

/// Position of `key` in a sequence that contains it.
pub open spec fn position<K>(keys: Seq<K>, key: K) -> int {
    choose|i: int| 0 <= i < keys.len() && keys[i] == key
}

/// In an increasing sequence the position of a key is the index at which it stands.
pub proof fn lemma_position<K: OrderedKey>(keys: Seq<K>, index: int)
    requires
        increasing(keys),
        0 <= index < keys.len(),
    ensures
        position(keys, keys[index]) == index,
{
    increasing_has_no_duplicates(keys);
    let at = position(keys, keys[index]);
    assert(0 <= at < keys.len() && keys[at] == keys[index]);
}

/// A map from keys to values, walked in increasing key order.
#[derive(Clone, Debug, PartialEq, Eq)]
pub struct OrderedMap<K, V> {
    keys: Vec<K>,
    values: Vec<V>,
}

impl<K: OrderedKey, V> View for OrderedMap<K, V> {
    type V = Map<K, V>;

    closed spec fn view(&self) -> Map<K, V> {
        Map::new(
            |k: K| self.keys@.contains(k),
            |k: K| self.values@[position(self.keys@, k)],
        )
    }
}

impl<K: OrderedKey, V: Copy> OrderedMap<K, V> {
    /// A copy of the map.
    pub fn copied(&self) -> (result: Self)
        requires
            self.wf(),
        ensures
            result.wf(),
            result@ == self@,
    {
        let mut result: OrderedMap<K, V> = OrderedMap::new();
        let mut index: usize = 0;
        while index < self.len()
            invariant
                index <= self.ordered().len(),
                self.wf(),
                result.wf(),
                forall|k: K| #[trigger]
                    result@.contains_key(k) <==> self.ordered().take(index as int).to_set().contains(
                        k,
                    ),
                forall|k: K| #[trigger]
                    result@.contains_key(k) ==> self@.contains_key(k) && result@[k] == self@[k],
            decreases self.ordered().len() - index,
        {
            let key = self.key_at(index);
            proof {
                self.entry(index as int);
                lemma_take_step(self.ordered(), index as int);
            }
            result.insert(key, *self.value_at(index));
            index = index + 1;
        }
        proof {
            self.lemma_size();
            assert(self.ordered().take(index as int) =~= self.ordered());
            assert forall|k: K| result@.contains_key(k) <==> self@.contains_key(k) by {
                assert(self@.dom().contains(k) <==> self.ordered().to_set().contains(k));
            }
            assert(result@ =~= self@);
        }
        result
    }
}

impl<K: OrderedKey, V> OrderedMap<K, V> {
    /// The keys in increasing order.
    pub closed spec fn ordered(&self) -> Seq<K> {
        self.keys@
    }

    /// The values, each at the position of its key.
    pub closed spec fn values_in_order(&self) -> Seq<V> {
        self.values@
    }

    /// The keys are strictly increasing and each has one value.
    pub open spec fn wf(&self) -> bool {
        &&& increasing(self.ordered())
        &&& self.ordered().len() == self.values_in_order().len()
    }

    /// The entry at one position is an entry of the map.
    pub proof fn entry(&self, index: int)
        requires
            self.wf(),
            0 <= index < self.ordered().len(),
        ensures
            self@.contains_key(self.ordered()[index]),
            self@[self.ordered()[index]] == self.values_in_order()[index],
    {
        lemma_position(self.keys@, index);
        assert(self.keys@.contains(self.keys@[index]));
    }

    /// A key of the map stands in its ordered sequence.
    pub proof fn key_index(&self, key: K) -> (index: int)
        requires
            self.wf(),
            self@.contains_key(key),
        ensures
            0 <= index < self.ordered().len(),
            self.ordered()[index] == key,
            self.values_in_order()[index] == self@[key],
    {
        let index = position(self.keys@, key);
        self.entry(index);
        index
    }

    /// The map has as many keys as its ordered sequence has entries.
    pub proof fn lemma_size(&self)
        requires
            self.wf(),
        ensures
            self@.dom().finite(),
            self@.dom().len() == self.ordered().len(),
            self@.dom() == self.ordered().to_set(),
    {
        increasing_has_no_duplicates(self.ordered());
        self.keys@.unique_seq_to_set();
        assert(self@.dom() =~= self.keys@.to_set());
    }

    /// The empty map.
    pub fn new() -> (result: Self)
        ensures
            result.wf(),
            result.ordered() == Seq::<K>::empty(),
            result@ == Map::<K, V>::empty(),
    {
        let result = OrderedMap { keys: Vec::new(), values: Vec::new() };
        assert(result@ =~= Map::<K, V>::empty());
        result
    }

    /// Number of entries.
    pub fn len(&self) -> (result: usize)
        ensures
            result == self.ordered().len(),
    {
        self.keys.len()
    }

    /// Whether the map has no entry.
    pub fn is_empty(&self) -> (result: bool)
        ensures
            result == (self.ordered().len() == 0),
            result == (self@ == Map::<K, V>::empty()),
    {
        let result = self.keys.len() == 0;
        proof {
            if result {
                assert(self@ =~= Map::<K, V>::empty());
            } else {
                assert(self.keys@.contains(self.keys@[0]));
                assert(self@.contains_key(self.keys@[0]));
            }
        }
        result
    }

    /// The keys as one increasing slice.
    pub fn keys(&self) -> (result: &[K])
        ensures
            result@ == self.ordered(),
    {
        self.keys.as_slice()
    }

    /// The key at one position of the increasing order.
    pub fn key_at(&self, index: usize) -> (result: K)
        requires
            index < self.ordered().len(),
        ensures
            result == self.ordered()[index as int],
    {
        self.keys[index]
    }

    /// The value at one position of the increasing key order.
    pub fn value_at(&self, index: usize) -> (result: &V)
        requires
            index < self.values_in_order().len(),
        ensures
            *result == self.values_in_order()[index as int],
    {
        &self.values[index]
    }

    /// Whether `key` has a value.
    pub fn contains_key(&self, key: K) -> (result: bool)
        requires
            self.wf(),
        ensures
            result == self@.contains_key(key),
    {
        let index = lower_bound(&self.keys, key);
        index < self.keys.len() && same_key(self.keys[index], key)
    }

    /// The value of `key`, if it has one.
    pub fn get(&self, key: K) -> (result: Option<&V>)
        requires
            self.wf(),
        ensures
            result.is_some() == self@.contains_key(key),
            result.is_some() ==> *result.unwrap() == self@[key],
    {
        let index = lower_bound(&self.keys, key);
        if index < self.keys.len() && same_key(self.keys[index], key) {
            proof {
                lemma_position(self.keys@, index as int);
            }
            Some(&self.values[index])
        } else {
            None
        }
    }

    /// Gives `key` the value `value`.
    pub fn insert(&mut self, key: K, value: V)
        requires
            old(self).wf(),
        ensures
            final(self).wf(),
            final(self)@ == old(self)@.insert(key, value),
    {
        let ghost before = *self;
        let index = lower_bound(&self.keys, key);
        if index < self.keys.len() && same_key(self.keys[index], key) {
            self.values.set(index, value);
            proof {
                assert forall|k: K| self.keys@.contains(k) implies #[trigger] self@[k] == before@.insert(
                    key,
                    value,
                )[k] by {
                    let at = position(self.keys@, k);
                    if k == key {
                        lemma_position(self.keys@, index as int);
                    } else {
                        assert(at != index);
                    }
                }
                assert(self@ =~= before@.insert(key, value));
            }
            return ;
        }
        self.keys.insert(index, key);
        self.values.insert(index, value);
        proof {
            lemma_insert_increasing(before.keys@, index as int, key);
            assert forall|k: K| self.keys@.contains(k) implies #[trigger] self@[k] == before@.insert(
                key,
                value,
            )[k] by {
                let at = position(self.keys@, k);
                if k == key {
                    assert(self.keys@[index as int] == key);
                    lemma_position(self.keys@, index as int);
                } else {
                    assert(at != index);
                    let from = if at < index { at } else { at - 1 };
                    assert(before.keys@[from] == k);
                    lemma_position(before.keys@, from);
                }
            }
            assert(self@ =~= before@.insert(key, value));
        }
    }

    /// Takes the entry of `key` out.
    pub fn remove(&mut self, key: K) -> (taken: Option<V>)
        requires
            old(self).wf(),
        ensures
            final(self).wf(),
            taken.is_some() == old(self)@.contains_key(key),
            taken.is_some() ==> taken.unwrap() == old(self)@[key],
            final(self)@ == old(self)@.remove(key),
    {
        let ghost before = *self;
        let index = lower_bound(&self.keys, key);
        if index < self.keys.len() && same_key(self.keys[index], key) {
            self.keys.remove(index);
            let value = self.values.remove(index);
            proof {
                lemma_remove_increasing(before.keys@, index as int);
                lemma_position(before.keys@, index as int);
                assert forall|k: K| self.keys@.contains(k) implies #[trigger] self@[k] == before@[k] by {
                    let at = position(self.keys@, k);
                    let from = if at < index { at } else { at + 1 };
                    assert(before.keys@[from] == k);
                    lemma_position(before.keys@, from);
                }
                assert(self@ =~= before@.remove(key));
            }
            return Some(value);
        }
        assert(self@ =~= before@.remove(key));
        None
    }
}

/// Inserting a key at its lower bound keeps the order and adds that key alone.
proof fn lemma_insert_increasing<K: OrderedKey>(before: Seq<K>, index: int, key: K)
    requires
        increasing(before),
        0 <= index <= before.len(),
        !before.contains(key),
        forall|i: int| 0 <= i < index ==> (#[trigger] before[i]).rank() < key.rank(),
        forall|i: int| index <= i < before.len() ==> (#[trigger] before[i]).rank() >= key.rank(),
    ensures
        increasing(before.insert(index, key)),
        forall|k: K|
            #[trigger] before.insert(index, key).contains(k) <==> (before.contains(k) || k == key),
{
    let after = before.insert(index, key);
    assert forall|i: int, j: int| 0 <= i < j < after.len() implies (#[trigger] after[i]).rank() < (
    #[trigger] after[j]).rank() by {
        let a = if i < index { i } else { i - 1 };
        let b = if j < index { j } else { j - 1 };
        if i != index && j != index {
            assert(before[a].rank() < before[b].rank());
        }
        if i == index {
            assert(before.contains(before[b]));
            if before[b].rank() == key.rank() {
                K::rank_is_injective(before[b], key);
            }
        }
    }
    assert forall|k: K| #[trigger] after.contains(k) <==> (before.contains(k) || k == key) by {
        if before.contains(k) {
            let at = choose|i: int| 0 <= i < before.len() && before[i] == k;
            let to = if at < index { at } else { at + 1 };
            assert(after[to] == k);
        }
        assert(after[index] == key);
        if after.contains(k) && k != key {
            let at = choose|i: int| 0 <= i < after.len() && after[i] == k;
            let from = if at < index { at } else { at - 1 };
            assert(before[from] == k);
        }
    }
}

/// Removing one position keeps the order and takes that key alone.
proof fn lemma_remove_increasing<K: OrderedKey>(before: Seq<K>, index: int)
    requires
        increasing(before),
        0 <= index < before.len(),
    ensures
        increasing(before.remove(index)),
        forall|k: K|
            #[trigger] before.remove(index).contains(k) <==> (before.contains(k) && k
                != before[index]),
{
    let after = before.remove(index);
    increasing_has_no_duplicates(before);
    assert forall|i: int, j: int| 0 <= i < j < after.len() implies (#[trigger] after[i]).rank() < (
    #[trigger] after[j]).rank() by {
        let a = if i < index { i } else { i + 1 };
        let b = if j < index { j } else { j + 1 };
        assert(before[a].rank() < before[b].rank());
    }
    assert forall|k: K| #[trigger] after.contains(k) <==> (before.contains(k) && k != before[index]) by {
        if before.contains(k) && k != before[index] {
            let at = choose|i: int| 0 <= i < before.len() && before[i] == k;
            let to = if at < index { at } else { at - 1 };
            assert(after[to] == k);
        }
        if after.contains(k) {
            let at = choose|i: int| 0 <= i < after.len() && after[i] == k;
            let from = if at < index { at } else { at + 1 };
            assert(before[from] == k);
        }
    }
}

/// The first sequence comes before the second in dictionary order.
pub open spec fn lex_before<K: OrderedKey>(a: Seq<K>, b: Seq<K>) -> bool
    decreases a.len(),
{
    if b.len() == 0 {
        false
    } else if a.len() == 0 {
        true
    } else if a[0].rank() != b[0].rank() {
        a[0].rank() < b[0].rank()
    } else {
        lex_before(a.drop_first(), b.drop_first())
    }
}

/// Dictionary order is irreflexive.
pub proof fn lemma_lex_irreflexive<K: OrderedKey>(a: Seq<K>)
    ensures
        !lex_before(a, a),
    decreases a.len(),
{
    if a.len() > 0 {
        lemma_lex_irreflexive(a.drop_first());
    }
}

/// Dictionary order is transitive.
pub proof fn lemma_lex_transitive<K: OrderedKey>(a: Seq<K>, b: Seq<K>, c: Seq<K>)
    requires
        lex_before(a, b),
        lex_before(b, c),
    ensures
        lex_before(a, c),
    decreases a.len(),
{
    if a.len() > 0 && a[0].rank() == b[0].rank() && b[0].rank() == c[0].rank() {
        lemma_lex_transitive(a.drop_first(), b.drop_first(), c.drop_first());
    }
}

/// Dictionary order is total.
pub proof fn lemma_lex_total<K: OrderedKey>(a: Seq<K>, b: Seq<K>)
    ensures
        a == b || lex_before(a, b) || lex_before(b, a),
    decreases a.len(),
{
    if a.len() == 0 || b.len() == 0 {
        if a.len() == b.len() {
            assert(a =~= b);
        }
    } else if a[0].rank() == b[0].rank() {
        K::rank_is_injective(a[0], b[0]);
        lemma_lex_total(a.drop_first(), b.drop_first());
        if a.drop_first() == b.drop_first() {
            assert(a =~= seq![a[0]] + a.drop_first());
            assert(b =~= seq![b[0]] + b.drop_first());
        }
    }
}

/// Whether the first sequence comes before the second in dictionary order.
pub fn lex_precedes<K: OrderedKey>(a: &Vec<K>, b: &Vec<K>) -> (result: bool)
    ensures
        result == lex_before(a@, b@),
{
    let mut index: usize = 0;
    assert(a@.skip(0) =~= a@);
    assert(b@.skip(0) =~= b@);
    while index < a.len() && index < b.len()
        invariant
            index <= a@.len(),
            index <= b@.len(),
            lex_before(a@, b@) == lex_before(a@.skip(index as int), b@.skip(index as int)),
        decreases a@.len() - index,
    {
        assert(a@.skip(index as int)[0] == a@[index as int]);
        assert(b@.skip(index as int)[0] == b@[index as int]);
        assert(a@.skip(index as int).drop_first() =~= a@.skip(index + 1));
        assert(b@.skip(index as int).drop_first() =~= b@.skip(index + 1));
        if a[index].precedes(b[index]) {
            return true;
        }
        if b[index].precedes(a[index]) {
            return false;
        }
        index = index + 1;
    }
    index < b.len()
}

/// Moving one entry keeps the multiset.
pub proof fn lemma_move_multiset<T>(items: Seq<T>, from: int, to: int)
    requires
        0 <= to <= from < items.len(),
    ensures
        items.remove(from).insert(to, items[from]).to_multiset() == items.to_multiset(),
{
    broadcast use vstd::multiset::group_multiset_axioms;

    let value = items[from];
    let removed = items.remove(from);
    let moved = removed.insert(to, value);
    vstd::seq_lib::to_multiset_remove(items, from);
    vstd::seq_lib::to_multiset_remove(moved, to);
    assert(moved.remove(to) =~= removed);
    moved.to_multiset_ensures();
    items.to_multiset_ensures();
    assert(moved.contains(moved[to]));
    assert(items.contains(items[from]));
    assert(moved.to_multiset().remove(value).insert(value) =~= moved.to_multiset());
    assert(items.to_multiset().remove(value).insert(value) =~= items.to_multiset());
}

/// The keys stand in nondecreasing order.
pub open spec fn nondecreasing<K: OrderedKey>(keys: Seq<K>) -> bool {
    forall|i: int, j: int|
        0 <= i < j < keys.len() ==> (#[trigger] keys[i]).rank() <= (#[trigger] keys[j]).rank()
}

/// Puts keys in nondecreasing order.
pub fn sort_keys<K: OrderedKey>(keys: &mut Vec<K>)
    ensures
        nondecreasing(final(keys)@),
        final(keys)@.to_multiset() == old(keys)@.to_multiset(),
        final(keys)@.len() == old(keys)@.len(),
{
    let mut done: usize = 0;
    while done < keys.len()
        invariant
            done <= keys@.len(),
            nondecreasing(keys@.take(done as int)),
            keys@.to_multiset() == old(keys)@.to_multiset(),
            keys@.len() == old(keys)@.len(),
        decreases keys@.len() - done,
    {
        let mut place: usize = done;
        let key = keys[done];
        while place > 0 && key.precedes(keys[place - 1])
            invariant
                place <= done < keys@.len(),
                key == keys@[done as int],
                nondecreasing(keys@.take(done as int)),
                forall|i: int| place <= i < done ==> key.rank() < (#[trigger] keys@[i]).rank(),
            decreases place,
        {
            place = place - 1;
        }
        let ghost before = keys@;
        keys.remove(done);
        keys.insert(place, key);
        proof {
            lemma_move_multiset(before, done as int, place as int);
            let after = keys@;
            assert(after =~= before.remove(done as int).insert(place as int, key));
            let sorted = before.take(done as int);
            let longer = after.take(done + 1);
            assert forall|i: int, j: int| 0 <= i < j < longer.len() implies (
            #[trigger] longer[i]).rank() <= (#[trigger] longer[j]).rank() by {
                let a = if i < place { i } else { i - 1 };
                let b = if j < place { j } else { j - 1 };
                if i == place {
                    assert(longer[j] == before[b]);
                } else if j == place {
                    assert(longer[i] == sorted[i]);
                    if i < place - 1 {
                        assert(sorted[i].rank() <= sorted[place - 1].rank());
                    }
                } else {
                    assert(longer[i] == sorted[a]);
                    assert(longer[j] == sorted[b]);
                }
            }
        }
        done = done + 1;
    }
    assert(keys@.take(keys@.len() as int) =~= keys@);
}

/// A value at two positions counts at least twice.
pub proof fn lemma_twice_counted<T>(items: Seq<T>, a: int, b: int)
    requires
        0 <= a < b < items.len(),
        items[a] == items[b],
    ensures
        items.to_multiset().count(items[a]) >= 2,
{
    broadcast use vstd::multiset::group_multiset_axioms;

    let rest = items.remove(b);
    vstd::seq_lib::to_multiset_remove(items, b);
    rest.to_multiset_ensures();
    items.to_multiset_ensures();
    assert(rest[a] == items[a]);
    assert(rest.contains(items[a]));
    assert(items.contains(items[b]));
    let all = items.to_multiset();
    assert(all.remove(items[b]).count(items[b]) + 1 == all.count(items[b]));
}

/// Of two sequences with one multiset, each holds every entry of the other.
pub proof fn lemma_counterpart<T>(a: Seq<T>, b: Seq<T>, index: int) -> (other: int)
    requires
        a.to_multiset() == b.to_multiset(),
        0 <= index < a.len(),
    ensures
        0 <= other < b.len(),
        b[other] == a[index],
{
    a.to_multiset_ensures();
    b.to_multiset_ensures();
    assert(a.contains(a[index]));
    assert(b.to_multiset().count(a[index]) > 0);
    b.index_of(a[index])
}

/// Mapping keeps equal multisets equal.
pub proof fn lemma_mapped_multiset<A, B>(a: Seq<A>, b: Seq<A>, f: spec_fn(A) -> B)
    requires
        a.to_multiset() == b.to_multiset(),
    ensures
        a.map_values(f).to_multiset() == b.map_values(f).to_multiset(),
    decreases a.len(),
{
    broadcast use vstd::multiset::group_multiset_axioms;

    a.to_multiset_ensures();
    b.to_multiset_ensures();
    if a.len() == 0 {
        assert(a.map_values(f) =~= b.map_values(f));
    } else {
        let last = a.len() - 1;
        let other = lemma_counterpart(a, b, last);
        vstd::seq_lib::to_multiset_remove(a, last);
        vstd::seq_lib::to_multiset_remove(b, other);
        lemma_mapped_multiset(a.remove(last), b.remove(other), f);
        let x = a.map_values(f);
        let y = b.map_values(f);
        assert(x.remove(last) =~= a.remove(last).map_values(f));
        assert(y.remove(other) =~= b.remove(other).map_values(f));
        vstd::seq_lib::to_multiset_remove(x, last);
        vstd::seq_lib::to_multiset_remove(y, other);
        x.to_multiset_ensures();
        y.to_multiset_ensures();
        assert(x.contains(x[last]));
        assert(y.contains(y[other]));
        assert(x.to_multiset() =~= x.to_multiset().remove(x[last]).insert(x[last]));
        assert(y.to_multiset() =~= y.to_multiset().remove(y[other]).insert(y[other]));
    }
}

/// Sequences of the same entries in order of a key that tells the entries apart
/// are equal.
pub proof fn lemma_sorted_unique<T>(a: Seq<T>, b: Seq<T>, key: spec_fn(T) -> int)
    requires
        a.to_multiset() == b.to_multiset(),
        forall|i: int, j: int| 0 <= i < j < a.len() ==> key(#[trigger] a[i]) <= key(#[trigger] a[j]),
        forall|i: int, j: int| 0 <= i < j < b.len() ==> key(#[trigger] b[i]) <= key(#[trigger] b[j]),
        forall|i: int, j: int|
            0 <= i < a.len() && 0 <= j < a.len() && key(#[trigger] a[i]) == key(#[trigger] a[j])
                ==> a[i] == a[j],
    ensures
        a == b,
    decreases a.len(),
{
    broadcast use vstd::multiset::group_multiset_axioms;

    a.to_multiset_ensures();
    b.to_multiset_ensures();
    assert(a.len() == b.len());
    if a.len() > 0 {
        let last = a.len() - 1;
        let j = lemma_counterpart(a, b, last);
        let k = lemma_counterpart(b, a, last);
        assert(b[j] == a[last]);
        assert(a[k] == b[last]);
        assert(key(a[last]) == key(b[last])) by {
            if j < last {
                assert(key(b[j]) <= key(b[last]));
            }
            if k < last {
                assert(key(a[k]) <= key(a[last]));
            }
        }
        assert(key(a[k]) == key(a[last]));
        assert(a[last] == b[last]);
        vstd::seq_lib::to_multiset_remove(a, last);
        vstd::seq_lib::to_multiset_remove(b, last);
        assert(a.drop_last() =~= a.remove(last));
        assert(b.drop_last() =~= b.remove(last));
        let x = a.drop_last();
        let y = b.drop_last();
        assert forall|i: int, j: int| 0 <= i < j < x.len() implies key(#[trigger] x[i]) <= key(
            #[trigger] x[j],
        ) by {
            assert(key(a[i]) <= key(a[j]));
        }
        assert forall|i: int, j: int| 0 <= i < j < y.len() implies key(#[trigger] y[i]) <= key(
            #[trigger] y[j],
        ) by {
            assert(key(b[i]) <= key(b[j]));
        }
        assert forall|i: int, j: int|
            0 <= i < x.len() && 0 <= j < x.len() && key(#[trigger] x[i]) == key(
                #[trigger] x[j],
            ) implies x[i] == x[j] by {
            assert(key(a[i]) == key(a[j]));
        }
        lemma_sorted_unique(x, y, key);
        assert(a =~= x.push(a[last]));
        assert(b =~= y.push(b[last]));
    } else {
        assert(a =~= b);
    }
}

/// A value that counts twice stands at two positions.
pub proof fn lemma_counted_twice<T>(items: Seq<T>, value: T) -> (positions: (int, int))
    requires
        items.to_multiset().count(value) >= 2,
    ensures
        0 <= positions.0 < positions.1 < items.len(),
        items[positions.0] == value,
        items[positions.1] == value,
{
    broadcast use vstd::multiset::group_multiset_axioms;

    items.to_multiset_ensures();
    assert(items.contains(value));
    let i = items.index_of(value);
    let rest = items.remove(i);
    vstd::seq_lib::to_multiset_remove(items, i);
    rest.to_multiset_ensures();
    let all = items.to_multiset();
    assert(all.remove(value).count(value) + 1 == all.count(value));
    assert(rest.to_multiset().count(value) > 0);
    assert(rest.contains(value));
    let k = rest.index_of(value);
    let j = if k < i { k } else { k + 1 };
    assert(items[j] == value);
    if i < j {
        (i, j)
    } else {
        (j, i)
    }
}

} // verus!
