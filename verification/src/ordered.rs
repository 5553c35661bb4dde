//! Maps and sets kept in ascending order of their keys.

use vstd::prelude::*;

verus! {

/// Where one key stands relative to another.
#[derive(Clone, Copy, PartialEq, Eq, Debug, Structural)]
pub enum Position {
    Before,
    Same,
    After,
}

/// Keys with a strict total order.
pub trait Key: Copy {
    spec fn before(self, other: Self) -> bool;

    proof fn lemma_asymmetric(a: Self, b: Self)
        requires
            a.before(b),
        ensures
            a != b,
            !b.before(a),
    ;

    proof fn lemma_transitive(a: Self, b: Self, c: Self)
        requires
            a.before(b),
            b.before(c),
        ensures
            a.before(c),
    ;

    fn locate(&self, other: &Self) -> (position: Position)
        ensures
            match position {
                Position::Before => self.before(*other),
                Position::Same => *self == *other,
                Position::After => other.before(*self),
            },
    ;
}

/// Each key comes before all those that follow it.
pub open spec fn ascending<K: Key>(keys: Seq<K>) -> bool {
    forall|i: int, j: int| 0 <= i < j < keys.len() ==> #[trigger] keys[i].before(#[trigger] keys[j])
}

/// Keys in ascending order hold no key twice.
pub proof fn lemma_ascending_keys_are_distinct<K: Key>(keys: Seq<K>)
    requires
        ascending(keys),
    ensures
        keys.no_duplicates(),
{
    assert forall|i: int, j: int| 0 <= i < j < keys.len() implies keys[i] != keys[j] by {
        K::lemma_asymmetric(keys[i], keys[j]);
    }
}

/// The map that holds the given entries; of two entries with one key, the
/// later counts.
pub open spec fn map_of<K, V>(entries: Seq<(K, V)>) -> Map<K, V>
    decreases entries.len(),
{
    if entries.len() == 0 {
        Map::empty()
    } else {
        map_of(entries.drop_last()).insert(entries.last().0, entries.last().1)
    }
}

/// The keys of the given entries, in their order.
pub open spec fn keys_of<K, V>(entries: Seq<(K, V)>) -> Seq<K> {
    Seq::new(entries.len(), |i: int| entries[i].0)
}

/// An entry whose key no other entry has is in the map.
pub proof fn lemma_map_holds_entry<K, V>(entries: Seq<(K, V)>, i: int)
    requires
        0 <= i < entries.len(),
        keys_of(entries).no_duplicates(),
    ensures
        map_of(entries).contains_key(entries[i].0),
        map_of(entries)[entries[i].0] == entries[i].1,
    decreases entries.len(),
{
    let rest = entries.drop_last();
    let keys = keys_of(entries);
    assert(keys[i] == entries[i].0);
    assert(keys[entries.len() - 1] == entries.last().0);
    if i < entries.len() - 1 {
        assert forall|a: int, b: int| 0 <= a < b < rest.len() implies keys_of(rest)[a] != keys_of(
            rest,
        )[b] by {
            assert(keys[a] != keys[b]);
        }
        lemma_map_holds_entry(rest, i);
        assert(keys[i] != keys[entries.len() - 1]);
    }
}

/// The keys of the map are those of the entries.
pub proof fn lemma_map_holds_only_entries<K, V>(entries: Seq<(K, V)>, key: K)
    ensures
        map_of(entries).contains_key(key) == keys_of(entries).contains(key),
    decreases entries.len(),
{
    let keys = keys_of(entries);
    if entries.len() > 0 {
        let rest = entries.drop_last();
        lemma_map_holds_only_entries(rest, key);
        if keys_of(rest).contains(key) {
            let i = keys_of(rest).index_of(key);
            assert(keys[i] == key);
        }
        if entries.last().0 == key {
            assert(keys[entries.len() - 1] == key);
        }
        if keys.contains(key) && entries.last().0 != key {
            let i = keys.index_of(key);
            assert(keys_of(rest)[i] == key);
        }
    }
}

/// A map from keys to values, with its keys in ascending order.
#[verifier::reject_recursive_types(K)]
#[derive(Debug)]
pub struct SortedMap<K: Key, V: Copy> {
    entries: Vec<(K, V)>,
}

impl<K: Key, V: Copy> SortedMap<K, V> {
    /// The entries, in ascending order of their keys.
    pub closed spec fn entries(self) -> Seq<(K, V)> {
        self.entries@
    }

    /// The keys, in ascending order.
    pub open spec fn keys(self) -> Seq<K> {
        keys_of(self.entries())
    }

    #[verifier::type_invariant]
    pub open spec fn well_formed(self) -> bool {
        ascending(self.keys())
    }

    pub fn new() -> (map: Self)
        ensures
            map.entries() == Seq::<(K, V)>::empty(),
            map@ == Map::<K, V>::empty(),
    {
        SortedMap { entries: Vec::new() }
    }

    pub fn len(&self) -> (len: usize)
        ensures
            len == self.entries().len(),
    {
        self.entries.len()
    }

    /// The entry with the given number of keys before its own.
    pub fn entry(&self, i: usize) -> (entry: (K, V))
        requires
            i < self.entries().len(),
        ensures
            entry == self.entries()[i as int],
    {
        self.entries[i]
    }

    pub fn get(&self, key: &K) -> (value: Option<V>)
        ensures
            value == (if self@.contains_key(*key) {
                Some(self@[*key])
            } else {
                None
            }),
    {
        proof {
            use_type_invariant(self);
            lemma_ascending_keys_are_distinct(self.keys());
        }
        let mut i: usize = 0;
        while i < self.entries.len()
            invariant
                self.keys().no_duplicates(),
                i <= self.entries.len(),
                forall|j: int| 0 <= j < i ==> #[trigger] self.keys()[j] != *key,
            decreases self.entries.len() - i,
        {
            let (k, v) = self.entries[i];
            if let Position::Same = k.locate(key) {
                proof {
                    lemma_map_holds_entry(self.entries(), i as int);
                }
                return Some(v);
            }
            proof {
                assert(self.keys()[i as int] == k);
                if k.before(*key) {
                    K::lemma_asymmetric(k, *key);
                } else {
                    K::lemma_asymmetric(*key, k);
                }
            }
            i += 1;
        }
        proof {
            lemma_map_holds_only_entries(self.entries(), *key);
        }
        None
    }

    /// Puts the value under the key, in place of the one that is there.
    pub fn insert(&mut self, key: K, value: V)
        ensures
            final(self)@ == old(self)@.insert(key, value),
            final(self).well_formed(),
            final(self).entries().len() == old(self).entries().len() + if old(
                self,
            )@.contains_key(key) {
                0int
            } else {
                1int
            },
    {
        proof {
            use_type_invariant(&*self);
        }
        let mut entries: Vec<(K, V)> = Vec::new();
        std::mem::swap(&mut entries, &mut self.entries);
        let ghost before = entries@;
        assert(before == old(self).entries());
        let mut i: usize = 0;
        while i < entries.len()
            invariant
                ascending(keys_of(before)),
                before == old(self).entries(),
                entries@ == before,
                i <= entries.len(),
                forall|j: int| 0 <= j < i ==> (#[trigger] keys_of(before)[j]).before(key),
            decreases entries.len() - i,
        {
            let (k, _) = entries[i];
            assert(k == keys_of(before)[i as int]);
            match k.locate(&key) {
                Position::Before => {
                    i += 1;
                },
                Position::Same => {
                    entries.set(i, (key, value));
                    proof {
                        lemma_replacement_updates_map(before, i as int, value);
                    }
                    self.entries = entries;
                    return;
                },
                Position::After => {
                    entries.insert(i, (key, value));
                    proof {
                        lemma_insertion_updates_map(before, i as int, key, value);
                    }
                    self.entries = entries;
                    return;
                },
            }
        }
        entries.push((key, value));
        proof {
            assert(entries@ =~= before.insert(i as int, (key, value)));
            lemma_insertion_updates_map(before, i as int, key, value);
        }
        self.entries = entries;
    }
}

impl<K: Key, V: Copy> View for SortedMap<K, V> {
    type V = Map<K, V>;

    open spec fn view(&self) -> Map<K, V> {
        map_of(self.entries())
    }
}

proof fn lemma_insertion_updates_map<K: Key, V>(entries: Seq<(K, V)>, at: int, key: K, value: V)
    requires
        ascending(keys_of(entries)),
        0 <= at <= entries.len(),
        forall|j: int| 0 <= j < at ==> (#[trigger] keys_of(entries)[j]).before(key),
        at < entries.len() ==> key.before(keys_of(entries)[at]),
    ensures
        ascending(keys_of(entries.insert(at, (key, value)))),
        map_of(entries.insert(at, (key, value))) == map_of(entries).insert(key, value),
        !map_of(entries).contains_key(key),
{
    let keys = keys_of(entries);
    assert forall|i: int| 0 <= i < keys.len() implies keys[i] != key by {
        if i < at {
            K::lemma_asymmetric(keys[i], key);
        } else {
            if i > at {
                K::lemma_transitive(key, keys[at], keys[i]);
            }
            K::lemma_asymmetric(key, keys[i]);
        }
    }
    lemma_map_holds_only_entries(entries, key);
    let after = entries.insert(at, (key, value));
    assert forall|i: int, j: int| 0 <= i < j < after.len() implies #[trigger] keys_of(
        after,
    )[i].before(#[trigger] keys_of(after)[j]) by {
        if i < at && j > at {
            assert(keys[i].before(keys[j - 1]));
        } else if i < at && j < at {
            assert(keys[i].before(keys[j]));
        } else if i < at {
            assert(keys_of(entries)[i].before(key));
        } else if i > at {
            assert(keys[i - 1].before(keys[j - 1]));
        } else if i == at && j > at + 1 {
            assert(keys[at].before(keys[j - 1]));
            K::lemma_transitive(key, keys[at], keys[j - 1]);
        }
    }
    assert(after[at] == (key, value));
    assert forall|entry: (K, V)| #[trigger] entries.contains(entry) implies after.contains(
        entry,
    ) by {
        let i = entries.index_of(entry);
        assert(after[if i < at {
            i
        } else {
            i + 1
        }] == entry);
    }
    assert forall|entry: (K, V)| #[trigger] after.contains(entry) implies entry == (key, value)
        || entries.contains(entry) by {
        let i = after.index_of(entry);
        if i != at {
            assert(entries[if i < at {
                i
            } else {
                i - 1
            }] == entry);
        }
    }
    lemma_updated_map(entries, after, key, value);
}

proof fn lemma_replacement_updates_map<K: Key, V>(entries: Seq<(K, V)>, at: int, value: V)
    requires
        ascending(keys_of(entries)),
        0 <= at < entries.len(),
    ensures
        ascending(keys_of(entries.update(at, (entries[at].0, value)))),
        map_of(entries.update(at, (entries[at].0, value))) == map_of(entries).insert(
            entries[at].0,
            value,
        ),
        map_of(entries).contains_key(entries[at].0),
{
    let key = entries[at].0;
    lemma_map_holds_only_entries(entries, key);
    assert(keys_of(entries)[at] == key);
    let after = entries.update(at, (key, value));
    assert(keys_of(after) =~= keys_of(entries));
    assert(after[at] == (key, value));
    assert forall|entry: (K, V)| #[trigger]
        entries.contains(entry) && entry.0 != key implies after.contains(entry) by {
        let i = entries.index_of(entry);
        assert(after[i] == entry);
    }
    assert forall|entry: (K, V)| #[trigger] after.contains(entry) implies entry == (key, value)
        || entries.contains(entry) by {
        let i = after.index_of(entry);
        if i != at {
            assert(entries[i] == entry);
        }
    }
    lemma_updated_map(entries, after, key, value);
}

/// Entries that agree with others but for one key, under which they hold a
/// given value, are the map with that value inserted.
proof fn lemma_updated_map<K: Key, V>(before: Seq<(K, V)>, after: Seq<(K, V)>, key: K, value: V)
    requires
        ascending(keys_of(before)),
        ascending(keys_of(after)),
        after.contains((key, value)),
        forall|entry: (K, V)| #[trigger]
            before.contains(entry) && entry.0 != key ==> after.contains(entry),
        forall|entry: (K, V)| #[trigger]
            after.contains(entry) ==> entry == (key, value) || before.contains(entry),
    ensures
        map_of(after) == map_of(before).insert(key, value),
{
    lemma_ascending_keys_are_distinct(keys_of(before));
    lemma_ascending_keys_are_distinct(keys_of(after));
    let updated = map_of(before).insert(key, value);
    assert forall|k: K|
        #![trigger map_of(after).contains_key(k)]
        #![trigger map_of(after)[k]]
        map_of(after).contains_key(k) == updated.contains_key(k) && (updated.contains_key(k)
            ==> map_of(after)[k] == updated[k]) by {
        lemma_map_holds_only_entries(after, k);
        lemma_map_holds_only_entries(before, k);
        if k == key {
            let i = after.index_of((key, value));
            lemma_map_holds_entry(after, i);
        } else {
            if keys_of(before).contains(k) {
                let i = keys_of(before).index_of(k);
                lemma_map_holds_entry(before, i);
                assert(before.contains(before[i]));
                let j = after.index_of(before[i]);
                lemma_map_holds_entry(after, j);
            }
            if keys_of(after).contains(k) {
                let i = keys_of(after).index_of(k);
                assert(after.contains(after[i]));
                let j = before.index_of(after[i]);
                assert(keys_of(before)[j] == k);
            }
        }
    }
    assert(map_of(after).dom() =~= updated.dom());
    assert(map_of(after) =~= updated);
}

/// Entries in ascending order of their keys are the only ones of their map.
proof fn lemma_map_has_one_order<K: Key, V>(a: Seq<(K, V)>, b: Seq<(K, V)>)
    requires
        ascending(keys_of(a)),
        ascending(keys_of(b)),
        map_of(a) == map_of(b),
    ensures
        a == b,
    decreases a.len(),
{
    lemma_ascending_keys_are_distinct(keys_of(a));
    lemma_ascending_keys_are_distinct(keys_of(b));
    if a.len() == 0 || b.len() == 0 {
        if a.len() > 0 {
            lemma_map_holds_entry(a, 0);
        }
        if b.len() > 0 {
            lemma_map_holds_entry(b, 0);
        }
        assert(a =~= b);
    } else {
        let i = a.len() - 1;
        let j = b.len() - 1;
        let key = a[i].0;
        lemma_map_holds_entry(a, i);
        lemma_map_holds_entry(b, j);
        lemma_map_holds_only_entries(a, b[j].0);
        lemma_map_holds_only_entries(b, key);
        let last_in_a = keys_of(a).index_of(b[j].0);
        let last_in_b = keys_of(b).index_of(key);
        if key != b[j].0 {
            assert(keys_of(a)[last_in_a].before(keys_of(a)[i]));
            assert(keys_of(b)[last_in_b].before(keys_of(b)[j]));
            K::lemma_asymmetric(key, b[j].0);
        }
        lemma_ascending_without_last(a);
        lemma_ascending_without_last(b);
        assert(map_of(a.drop_last()) =~= map_of(a).remove(key));
        assert(map_of(b.drop_last()) =~= map_of(b).remove(key));
        lemma_map_has_one_order(a.drop_last(), b.drop_last());
        assert(a =~= a.drop_last().push(a[i]));
        assert(b =~= b.drop_last().push(b[j]));
    }
}

/// Without the last, entries in ascending order stay so, and lack its key.
proof fn lemma_ascending_without_last<K: Key, V>(entries: Seq<(K, V)>)
    requires
        ascending(keys_of(entries)),
        entries.len() > 0,
    ensures
        ascending(keys_of(entries.drop_last())),
        !map_of(entries.drop_last()).contains_key(entries.last().0),
{
    let rest = entries.drop_last();
    let keys = keys_of(entries);
    let last = entries.len() - 1;
    assert forall|i: int, j: int| 0 <= i < j < rest.len() implies #[trigger] keys_of(
        rest,
    )[i].before(#[trigger] keys_of(rest)[j]) by {
        assert(keys[i].before(keys[j]));
    }
    lemma_map_holds_only_entries(rest, entries.last().0);
    if keys_of(rest).contains(entries.last().0) {
        let i = keys_of(rest).index_of(entries.last().0);
        assert(keys[i].before(keys[last]));
        K::lemma_asymmetric(keys[i], keys[last]);
    }
}

/// With a new key, the entries of a map have one more among them.
pub proof fn lemma_new_key_is_one_more_entry<K: Key, V>(
    before: Seq<(K, V)>,
    after: Seq<(K, V)>,
    key: K,
    value: V,
) -> (at: int)
    requires
        ascending(keys_of(before)),
        ascending(keys_of(after)),
        !map_of(before).contains_key(key),
        map_of(after) == map_of(before).insert(key, value),
    ensures
        0 <= at < after.len(),
        after[at] == (key, value),
        after.remove(at) == before,
{
    lemma_ascending_keys_are_distinct(keys_of(after));
    lemma_map_holds_only_entries(after, key);
    assert(map_of(after).contains_key(key));
    let at = keys_of(after).index_of(key);
    lemma_map_holds_entry(after, at);
    let rest = after.remove(at);
    let keys = keys_of(after);
    assert forall|i: int, j: int| 0 <= i < j < rest.len() implies #[trigger] keys_of(
        rest,
    )[i].before(#[trigger] keys_of(rest)[j]) by {
        let a = if i < at { i } else { i + 1 };
        let b = if j < at { j } else { j + 1 };
        assert(keys[a].before(keys[b]));
    }
    assert forall|j: int| 0 <= j < at implies (#[trigger] keys_of(rest)[j]).before(key) by {
        assert(keys[j].before(keys[at]));
    }
    if at < rest.len() {
        assert(keys[at].before(keys[at + 1]));
    }
    lemma_insertion_updates_map(rest, at, key, value);
    assert(rest.insert(at, (key, value)) =~= after);
    assert(map_of(rest) =~= map_of(after).remove(key));
    assert(map_of(before) =~= map_of(after).remove(key));
    lemma_map_has_one_order(rest, before);
    at
}

/// The sequence without the first occurrence of the given item.
pub open spec fn without<K>(items: Seq<K>, item: K) -> Seq<K> {
    if items.contains(item) {
        items.remove(items.index_of(item))
    } else {
        items
    }
}

/// Without one of its items, a sequence that holds no item twice holds the
/// others, once each.
pub proof fn lemma_without<K>(items: Seq<K>, item: K)
    requires
        items.no_duplicates(),
    ensures
        without(items, item).no_duplicates(),
        forall|other: K| #[trigger]
            without(items, item).contains(other) == (items.contains(other) && other != item),
        items.contains(item) ==> without(items, item).len() == items.len() - 1,
{
    if items.contains(item) {
        let at = items.index_of(item);
        let rest = items.remove(at);
        assert forall|i: int, j: int| 0 <= i < j < rest.len() implies rest[i] != rest[j] by {
            let a = if i < at { i } else { i + 1 };
            let b = if j < at { j } else { j + 1 };
            assert(items[a] != items[b]);
        }
        assert forall|other: K| #[trigger] rest.contains(other) == (items.contains(other) && other
            != item) by {
            if rest.contains(other) {
                let i = rest.index_of(other);
                let a = if i < at { i } else { i + 1 };
                assert(items[a] == other);
                assert(items[a] != items[at]);
            }
            if items.contains(other) && other != item {
                let a = items.index_of(other);
                let i = if a < at { a } else { a - 1 };
                assert(rest[i] == other);
            }
        }
    }
}

/// It makes no difference which of two items is left out first.
pub proof fn lemma_without_two<K>(items: Seq<K>, a: K, b: K)
    requires
        items.no_duplicates(),
        a != b,
    ensures
        without(without(items, a), b) == without(without(items, b), a),
{
    lemma_without(items, a);
    lemma_without(items, b);
    if items.contains(a) && items.contains(b) {
        let i = items.index_of(a);
        let j = items.index_of(b);
        let without_a = items.remove(i);
        let without_b = items.remove(j);
        let b_at = if j < i { j } else { j - 1 };
        let a_at = if i < j { i } else { i - 1 };
        assert(without_a[b_at] == b);
        assert(without_b[a_at] == a);
        assert(without_a.index_of(b) == b_at);
        assert(without_b.index_of(a) == a_at);
        assert(without_a.remove(b_at) =~= without_b.remove(a_at));
    }
}

/// A set of keys in ascending order.
#[verifier::reject_recursive_types(K)]
#[derive(Debug)]
pub struct SortedSet<K: Key> {
    items: Vec<K>,
}

impl<K: Key> View for SortedSet<K> {
    type V = Seq<K>;

    closed spec fn view(&self) -> Seq<K> {
        self.items@
    }
}

impl<K: Key> SortedSet<K> {
    #[verifier::type_invariant]
    pub open spec fn well_formed(self) -> bool {
        ascending(self@)
    }

    pub fn new() -> (set: Self)
        ensures
            set@ == Seq::<K>::empty(),
    {
        SortedSet { items: Vec::new() }
    }

    /// The keys of a map.
    pub fn from_keys<V: Copy>(map: &SortedMap<K, V>) -> (set: Self)
        ensures
            set@ == map.keys(),
            set.well_formed(),
    {
        proof {
            use_type_invariant(map);
        }
        let mut items: Vec<K> = Vec::new();
        let mut i: usize = 0;
        while i < map.len()
            invariant
                i <= map.entries().len(),
                items@ == map.keys().take(i as int),
            decreases map.entries().len() - i,
        {
            items.push(map.entry(i).0);
            i += 1;
        }
        assert(items@ =~= map.keys());
        SortedSet { items }
    }

    pub fn len(&self) -> (len: usize)
        ensures
            len == self@.len(),
    {
        self.items.len()
    }

    /// The key with the given number of keys before it.
    pub fn item(&self, i: usize) -> (item: K)
        requires
            i < self@.len(),
        ensures
            item == self@[i as int],
    {
        self.items[i]
    }

    pub fn remove(&mut self, key: &K)
        ensures
            final(self)@ == without(old(self)@, *key),
            final(self).well_formed(),
    {
        proof {
            use_type_invariant(&*self);
            lemma_ascending_keys_are_distinct(self@);
        }
        let mut i: usize = 0;
        while i < self.items.len()
            invariant
                *self == *old(self),
                self.well_formed(),
                self@.no_duplicates(),
                i <= self.items.len(),
                forall|j: int| 0 <= j < i ==> self@[j] != *key,
            decreases self.items.len() - i,
        {
            let item = self.items[i];
            if let Position::Same = item.locate(key) {
                let mut items: Vec<K> = Vec::new();
                std::mem::swap(&mut items, &mut self.items);
                let ghost before = items@;
                items.remove(i);
                proof {
                    assert(before[i as int] == *key);
                    assert(before.index_of(*key) == i);
                    assert forall|a: int, b: int| 0 <= a < b < items@.len() implies #[trigger]
                        items@[a].before(#[trigger] items@[b]) by {
                        let c = if a < i { a } else { a + 1 };
                        let d = if b < i { b } else { b + 1 };
                        assert(before[c].before(before[d]));
                    }
                }
                self.items = items;
                return;
            }
            proof {
                if item.before(*key) {
                    K::lemma_asymmetric(item, *key);
                } else {
                    K::lemma_asymmetric(*key, item);
                }
            }
            i += 1;
        }
    }
}

} // verus!
