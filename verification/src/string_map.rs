//! A small insertion-ordered map from strings to values.
//!
//! The map is kept as a list of pairs in which no key occurs twice. Its view is
//! the mathematical map; `pairs` gives the same content in storage order, which
//! is the order in which the entries are walked.

use vstd::prelude::*;
use vstd::set_lib::lemma_subset_equality;
use vstd::std_specs::cmp::PartialEqSpecImpl;

verus! {

/// The mapping that a list of pairs denotes. Where a key occurs more than
/// once, the last pair with that key decides.
pub open spec fn map_of<T>(pairs: Seq<(Seq<char>, T)>) -> Map<Seq<char>, T>
    decreases pairs.len(),
{
    if pairs.len() == 0 {
        Map::empty()
    } else {
        map_of(pairs.drop_last()).insert(pairs.last().0, pairs.last().1)
    }
}

/// No key occurs at two places of the list.
pub open spec fn keys_distinct<T>(pairs: Seq<(Seq<char>, T)>) -> bool {
    forall|i: int, j: int|
        0 <= i < j < pairs.len() ==> (#[trigger] pairs[i]).0 != (#[trigger] pairs[j]).0
}

/// The first place at which `key` occurs in the list, if it occurs at all.
pub open spec fn position_of<T>(pairs: Seq<(Seq<char>, T)>, key: Seq<char>) -> Option<int>
    decreases pairs.len(),
{
    if pairs.len() == 0 {
        None
    } else {
        match position_of(pairs.drop_last(), key) {
            Some(i) => Some(i),
            None => if pairs.last().0 == key {
                Some(pairs.len() - 1)
            } else {
                None
            },
        }
    }
}

/// The list after `key` has been given `value`: an entry that already has the
/// key is overwritten where it stands, a new key is appended.
pub open spec fn put<T>(pairs: Seq<(Seq<char>, T)>, key: Seq<char>, value: T) -> Seq<
    (Seq<char>, T),
> {
    match position_of(pairs, key) {
        Some(i) => pairs.update(i, (key, value)),
        None => pairs.push((key, value)),
    }
}

/// The list that results from putting the given pairs, in order, into `acc`.
pub open spec fn put_all<T>(acc: Seq<(Seq<char>, T)>, pairs: Seq<(Seq<char>, T)>) -> Seq<
    (Seq<char>, T),
>
    decreases pairs.len(),
{
    if pairs.len() == 0 {
        acc
    } else {
        put(put_all(acc, pairs.drop_last()), pairs.last().0, pairs.last().1)
    }
}

/// `position_of` finds the first occurrence of the key, and fails only when
/// the key does not occur.
pub proof fn lemma_position_of<T>(pairs: Seq<(Seq<char>, T)>, key: Seq<char>)
    ensures
        match position_of(pairs, key) {
            Some(i) => 0 <= i < pairs.len() && pairs[i].0 == key && forall|j: int|
                0 <= j < i ==> (#[trigger] pairs[j]).0 != key,
            None => forall|j: int| 0 <= j < pairs.len() ==> (#[trigger] pairs[j]).0 != key,
        },
    decreases pairs.len(),
{
    if pairs.len() > 0 {
        let front = pairs.drop_last();
        lemma_position_of(front, key);
        assert forall|j: int| 0 <= j < front.len() implies #[trigger] pairs[j] == front[j] by {}
    }
}

/// A key is in the denoted map exactly when it occurs in the list.
pub proof fn lemma_map_of_contains<T>(pairs: Seq<(Seq<char>, T)>, key: Seq<char>)
    ensures
        map_of(pairs).contains_key(key) <==> position_of(pairs, key) is Some,
    decreases pairs.len(),
{
    if pairs.len() > 0 {
        lemma_map_of_contains(pairs.drop_last(), key);
    }
}

/// In a list without repeated keys, every pair is an entry of the denoted map.
pub proof fn lemma_map_of_entry<T>(pairs: Seq<(Seq<char>, T)>, i: int)
    requires
        keys_distinct(pairs),
        0 <= i < pairs.len(),
    ensures
        map_of(pairs).contains_key(pairs[i].0),
        map_of(pairs)[pairs[i].0] == pairs[i].1,
        position_of(pairs, pairs[i].0) == Some(i),
    decreases pairs.len(),
{
    let front = pairs.drop_last();
    lemma_position_of(pairs, pairs[i].0);
    if i < pairs.len() - 1 {
        assert(keys_distinct(front)) by {
            assert forall|a: int, b: int| 0 <= a < b < front.len() implies (#[trigger] front[a]).0
                != (#[trigger] front[b]).0 by {
                assert(front[a] == pairs[a]);
                assert(front[b] == pairs[b]);
            }
        }
        lemma_map_of_entry(front, i);
        assert(front[i] == pairs[i]);
        assert(pairs[i].0 != pairs[pairs.len() - 1].0);
    }
}

/// A list without repeated keys denotes a finite map with one entry per pair.
pub proof fn lemma_map_of_len<T>(pairs: Seq<(Seq<char>, T)>)
    requires
        keys_distinct(pairs),
    ensures
        map_of(pairs).dom().finite(),
        map_of(pairs).dom().len() == pairs.len(),
    decreases pairs.len(),
{
    if pairs.len() > 0 {
        let front = pairs.drop_last();
        assert(keys_distinct(front)) by {
            assert forall|a: int, b: int| 0 <= a < b < front.len() implies (#[trigger] front[a]).0
                != (#[trigger] front[b]).0 by {
                assert(front[a] == pairs[a]);
                assert(front[b] == pairs[b]);
            }
        }
        lemma_map_of_len(front);
        lemma_map_of_contains(front, pairs.last().0);
        lemma_position_of(front, pairs.last().0);
        if position_of(front, pairs.last().0) is Some {
            let j = position_of(front, pairs.last().0).unwrap();
            assert(front[j] == pairs[j]);
            assert(pairs[j].0 != pairs[pairs.len() - 1].0);
        }
        assert(map_of(pairs).dom() =~= map_of(front).dom().insert(pairs.last().0));
    }
}

/// Putting a key keeps the keys distinct and denotes the map with that key
/// inserted.
pub proof fn lemma_put<T>(pairs: Seq<(Seq<char>, T)>, key: Seq<char>, value: T)
    requires
        keys_distinct(pairs),
    ensures
        keys_distinct(put(pairs, key, value)),
        map_of(put(pairs, key, value)) == map_of(pairs).insert(key, value),
{
    let after = put(pairs, key, value);
    lemma_position_of(pairs, key);
    match position_of(pairs, key) {
        Some(i) => {
            assert(keys_distinct(after)) by {
                assert forall|a: int, b: int| 0 <= a < b < after.len() implies (
                #[trigger] after[a]).0 != (#[trigger] after[b]).0 by {
                    assert(after[a].0 == pairs[a].0);
                    assert(after[b].0 == pairs[b].0);
                }
            }
            assert forall|k: Seq<char>|
                map_of(after).contains_key(k) == #[trigger] map_of(pairs).insert(
                    key,
                    value,
                ).contains_key(k) by {
                lemma_map_of_contains(after, k);
                lemma_map_of_contains(pairs, k);
                lemma_position_of(after, k);
                lemma_position_of(pairs, k);
                if position_of(after, k) is Some {
                    let j = position_of(after, k).unwrap();
                    assert(after[j].0 == pairs[j].0);
                }
                if position_of(pairs, k) is Some {
                    let j = position_of(pairs, k).unwrap();
                    assert(after[j].0 == pairs[j].0);
                }
            }
            assert forall|k: Seq<char>| #[trigger] map_of(after).contains_key(k) implies map_of(
                after,
            )[k] == map_of(pairs).insert(key, value)[k] by {
                lemma_map_of_contains(after, k);
                lemma_position_of(after, k);
                let j = position_of(after, k).unwrap();
                lemma_map_of_entry(after, j);
                if j != i {
                    assert(after[j] == pairs[j]);
                    lemma_map_of_entry(pairs, j);
                }
            }
            assert(map_of(after) =~= map_of(pairs).insert(key, value));
        },
        None => {
            assert(after.drop_last() =~= pairs);
            assert(keys_distinct(after)) by {
                assert forall|a: int, b: int| 0 <= a < b < after.len() implies (
                #[trigger] after[a]).0 != (#[trigger] after[b]).0 by {
                    assert(after[a] == pairs[a]);
                    if b < pairs.len() {
                        assert(after[b] == pairs[b]);
                    }
                }
            }
        },
    }
}

/// Putting a list of pairs into a list without repeated keys gives a list
/// without repeated keys.
pub proof fn lemma_put_all<T>(acc: Seq<(Seq<char>, T)>, pairs: Seq<(Seq<char>, T)>)
    requires
        keys_distinct(acc),
    ensures
        keys_distinct(put_all(acc, pairs)),
    decreases pairs.len(),
{
    if pairs.len() > 0 {
        lemma_put_all(acc, pairs.drop_last());
        lemma_put(put_all(acc, pairs.drop_last()), pairs.last().0, pairs.last().1);
    }
}

/// The map of a concatenation is the map of the first list overridden by the
/// map of the second.
pub proof fn lemma_map_of_concat<T>(first: Seq<(Seq<char>, T)>, second: Seq<(Seq<char>, T)>)
    ensures
        map_of(first + second) == map_of(first).union_prefer_right(map_of(second)),
    decreases second.len(),
{
    if second.len() == 0 {
        assert(first + second =~= first);
        assert(map_of(first) =~= map_of(first).union_prefer_right(map_of(second)));
    } else {
        assert((first + second).drop_last() =~= first + second.drop_last());
        lemma_map_of_concat(first, second.drop_last());
        assert(map_of(first + second) =~= map_of(first).union_prefer_right(map_of(second)));
    }
}

/// Putting pairs into a list without repeated keys denotes the same map as
/// writing them behind it: in both, the last pair with a key decides.
pub proof fn lemma_map_of_put_all<T>(acc: Seq<(Seq<char>, T)>, pairs: Seq<(Seq<char>, T)>)
    requires
        keys_distinct(acc),
    ensures
        map_of(put_all(acc, pairs)) == map_of(acc + pairs),
    decreases pairs.len(),
{
    if pairs.len() == 0 {
        assert(acc + pairs =~= acc);
    } else {
        let front = pairs.drop_last();
        lemma_map_of_put_all(acc, front);
        lemma_put_all(acc, front);
        lemma_put(put_all(acc, front), pairs.last().0, pairs.last().1);
        assert((acc + pairs).drop_last() =~= acc + front);
    }
}

/// The pair at the last occurrence of a key is the key's entry in the map.
pub proof fn lemma_map_of_last_occurrence<T>(pairs: Seq<(Seq<char>, T)>, i: int)
    requires
        0 <= i < pairs.len(),
        forall|j: int| i < j < pairs.len() ==> (#[trigger] pairs[j]).0 != pairs[i].0,
    ensures
        map_of(pairs).contains_key(pairs[i].0),
        map_of(pairs)[pairs[i].0] == pairs[i].1,
    decreases pairs.len(),
{
    if i < pairs.len() - 1 {
        let front = pairs.drop_last();
        assert(front[i] == pairs[i]);
        assert forall|j: int| i < j < front.len() implies (#[trigger] front[j]).0
            != front[i].0 by {
            assert(front[j] == pairs[j]);
        }
        lemma_map_of_last_occurrence(front, i);
        assert(pairs[pairs.len() - 1].0 != pairs[i].0);
    }
}

/// The list of pairs that a vector of entries stands for.
pub open spec fn views_of<V: View>(entries: Seq<(String, V)>) -> Seq<(Seq<char>, V::V)> {
    entries.map_values(|e: (String, V)| (e.0@, e.1@))
}

/// A value that can be compared with another of its type by way of its view.
pub trait Value: View + Sized {
    /// Tells whether the two values have the same view.
    fn same(&self, other: &Self) -> (r: bool)
        ensures
            r == (self@ == other@),
    ;
}

impl Value for String {
    fn same(&self, other: &Self) -> (r: bool) {
        *self == *other
    }
}

/// An insertion-ordered map from strings to values of type `V`.
#[derive(Debug)]
pub struct StringMap<V: View> {
    entries: Vec<(String, V)>,
}

impl<V: View> View for StringMap<V> {
    type V = Map<Seq<char>, V::V>;

    open spec fn view(&self) -> Map<Seq<char>, V::V> {
        map_of(self.pairs())
    }
}

impl<V: View> StringMap<V> {
    /// The entries in storage order, each as the pair of its key's and its
    /// value's view.
    pub closed spec fn pairs(&self) -> Seq<(Seq<char>, V::V)> {
        views_of(self.entries@)
    }

    #[verifier::type_invariant]
    spec fn no_key_twice(&self) -> bool {
        keys_distinct(self.pairs())
    }

    /// An empty map.
    pub fn new() -> (m: Self)
        ensures
            m.pairs() == Seq::<(Seq<char>, V::V)>::empty(),
            m@ == Map::<Seq<char>, V::V>::empty(),
    {
        let m = StringMap { entries: Vec::new() };
        assert(m.pairs() =~= Seq::<(Seq<char>, V::V)>::empty());
        m
    }

    /// The number of entries, none of which shares its key with another.
    pub fn len(&self) -> (n: usize)
        ensures
            n == self.pairs().len(),
            n == self@.dom().len(),
            keys_distinct(self.pairs()),
    {
        proof {
            use_type_invariant(self);
            lemma_map_of_len(self.pairs());
        }
        self.entries.len()
    }

    /// Tells whether the map has no entry.
    pub fn is_empty(&self) -> (b: bool)
        ensures
            b == (self.pairs().len() == 0),
            b == (self@.dom().len() == 0),
    {
        self.len() == 0
    }

    /// The key of the entry at place `i` of the storage order.
    pub fn key_at(&self, i: usize) -> (k: &String)
        requires
            i < self.pairs().len(),
        ensures
            k@ == self.pairs()[i as int].0,
    {
        &self.entries[i].0
    }

    /// The value of the entry at place `i` of the storage order.
    pub fn value_at(&self, i: usize) -> (v: &V)
        requires
            i < self.pairs().len(),
        ensures
            v@ == self.pairs()[i as int].1,
    {
        &self.entries[i].1
    }

    /// The place of `key` in the storage order.
    pub fn position(&self, key: &String) -> (r: Option<usize>)
        ensures
            match r {
                Some(i) => position_of(self.pairs(), key@) == Some(i as int),
                None => position_of(self.pairs(), key@) is None,
            },
    {
        let mut i: usize = 0;
        while i < self.entries.len()
            invariant
                i <= self.entries.len(),
                forall|j: int| 0 <= j < i ==> (#[trigger] self.pairs()[j]).0 != key@,
            decreases self.entries.len() - i,
        {
            if self.entries[i].0 == *key {
                proof {
                    lemma_position_of(self.pairs(), key@);
                    assert(self.pairs()[i as int].0 == key@);
                }
                return Some(i);
            }
            i += 1;
        }
        proof {
            lemma_position_of(self.pairs(), key@);
        }
        None
    }

    /// The value that `key` is mapped to.
    pub fn get(&self, key: &str) -> (r: Option<&V>)
        ensures
            match r {
                Some(v) => self@.contains_key(key@) && v@ == self@[key@],
                None => !self@.contains_key(key@),
            },
    {
        let owned = String::from_str(key);
        proof {
            use_type_invariant(self);
            lemma_map_of_contains(self.pairs(), key@);
        }
        match self.position(&owned) {
            Some(i) => {
                proof {
                    lemma_position_of(self.pairs(), key@);
                    lemma_map_of_entry(self.pairs(), i as int);
                }
                Some(&self.entries[i].1)
            },
            None => None,
        }
    }

    /// Maps `key` to `value`. An entry that already has the key keeps its
    /// place; a new key goes to the end.
    pub fn insert(&mut self, key: String, value: V)
        ensures
            final(self).pairs() == put(old(self).pairs(), key@, value@),
            final(self)@ == old(self)@.insert(key@, value@),
    {
        proof {
            use_type_invariant(&*self);
            lemma_put(self.pairs(), key@, value@);
        }
        let ghost before = self.pairs();
        let found = self.position(&key);
        let mut entries: Vec<(String, V)> = Vec::new();
        proof {
            lemma_position_of(before, key@);
            assert(views_of(entries@) =~= Seq::<(Seq<char>, V::V)>::empty());
        }
        core::mem::swap(&mut self.entries, &mut entries);
        match found {
            Some(i) => {
                entries[i] = (key, value);
                assert(views_of(entries@) =~= before.update(i as int, (key@, value@)));
            },
            None => {
                entries.push((key, value));
                assert(views_of(entries@) =~= before.push((key@, value@)));
            },
        }
        core::mem::swap(&mut self.entries, &mut entries);
    }

    /// The map that results from inserting the entries in order.
    pub fn from_entries(entries: Vec<(String, V)>) -> (m: Self)
        ensures
            m.pairs() == put_all(Seq::empty(), views_of(entries@)),
    {
        let mut m = StringMap::new();
        let ghost all = views_of(entries@);
        for entry in it: entries
            invariant
                all == views_of(it.seq()),
                m.pairs() == put_all(Seq::empty(), all.take(it.index() as int)),
        {
            proof {
                let done = it.index() as int;
                assert(all.take(done + 1).drop_last() =~= all.take(done));
                assert(all.take(done + 1).last() == all[done]);
            }
            m.insert(entry.0, entry.1);
        }
        proof {
            assert(all.take(all.len() as int) =~= all);
        }
        m
    }
}

impl<V: Value> PartialEqSpecImpl for StringMap<V> {
    open spec fn obeys_eq_spec() -> bool {
        true
    }

    open spec fn eq_spec(&self, other: &Self) -> bool {
        self@ == other@
    }
}

impl<V: Value> PartialEq for StringMap<V> {
    /// Two maps are equal when they map the same keys to the same values,
    /// whatever the order of their entries.
    fn eq(&self, other: &Self) -> (r: bool) {
        proof {
            use_type_invariant(self);
            use_type_invariant(other);
            lemma_map_of_len(self.pairs());
            lemma_map_of_len(other.pairs());
        }
        if self.entries.len() != other.entries.len() {
            return false;
        }
        let mut i: usize = 0;
        while i < self.entries.len()
            invariant
                i <= self.entries.len(),
                self.entries.len() == other.entries.len(),
                keys_distinct(self.pairs()),
                keys_distinct(other.pairs()),
                forall|j: int|
                    0 <= j < i ==> other@.contains_key((#[trigger] self.pairs()[j]).0)
                        && other@[self.pairs()[j].0] == self.pairs()[j].1,
            decreases self.entries.len() - i,
        {
            proof {
                lemma_map_of_entry(self.pairs(), i as int);
                lemma_map_of_contains(other.pairs(), self.pairs()[i as int].0);
            }
            match other.position(&self.entries[i].0) {
                None => {
                    return false;
                },
                Some(j) => {
                    proof {
                        lemma_position_of(other.pairs(), self.pairs()[i as int].0);
                        lemma_map_of_entry(other.pairs(), j as int);
                    }
                    if !self.entries[i].1.same(&other.entries[j].1) {
                        return false;
                    }
                },
            }
            i += 1;
        }
        proof {
            assert forall|k: Seq<char>| #[trigger] self@.contains_key(k) implies other@.contains_key(
                k,
            ) && other@[k] == self@[k] by {
                lemma_map_of_contains(self.pairs(), k);
                lemma_position_of(self.pairs(), k);
                let j = position_of(self.pairs(), k).unwrap();
                lemma_map_of_entry(self.pairs(), j);
            }
            assert(self@.dom().subset_of(other@.dom()));
            lemma_subset_equality(self@.dom(), other@.dom());
            assert(self@ =~= other@);
        }
        true
    }
}

} // verus!
