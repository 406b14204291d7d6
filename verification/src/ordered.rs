//! A map from strings, kept in the order of its keys.
use vstd::prelude::*;

use crate::text::{place_text, text_before, text_order_is_strict_and_total, Placement};

verus! {

/// A map whose keys are strings, and which lists them in order.
#[derive(Debug, PartialEq, Eq)]
pub struct OrderedMap<V> {
    entries: Vec<(String, V)>,
}

/// The keys come in order, each before all that follow it.
pub open spec fn is_increasing(keys: Seq<Seq<char>>) -> bool {
    forall|i: int, j: int|
        0 <= i < j < keys.len() ==> text_before(#[trigger] keys[i], #[trigger] keys[j])
}

/// Keys that come in order are all different.
pub proof fn increasing_keys_differ(keys: Seq<Seq<char>>)
    requires
        is_increasing(keys),
    ensures
        keys.no_duplicates(),
{
    assert forall|i: int, j: int|
        0 <= i < keys.len() && 0 <= j < keys.len() && i != j implies keys[i] != keys[j] by {
        text_order_is_strict_and_total(keys[i], keys[i], keys[i]);
        if i < j {
            assert(text_before(keys[i], keys[j]));
        } else {
            assert(text_before(keys[j], keys[i]));
        }
    }
}

impl<V> View for OrderedMap<V> {
    type V = Map<Seq<char>, V>;

    closed spec fn view(&self) -> Map<Seq<char>, V> {
        Map::new(
            |key: Seq<char>| self.keys().contains(key),
            |key: Seq<char>| self.entries@[self.keys().index_of(key)].1,
        )
    }
}

impl<V> OrderedMap<V> {
    /// The keys, in order.
    pub closed spec fn keys(self) -> Seq<Seq<char>> {
        self.entries@.map_values(|entry: (String, V)| entry.0@)
    }

    /// What every map keeps.
    pub open spec fn wf(self) -> bool {
        is_increasing(self.keys())
    }

    /// The keys are those of the map.
    pub proof fn keys_are_the_domain(self)
        ensures
            forall|key: Seq<char>| #[trigger] self@.contains_key(key) <==> self.keys().contains(key),
            self.wf() ==> self@.dom() == self.keys().to_set() && self@.dom().finite()
                && self@.dom().len() == self.keys().len(),
    {
        assert(self@.dom() =~= self.keys().to_set());
        if self.wf() {
            increasing_keys_differ(self.keys());
            self.keys().unique_seq_to_set();
        }
    }

    /// The keys come in the order of strings.
    pub proof fn keys_come_in_order(self)
        requires
            self.wf(),
        ensures
            forall|i: int, j: int|
                0 <= i < j < self.keys().len() ==> text_before(
                    #[trigger] self.keys()[i],
                    #[trigger] self.keys()[j],
                ),
    {
    }

    /// A map without keys.
    pub fn new() -> (map: Self)
        ensures
            map.wf(),
            map@ == Map::<Seq<char>, V>::empty(),
            map.keys() == Seq::<Seq<char>>::empty(),
    {
        let map = OrderedMap { entries: Vec::new() };
        assert(map@ =~= Map::empty());
        map
    }

    /// The number of keys.
    pub fn len(&self) -> (count: usize)
        ensures
            count == self.keys().len(),
    {
        self.entries.len()
    }

    /// Whether the map has no key.
    pub fn is_empty(&self) -> (empty: bool)
        ensures
            empty == (self.keys().len() == 0),
            empty == self@.dom().is_empty(),
    {
        proof {
            if self.keys().len() > 0 {
                assert(self.keys().contains(self.keys()[0]));
                assert(self@.dom().contains(self.keys()[0]));
            }
        }
        self.entries.len() == 0
    }

    /// The place of the first key that does not come before `key`.
    fn place_of(&self, key: &str) -> (place: usize)
        requires
            self.wf(),
        ensures
            place <= self.keys().len(),
            forall|i: int| 0 <= i < place ==> text_before(#[trigger] self.keys()[i], key@),
            forall|i: int|
                place < i < self.keys().len() ==> text_before(key@, #[trigger] self.keys()[i]),
            place < self.keys().len() ==> self.keys()[place as int] == key@ || text_before(
                key@,
                self.keys()[place as int],
            ),
    {
        let mut low: usize = 0;
        let mut high: usize = self.entries.len();
        while low < high
            invariant
                self.wf(),
                low <= high <= self.keys().len(),
                self.keys().len() == self.entries@.len(),
                forall|i: int| 0 <= i < low ==> text_before(#[trigger] self.keys()[i], key@),
                forall|i: int|
                    high <= i < self.keys().len() ==> #[trigger] self.keys()[i] == key@
                        || text_before(key@, self.keys()[i]),
                forall|i: int|
                    high < i < self.keys().len() ==> text_before(key@, #[trigger] self.keys()[i]),
            decreases high - low,
        {
            let middle: usize = low + (high - low) / 2;
            assert(self.keys()[middle as int] == self.entries@[middle as int].0@);
            match place_text(self.entries[middle].0.as_str(), key) {
                Placement::Before => {
                    assert forall|i: int| 0 <= i < middle + 1 implies text_before(
                        #[trigger] self.keys()[i],
                        key@,
                    ) by {
                        text_order_is_strict_and_total(
                            self.keys()[i],
                            self.keys()[middle as int],
                            key@,
                        );
                    }
                    low = middle + 1;
                },
                _ => {
                    assert forall|i: int| middle < i < self.keys().len() implies text_before(
                        key@,
                        #[trigger] self.keys()[i],
                    ) by {
                        text_order_is_strict_and_total(
                            key@,
                            self.keys()[middle as int],
                            self.keys()[i],
                        );
                    }
                    high = middle;
                },
            }
        }
        low
    }

    /// The place of `key` among the keys, if the map has it.
    pub fn position(&self, key: &str) -> (place: Option<usize>)
        requires
            self.wf(),
        ensures
            match place {
                Some(place) => place < self.keys().len() && self.keys()[place as int] == key@,
                None => !self.keys().contains(key@),
            },
            place is Some <==> self@.contains_key(key@),
    {
        let place: usize = self.place_of(key);
        proof {
            text_order_is_strict_and_total(key@, key@, key@);
        }
        if place < self.entries.len() {
            assert(self.keys()[place as int] == self.entries@[place as int].0@);
            if let Placement::Same = place_text(self.entries[place].0.as_str(), key) {
                assert(self.keys().contains(key@));
                return Some(place);
            }
        }
        None
    }

    /// The value of `key`, if the map has it.
    pub fn get(&self, key: &str) -> (value: Option<&V>)
        requires
            self.wf(),
        ensures
            match value {
                Some(value) => self@.contains_key(key@) && *value == self@[key@],
                None => !self@.contains_key(key@),
            },
    {
        proof {
            increasing_keys_differ(self.keys());
        }
        match self.position(key) {
            Some(place) => {
                assert(self.keys().index_of(key@) == place);
                Some(&self.entries[place].1)
            },
            None => None,
        }
    }

    /// The key and the value at a place.
    pub fn entry(&self, place: usize) -> (entry: (&String, &V))
        requires
            self.wf(),
            place < self.keys().len(),
        ensures
            entry.0@ == self.keys()[place as int],
            self@.contains_key(entry.0@),
            *entry.1 == self@[entry.0@],
    {
        proof {
            increasing_keys_differ(self.keys());
            let key = self.keys()[place as int];
            assert(self.keys().contains(key));
            assert(self.keys().index_of(key) == place);
        }
        (&self.entries[place].0, &self.entries[place].1)
    }

    /// Gives `key` a value, in place of the one it had, if any.
    pub fn insert(&mut self, key: String, value: V)
        requires
            old(self).wf(),
        ensures
            final(self).wf(),
            final(self)@ == old(self)@.insert(key@, value),
    {
        let ghost before = *self;
        let place: usize = self.place_of(key.as_str());
        proof {
            increasing_keys_differ(before.keys());
        }
        if let Some(place) = self.position(key.as_str()) {
            let ghost wanted = key@;
            self.entries.set(place, (key, value));
            proof {
                assert(self.keys() =~= before.keys());
                assert(before.keys().index_of(wanted) == place);
                assert(self@ =~= before@.insert(wanted, value)) by {
                    assert forall|k: Seq<char>| before.keys().contains(k) implies {
                        k == wanted || before.keys().index_of(k) != place
                    } by {}
                }
            }
        } else {
            let ghost wanted = key@;
            self.entries.insert(place, (key, value));
            proof {
                let keys = self.keys();
                assert(keys =~= before.keys().insert(place as int, wanted));
                assert(!before.keys().contains(wanted));
                assert forall|i: int| 0 <= i < before.keys().len() implies text_before(
                    wanted,
                    #[trigger] before.keys()[i],
                ) || i < place by {
                    if i == place {
                        assert(before.keys().contains(before.keys()[i]));
                    }
                }
                assert forall|i: int, j: int| 0 <= i < j < keys.len() implies text_before(
                    #[trigger] keys[i],
                    #[trigger] keys[j],
                ) by {
                    let x = if i < place { i } else { i - 1 };
                    let y = if j < place { j } else { j - 1 };
                    if i != place && j != place {
                        assert(text_before(before.keys()[x], before.keys()[y]));
                    }
                }
                increasing_keys_differ(keys);
                assert(self@ =~= before@.insert(wanted, value)) by {
                    assert(keys[place as int] == wanted);
                    assert forall|k: Seq<char>| keys.contains(k) <==> before.keys().contains(k) || k
                        == wanted by {
                        if before.keys().contains(k) {
                            let i = before.keys().index_of(k);
                            assert(keys[if i < place { i } else { i + 1 }] == k);
                        }
                        if keys.contains(k) {
                            let i = keys.index_of(k);
                            if i != place {
                                assert(before.keys()[if i < place { i } else { i - 1 }] == k);
                            }
                        }
                    }
                    assert forall|k: Seq<char>| before.keys().contains(k) implies self@[k]
                        == before@[k] by {
                        let i = before.keys().index_of(k);
                        assert(keys[if i < place { i } else { i + 1 }] == k);
                        assert(keys.index_of(k) == if i < place { i } else { i + 1 });
                    }
                    assert(keys.index_of(wanted) == place);
                }
            }
        }
    }
}

impl<V: Clone> Clone for OrderedMap<V> {
    /// A map with the same keys and with a clone of every value.
    fn clone(&self) -> (copy: Self)
        ensures
            copy.keys() == self.keys(),
            forall|key: Seq<char>| #[trigger]
                self@.contains_key(key) ==> cloned::<V>(self@[key], copy@[key]),
    {
        let mut entries: Vec<(String, V)> = Vec::new();
        for k in 0..self.entries.len()
            invariant
                entries@.len() == k,
                forall|j: int|
                    0 <= j < k ==> (#[trigger] entries@[j]).0 == self.entries@[j].0 && cloned::<V>(
                        self.entries@[j].1,
                        entries@[j].1,
                    ),
        {
            entries.push((self.entries[k].0.clone(), self.entries[k].1.clone()));
        }
        let copy = OrderedMap { entries };
        proof {
            assert(copy.keys() =~= self.keys());
            assert forall|key: Seq<char>| #[trigger] self@.contains_key(key) implies cloned::<V>(
                self@[key],
                copy@[key],
            ) by {
                let at = self.keys().index_of(key);
                assert(copy.entries@[at].0 == self.entries@[at].0);
            }
        }
        copy
    }
}

} // verus!
