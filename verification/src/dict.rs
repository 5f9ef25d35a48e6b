//! A map keyed by strings, held as a list of entries in which no key occurs
//! twice. An entry keeps its place for as long as its key is in the map.

use crate::text::{copy_strings, same_text, strings};
use vstd::prelude::*;

verus! {

/// A map from strings to values of `V`.
#[derive(Debug)]
pub struct StrMap<V> {
    entries: Vec<(String, V)>,
}

/// Whether some entry has the key.
pub open spec fn has_key<V>(entries: Seq<(String, V)>, key: Seq<char>) -> bool {
    exists|i: int| 0 <= i < entries.len() && (#[trigger] entries[i]).0@ == key
}

/// The place of an entry with the key.
pub open spec fn place_of<V>(entries: Seq<(String, V)>, key: Seq<char>) -> int {
    choose|i: int| 0 <= i < entries.len() && (#[trigger] entries[i]).0@ == key
}

/// Whether no key occurs twice.
pub open spec fn distinct_keys<V>(entries: Seq<(String, V)>) -> bool {
    forall|i: int, j: int|
        0 <= i < j < entries.len() ==> (#[trigger] entries[i]).0@ != (#[trigger] entries[j]).0@
}

/// The map that a list of entries stands for.
pub open spec fn as_map<V>(entries: Seq<(String, V)>) -> Map<Seq<char>, V> {
    Map::new(
        |key: Seq<char>| has_key(entries, key),
        |key: Seq<char>| entries[place_of(entries, key)].1,
    )
}

/// The keys of a list of entries.
pub open spec fn keys_of<V>(entries: Seq<(String, V)>) -> Seq<Seq<char>> {
    Seq::new(entries.len(), |i: int| entries[i].0@)
}

/// A list without a repeated key stands for a finite map with one key for
/// each entry.
pub proof fn lemma_as_map_len<V>(entries: Seq<(String, V)>)
    requires
        distinct_keys(entries),
    ensures
        as_map(entries).dom().finite(),
        as_map(entries).dom().len() == entries.len(),
{
    let keys = keys_of(entries);
    assert(as_map(entries).dom() =~= keys.to_set()) by {
        assert forall|key: Seq<char>| has_key(entries, key) <==> keys.to_set().contains(key) by {
            if has_key(entries, key) {
                let i = place_of(entries, key);
                assert(keys[i] == key);
            }
            if keys.to_set().contains(key) {
                let i = choose|i: int| 0 <= i < keys.len() && keys[i] == key;
                assert(entries[i].0@ == key);
            }
        }
    }
    keys.unique_seq_to_set();
    vstd::seq_lib::seq_to_set_is_finite(keys);
}

impl<V> View for StrMap<V> {
    type V = Map<Seq<char>, V>;

    closed spec fn view(&self) -> Map<Seq<char>, V> {
        as_map(self.entries@)
    }
}

impl<V> StrMap<V> {
    #[verifier::type_invariant]
    spec fn well_formed(self) -> bool {
        distinct_keys(self.entries@)
    }

    /// An empty map.
    pub fn new() -> (r: Self)
        ensures
            r@ == Map::<Seq<char>, V>::empty(),
    {
        StrMap { entries: Vec::new() }
    }

    /// The number of keys.
    pub fn len(&self) -> (n: usize)
        ensures
            self@.dom().finite(),
            n == self@.dom().len(),
    {
        proof {
            use_type_invariant(self);
            lemma_as_map_len(self.entries@);
        }
        self.entries.len()
    }

    fn find(&self, key: &str) -> (r: Option<usize>)
        ensures
            match r {
                Some(i) => i < self.entries.len() && self.entries[i as int].0@ == key@,
                None => !has_key(self.entries@, key@),
            },
    {
        let mut i: usize = 0;
        while i < self.entries.len()
            invariant
                i <= self.entries.len(),
                forall|j: int| 0 <= j < i ==> (#[trigger] self.entries[j]).0@ != key@,
            decreases self.entries.len() - i,
        {
            if same_text(self.entries[i].0.as_str(), key) {
                return Some(i);
            }
            i += 1;
        }
        None
    }

    /// The keys, in the order in which they entered the map.
    pub fn keys(&self) -> (r: Vec<String>)
        ensures
            strings(r@).no_duplicates(),
            forall|key: Seq<char>| strings(r@).contains(key) <==> self@.contains_key(key),
    {
        proof {
            use_type_invariant(self);
        }
        let mut keys: Vec<String> = Vec::new();
        let mut i: usize = 0;
        while i < self.entries.len()
            invariant
                i <= self.entries.len(),
                keys.len() == i,
                forall|j: int| 0 <= j < i ==> (#[trigger] keys[j])@ == self.entries[j].0@,
            decreases self.entries.len() - i,
        {
            keys.push(self.entries[i].0.clone());
            i += 1;
        }
        proof {
            let found = strings(keys@);
            assert forall|key: Seq<char>| found.contains(key) <==> self@.contains_key(key) by {
                if found.contains(key) {
                    let j = choose|j: int| 0 <= j < found.len() && found[j] == key;
                    assert(self.entries[j].0@ == key);
                }
                if self@.contains_key(key) {
                    let j = place_of(self.entries@, key);
                    assert(found[j] == key);
                }
            }
        }
        keys
    }

    /// Whether the map has the key.
    pub fn contains_key(&self, key: &str) -> (r: bool)
        ensures
            r == self@.contains_key(key@),
    {
        self.find(key).is_some()
    }

    /// The value of the key, if the map has it.
    pub fn get(&self, key: &str) -> (r: Option<&V>)
        ensures
            match r {
                Some(value) => self@.contains_key(key@) && *value == self@[key@],
                None => !self@.contains_key(key@),
            },
    {
        proof {
            use_type_invariant(self);
        }
        match self.find(key) {
            Some(i) => Some(&self.entries[i].1),
            None => None,
        }
    }

    /// Takes the entries out and leaves the map empty.
    fn take_entries(&mut self) -> (entries: Vec<(String, V)>)
        ensures
            entries@ == old(self).entries@,
            distinct_keys(entries@),
            final(self).entries@.len() == 0,
    {
        proof {
            use_type_invariant(&*self);
        }
        let mut taken = StrMap { entries: Vec::new() };
        core::mem::swap(self, &mut taken);
        taken.entries
    }

    /// Sets the value of the key, which enters the map if it is new.
    pub fn insert(&mut self, key: String, value: V) -> (previous: Option<V>)
        ensures
            final(self)@ == old(self)@.insert(key@, value),
            previous == (if old(self)@.contains_key(key@) {
                Some(old(self)@[key@])
            } else {
                None
            }),
    {
        let found = self.find(key.as_str());
        let mut entries = self.take_entries();
        let ghost before = entries@;
        let mut held = value;
        let previous = match found {
            Some(i) => {
                core::mem::swap(&mut entries[i].1, &mut held);
                proof {
                    let after = entries@;
                    assert forall|k: Seq<char>| has_key(after, k) <==> has_key(before, k) by {
                        if has_key(after, k) {
                            assert(before[place_of(after, k)].0@ == k);
                        }
                        if has_key(before, k) {
                            assert(after[place_of(before, k)].0@ == k);
                        }
                    }
                }
                Some(held)
            },
            None => {
                entries.push((key, held));
                proof {
                    let after = entries@;
                    let last = before.len() as int;
                    assert(after[last].0@ == key@);
                    assert forall|k: Seq<char>| has_key(after, k) <==> (k == key@ || has_key(
                        before,
                        k,
                    )) by {
                        if has_key(after, k) {
                            let j = place_of(after, k);
                            if j < last {
                                assert(before[j].0@ == k);
                            }
                        }
                        if has_key(before, k) {
                            assert(after[place_of(before, k)].0@ == k);
                        }
                    }
                    assert forall|k: Seq<char>| has_key(before, k) implies after[place_of(
                        after,
                        k,
                    )].1 == before[place_of(before, k)].1 by {
                        assert(after[place_of(before, k)].0@ == k);
                    }
                }
                None
            },
        };
        *self = StrMap { entries };
        previous
    }

    /// Empties the map.
    pub fn clear(&mut self)
        ensures
            final(self)@ == Map::<Seq<char>, V>::empty(),
    {
        *self = StrMap { entries: Vec::new() };
    }
}

impl StrMap<Vec<String>> {
    /// A copy of a map whose values are lists of strings.
    pub fn duplicate_with_strings(&self) -> (r: Self)
        ensures
            r@.dom() == self@.dom(),
            forall|key: Seq<char>| #[trigger]
                self@.contains_key(key) ==> strings(r@[key]@) == strings(self@[key]@),
    {
        proof {
            use_type_invariant(self);
        }
        let mut entries: Vec<(String, Vec<String>)> = Vec::new();
        let mut i: usize = 0;
        while i < self.entries.len()
            invariant
                i <= self.entries.len(),
                entries.len() == i,
                forall|j: int|
                    0 <= j < i ==> (#[trigger] entries[j]).0@ == self.entries[j].0@ && strings(
                        entries[j].1@,
                    ) == strings(self.entries[j].1@),
            decreases self.entries.len() - i,
        {
            let key = self.entries[i].0.clone();
            let values = copy_strings(&self.entries[i].1);
            entries.push((key, values));
            i += 1;
        }
        proof {
            let ours = self.entries@;
            let theirs = entries@;
            assert forall|key: Seq<char>| has_key(theirs, key) <==> has_key(ours, key) by {
                if has_key(theirs, key) {
                    assert(ours[place_of(theirs, key)].0@ == key);
                }
                if has_key(ours, key) {
                    assert(theirs[place_of(ours, key)].0@ == key);
                }
            }
            assert forall|key: Seq<char>| has_key(ours, key) implies place_of(theirs, key)
                == place_of(ours, key) by {
                assert(theirs[place_of(ours, key)].0@ == key);
            }
        }
        StrMap { entries }
    }
}

} // verus!
