//! The attribute map of an element, and how an options block folds into it.

use crate::dict::StrMap;
use crate::syntax::{Attr, AttrList, AttrListView, AttrView};
use crate::text::{strings, text_of, to_text};
use vstd::prelude::*;

verus! {

/// The attributes of an element: each key with its values in the order they
/// were given.
#[derive(Debug)]
pub struct AttrMap {
    map: StrMap<Vec<String>>,
}

impl View for AttrMap {
    type V = Map<Seq<char>, Seq<Seq<char>>>;

    closed spec fn view(&self) -> Map<Seq<char>, Seq<Seq<char>>> {
        self.map@.map_values(|values: Vec<String>| strings(values@))
    }
}

/// The values of a key, none where the map does not have it.
pub open spec fn values_of(m: Map<Seq<char>, Seq<Seq<char>>>, key: Seq<char>) -> Seq<Seq<char>> {
    if m.contains_key(key) {
        m[key]
    } else {
        Seq::empty()
    }
}

impl AttrMap {
    /// A map without attributes.
    pub fn new() -> (r: Self)
        ensures
            r@ == Map::<Seq<char>, Seq<Seq<char>>>::empty(),
    {
        AttrMap { map: StrMap::new() }
    }

    /// The number of keys.
    pub fn len(&self) -> (n: usize)
        ensures
            self@.dom().finite(),
            n == self@.dom().len(),
    {
        assert(self@.dom() =~= self.map@.dom());
        self.map.len()
    }

    /// The keys, in the order in which they entered the map.
    pub fn keys(&self) -> (r: Vec<String>)
        ensures
            strings(r@).no_duplicates(),
            forall|key: Seq<char>| strings(r@).contains(key) <==> self@.contains_key(key),
    {
        self.map.keys()
    }

    /// Whether the map has the key.
    pub fn contains_key(&self, key: &str) -> (r: bool)
        ensures
            r == self@.contains_key(key@),
    {
        self.map.contains_key(key)
    }

    /// The values of the key, if the map has it.
    pub fn get(&self, key: &str) -> (r: Option<&Vec<String>>)
        ensures
            match r {
                Some(values) => self@.contains_key(key@) && strings(values@) == self@[key@],
                None => !self@.contains_key(key@),
            },
    {
        self.map.get(key)
    }

    /// Marks the key as present: it enters the map without a value, unless
    /// the map has it already.
    pub fn flag(&mut self, key: String)
        ensures
            final(self)@ == (if old(self)@.contains_key(key@) {
                old(self)@
            } else {
                old(self)@.insert(key@, Seq::empty())
            }),
    {
        if !self.map.contains_key(key.as_str()) {
            let empty: Vec<String> = Vec::new();
            assert(strings(empty@) =~= Seq::<Seq<char>>::empty());
            self.map.insert(key, empty);
        }
    }

    /// Gives the key the one value, in place of any it had.
    pub fn set(&mut self, key: String, value: String)
        ensures
            final(self)@ == old(self)@.insert(key@, seq![value@]),
    {
        let mut values: Vec<String> = Vec::new();
        values.push(value);
        assert(strings(values@) =~= seq![value@]);
        self.map.insert(key, values);
    }

    /// Adds the value behind those that the key has.
    pub fn append(&mut self, key: String, value: String)
        ensures
            final(self)@ == old(self)@.insert(key@, values_of(old(self)@, key@).push(value@)),
    {
        let ghost before = self@;
        let mut values = match self.map.insert(key.clone(), Vec::new()) {
            Some(values) => values,
            None => Vec::new(),
        };
        values.push(value);
        assert(strings(values@) =~= values_of(before, key@).push(value@));
        self.map.insert(key, values);
    }

    /// A copy of the map.
    pub fn duplicate(&self) -> (r: Self)
        ensures
            r@ == self@,
    {
        AttrMap { map: self.map.duplicate_with_strings() }
    }
}

/// The key under which the subject of an options block is kept.
pub open spec fn subject_key() -> Seq<char> {
    "$"@
}

/// The map before any attribute is applied: the subject, if there is one.
pub open spec fn subject_map(subject: Option<Seq<u8>>) -> Map<Seq<char>, Seq<Seq<char>>> {
    match subject {
        Some(text) => Map::<Seq<char>, Seq<Seq<char>>>::empty().insert(
            subject_key(),
            seq![text_of(text)],
        ),
        None => Map::empty(),
    }
}

/// What one attribute does to the map. `key` marks the key as present and
/// keeps the values it has; `key = value` leaves it the one value;
/// `key += value` adds a value behind those it has.
pub open spec fn apply_attr(m: Map<Seq<char>, Seq<Seq<char>>>, attr: AttrView) -> Map<
    Seq<char>,
    Seq<Seq<char>>,
> {
    match attr {
        AttrView::Key(k) => if m.contains_key(text_of(k)) {
            m
        } else {
            m.insert(text_of(k), Seq::empty())
        },
        AttrView::KeyValue(k, v) => m.insert(text_of(k), seq![text_of(v)]),
        AttrView::KeyValueAdd(k, v) => m.insert(
            text_of(k),
            values_of(m, text_of(k)).push(text_of(v)),
        ),
    }
}

/// The map after the first `count` attributes of the list.
pub open spec fn folded(list: AttrListView, count: nat) -> Map<Seq<char>, Seq<Seq<char>>>
    decreases count,
{
    if count == 0 {
        subject_map(list.s)
    } else {
        apply_attr(folded(list, (count - 1) as nat), list.attrs[count - 1])
    }
}

/// The attribute map of an options block: its subject under `$`, then its
/// attributes applied in the order they were written.
pub open spec fn fold_attrs(list: AttrListView) -> Map<Seq<char>, Seq<Seq<char>>> {
    folded(list, list.attrs.len())
}

/// The subject keeps its key. Where no attribute has the key `$`, the
/// attribute map holds the subject of the list under `$`, and does not have
/// `$` where the list has no subject.
pub proof fn lemma_subject_is_kept(list: AttrListView, count: nat)
    requires
        count <= list.attrs.len(),
        forall|i: int|
            0 <= i < list.attrs.len() ==> text_of((#[trigger] list.attrs[i]).key())
                != subject_key(),
    ensures
        match list.s {
            Some(subject) => folded(list, count).contains_key(subject_key()) && folded(
                list,
                count,
            )[subject_key()] == seq![text_of(subject)],
            None => !folded(list, count).contains_key(subject_key()),
        },
    decreases count,
{
    if count > 0 {
        lemma_subject_is_kept(list, (count - 1) as nat);
    }
}

/// The last write wins. After `key = value` the key has the one value,
/// whatever it had before, as long as no later attribute sets the key again
/// or adds to it; a later bare `key` leaves the value as it is.
pub proof fn lemma_last_write_wins(list: AttrListView, i: int, count: nat)
    requires
        0 <= i < count <= list.attrs.len(),
        list.attrs[i] is KeyValue,
        forall|j: int|
            i < j < count ==> (#[trigger] list.attrs[j]) is Key || text_of(list.attrs[j].key())
                != text_of(list.attrs[i].key()),
    ensures
        folded(list, count).contains_key(text_of(list.attrs[i].key())),
        folded(list, count)[text_of(list.attrs[i].key())] == seq![
            text_of(list.attrs[i]->KeyValue_1),
        ],
    decreases count,
{
    if count > i + 1 {
        lemma_last_write_wins(list, i, (count - 1) as nat);
        assert(list.attrs[count - 1] is Key || text_of(list.attrs[count - 1].key()) != text_of(
            list.attrs[i].key(),
        ));
    }
}

/// Folds an options block into the attribute map of its element.
pub fn parse_attrs(attrs: &AttrList) -> (map: AttrMap)
    ensures
        map@ == fold_attrs(attrs@),
{
    let mut map = AttrMap::new();
    match attrs.s {
        Some(subject) => {
            map.set("$".to_owned(), to_text(subject));
        },
        None => {},
    }
    let mut i: usize = 0;
    while i < attrs.attrs.len()
        invariant
            i <= attrs.attrs.len(),
            map@ == folded(attrs@, i as nat),
        decreases attrs.attrs.len() - i,
    {
        match &attrs.attrs[i] {
            Attr::Key(k) => {
                map.flag(to_text(k));
            },
            Attr::KeyValue(k, v) => {
                map.set(to_text(k), to_text(v));
            },
            Attr::KeyValueAdd(k, v) => {
                map.append(to_text(k), to_text(v));
            },
        }
        i += 1;
    }
    map
}

} // verus!
