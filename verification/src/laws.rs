//! What holds of every document. The symbol table points at the elements
//! that bind its names; a reference finds its binding wherever the binding
//! stands; each error comes exactly where its cause is; in a document that
//! resolves every entry has its place in the tree; and `$` keeps the subject
//! of an options block.

use crate::attributes::{fold_attrs, lemma_subject_is_kept, subject_key};
use crate::document::HContentView;
use crate::grammar::{is_key, lemma_attributes_keys, spec_options};
use crate::lexer::{spec_byte, spec_stringlit, OPEN_PAREN};
use crate::outline::{lemma_parents_precede, outline_of, parents_precede, EntryView};
use crate::resolver::{
    bind_entries, bind_names, bindings_of, children_of, content_of, destinations_of, first_stray,
    first_unbound, first_unresolved, last_target, lemma_bind_names_stops,
    lemma_children_in_document_order, names_at, node_of, reaches_root, resolution, resolution_of,
    strays, targets_at, Bindings, ResolveErrorView,
};
use crate::syntax::ExprView;
use crate::text::{bytes_as_chars, lemma_ascii_text, text_of};
use vstd::prelude::*;

verus! {

/// Whether the entry binds the name.
pub open spec fn binds(entry: EntryView, name: Seq<char>) -> bool {
    names_at(entry).contains(name)
}

/// Binding names to one element adds them to the table, each with the
/// element's place, and changes nothing else in it.
pub proof fn lemma_bind_names(bindings: Bindings, names: Seq<Seq<char>>, index: usize, count: nat)
    requires
        count <= names.len(),
    ensures
        ({
            let after = bind_names(bindings, names, index, count);
            &&& forall|name: Seq<char>| #[trigger]
                bindings.table.contains_key(name) ==> after.table.contains_key(name)
                    && after.table[name] == bindings.table[name]
            &&& forall|name: Seq<char>| #[trigger]
                after.table.contains_key(name) && !bindings.table.contains_key(name)
                    ==> after.table[name] == index && names.take(count as int).contains(name)
            &&& after.duplicate.is_none() ==> bindings.duplicate.is_none() && forall|j: int|
                0 <= j < count ==> after.table.contains_key(#[trigger] names[j])
                    && after.table[names[j]] == index
        }),
    decreases count,
{
    if count > 0 {
        let held = bind_names(bindings, names, index, (count - 1) as nat);
        let after = bind_names(bindings, names, index, count);
        lemma_bind_names(bindings, names, index, (count - 1) as nat);
        assert forall|name: Seq<char>| #[trigger]
            after.table.contains_key(name) && !bindings.table.contains_key(name) implies names.take(
            count as int,
        ).contains(name) by {
            if held.table.contains_key(name) {
                let before = names.take(count - 1);
                let j = choose|j: int| 0 <= j < before.len() && before[j] == name;
                assert(names.take(count as int)[j] == name);
            } else {
                assert(names.take(count as int)[count - 1] == name);
            }
        }
    }
}

/// The symbol table is sound: each of its names is bound by the element it
/// gives. Where no name was bound twice it is complete as well: the table
/// has every name that an element binds, and gives that element.
pub proof fn lemma_table_is_sound(entries: Seq<EntryView>, count: nat)
    requires
        count <= entries.len(),
        count <= usize::MAX,
    ensures
        ({
            let bound = bind_entries(entries, count);
            &&& forall|name: Seq<char>| #[trigger]
                bound.table.contains_key(name) ==> bound.table[name] < count && binds(
                    entries[bound.table[name] as int],
                    name,
                )
            &&& bound.duplicate.is_none() ==> forall|i: int, name: Seq<char>|
                0 <= i < count && #[trigger] binds(entries[i], name) ==> bound.table.contains_key(
                    name,
                ) && bound.table[name] == i
        }),
    decreases count,
{
    if count > 0 {
        let held = bind_entries(entries, (count - 1) as nat);
        let names = names_at(entries[count - 1]);
        let bound = bind_entries(entries, count);
        lemma_table_is_sound(entries, (count - 1) as nat);
        lemma_bind_names(held, names, (count - 1) as usize, names.len());
        assert forall|name: Seq<char>| #[trigger]
            bound.table.contains_key(name) implies bound.table[name] < count && binds(
            entries[bound.table[name] as int],
            name,
        ) by {
            if !held.table.contains_key(name) {
                assert(names.take(names.len() as int) =~= names);
            }
        }
        if bound.duplicate.is_none() {
            assert forall|i: int, name: Seq<char>|
                0 <= i < count && #[trigger] binds(
                    entries[i],
                    name,
                ) implies bound.table.contains_key(name) && bound.table[name] == i by {
                if i == count - 1 {
                    let j = choose|j: int| 0 <= j < names.len() && names[j] == name;
                    assert(bound.table.contains_key(names[j]));
                }
            }
        }
    }
}

/// Where no reference is left unresolved, the table has every name that an
/// entry refers to.
pub proof fn lemma_targets_are_bound(
    table: Map<Seq<char>, usize>,
    entries: Seq<EntryView>,
    count: nat,
)
    requires
        count <= entries.len(),
        first_unresolved(table, entries, count).is_none(),
    ensures
        forall|i: int, j: int|
            0 <= i < count && 0 <= j < targets_at(entries[i]).len() ==> table.contains_key(
                #[trigger] targets_at(entries[i])[j],
            ),
    decreases count,
{
    if count > 0 {
        lemma_targets_are_bound(table, entries, (count - 1) as nat);
        let targets = targets_at(entries[count - 1]);
        lemma_all_bound(table, targets, targets.len());
    }
}

/// Where none of the first `count` targets is unbound, the table has them.
pub proof fn lemma_all_bound(table: Map<Seq<char>, usize>, targets: Seq<Seq<char>>, count: nat)
    requires
        count <= targets.len(),
        first_unbound(table, targets, count).is_none(),
    ensures
        forall|j: int| 0 <= j < count ==> table.contains_key(#[trigger] targets[j]),
    decreases count,
{
    if count > 0 {
        lemma_all_bound(table, targets, (count - 1) as nat);
    }
}

/// Whether every destination is an element of the document.
pub open spec fn destinations_are_elements(
    entries: Seq<EntryView>,
    dest: Seq<Option<usize>>,
) -> bool {
    &&& dest.len() == entries.len()
    &&& forall|i: int|
        0 <= i < dest.len() ==> match #[trigger] dest[i] {
            Some(p) => p < entries.len() && entries[p as int].item is Element,
            None => true,
        }
}

/// In the outline of a document whose references are all resolved, every
/// entry goes under an element of the document or to the root.
pub proof fn lemma_destinations_are_elements(entries: Seq<EntryView>)
    requires
        entries.len() <= usize::MAX,
        parents_precede(entries),
        first_unresolved(bindings_of(entries).table, entries, entries.len()).is_none(),
    ensures
        destinations_are_elements(
            entries,
            destinations_of(bindings_of(entries).table, entries),
        ),
{
    let table = bindings_of(entries).table;
    let dest = destinations_of(table, entries);
    lemma_table_is_sound(entries, entries.len());
    lemma_targets_are_bound(table, entries, entries.len());
    assert forall|i: int| 0 <= i < dest.len() implies match #[trigger] dest[i] {
        Some(p) => p < entries.len() && entries[p as int].item is Element,
        None => true,
    } by {
        let targets = targets_at(entries[i]);
        if targets.len() > 0 {
            let name = targets[targets.len() - 1];
            assert(binds(entries[table[name] as int], name));
        }
    }
}

/// More steps reach the root from wherever fewer do.
pub proof fn lemma_more_fuel_reaches(
    dest: Seq<Option<usize>>,
    at: Option<usize>,
    fuel: nat,
    more: nat,
)
    requires
        reaches_root(dest, at, fuel),
        fuel <= more,
    ensures
        reaches_root(dest, at, more),
    decreases fuel,
{
    if let Some(i) = at {
        lemma_more_fuel_reaches(dest, dest[i as int], (fuel - 1) as nat, (more - 1) as nat);
    }
}

/// The number of steps from `at` to the root, where `fuel` steps reach it.
pub open spec fn steps_to_root(dest: Seq<Option<usize>>, at: Option<usize>, fuel: nat) -> nat
    decreases fuel,
{
    match at {
        None => 0,
        Some(i) => if fuel > 0 && i < dest.len() {
            1 + steps_to_root(dest, dest[i as int], (fuel - 1) as nat)
        } else {
            0
        },
    }
}

/// The number of steps to the root is the same whatever fuel reaches it,
/// and that many steps reach it.
pub proof fn lemma_steps_to_root(dest: Seq<Option<usize>>, at: Option<usize>, fuel: nat, other: nat)
    requires
        reaches_root(dest, at, fuel),
        reaches_root(dest, at, other),
    ensures
        steps_to_root(dest, at, fuel) == steps_to_root(dest, at, other),
        steps_to_root(dest, at, fuel) <= fuel,
        reaches_root(dest, at, steps_to_root(dest, at, fuel)),
    decreases fuel,
{
    if let Some(i) = at {
        lemma_steps_to_root(dest, dest[i as int], (fuel - 1) as nat, (other - 1) as nat);
    }
}

/// The places passed on the way from `at` to the root.
pub open spec fn path_to_root(dest: Seq<Option<usize>>, at: Option<usize>, fuel: nat) -> Seq<int>
    decreases fuel,
{
    match at {
        None => Seq::empty(),
        Some(i) => if fuel > 0 && i < dest.len() {
            seq![i as int] + path_to_root(dest, dest[i as int], (fuel - 1) as nat)
        } else {
            Seq::empty()
        },
    }
}

/// The way to the root has one place for each step, and from each place on
/// it the root is as many steps away as places follow.
pub proof fn lemma_path_to_root(dest: Seq<Option<usize>>, at: Option<usize>, fuel: nat)
    requires
        reaches_root(dest, at, fuel),
    ensures
        path_to_root(dest, at, fuel).len() == steps_to_root(dest, at, fuel),
        forall|k: int|
            0 <= k < path_to_root(dest, at, fuel).len() ==> {
                let place = #[trigger] path_to_root(dest, at, fuel)[k];
                &&& 0 <= place < dest.len()
                &&& reaches_root(dest, Some(place as usize), fuel)
                &&& steps_to_root(dest, Some(place as usize), fuel) == path_to_root(
                    dest,
                    at,
                    fuel,
                ).len() - k
            },
    decreases fuel,
{
    if let Some(i) = at {
        let next = dest[i as int];
        let rest = path_to_root(dest, next, (fuel - 1) as nat);
        let path = path_to_root(dest, at, fuel);
        lemma_path_to_root(dest, next, (fuel - 1) as nat);
        assert forall|k: int| 0 <= k < path.len() implies {
            let place = #[trigger] path[k];
            &&& 0 <= place < dest.len()
            &&& reaches_root(dest, Some(place as usize), fuel)
            &&& steps_to_root(dest, Some(place as usize), fuel) == path.len() - k
        } by {
            if k > 0 {
                let from = Some(rest[k - 1] as usize);
                lemma_more_fuel_reaches(dest, from, (fuel - 1) as nat, fuel);
                lemma_steps_to_root(dest, from, (fuel - 1) as nat, fuel);
            }
        }
    }
}

/// As many steps as there are entries reach the root from wherever it is
/// reached at all: a way to the root passes no place twice.
pub proof fn lemma_root_is_near(dest: Seq<Option<usize>>, at: Option<usize>, fuel: nat)
    requires
        reaches_root(dest, at, fuel),
    ensures
        steps_to_root(dest, at, fuel) <= dest.len(),
        reaches_root(dest, at, dest.len()),
{
    let path = path_to_root(dest, at, fuel);
    lemma_path_to_root(dest, at, fuel);
    lemma_steps_to_root(dest, at, fuel, fuel);
    assert forall|a: int, b: int|
        0 <= a < path.len() && 0 <= b < path.len() && a != b implies path[a] != path[b] by {
        assert(steps_to_root(dest, Some(path[a] as usize), fuel) == path.len() - a);
        assert(steps_to_root(dest, Some(path[b] as usize), fuel) == path.len() - b);
    }
    let all = vstd::set_lib::set_int_range(0, dest.len() as int);
    vstd::set_lib::lemma_int_range(0, dest.len() as int);
    assert forall|place: int| path.to_set().contains(place) implies all.contains(place) by {
        let k = choose|k: int| 0 <= k < path.len() && path[k] == place;
        assert(0 <= path[k] < dest.len());
    }
    vstd::set_lib::lemma_len_subset(path.to_set(), all);
    path.unique_seq_to_set();
    lemma_more_fuel_reaches(dest, at, steps_to_root(dest, at, fuel), dest.len());
}

/// Whether the root is reached from every entry.
pub open spec fn all_reach_root(dest: Seq<Option<usize>>) -> bool {
    forall|i: usize| i < dest.len() ==> #[trigger] reaches_root(dest, Some(i), dest.len())
}

/// Where none of the first `count` entries strays, the root is reached from
/// each of them that refers to another element.
pub proof fn lemma_no_stray(entries: Seq<EntryView>, dest: Seq<Option<usize>>, count: nat)
    requires
        first_stray(entries, dest, count).is_none(),
    ensures
        forall|i: int| 0 <= i < count ==> !#[trigger] strays(entries, dest, i),
    decreases count,
{
    if count > 0 {
        lemma_no_stray(entries, dest, (count - 1) as nat);
    }
}

/// In a document that resolves, the root is reached from every entry: an
/// entry that refers to an element was found to reach it, and any other
/// entry lies in the body of an element before it, from which the root is
/// reached.
pub proof fn lemma_every_entry_reaches_the_root(
    entries: Seq<EntryView>,
    table: Map<Seq<char>, usize>,
)
    requires
        entries.len() <= usize::MAX,
        parents_precede(entries),
        first_stray(entries, destinations_of(table, entries), entries.len()).is_none(),
    ensures
        all_reach_root(destinations_of(table, entries)),
{
    let dest = destinations_of(table, entries);
    lemma_no_stray(entries, dest, entries.len());
    lemma_reach_upto(entries, table, entries.len());
}

/// The root is reached from each of the first `count` entries.
proof fn lemma_reach_upto(entries: Seq<EntryView>, table: Map<Seq<char>, usize>, count: nat)
    requires
        count <= entries.len() <= usize::MAX,
        parents_precede(entries),
        forall|i: int|
            0 <= i < entries.len() ==> !#[trigger] strays(
                entries,
                destinations_of(table, entries),
                i,
            ),
    ensures
        forall|i: usize|
            i < count ==> #[trigger] reaches_root(
                destinations_of(table, entries),
                Some(i),
                entries.len(),
            ),
    decreases count,
{
    if count > 0 {
        let dest = destinations_of(table, entries);
        let last = count - 1;
        lemma_reach_upto(entries, table, (count - 1) as nat);
        assert(!strays(entries, dest, last));
        if targets_at(entries[last]).len() == 0 {
            match entries[last].parent {
                Some(p) => {
                    assert(reaches_root(dest, Some(p), entries.len()));
                    lemma_root_is_near(dest, Some(last as usize), entries.len() + 1);
                },
                None => {
                    assert(reaches_root(dest, None, (entries.len() - 1) as nat));
                },
            }
        }
    }
}

/// Where the root is reached from every entry, the content of a
/// destination does not depend on the fuel, as long as the fuel and the
/// steps from the destination to the root make up the number of entries:
/// nothing lies deeper than there are entries.
pub proof fn lemma_fuel_suffices(
    entries: Seq<EntryView>,
    dest: Seq<Option<usize>>,
    at: Option<usize>,
    fuel: nat,
    other: nat,
)
    requires
        dest.len() == entries.len() <= usize::MAX,
        all_reach_root(dest),
        reaches_root(dest, at, dest.len()),
        fuel + steps_to_root(dest, at, dest.len()) >= dest.len(),
        other + steps_to_root(dest, at, dest.len()) >= dest.len(),
    ensures
        content_of(entries, dest, at, fuel) == content_of(entries, dest, at, other),
    decreases dest.len() - steps_to_root(dest, at, dest.len()),
{
    let n = dest.len();
    let depth = steps_to_root(dest, at, n);
    let kids = children_of(dest, at, n);
    lemma_root_is_near(dest, at, n);
    lemma_children_in_document_order(dest, at, n);
    assert forall|a: int| 0 <= a < kids.len() implies node_of(entries, dest, kids[a], fuel)
        == node_of(entries, dest, kids[a], other) by {
        let kid = kids[a];
        lemma_root_is_near(dest, Some(kid), n);
        lemma_steps_to_root(dest, at, (n - 1) as nat, n);
        if entries[kid as int].item is Element {
            lemma_more_fuel_reaches(dest, Some(kid), n, n);
            lemma_fuel_suffices(
                entries,
                dest,
                Some(kid),
                (fuel - 1) as nat,
                (other - 1) as nat,
            );
        }
    }
}

/// In a document that resolves the tree is whole: as many levels as there
/// are entries hold every entry, and more levels give the same tree.
pub proof fn lemma_tree_is_whole(entries: Seq<EntryView>, dest: Seq<Option<usize>>, more: nat)
    requires
        dest.len() == entries.len() <= usize::MAX,
        all_reach_root(dest),
        more >= entries.len(),
    ensures
        content_of(entries, dest, None, more) == content_of(entries, dest, None, entries.len()),
{
    lemma_fuel_suffices(entries, dest, None, more, entries.len());
}

/// The names bound by the first `count` entries, in document order.
pub open spec fn names_upto(entries: Seq<EntryView>, count: nat) -> Seq<Seq<char>>
    decreases count,
{
    if count == 0 {
        Seq::empty()
    } else {
        names_upto(entries, (count - 1) as nat) + names_at(entries[count - 1])
    }
}

/// Whether the name stands at two places of the sequence.
pub open spec fn occurs_twice(names: Seq<Seq<char>>, name: Seq<char>) -> bool {
    exists|a: int, b: int| 0 <= a < b < names.len() && names[a] == name && names[b] == name
}

/// Binding the names of one element stops at the first of them that was
/// seen before, and otherwise adds them all to the table.
pub proof fn lemma_bind_names_twice(
    bindings: Bindings,
    names: Seq<Seq<char>>,
    index: usize,
    count: nat,
    seen: Seq<Seq<char>>,
)
    requires
        count <= names.len(),
        bindings.duplicate.is_none(),
        seen.no_duplicates(),
        forall|name: Seq<char>| bindings.table.contains_key(name) <==> seen.contains(name),
    ensures
        ({
            let after = bind_names(bindings, names, index, count);
            let all = seen + names.take(count as int);
            match after.duplicate {
                Some(name) => occurs_twice(all, name),
                None => all.no_duplicates() && forall|name: Seq<char>|
                    after.table.contains_key(name) <==> all.contains(name),
            }
        }),
    decreases count,
{
    let all = seen + names.take(count as int);
    if count > 0 {
        let held = bind_names(bindings, names, index, (count - 1) as nat);
        let before = seen + names.take(count - 1);
        let name = names[count - 1];
        let last = before.len() as int;
        lemma_bind_names_twice(bindings, names, index, (count - 1) as nat, seen);
        assert(all =~= before.push(name));
        match held.duplicate {
            Some(twice) => {
                let (a, b) = choose|a: int, b: int|
                    0 <= a < b < before.len() && before[a] == twice && before[b] == twice;
                assert(all[a] == twice && all[b] == twice);
            },
            None => {
                if held.table.contains_key(name) {
                    assert(before.contains(name));
                    let a = choose|a: int| 0 <= a < before.len() && before[a] == name;
                    assert(all[a] == name && all[last] == name);
                } else {
                    let after = bind_names(bindings, names, index, count);
                    assert forall|a: int, b: int|
                        0 <= a < all.len() && 0 <= b < all.len() && a != b implies all[a]
                        != all[b] by {
                        if a < last {
                            assert(before.contains(before[a]));
                        }
                        if b < last {
                            assert(before.contains(before[b]));
                        }
                    }
                    assert forall|other: Seq<char>|
                        after.table.contains_key(other) <==> all.contains(other) by {
                        if all.contains(other) {
                            let a = choose|a: int| 0 <= a < all.len() && all[a] == other;
                            if a < last {
                                assert(before.contains(before[a]));
                            }
                        }
                        if after.table.contains_key(other) {
                            if other == name {
                                assert(all[last] == other);
                            } else {
                                assert(before.contains(other));
                                let a = choose|a: int| 0 <= a < before.len() && before[a] == other;
                                assert(all[a] == other);
                            }
                        }
                    }
                }
            },
        }
    }
}

/// Binding fails where a name is written in two bindings, and only there.
/// The name it gives stands twice among the names bound; where it gives
/// none, no name stands twice, and the table holds the names bound.
pub proof fn lemma_duplicate_is_bound_twice(entries: Seq<EntryView>, count: nat)
    requires
        count <= entries.len(),
    ensures
        match bind_entries(entries, count).duplicate {
            Some(name) => occurs_twice(names_upto(entries, count), name),
            None => names_upto(entries, count).no_duplicates() && forall|name: Seq<char>|
                bind_entries(entries, count).table.contains_key(name) <==> names_upto(
                    entries,
                    count,
                ).contains(name),
        },
    decreases count,
{
    if count > 0 {
        let held = bind_entries(entries, (count - 1) as nat);
        let seen = names_upto(entries, (count - 1) as nat);
        let names = names_at(entries[count - 1]);
        let all = names_upto(entries, count);
        lemma_duplicate_is_bound_twice(entries, (count - 1) as nat);
        assert(names.take(names.len() as int) =~= names);
        match held.duplicate {
            Some(twice) => {
                let (a, b) = choose|a: int, b: int|
                    0 <= a < b < seen.len() && seen[a] == twice && seen[b] == twice;
                assert(all[a] == twice && all[b] == twice);
                lemma_bind_names_stops(
                    held,
                    names,
                    (count - 1) as usize,
                    0,
                    names.len(),
                );
            },
            None => {
                lemma_bind_names_twice(held, names, (count - 1) as usize, names.len(), seen);
            },
        }
    }
}

/// A reference is reported as unresolved only if the table lacks its name,
/// and none is reported only if the table has the name of every reference.
pub proof fn lemma_unresolved_is_unbound(
    table: Map<Seq<char>, usize>,
    entries: Seq<EntryView>,
    count: nat,
)
    requires
        count <= entries.len(),
    ensures
        match first_unresolved(table, entries, count) {
            Some(name) => !table.contains_key(name) && exists|i: int, j: int|
                0 <= i < count && 0 <= j < targets_at(entries[i]).len() && #[trigger] targets_at(
                    entries[i],
                )[j] == name,
            None => forall|i: int, j: int|
                0 <= i < count && 0 <= j < targets_at(entries[i]).len() ==> table.contains_key(
                    #[trigger] targets_at(entries[i])[j],
                ),
        },
    decreases count,
{
    if count > 0 {
        lemma_unresolved_is_unbound(table, entries, (count - 1) as nat);
        let targets = targets_at(entries[count - 1]);
        if first_unresolved(table, entries, (count - 1) as nat).is_none() {
            lemma_unbound_is_a_target(table, targets, targets.len());
            if let Some(name) = first_unbound(table, targets, targets.len()) {
                let j = choose|j: int| 0 <= j < targets.len() && targets[j] == name;
                assert(targets_at(entries[count - 1])[j] == name);
            } else {
                lemma_all_bound(table, targets, targets.len());
            }
        }
    }
}

/// The first unbound target is one of the targets, and the table lacks it.
pub proof fn lemma_unbound_is_a_target(
    table: Map<Seq<char>, usize>,
    targets: Seq<Seq<char>>,
    count: nat,
)
    requires
        count <= targets.len(),
    ensures
        first_unbound(table, targets, count) matches Some(name) ==> !table.contains_key(name)
            && exists|j: int| 0 <= j < count && targets[j] == name,
    decreases count,
{
    if count > 0 {
        lemma_unbound_is_a_target(table, targets, (count - 1) as nat);
    }
}

/// An entry that strays lies on a circle or leads into one: no number of
/// steps reaches the root from it.
pub proof fn lemma_stray_never_reaches_the_root(
    entries: Seq<EntryView>,
    dest: Seq<Option<usize>>,
    i: int,
    fuel: nat,
)
    requires
        strays(entries, dest, i),
    ensures
        !reaches_root(dest, Some(i as usize), fuel),
{
    if reaches_root(dest, Some(i as usize), fuel) {
        lemma_root_is_near(dest, Some(i as usize), fuel);
    }
}

/// The first entry that strays is an entry that strays, and none before it
/// does.
pub proof fn lemma_first_stray(entries: Seq<EntryView>, dest: Seq<Option<usize>>, count: nat)
    ensures
        match first_stray(entries, dest, count) {
            Some(i) => 0 <= i < count && strays(entries, dest, i) && forall|k: int|
                0 <= k < i ==> !#[trigger] strays(entries, dest, k),
            None => forall|k: int| 0 <= k < count ==> !#[trigger] strays(entries, dest, k),
        },
    decreases count,
{
    if count > 0 {
        lemma_first_stray(entries, dest, (count - 1) as nat);
    }
}

/// What holds of a document that resolves. No name is bound twice; every
/// entry goes to the root or under an element of the document; the root is
/// reached from every entry, so that none lies inside itself; and the
/// document's content is the tree of all its entries, however many levels
/// are allowed for.
pub proof fn lemma_resolved_document(ast: Seq<ExprView>)
    requires
        outline_of(ast).len() <= usize::MAX,
        resolution(ast).is_ok(),
    ensures
        ({
            let entries = outline_of(ast);
            let dest = destinations_of(bindings_of(entries).table, entries);
            &&& names_upto(entries, entries.len()).no_duplicates()
            &&& destinations_are_elements(entries, dest)
            &&& all_reach_root(dest)
            &&& forall|more: nat|
                more >= entries.len() ==> resolution(ast) == Ok::<
                    Seq<HContentView>,
                    ResolveErrorView,
                >(#[trigger] content_of(entries, dest, None, more))
        }),
{
    let entries = outline_of(ast);
    let table = bindings_of(entries).table;
    let dest = destinations_of(table, entries);
    lemma_parents_precede(ast);
    lemma_duplicate_is_bound_twice(entries, entries.len());
    lemma_destinations_are_elements(entries);
    lemma_every_entry_reaches_the_root(entries, table);
    assert forall|more: nat| more >= entries.len() implies resolution(ast) == Ok::<
        Seq<HContentView>,
        ResolveErrorView,
    >(#[trigger] content_of(entries, dest, None, more)) by {
        lemma_tree_is_whole(entries, dest, more);
    }
}

/// The text of a key is its bytes as characters, and it is not `$`.
pub proof fn lemma_key_is_not_the_subject_key(key: Seq<u8>)
    requires
        is_key(key),
    ensures
        text_of(key) == bytes_as_chars(key),
        text_of(key) != subject_key(),
{
    lemma_ascii_text(key);
    reveal_strlit("$");
    assert(bytes_as_chars(key)[0] == key[0] as char);
}

/// In the attribute map of an options block that the grammar reads, `$`
/// has the subject and nothing else: no attribute can be written that
/// takes its place.
pub proof fn lemma_options_keep_the_subject(s: Seq<u8>, pos: int)
    ensures
        spec_options(s, pos) matches Some((list, _)) ==> match list.s {
            Some(subject) => fold_attrs(list).contains_key(subject_key()) && fold_attrs(
                list,
            )[subject_key()] == seq![text_of(subject)],
            None => !fold_attrs(list).contains_key(subject_key()),
        },
{
    if let Some((list, _)) = spec_options(s, pos) {
        let after_paren = spec_byte(s, pos, OPEN_PAREN).unwrap();
        let after_subject = match spec_stringlit(s, after_paren) {
            Some((_, end)) => end,
            None => after_paren,
        };
        lemma_attributes_keys(s, after_subject);
        assert forall|i: int| 0 <= i < list.attrs.len() implies text_of(
            (#[trigger] list.attrs[i]).key(),
        ) != subject_key() by {
            lemma_key_is_not_the_subject_key(list.attrs[i].key());
        }
        lemma_subject_is_kept(list, list.attrs.len());
    }
}

/// A reference finds its binding wherever the binding stands, before the
/// reference or behind it: the entry goes under the element that binds the
/// name it refers to last.
pub proof fn lemma_reference_finds_its_binding(entries: Seq<EntryView>, i: int, binder: int)
    requires
        entries.len() <= usize::MAX,
        bindings_of(entries).duplicate.is_none(),
        0 <= i < entries.len(),
        0 <= binder < entries.len(),
        targets_at(entries[i]).len() > 0,
        binds(entries[binder], last_target(entries[i])),
    ensures
        destinations_of(bindings_of(entries).table, entries)[i] == Some(binder as usize),
{
    lemma_table_is_sound(entries, entries.len());
}

/// A reference to a name that no element binds has no resolution.
pub proof fn lemma_unbound_reference_fails(entries: Seq<EntryView>, i: int, j: int)
    requires
        entries.len() <= usize::MAX,
        bindings_of(entries).duplicate.is_none(),
        0 <= i < entries.len(),
        0 <= j < targets_at(entries[i]).len(),
        forall|k: int|
            0 <= k < entries.len() ==> !binds(#[trigger] entries[k], targets_at(entries[i])[j]),
    ensures
        resolution_of(entries) matches Err(ResolveErrorView::UnresolvedReference(_)),
{
    let table = bindings_of(entries).table;
    lemma_table_is_sound(entries, entries.len());
    lemma_unresolved_is_unbound(table, entries, entries.len());
    if first_unresolved(table, entries, entries.len()).is_none() {
        let name = targets_at(entries[i])[j];
        assert(table.contains_key(name));
        assert(binds(entries[table[name] as int], name));
    }
}

/// From an entry that goes under itself the root is never reached.
pub proof fn lemma_own_child_never_reaches_the_root(dest: Seq<Option<usize>>, i: usize, fuel: nat)
    requires
        i < dest.len(),
        dest[i as int] == Some(i),
    ensures
        !reaches_root(dest, Some(i), fuel),
    decreases fuel,
{
    if fuel > 0 {
        lemma_own_child_never_reaches_the_root(dest, i, (fuel - 1) as nat);
    }
}

/// An element that refers to a name of its own has no resolution: it would
/// lie inside itself. Where the names and references of the document are
/// in order otherwise, the error is the circle.
pub proof fn lemma_reference_to_itself_fails(entries: Seq<EntryView>, i: int)
    requires
        entries.len() <= usize::MAX,
        0 <= i < entries.len(),
        targets_at(entries[i]).len() > 0,
        binds(entries[i], last_target(entries[i])),
    ensures
        resolution_of(entries).is_err(),
        bindings_of(entries).duplicate.is_none() && first_unresolved(
            bindings_of(entries).table,
            entries,
            entries.len(),
        ).is_none() ==> resolution_of(entries) matches Err(ResolveErrorView::ReferenceCycle(_)),
{
    let table = bindings_of(entries).table;
    let dest = destinations_of(table, entries);
    if bindings_of(entries).duplicate.is_none() && first_unresolved(
        table,
        entries,
        entries.len(),
    ).is_none() {
        lemma_reference_finds_its_binding(entries, i, i);
        lemma_own_child_never_reaches_the_root(dest, i as usize, dest.len());
        assert(strays(entries, dest, i));
        lemma_first_stray(entries, dest, entries.len());
    }
}

} // verus!
