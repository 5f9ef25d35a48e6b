//! Resolution: from the outline of a document to its tree.
//!
//! The names of the whole document are bound first, so that a reference may
//! stand before the binding it names. Then each entry gets its destination:
//! the element it refers to, or else the element whose body holds it. An
//! element that would lie inside itself is refused. At last the tree is put
//! together, the children of each destination in document order.

use crate::dict::StrMap;
use crate::document::{
    content_views, lemma_element_view, HContent, HContentView, HDocument, HElement, HElementView,
};
use crate::outline::{entry_views, outline, outline_of, Entry, EntryView, Item, ItemView};
use crate::syntax::{expr_views, Expr, ExprView};
use crate::text::strings;
use vstd::prelude::*;

verus! {

/// Why a document has no tree.
#[derive(Debug, PartialEq, Eq)]
pub enum ResolveError {
    /// A reference names what no element is bound to.
    UnresolvedReference(String),
    /// A name is bound a second time.
    DuplicateBinding(String),
    /// An element refers to itself or to an element inside it.
    ReferenceCycle(String),
}

pub enum ResolveErrorView {
    UnresolvedReference(Seq<char>),
    DuplicateBinding(Seq<char>),
    ReferenceCycle(Seq<char>),
}

impl View for ResolveError {
    type V = ResolveErrorView;

    open spec fn view(&self) -> ResolveErrorView {
        match self {
            ResolveError::UnresolvedReference(name) => ResolveErrorView::UnresolvedReference(name@),
            ResolveError::DuplicateBinding(name) => ResolveErrorView::DuplicateBinding(name@),
            ResolveError::ReferenceCycle(name) => ResolveErrorView::ReferenceCycle(name@),
        }
    }
}

/// The names bound to an entry.
pub open spec fn names_at(entry: EntryView) -> Seq<Seq<char>> {
    match entry.item {
        ItemView::Element { names, .. } => names,
        ItemView::Text(_) => Seq::empty(),
    }
}

/// The names an entry refers to.
pub open spec fn targets_at(entry: EntryView) -> Seq<Seq<char>> {
    match entry.item {
        ItemView::Element { targets, .. } => targets,
        ItemView::Text(_) => Seq::empty(),
    }
}

/// A symbol table in the making: the names bound so far, each with the place
/// of its element, and the first name that was bound twice, at which binding
/// stops.
pub struct Bindings {
    pub table: Map<Seq<char>, usize>,
    pub duplicate: Option<Seq<char>>,
}

/// Binds one name to the element at `index`.
pub open spec fn bind_name(bindings: Bindings, name: Seq<char>, index: usize) -> Bindings {
    if bindings.duplicate.is_some() {
        bindings
    } else if bindings.table.contains_key(name) {
        Bindings { table: bindings.table, duplicate: Some(name) }
    } else {
        Bindings { table: bindings.table.insert(name, index), duplicate: None }
    }
}

/// Binds the first `count` of the names to the element at `index`.
pub open spec fn bind_names(
    bindings: Bindings,
    names: Seq<Seq<char>>,
    index: usize,
    count: nat,
) -> Bindings
    decreases count,
{
    if count == 0 {
        bindings
    } else {
        bind_name(bind_names(bindings, names, index, (count - 1) as nat), names[count - 1], index)
    }
}

/// Binds the names of the first `count` entries, in document order.
pub open spec fn bind_entries(entries: Seq<EntryView>, count: nat) -> Bindings
    decreases count,
{
    if count == 0 {
        Bindings { table: Map::empty(), duplicate: None }
    } else {
        let names = names_at(entries[count - 1]);
        bind_names(
            bind_entries(entries, (count - 1) as nat),
            names,
            (count - 1) as usize,
            names.len(),
        )
    }
}

/// The symbol table of a document.
pub open spec fn bindings_of(entries: Seq<EntryView>) -> Bindings {
    bind_entries(entries, entries.len())
}

/// Once a name was bound twice, no further name is bound.
pub proof fn lemma_bind_names_stops(
    bindings: Bindings,
    names: Seq<Seq<char>>,
    index: usize,
    count: nat,
    later: nat,
)
    requires
        count <= later,
        bind_names(bindings, names, index, count).duplicate.is_some(),
    ensures
        bind_names(bindings, names, index, later) == bind_names(bindings, names, index, count),
    decreases later,
{
    if count < later {
        lemma_bind_names_stops(bindings, names, index, count, (later - 1) as nat);
    }
}

/// Once a name was bound twice, no further entry changes the table.
pub proof fn lemma_bind_entries_stops(entries: Seq<EntryView>, count: nat, later: nat)
    requires
        count <= later,
        bind_entries(entries, count).duplicate.is_some(),
    ensures
        bind_entries(entries, later) == bind_entries(entries, count),
    decreases later,
{
    if count < later {
        lemma_bind_entries_stops(entries, count, (later - 1) as nat);
        let names = names_at(entries[later - 1]);
        let held = bind_entries(entries, (later - 1) as nat);
        lemma_bind_names_stops(held, names, (later - 1) as usize, 0, names.len());
    }
}

/// Binds every name of the document to the place of its element. The table
/// is emptied first. Binding stops at the first name that is bound a second
/// time, which the error names.
pub fn bind(entries: &Vec<Entry>, names: &mut StrMap<usize>) -> (r: Result<(), ResolveError>)
    ensures
        final(names)@ == bindings_of(entry_views(entries@)).table,
        match bindings_of(entry_views(entries@)).duplicate {
            Some(name) => r matches Err(e) && e@ == ResolveErrorView::DuplicateBinding(name),
            None => r.is_ok(),
        },
{
    names.clear();
    let ghost views = entry_views(entries@);
    let mut i: usize = 0;
    while i < entries.len()
        invariant
            i <= entries.len(),
            views == entry_views(entries@),
            names@ == bind_entries(views, i as nat).table,
            bind_entries(views, i as nat).duplicate.is_none(),
        decreases entries.len() - i,
    {
        let ghost held = bind_entries(views, i as nat);
        match &entries[i].item {
            Item::Element { names: bound, .. } => {
                let mut j: usize = 0;
                while j < bound.len()
                    invariant
                        j <= bound.len(),
                        i < entries.len(),
                        views == entry_views(entries@),
                        strings(bound@) == names_at(views[i as int]),
                        held == bind_entries(views, i as nat),
                        names@ == bind_names(held, strings(bound@), i, j as nat).table,
                        bind_names(held, strings(bound@), i, j as nat).duplicate.is_none(),
                    decreases bound.len() - j,
                {
                    if names.contains_key(bound[j].as_str()) {
                        proof {
                            let all = strings(bound@);
                            lemma_bind_names_stops(held, all, i, (j + 1) as nat, all.len());
                            lemma_bind_entries_stops(views, (i + 1) as nat, views.len());
                        }
                        return Err(ResolveError::DuplicateBinding(bound[j].clone()));
                    }
                    names.insert(bound[j].clone(), i);
                    j += 1;
                }
            },
            Item::Text(_) => {},
        }
        i += 1;
    }
    Ok(())
}

/// The first of the first `count` targets that the table does not hold.
pub open spec fn first_unbound(
    table: Map<Seq<char>, usize>,
    targets: Seq<Seq<char>>,
    count: nat,
) -> Option<Seq<char>>
    decreases count,
{
    if count == 0 {
        None
    } else {
        match first_unbound(table, targets, (count - 1) as nat) {
            Some(name) => Some(name),
            None => if table.contains_key(targets[count - 1]) {
                None
            } else {
                Some(targets[count - 1])
            },
        }
    }
}

/// The first target, in document order, of the first `count` entries that
/// the table does not hold.
pub open spec fn first_unresolved(
    table: Map<Seq<char>, usize>,
    entries: Seq<EntryView>,
    count: nat,
) -> Option<Seq<char>>
    decreases count,
{
    if count == 0 {
        None
    } else {
        match first_unresolved(table, entries, (count - 1) as nat) {
            Some(name) => Some(name),
            None => {
                let targets = targets_at(entries[count - 1]);
                first_unbound(table, targets, targets.len())
            },
        }
    }
}

/// Where an entry goes: under the element bound to the last name it refers
/// to, or else, where it refers to none, under the element whose body holds
/// it.
pub open spec fn destination(table: Map<Seq<char>, usize>, entry: EntryView) -> Option<usize> {
    let targets = targets_at(entry);
    if targets.len() > 0 {
        Some(table[targets[targets.len() - 1]])
    } else {
        entry.parent
    }
}

/// The destination of every entry.
pub open spec fn destinations_of(table: Map<Seq<char>, usize>, entries: Seq<EntryView>) -> Seq<
    Option<usize>,
> {
    Seq::new(entries.len(), |i: int| destination(table, entries[i]))
}

/// A target that is not bound stays the first one however many follow.
pub proof fn lemma_first_unbound_stays(
    table: Map<Seq<char>, usize>,
    targets: Seq<Seq<char>>,
    count: nat,
    later: nat,
)
    requires
        count <= later,
        first_unbound(table, targets, count).is_some(),
    ensures
        first_unbound(table, targets, later) == first_unbound(table, targets, count),
    decreases later,
{
    if count < later {
        lemma_first_unbound_stays(table, targets, count, (later - 1) as nat);
    }
}

/// A reference that is not resolved stays the first one however many
/// entries follow.
pub proof fn lemma_first_unresolved_stays(
    table: Map<Seq<char>, usize>,
    entries: Seq<EntryView>,
    count: nat,
    later: nat,
)
    requires
        count <= later,
        first_unresolved(table, entries, count).is_some(),
    ensures
        first_unresolved(table, entries, later) == first_unresolved(table, entries, count),
    decreases later,
{
    if count < later {
        lemma_first_unresolved_stays(table, entries, count, (later - 1) as nat);
    }
}

/// Looks up the names that each entry refers to and gives each entry its
/// destination. The error names the first reference, in document order,
/// to a name that is not bound.
pub fn destinations(entries: &Vec<Entry>, names: &StrMap<usize>) -> (r: Result<
    Vec<Option<usize>>,
    ResolveError,
>)
    ensures
        match first_unresolved(names@, entry_views(entries@), entries.len() as nat) {
            Some(name) => r matches Err(e) && e@ == ResolveErrorView::UnresolvedReference(name),
            None => r matches Ok(dest) && dest@ == destinations_of(names@, entry_views(entries@)),
        },
{
    let ghost views = entry_views(entries@);
    let mut dest: Vec<Option<usize>> = Vec::new();
    let mut i: usize = 0;
    while i < entries.len()
        invariant
            i <= entries.len(),
            views == entry_views(entries@),
            dest.len() == i,
            first_unresolved(names@, views, i as nat).is_none(),
            forall|k: int| 0 <= k < i ==> dest[k] == destination(names@, #[trigger] views[k]),
        decreases entries.len() - i,
    {
        let mut place: Option<usize> = entries[i].parent;
        match &entries[i].item {
            Item::Element { targets, .. } => {
                let mut j: usize = 0;
                while j < targets.len()
                    invariant
                        j <= targets.len(),
                        i < entries.len(),
                        views == entry_views(entries@),
                        strings(targets@) == targets_at(views[i as int]),
                        first_unresolved(names@, views, i as nat).is_none(),
                        first_unbound(names@, strings(targets@), j as nat).is_none(),
                        j == 0 ==> place == entries[i as int].parent,
                        j > 0 ==> place == Some(names@[targets[j - 1]@]),
                    decreases targets.len() - j,
                {
                    match names.get(targets[j].as_str()) {
                        Some(index) => {
                            place = Some(*index);
                        },
                        None => {
                            proof {
                                let all = strings(targets@);
                                lemma_first_unbound_stays(
                                    names@,
                                    all,
                                    (j + 1) as nat,
                                    all.len(),
                                );
                                lemma_first_unresolved_stays(
                                    names@,
                                    views,
                                    (i + 1) as nat,
                                    views.len(),
                                );
                            }
                            return Err(ResolveError::UnresolvedReference(targets[j].clone()));
                        },
                    }
                    j += 1;
                }
            },
            Item::Text(_) => {},
        }
        dest.push(place);
        i += 1;
    }
    Ok(dest)
}

/// Whether the root is reached from `at` by going from an entry to its
/// destination no more than `fuel` times.
pub open spec fn reaches_root(dest: Seq<Option<usize>>, at: Option<usize>, fuel: nat) -> bool
    decreases fuel,
{
    match at {
        None => true,
        Some(i) => fuel > 0 && i < dest.len() && reaches_root(
            dest,
            dest[i as int],
            (fuel - 1) as nat,
        ),
    }
}

/// Whether the entry at `i` refers to an element from which the root is not
/// reached: to itself, to an element inside it, or into such a circle. As
/// many steps as there are entries reach the root from wherever it can be
/// reached.
pub open spec fn strays(entries: Seq<EntryView>, dest: Seq<Option<usize>>, i: int) -> bool {
    targets_at(entries[i]).len() > 0 && !reaches_root(dest, Some(i as usize), dest.len())
}

/// The first of the first `count` entries that strays.
pub open spec fn first_stray(
    entries: Seq<EntryView>,
    dest: Seq<Option<usize>>,
    count: nat,
) -> Option<int>
    decreases count,
{
    if count == 0 {
        None
    } else {
        match first_stray(entries, dest, (count - 1) as nat) {
            Some(i) => Some(i),
            None => if strays(entries, dest, count - 1) {
                Some(count - 1)
            } else {
                None
            },
        }
    }
}

/// The name that an entry refers to last: the one that names its parent.
pub open spec fn last_target(entry: EntryView) -> Seq<char> {
    let targets = targets_at(entry);
    targets[targets.len() - 1]
}

/// An entry that strays stays the first one however many follow.
pub proof fn lemma_first_stray_stays(
    entries: Seq<EntryView>,
    dest: Seq<Option<usize>>,
    count: nat,
    later: nat,
)
    requires
        count <= later,
        first_stray(entries, dest, count).is_some(),
    ensures
        first_stray(entries, dest, later) == first_stray(entries, dest, count),
    decreases later,
{
    if count < later {
        lemma_first_stray_stays(entries, dest, count, (later - 1) as nat);
    }
}

/// Whether the root is reached from the entry at `from`.
pub fn reaches(dest: &Vec<Option<usize>>, from: usize) -> (r: bool)
    ensures
        r == reaches_root(dest@, Some(from), dest.len() as nat),
{
    let mut at: Option<usize> = Some(from);
    let mut fuel: usize = dest.len();
    loop
        invariant
            reaches_root(dest@, at, fuel as nat) == reaches_root(
                dest@,
                Some(from),
                dest.len() as nat,
            ),
        decreases fuel,
    {
        match at {
            None => {
                return true;
            },
            Some(i) => {
                if fuel == 0 || i >= dest.len() {
                    return false;
                }
                at = dest[i];
                fuel -= 1;
            },
        }
    }
}

/// Refuses a document in which an element would lie inside itself. The
/// error gives the name referred to by the first entry, in document order,
/// from which the root is not reached.
pub fn check_cycles(entries: &Vec<Entry>, dest: &Vec<Option<usize>>) -> (r: Result<
    (),
    ResolveError,
>)
    ensures
        match first_stray(entry_views(entries@), dest@, entries.len() as nat) {
            Some(i) => r matches Err(e) && e@ == ResolveErrorView::ReferenceCycle(
                last_target(entry_views(entries@)[i]),
            ),
            None => r.is_ok(),
        },
{
    let ghost views = entry_views(entries@);
    let mut i: usize = 0;
    while i < entries.len()
        invariant
            i <= entries.len(),
            views == entry_views(entries@),
            first_stray(views, dest@, i as nat).is_none(),
        decreases entries.len() - i,
    {
        match &entries[i].item {
            Item::Element { targets, .. } => {
                if targets.len() > 0 && !reaches(dest, i) {
                    proof {
                        lemma_first_stray_stays(views, dest@, (i + 1) as nat, views.len());
                    }
                    return Err(
                        ResolveError::ReferenceCycle(targets[targets.len() - 1].clone()),
                    );
                }
            },
            Item::Text(_) => {},
        }
        i += 1;
    }
    Ok(())
}

/// The places, among the first `count` entries, of those whose destination
/// is `at`, in document order.
pub open spec fn children_of(dest: Seq<Option<usize>>, at: Option<usize>, count: nat) -> Seq<usize>
    decreases count,
{
    if count == 0 || count > dest.len() {
        Seq::empty()
    } else {
        let before = children_of(dest, at, (count - 1) as nat);
        if dest[count - 1] == at {
            before.push((count - 1) as usize)
        } else {
            before
        }
    }
}

/// The content of the destination `at`: its children in document order,
/// each element with its own content, down to `fuel` levels.
pub open spec fn content_of(
    entries: Seq<EntryView>,
    dest: Seq<Option<usize>>,
    at: Option<usize>,
    fuel: nat,
) -> Seq<HContentView>
    decreases fuel, 2nat,
{
    nodes_of(entries, dest, children_of(dest, at, dest.len()), fuel)
}

/// The content that the entries at the given places make.
pub open spec fn nodes_of(
    entries: Seq<EntryView>,
    dest: Seq<Option<usize>>,
    places: Seq<usize>,
    fuel: nat,
) -> Seq<HContentView>
    decreases fuel, 1nat,
{
    Seq::new(places.len(), |a: int| node_of(entries, dest, places[a], fuel))
}

/// The content that the entry at place `j` makes: its text, or its element
/// with what has the element as its destination.
pub open spec fn node_of(
    entries: Seq<EntryView>,
    dest: Seq<Option<usize>>,
    j: usize,
    fuel: nat,
) -> HContentView
    decreases fuel, 0nat,
{
    match entries[j as int].item {
        ItemView::Text(text) => HContentView::Text(text),
        ItemView::Element { tagname, attributes, .. } => HContentView::Node(
            HElementView {
                tagname,
                attributes,
                content: if fuel == 0 {
                    Seq::empty()
                } else {
                    content_of(entries, dest, Some(j), (fuel - 1) as nat)
                },
            },
        ),
    }
}

/// The children of a destination stand in document order, and they are the
/// entries that have the destination: siblings keep the order in which they
/// appear in the source, whether they were written inside their parent or
/// sent there by a reference.
pub proof fn lemma_children_in_document_order(
    dest: Seq<Option<usize>>,
    at: Option<usize>,
    count: nat,
)
    requires
        count <= dest.len() <= usize::MAX,
    ensures
        forall|a: int, b: int|
            0 <= a < b < children_of(dest, at, count).len() ==> children_of(dest, at, count)[a]
                < children_of(dest, at, count)[b],
        forall|a: int|
            0 <= a < children_of(dest, at, count).len() ==> (#[trigger] children_of(
                dest,
                at,
                count,
            )[a]) < count && dest[children_of(dest, at, count)[a] as int] == at,
        forall|j: int|
            0 <= j < count && dest[j] == at ==> children_of(dest, at, count).contains(j as usize),
    decreases count,
{
    if count > 0 {
        let before = children_of(dest, at, (count - 1) as nat);
        let all = children_of(dest, at, count);
        lemma_children_in_document_order(dest, at, (count - 1) as nat);
        assert forall|j: int| 0 <= j < count && dest[j] == at implies all.contains(j as usize) by {
            if j < count - 1 {
                let a = choose|a: int| 0 <= a < before.len() && before[a] == j as usize;
                assert(all[a] == j as usize);
            } else {
                assert(all[all.len() - 1] == j as usize);
            }
        }
    }
}

/// The lists of children: those of the root, and those of each entry.
fn child_lists(dest: &Vec<Option<usize>>) -> (r: (Vec<usize>, Vec<Vec<usize>>))
    ensures
        r.0@ == children_of(dest@, None, dest.len() as nat),
        r.1.len() == dest.len(),
        forall|p: int|
            0 <= p < dest.len() ==> (#[trigger] r.1[p])@ == children_of(
                dest@,
                Some(p as usize),
                dest.len() as nat,
            ),
{
    let n = dest.len();
    let mut root: Vec<usize> = Vec::new();
    let mut lists: Vec<Vec<usize>> = Vec::new();
    let mut p: usize = 0;
    while p < n
        invariant
            p <= n,
            lists.len() == p,
            forall|q: int| 0 <= q < p ==> (#[trigger] lists[q])@ == Seq::<usize>::empty(),
        decreases n - p,
    {
        lists.push(Vec::new());
        p += 1;
    }
    let mut j: usize = 0;
    while j < n
        invariant
            j <= n,
            n == dest.len(),
            lists.len() == n,
            root@ == children_of(dest@, None, j as nat),
            forall|q: int|
                0 <= q < n ==> (#[trigger] lists[q])@ == children_of(
                    dest@,
                    Some(q as usize),
                    j as nat,
                ),
        decreases n - j,
    {
        match dest[j] {
            None => {
                root.push(j);
            },
            Some(parent) => {
                if parent < n {
                    lists[parent].push(j);
                }
            },
        }
        j += 1;
    }
    (root, lists)
}

/// Builds the content that the entries at the places in `kids` make.
fn build(
    entries: &Vec<Entry>,
    lists: &Vec<Vec<usize>>,
    kids: &Vec<usize>,
    fuel: usize,
    Ghost(dest): Ghost<Seq<Option<usize>>>,
) -> (content: Vec<HContent>)
    requires
        dest.len() == entries.len(),
        lists.len() == entries.len(),
        forall|p: int|
            0 <= p < lists.len() ==> (#[trigger] lists[p])@ == children_of(
                dest,
                Some(p as usize),
                dest.len(),
            ),
        forall|a: int| 0 <= a < kids.len() ==> (#[trigger] kids[a]) < entries.len(),
    ensures
        content_views(content@) == nodes_of(entry_views(entries@), dest, kids@, fuel as nat),
    decreases fuel,
{
    let ghost views = entry_views(entries@);
    let mut content: Vec<HContent> = Vec::new();
    let mut a: usize = 0;
    while a < kids.len()
        invariant
            a <= kids.len(),
            views == entry_views(entries@),
            dest.len() == entries.len(),
            lists.len() == entries.len(),
            forall|p: int|
                0 <= p < lists.len() ==> (#[trigger] lists[p])@ == children_of(
                    dest,
                    Some(p as usize),
                    dest.len(),
                ),
            forall|b: int| 0 <= b < kids.len() ==> (#[trigger] kids[b]) < entries.len(),
            content.len() == a,
            forall|b: int|
                0 <= b < a ==> (#[trigger] content[b])@ == node_of(
                    views,
                    dest,
                    kids[b],
                    fuel as nat,
                ),
        decreases kids.len() - a,
    {
        let j = kids[a];
        let node = match &entries[j].item {
            Item::Text(text) => HContent::Text(text.clone()),
            Item::Element { tagname, attributes, .. } => {
                let inner = if fuel == 0 {
                    let none: Vec<HContent> = Vec::new();
                    assert(content_views(none@) =~= Seq::<HContentView>::empty());
                    none
                } else {
                    proof {
                        lemma_children_in_document_order(dest, Some(j), dest.len());
                    }
                    build(entries, lists, &lists[j], fuel - 1, Ghost(dest))
                };
                let element = HElement {
                    tagname: tagname.clone(),
                    attributes: attributes.duplicate(),
                    content: inner,
                };
                proof {
                    lemma_element_view(element);
                }
                HContent::Node(element)
            },
        };
        content.push(node);
        a += 1;
    }
    content
}

/// Puts the tree together: the content of the root, each element with the
/// entries that have it as their destination, in document order.
pub fn assemble(entries: &Vec<Entry>, dest: &Vec<Option<usize>>) -> (content: Vec<HContent>)
    requires
        dest.len() == entries.len(),
    ensures
        content_views(content@) == content_of(
            entry_views(entries@),
            dest@,
            None,
            entries.len() as nat,
        ),
{
    let (root, lists) = child_lists(dest);
    proof {
        lemma_children_in_document_order(dest@, None, dest.len() as nat);
    }
    build(entries, &lists, &root, entries.len(), Ghost(dest@))
}

/// What resolving an outline gives: the content of the root, or the first
/// error. A name bound twice comes before a reference that is not resolved,
/// and that before a reference that makes a circle.
pub open spec fn resolution_of(entries: Seq<EntryView>) -> Result<
    Seq<HContentView>,
    ResolveErrorView,
> {
    let bindings = bindings_of(entries);
    let dest = destinations_of(bindings.table, entries);
    if let Some(name) = bindings.duplicate {
        Err(ResolveErrorView::DuplicateBinding(name))
    } else if let Some(name) = first_unresolved(bindings.table, entries, entries.len()) {
        Err(ResolveErrorView::UnresolvedReference(name))
    } else if let Some(i) = first_stray(entries, dest, entries.len()) {
        Err(ResolveErrorView::ReferenceCycle(last_target(entries[i])))
    } else {
        Ok(content_of(entries, dest, None, entries.len()))
    }
}

/// What resolving a syntax tree gives.
pub open spec fn resolution(ast: Seq<ExprView>) -> Result<Seq<HContentView>, ResolveErrorView> {
    resolution_of(outline_of(ast))
}

/// The view of the outcome of a resolution.
pub open spec fn outcome(r: Result<Vec<HContent>, ResolveError>) -> Result<
    Seq<HContentView>,
    ResolveErrorView,
> {
    match r {
        Ok(content) => Ok(content_views(content@)),
        Err(e) => Err(e@),
    }
}

/// Resolves an outline. The symbol table is emptied and then holds the
/// names of the document, as far as they were bound.
pub fn resolve_outline(entries: &Vec<Entry>, names: &mut StrMap<usize>) -> (r: Result<
    Vec<HContent>,
    ResolveError,
>)
    ensures
        outcome(r) == resolution_of(entry_views(entries@)),
        final(names)@ == bindings_of(entry_views(entries@)).table,
{
    match bind(entries, names) {
        Err(e) => {
            return Err(e);
        },
        Ok(()) => {},
    }
    let dest = match destinations(entries, names) {
        Err(e) => {
            return Err(e);
        },
        Ok(dest) => dest,
    };
    match check_cycles(entries, &dest) {
        Err(e) => {
            return Err(e);
        },
        Ok(()) => {},
    }
    Ok(assemble(entries, &dest))
}

/// Resolves the expressions of a document to the content of its root. The
/// symbol table is emptied and then holds the names of the document, as far
/// as they were bound.
pub fn parse_exprs(ast: &Vec<Expr>, names: &mut StrMap<usize>) -> (r: Result<
    Vec<HContent>,
    ResolveError,
>)
    ensures
        outcome(r) == resolution(expr_views(ast@)),
        final(names)@ == bindings_of(outline_of(expr_views(ast@))).table,
{
    let entries = outline(ast);
    resolve_outline(&entries, names)
}

/// Resolves a syntax tree to a document, with a symbol table of its own.
pub fn resolve(ast: &Vec<Expr>) -> (r: Result<HDocument, ResolveError>)
    ensures
        match r {
            Ok(document) => resolution(expr_views(ast@)) == Ok::<
                Seq<HContentView>,
                ResolveErrorView,
            >(document@),
            Err(e) => resolution(expr_views(ast@)) == Err::<Seq<HContentView>, ResolveErrorView>(
                e@,
            ),
        },
{
    let mut names: StrMap<usize> = StrMap::new();
    match parse_exprs(ast, &mut names) {
        Ok(content) => Ok(HDocument { content }),
        Err(e) => Err(e),
    }
}

/// Resolving the same syntax tree again gives the same outcome, whatever
/// the symbol table held before: two outcomes of one tree have one view.
pub proof fn lemma_resolving_again_gives_the_same(
    ast: Seq<ExprView>,
    first: Result<Vec<HContent>, ResolveError>,
    second: Result<Vec<HContent>, ResolveError>,
)
    requires
        outcome(first) == resolution(ast),
        outcome(second) == resolution(ast),
    ensures
        outcome(first) == outcome(second),
        first.is_ok() == second.is_ok(),
{
}

/// Siblings keep the order of the source. The content of a destination has
/// one piece for each entry that has the destination, whether the entry was
/// written inside it or sent there by a reference; no other entry is among
/// them; and the pieces stand in the order of the entries' places in the
/// outline, which is the order in which they appear in the source.
pub proof fn lemma_siblings_keep_source_order(
    entries: Seq<EntryView>,
    dest: Seq<Option<usize>>,
    at: Option<usize>,
    fuel: nat,
)
    requires
        dest.len() == entries.len(),
        entries.len() <= usize::MAX,
    ensures
        ({
            let places = children_of(dest, at, dest.len());
            let content = content_of(entries, dest, at, fuel);
            &&& content.len() == places.len()
            &&& forall|a: int|
                0 <= a < places.len() ==> #[trigger] content[a] == node_of(
                    entries,
                    dest,
                    places[a],
                    fuel,
                )
            &&& forall|a: int, b: int| 0 <= a < b < places.len() ==> places[a] < places[b]
            &&& forall|a: int|
                0 <= a < places.len() ==> (#[trigger] places[a]) < entries.len()
                    && dest[places[a] as int] == at
            &&& forall|j: int|
                0 <= j < entries.len() && dest[j] == at ==> places.contains(j as usize)
        }),
{
    lemma_children_in_document_order(dest, at, dest.len());
}

} // verus!
