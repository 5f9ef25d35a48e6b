//! The outline of a syntax tree: its expressions in document order, each
//! with the place of the element that encloses it, the element's tag, the
//! names bound to it and the names it refers to.

use crate::attributes::{fold_attrs, parse_attrs, AttrMap};
use crate::syntax::{expr_views, lemma_children_views, Context, ContextView, Expr, ExprView};
use crate::text::{strings, text_of, to_text};
use vstd::prelude::*;

verus! {

/// The tag name that a context gives its element: that of the identifier at
/// the end of the chain of bindings and references, and the empty name where
/// a reference ends the chain.
pub open spec fn tag_of(context: ContextView) -> Seq<char>
    decreases context,
{
    match context {
        ContextView::Identifier(name) => text_of(name),
        ContextView::Assignment(_, inner) => tag_of(*inner),
        ContextView::Reference(_, Some(inner)) => tag_of(*inner),
        ContextView::Reference(_, None) => Seq::empty(),
    }
}

/// The names that a context binds to its element, in the order written.
pub open spec fn names_of(context: ContextView) -> Seq<Seq<char>>
    decreases context,
{
    match context {
        ContextView::Identifier(_) => Seq::empty(),
        ContextView::Assignment(name, inner) => seq![text_of(name)] + names_of(*inner),
        ContextView::Reference(_, Some(inner)) => names_of(*inner),
        ContextView::Reference(_, None) => Seq::empty(),
    }
}

/// The names that a context refers to, in the order written.
pub open spec fn targets_of(context: ContextView) -> Seq<Seq<char>>
    decreases context,
{
    match context {
        ContextView::Identifier(_) => Seq::empty(),
        ContextView::Assignment(_, inner) => targets_of(*inner),
        ContextView::Reference(target, Some(inner)) => seq![text_of(target)] + targets_of(
            *inner,
        ),
        ContextView::Reference(target, None) => seq![text_of(target)],
    }
}

/// What a context says of its element.
#[derive(Debug)]
pub struct Placement {
    /// The element's tag name.
    pub tagname: String,
    /// The names bound to the element.
    pub names: Vec<String>,
    /// The names the element refers to. The last one names its parent.
    pub targets: Vec<String>,
}

impl Placement {
    /// The name of the element under which this one is placed, if it is not
    /// left with the element that encloses it.
    pub open spec fn spec_parent(self) -> Option<Seq<char>> {
        if self.targets.len() > 0 {
            Some(self.targets[self.targets.len() - 1]@)
        } else {
            None
        }
    }

    /// The name of the element under which this one is placed, if any.
    pub fn parent(&self) -> (r: Option<&String>)
        ensures
            match r {
                Some(name) => self.spec_parent() == Some(name@),
                None => self.spec_parent().is_none(),
            },
    {
        if self.targets.len() > 0 {
            Some(&self.targets[self.targets.len() - 1])
        } else {
            None
        }
    }
}

/// Walks a context and adds its names and targets to the lists.
fn walk_context(context: &Context, names: &mut Vec<String>, targets: &mut Vec<String>) -> (tagname:
    String)
    ensures
        tagname@ == tag_of(context@),
        strings(final(names)@) == strings(old(names)@) + names_of(context@),
        strings(final(targets)@) == strings(old(targets)@) + targets_of(context@),
    decreases context,
{
    match context {
        Context::Identifier(name) => to_text(name),
        Context::Assignment(name, inner) => {
            names.push(to_text(name));
            walk_context(inner, names, targets)
        },
        Context::Reference(target, inner) => {
            targets.push(to_text(target));
            match &**inner {
                Some(c) => walk_context(c, names, targets),
                None => String::new(),
            }
        },
    }
}

/// Resolves a context to the tag name of its element, the names bound to
/// it, and the names it refers to.
pub fn parse_context(id: &Context) -> (r: Placement)
    ensures
        r.tagname@ == tag_of(id@),
        strings(r.names@) == names_of(id@),
        strings(r.targets@) == targets_of(id@),
{
    let mut names: Vec<String> = Vec::new();
    let mut targets: Vec<String> = Vec::new();
    let tagname = walk_context(id, &mut names, &mut targets);
    Placement { tagname, names, targets }
}

/// What an entry of the outline stands for.
#[derive(Debug)]
pub enum Item {
    /// Literal text.
    Text(String),
    /// An element, without its content.
    Element { tagname: String, attributes: AttrMap, names: Vec<String>, targets: Vec<String> },
}

/// One expression of the document. `parent` is the place in the outline of
/// the element whose body holds the expression; the top level has none.
#[derive(Debug)]
pub struct Entry {
    pub parent: Option<usize>,
    pub item: Item,
}

pub enum ItemView {
    Text(Seq<char>),
    Element {
        tagname: Seq<char>,
        attributes: Map<Seq<char>, Seq<Seq<char>>>,
        names: Seq<Seq<char>>,
        targets: Seq<Seq<char>>,
    },
}

pub struct EntryView {
    pub parent: Option<usize>,
    pub item: ItemView,
}

impl View for Item {
    type V = ItemView;

    open spec fn view(&self) -> ItemView {
        match self {
            Item::Text(text) => ItemView::Text(text@),
            Item::Element { tagname, attributes, names, targets } => ItemView::Element {
                tagname: tagname@,
                attributes: attributes@,
                names: strings(names@),
                targets: strings(targets@),
            },
        }
    }
}

impl View for Entry {
    type V = EntryView;

    open spec fn view(&self) -> EntryView {
        EntryView { parent: self.parent, item: self.item@ }
    }
}

/// The views of a sequence of entries.
pub open spec fn entry_views(entries: Seq<Entry>) -> Seq<EntryView> {
    Seq::new(entries.len(), |i: int| entries[i]@)
}

/// The element that a context and an attribute map describe.
pub open spec fn element_item(
    context: ContextView,
    attributes: Map<Seq<char>, Seq<Seq<char>>>,
) -> ItemView {
    ItemView::Element {
        tagname: tag_of(context),
        attributes,
        names: names_of(context),
        targets: targets_of(context),
    }
}

/// What an expression itself stands for, apart from its children.
pub open spec fn item_of(expr: ExprView) -> ItemView {
    match expr {
        ExprView::Text(text) => ItemView::Text(text_of(text)),
        ExprView::ElemFull(context, attrs, _) => element_item(context, fold_attrs(attrs)),
        ExprView::ElemEmpty(context, attrs) => element_item(context, fold_attrs(attrs)),
        ExprView::ElemSlim(context, _) => element_item(context, Map::empty()),
        ExprView::ElemSlimEmpty(context) => element_item(context, Map::empty()),
    }
}

/// The outline of one expression that stands at place `base`: its own entry,
/// then the outline of its children, whose parent it is.
pub open spec fn outline_of_expr(expr: ExprView, parent: Option<usize>, base: int) -> Seq<
    EntryView,
>
    decreases expr, 0nat,
{
    let own = seq![EntryView { parent, item: item_of(expr) }];
    match expr {
        ExprView::ElemFull(_, _, children) => own + outline_of_forest(
            children,
            Some(base as usize),
            base + 1,
            children.len(),
        ),
        ExprView::ElemSlim(_, children) => own + outline_of_forest(
            children,
            Some(base as usize),
            base + 1,
            children.len(),
        ),
        _ => own,
    }
}

/// The outline of the first `count` of the expressions of one body, the
/// first of which stands at place `base`.
pub open spec fn outline_of_forest(
    exprs: Seq<ExprView>,
    parent: Option<usize>,
    base: int,
    count: nat,
) -> Seq<EntryView>
    decreases exprs, count,
{
    if count == 0 || count > exprs.len() {
        Seq::empty()
    } else {
        let before = outline_of_forest(exprs, parent, base, (count - 1) as nat);
        before + outline_of_expr(exprs[count - 1], parent, base + before.len())
    }
}

/// The outline of a document: every expression in document order.
pub open spec fn outline_of(exprs: Seq<ExprView>) -> Seq<EntryView> {
    outline_of_forest(exprs, None, 0, exprs.len())
}

/// The entry of an element.
fn element_entry(parent: Option<usize>, context: &Context, attributes: AttrMap) -> (entry: Entry)
    ensures
        entry@ == (EntryView { parent, item: element_item(context@, attributes@) }),
{
    let placement = parse_context(context);
    Entry {
        parent,
        item: Item::Element {
            tagname: placement.tagname,
            attributes,
            names: placement.names,
            targets: placement.targets,
        },
    }
}

/// Adds the outline of the expressions of one body to `out`.
fn collect(exprs: &Vec<Expr>, parent: Option<usize>, out: &mut Vec<Entry>)
    ensures
        entry_views(final(out)@) == entry_views(old(out)@) + outline_of_forest(
            expr_views(exprs@),
            parent,
            old(out)@.len() as int,
            exprs.len() as nat,
        ),
    decreases exprs,
{
    let ghost start = entry_views(out@);
    let ghost forest = expr_views(exprs@);
    let mut i: usize = 0;
    while i < exprs.len()
        invariant
            i <= exprs.len(),
            forest == expr_views(exprs@),
            entry_views(out@) == start + outline_of_forest(
                forest,
                parent,
                start.len() as int,
                i as nat,
            ),
        decreases exprs.len() - i,
    {
        let ghost before = outline_of_forest(forest, parent, start.len() as int, i as nat);
        let ghost held = entry_views(out@);
        let index = out.len();
        assert(held.len() == index == start.len() + before.len());
        let expr = &exprs[i];
        proof {
            lemma_children_views(*expr);
        }
        match expr {
            Expr::Text(text) => {
                out.push(Entry { parent, item: Item::Text(to_text(text)) });
                assert(entry_views(out@) =~= held + outline_of_expr(expr@, parent, index as int));
            },
            Expr::ElemFull(context, attrs, children) => {
                out.push(element_entry(parent, context, parse_attrs(attrs)));
                assert(entry_views(out@) =~= held + seq![
                    EntryView { parent, item: item_of(expr@) },
                ]);
                collect(children, Some(index), out);
            },
            Expr::ElemEmpty(context, attrs) => {
                out.push(element_entry(parent, context, parse_attrs(attrs)));
                assert(entry_views(out@) =~= held + outline_of_expr(expr@, parent, index as int));
            },
            Expr::ElemSlim(context, children) => {
                out.push(element_entry(parent, context, AttrMap::new()));
                assert(entry_views(out@) =~= held + seq![
                    EntryView { parent, item: item_of(expr@) },
                ]);
                collect(children, Some(index), out);
            },
            Expr::ElemSlimEmpty(context) => {
                out.push(element_entry(parent, context, AttrMap::new()));
                assert(entry_views(out@) =~= held + outline_of_expr(expr@, parent, index as int));
            },
        }
        i += 1;
    }
}

/// Lists the expressions of a document in document order.
pub fn outline(ast: &Vec<Expr>) -> (entries: Vec<Entry>)
    ensures
        entry_views(entries@) == outline_of(expr_views(ast@)),
{
    let mut entries: Vec<Entry> = Vec::new();
    collect(ast, None, &mut entries);
    entries
}

/// Whether each entry of a part of an outline that starts at place `base`
/// hangs under `parent` or under an element of the part that stands before
/// it.
pub open spec fn hangs_inside(part: Seq<EntryView>, parent: Option<usize>, base: int) -> bool {
    forall|k: int|
        0 <= k < part.len() ==> (#[trigger] part[k]).parent == parent || exists|q: int|
            0 <= q < k && part[k].parent == Some((base + q) as usize) && (#[trigger] part[q]).item
                is Element
}

/// Whether the parent of each entry is an element that stands before it.
pub open spec fn parents_precede(entries: Seq<EntryView>) -> bool {
    forall|i: int|
        0 <= i < entries.len() ==> match (#[trigger] entries[i]).parent {
            Some(p) => p < i && entries[p as int].item is Element,
            None => true,
        }
}

/// The outline of an expression hangs under the expression's parent.
pub proof fn lemma_expr_hangs_inside(expr: ExprView, parent: Option<usize>, base: int)
    ensures
        outline_of_expr(expr, parent, base).len() > 0,
        hangs_inside(outline_of_expr(expr, parent, base), parent, base),
    decreases expr, 0nat,
{
    let part = outline_of_expr(expr, parent, base);
    let children = match expr {
        ExprView::ElemFull(_, _, children) => children,
        ExprView::ElemSlim(_, children) => children,
        _ => Seq::empty(),
    };
    if expr is ElemFull || expr is ElemSlim {
        let own = Some(base as usize);
        let inner = outline_of_forest(children, own, base + 1, children.len());
        lemma_forest_hangs_inside(children, own, base + 1, children.len());
        assert(part[0].item is Element);
        assert forall|k: int| 0 <= k < part.len() implies (#[trigger] part[k]).parent == parent
            || exists|q: int|
            0 <= q < k && part[k].parent == Some((base + q) as usize) && (#[trigger] part[q]).item
                is Element by {
            if k > 0 && inner[k - 1].parent != own {
                let q = choose|q: int|
                    0 <= q < k - 1 && inner[k - 1].parent == Some((base + 1 + q) as usize)
                        && (#[trigger] inner[q]).item is Element;
                assert(part[q + 1] == inner[q]);
            }
        }
    }
}

/// The outline of the expressions of a body hangs under the body's element.
pub proof fn lemma_forest_hangs_inside(
    exprs: Seq<ExprView>,
    parent: Option<usize>,
    base: int,
    count: nat,
)
    ensures
        hangs_inside(outline_of_forest(exprs, parent, base, count), parent, base),
    decreases exprs, count,
{
    if !(count == 0 || count > exprs.len()) {
        let before = outline_of_forest(exprs, parent, base, (count - 1) as nat);
        let last = outline_of_expr(exprs[count - 1], parent, base + before.len());
        let part = before + last;
        lemma_forest_hangs_inside(exprs, parent, base, (count - 1) as nat);
        lemma_expr_hangs_inside(exprs[count - 1], parent, base + before.len());
        assert forall|k: int| 0 <= k < part.len() implies (#[trigger] part[k]).parent == parent
            || exists|q: int|
            0 <= q < k && part[k].parent == Some((base + q) as usize) && (#[trigger] part[q]).item
                is Element by {
            if k < before.len() {
                if before[k].parent != parent {
                    let q = choose|q: int|
                        0 <= q < k && before[k].parent == Some((base + q) as usize)
                            && (#[trigger] before[q]).item is Element;
                    assert(part[q] == before[q]);
                }
            } else {
                let j = k - before.len();
                if last[j].parent != parent {
                    let q = choose|q: int|
                        0 <= q < j && last[j].parent == Some((base + before.len() + q) as usize)
                            && (#[trigger] last[q]).item is Element;
                    assert(part[before.len() + q] == last[q]);
                }
            }
        }
    }
}

/// In the outline of a document the parent of each entry is an element that
/// stands before it: an expression follows the element whose body holds it.
pub proof fn lemma_parents_precede(exprs: Seq<ExprView>)
    requires
        outline_of(exprs).len() <= usize::MAX,
    ensures
        parents_precede(outline_of(exprs)),
{
    let entries = outline_of(exprs);
    lemma_forest_hangs_inside(exprs, None, 0, exprs.len());
    assert forall|i: int| 0 <= i < entries.len() implies match (#[trigger] entries[i]).parent {
        Some(p) => p < i && entries[p as int].item is Element,
        None => true,
    } by {
        if entries[i].parent.is_some() {
            let q = choose|q: int|
                0 <= q < i && entries[i].parent == Some((0 + q) as usize)
                    && (#[trigger] entries[q]).item is Element;
            assert(entries[i].parent == Some(q as usize));
        }
    }
}

} // verus!
