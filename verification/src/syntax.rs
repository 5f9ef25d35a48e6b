//! The syntax tree that the grammar produces, and its mathematical view.
//!
//! The tree borrows its names, keys, values and text from the input buffer.
//! The view of each node holds the same bytes as sequences.

use vstd::prelude::*;

verus! {

/// The identity-and-placement part of an element.
#[derive(Debug, PartialEq, Eq)]
pub enum Context<'a> {
    /// `name = context`: binds `name` to the element.
    Assignment(&'a [u8], Box<Context<'a>>),
    /// `target -> context?`: places the element under the element bound to
    /// `target`; the context behind the arrow, if any, gives its identity.
    Reference(&'a [u8], Box<Option<Context<'a>>>),
    /// A plain tag name.
    Identifier(&'a [u8]),
}

/// One attribute of an options block.
#[derive(Debug, PartialEq, Eq)]
pub enum Attr<'a> {
    /// `key += value`
    KeyValueAdd(&'a [u8], &'a [u8]),
    /// `key = value`
    KeyValue(&'a [u8], &'a [u8]),
    /// `key`
    Key(&'a [u8]),
}

/// An options block: the positional subject, if any, and the attributes in
/// the order they were written.
#[derive(Debug, PartialEq, Eq)]
pub struct AttrList<'a> {
    pub s: Option<&'a [u8]>,
    pub attrs: Vec<Attr<'a>>,
}

/// One expression: literal text or an element in one of its four shapes.
#[derive(Debug, PartialEq, Eq)]
pub enum Expr<'a> {
    Text(&'a [u8]),
    ElemFull(Context<'a>, AttrList<'a>, Vec<Expr<'a>>),
    ElemEmpty(Context<'a>, AttrList<'a>),
    ElemSlim(Context<'a>, Vec<Expr<'a>>),
    ElemSlimEmpty(Context<'a>),
}

pub enum ContextView {
    Assignment(Seq<u8>, Box<ContextView>),
    Reference(Seq<u8>, Option<Box<ContextView>>),
    Identifier(Seq<u8>),
}

pub enum AttrView {
    KeyValueAdd(Seq<u8>, Seq<u8>),
    KeyValue(Seq<u8>, Seq<u8>),
    Key(Seq<u8>),
}

pub struct AttrListView {
    pub s: Option<Seq<u8>>,
    pub attrs: Seq<AttrView>,
}

pub enum ExprView {
    Text(Seq<u8>),
    ElemFull(ContextView, AttrListView, Seq<ExprView>),
    ElemEmpty(ContextView, AttrListView),
    ElemSlim(ContextView, Seq<ExprView>),
    ElemSlimEmpty(ContextView),
}

impl<'a> Context<'a> {
    pub open spec fn model(self) -> ContextView
        decreases self,
    {
        match self {
            Context::Assignment(name, inner) => ContextView::Assignment(
                name@,
                Box::new((*inner).model()),
            ),
            Context::Reference(name, inner) => ContextView::Reference(
                name@,
                match *inner {
                    Some(c) => Some(Box::new(c.model())),
                    None => None,
                },
            ),
            Context::Identifier(name) => ContextView::Identifier(name@),
        }
    }
}

impl<'a> View for Context<'a> {
    type V = ContextView;

    open spec fn view(&self) -> ContextView {
        self.model()
    }
}

impl<'a> View for Attr<'a> {
    type V = AttrView;

    open spec fn view(&self) -> AttrView {
        match self {
            Attr::KeyValueAdd(k, v) => AttrView::KeyValueAdd(k@, v@),
            Attr::KeyValue(k, v) => AttrView::KeyValue(k@, v@),
            Attr::Key(k) => AttrView::Key(k@),
        }
    }
}

impl AttrView {
    /// The key of the attribute.
    pub open spec fn key(self) -> Seq<u8> {
        match self {
            AttrView::KeyValueAdd(k, _) => k,
            AttrView::KeyValue(k, _) => k,
            AttrView::Key(k) => k,
        }
    }
}

/// The views of a sequence of attributes.
pub open spec fn attr_views(attrs: Seq<Attr>) -> Seq<AttrView> {
    Seq::new(attrs.len(), |i: int| attrs[i]@)
}

impl<'a> View for AttrList<'a> {
    type V = AttrListView;

    open spec fn view(&self) -> AttrListView {
        AttrListView {
            s: match self.s {
                Some(subject) => Some(subject@),
                None => None,
            },
            attrs: attr_views(self.attrs@),
        }
    }
}

impl<'a> Expr<'a> {
    pub open spec fn model(self) -> ExprView
        decreases self,
    {
        match self {
            Expr::Text(text) => ExprView::Text(text@),
            Expr::ElemFull(context, attrs, children) => ExprView::ElemFull(
                context@,
                attrs@,
                Seq::new(
                    children.len() as nat,
                    |i: int|
                        if 0 <= i < children.len() {
                            children[i].model()
                        } else {
                            arbitrary()
                        },
                ),
            ),
            Expr::ElemEmpty(context, attrs) => ExprView::ElemEmpty(context@, attrs@),
            Expr::ElemSlim(context, children) => ExprView::ElemSlim(
                context@,
                Seq::new(
                    children.len() as nat,
                    |i: int|
                        if 0 <= i < children.len() {
                            children[i].model()
                        } else {
                            arbitrary()
                        },
                ),
            ),
            Expr::ElemSlimEmpty(context) => ExprView::ElemSlimEmpty(context@),
        }
    }
}

impl<'a> View for Expr<'a> {
    type V = ExprView;

    open spec fn view(&self) -> ExprView {
        self.model()
    }
}

/// The views of a sequence of expressions.
pub open spec fn expr_views(exprs: Seq<Expr>) -> Seq<ExprView> {
    Seq::new(exprs.len(), |i: int| exprs[i]@)
}

/// The view of an element with children holds the views of its children.
pub proof fn lemma_children_views(e: Expr)
    ensures
        e matches Expr::ElemFull(context, attrs, children) ==> e@ == ExprView::ElemFull(
            context@,
            attrs@,
            expr_views(children@),
        ),
        e matches Expr::ElemSlim(context, children) ==> e@ == ExprView::ElemSlim(
            context@,
            expr_views(children@),
        ),
{
    match e {
        Expr::ElemFull(context, attrs, children) => {
            assert(e@->ElemFull_2 =~= expr_views(children@));
        },
        Expr::ElemSlim(context, children) => {
            assert(e@->ElemSlim_1 =~= expr_views(children@));
        },
        _ => {},
    }
}

} // verus!
