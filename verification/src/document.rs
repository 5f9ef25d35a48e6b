//! The resolved document: a tree of elements and text that owns its strings.

use crate::attributes::AttrMap;
use vstd::prelude::*;

verus! {

/// A resolved element.
#[derive(Debug)]
pub struct HElement {
    pub tagname: String,
    pub attributes: AttrMap,
    pub content: Vec<HContent>,
}

/// One piece of content: text or an element.
#[derive(Debug)]
pub enum HContent {
    Text(String),
    Node(HElement),
}

/// The root of a resolved document: its top-level content.
#[derive(Debug)]
pub struct HDocument {
    pub content: Vec<HContent>,
}

pub struct HElementView {
    pub tagname: Seq<char>,
    pub attributes: Map<Seq<char>, Seq<Seq<char>>>,
    pub content: Seq<HContentView>,
}

pub enum HContentView {
    Text(Seq<char>),
    Node(HElementView),
}

impl HElement {
    pub open spec fn model(self) -> HElementView
        decreases self,
    {
        HElementView {
            tagname: self.tagname@,
            attributes: self.attributes@,
            content: Seq::new(
                self.content.len() as nat,
                |i: int|
                    if 0 <= i < self.content.len() {
                        self.content[i].model()
                    } else {
                        arbitrary()
                    },
            ),
        }
    }
}

impl HContent {
    pub open spec fn model(self) -> HContentView
        decreases self,
    {
        match self {
            HContent::Text(text) => HContentView::Text(text@),
            HContent::Node(element) => HContentView::Node(element.model()),
        }
    }
}

impl View for HElement {
    type V = HElementView;

    open spec fn view(&self) -> HElementView {
        self.model()
    }
}

impl View for HContent {
    type V = HContentView;

    open spec fn view(&self) -> HContentView {
        self.model()
    }
}

/// The views of a sequence of content.
pub open spec fn content_views(content: Seq<HContent>) -> Seq<HContentView> {
    Seq::new(content.len(), |i: int| content[i]@)
}

impl View for HDocument {
    type V = Seq<HContentView>;

    open spec fn view(&self) -> Seq<HContentView> {
        content_views(self.content@)
    }
}

/// The view of an element holds the views of its content.
pub proof fn lemma_element_view(element: HElement)
    ensures
        element@ == (HElementView {
            tagname: element.tagname@,
            attributes: element.attributes@,
            content: content_views(element.content@),
        }),
{
    assert(element@.content =~= content_views(element.content@));
}

} // verus!
