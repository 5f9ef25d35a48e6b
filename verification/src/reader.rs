//! From a byte buffer to a resolved document.

use crate::document::{HContentView, HDocument};
use crate::grammar::{parser, spec_document, SyntaxError};
use crate::resolver::{resolution, resolve, ResolveError, ResolveErrorView};
use vstd::prelude::*;

verus! {

/// Why a buffer gave no document.
#[derive(Debug, PartialEq, Eq)]
pub enum Error {
    /// The buffer is no document of the grammar.
    Syntax(SyntaxError),
    /// The document's names and references have no resolution.
    Resolve(ResolveError),
}

pub enum ErrorView {
    Syntax(SyntaxError),
    Resolve(ResolveErrorView),
}

impl View for Error {
    type V = ErrorView;

    open spec fn view(&self) -> ErrorView {
        match self {
            Error::Syntax(e) => ErrorView::Syntax(*e),
            Error::Resolve(e) => ErrorView::Resolve(e@),
        }
    }
}

/// What reading a buffer gives: the resolution of the document it holds.
pub open spec fn spec_read(s: Seq<u8>) -> Result<Seq<HContentView>, ErrorView> {
    match spec_document(s) {
        Err(e) => Err(ErrorView::Syntax(e)),
        Ok(ast) => match resolution(ast) {
            Err(e) => Err(ErrorView::Resolve(e)),
            Ok(content) => Ok(content),
        },
    }
}

/// Parses a buffer and resolves the document it holds.
pub fn read(input: &[u8]) -> (r: Result<HDocument, Error>)
    ensures
        match r {
            Ok(document) => spec_read(input@) == Ok::<Seq<HContentView>, ErrorView>(document@),
            Err(e) => spec_read(input@) == Err::<Seq<HContentView>, ErrorView>(e@),
        },
{
    match parser(input) {
        Err(e) => Err(Error::Syntax(e)),
        Ok(ast) => match resolve(&ast) {
            Err(e) => Err(Error::Resolve(e)),
            Ok(document) => Ok(document),
        },
    }
}

} // verus!
