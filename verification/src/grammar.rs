//! The grammar: options, contexts, elements and documents, as functions from
//! a byte buffer and a position to a syntax tree and the position behind it.
//!
//! Each rule is stated as a spec function on byte sequences; the
//! executable function of the same name is proved to compute it.

use crate::lexer::{
    advances, byte, identifier, key, lemma_tokens_advance, lemma_word, pair, run_end,
    skip_spaces, spec_byte, spec_identifier, spec_key, spec_pair, spec_stringlit, spec_value,
    stringlit, value, ByteClass, CLOSE_BRACE, CLOSE_PAREN, EQUALS, GREATER, MINUS, OPEN_BRACE,
    OPEN_PAREN, PLUS, QUOTE,
};
use crate::syntax::{
    attr_views, expr_views, lemma_children_views, Attr, AttrList, AttrListView, AttrView, Context,
    ContextView, Expr, ExprView,
};
use vstd::prelude::*;

verus! {

/// The rule of the grammar that found no match.
#[derive(Clone, Copy, Debug, PartialEq, Eq)]
pub enum Rule {
    /// The document holds no expression.
    Document,
    /// A string literal is not closed.
    Literal,
    /// An options block is not closed, or a parenthesis stands alone.
    Options,
    /// A body is not closed, or a brace stands alone.
    Body,
    /// A binding is not followed by a context.
    Context,
    /// A byte that no identifier can hold stands where one is expected.
    Identifier,
}

/// A failed parse: where the input stopped being a document, and the rule
/// that found no match there.
#[derive(Clone, Copy, Debug, PartialEq, Eq)]
pub struct SyntaxError {
    pub offset: usize,
    pub rule: Rule,
}

/// Ordered choice: the first result if there is one, else the second.
pub open spec fn first_of<T>(first: Option<T>, second: Option<T>) -> Option<T> {
    if first.is_some() {
        first
    } else {
        second
    }
}

/// `key "=" value`
pub open spec fn spec_attr_set(s: Seq<u8>, pos: int) -> Option<(AttrView, int)> {
    match spec_key(s, pos) {
        Some((k, pos1)) => match spec_byte(s, pos1, EQUALS) {
            Some(pos2) => match spec_value(s, pos2) {
                Some((v, pos3)) => Some((AttrView::KeyValue(k, v), pos3)),
                None => None,
            },
            None => None,
        },
        None => None,
    }
}

/// `key "+=" value`
pub open spec fn spec_attr_add(s: Seq<u8>, pos: int) -> Option<(AttrView, int)> {
    match spec_key(s, pos) {
        Some((k, pos1)) => match spec_pair(s, pos1, PLUS, EQUALS) {
            Some(pos2) => match spec_value(s, pos2) {
                Some((v, pos3)) => Some((AttrView::KeyValueAdd(k, v), pos3)),
                None => None,
            },
            None => None,
        },
        None => None,
    }
}

/// `key`
pub open spec fn spec_attr_flag(s: Seq<u8>, pos: int) -> Option<(AttrView, int)> {
    match spec_key(s, pos) {
        Some((k, pos1)) => Some((AttrView::Key(k), pos1)),
        None => None,
    }
}

/// One attribute: `key "=" value`, else `key "+=" value`, else `key`.
pub open spec fn spec_attribute(s: Seq<u8>, pos: int) -> Option<(AttrView, int)> {
    first_of(spec_attr_set(s, pos), first_of(spec_attr_add(s, pos), spec_attr_flag(s, pos)))
}

/// An attribute is never empty.
pub proof fn lemma_attribute_advances(s: Seq<u8>, pos: int)
    ensures
        advances(spec_attribute(s, pos), pos, s.len()),
{
    lemma_tokens_advance(s, pos);
    if let Some((k, pos1)) = spec_key(s, pos) {
        lemma_tokens_advance(s, pos1);
        if let Some(pos2) = spec_byte(s, pos1, EQUALS) {
            lemma_tokens_advance(s, pos2);
        }
        if let Some(pos2) = spec_pair(s, pos1, PLUS, EQUALS) {
            lemma_tokens_advance(s, pos2);
        }
    }
}

/// Whether the bytes are a key: a nonempty run of ASCII letters and digits.
pub open spec fn is_key(key: Seq<u8>) -> bool {
    key.len() > 0 && forall|i: int|
        0 <= i < key.len() ==> ByteClass::Alphanumeric.admits(#[trigger] key[i])
}

/// The key of an attribute that the grammar reads is a key.
pub proof fn lemma_attribute_key(s: Seq<u8>, pos: int)
    ensures
        spec_attribute(s, pos) matches Some((attr, _)) ==> is_key(attr.key()),
{
    lemma_word(s, pos, ByteClass::Alphanumeric);
}

/// As many attributes as follow one another, and where they end.
pub open spec fn spec_attributes(s: Seq<u8>, pos: int) -> (Seq<AttrView>, int)
    decreases s.len() - pos,
{
    match spec_attribute(s, pos) {
        Some((attr, next)) => {
            proof {
                lemma_attribute_advances(s, pos);
            }
            let rest = spec_attributes(s, next);
            (seq![attr] + rest.0, rest.1)
        },
        None => (Seq::empty(), pos),
    }
}

/// Attributes end inside the input, at or behind the position they start at.
pub proof fn lemma_attributes_end(s: Seq<u8>, pos: int)
    requires
        0 <= pos <= s.len(),
    ensures
        pos <= spec_attributes(s, pos).1 <= s.len(),
    decreases s.len() - pos,
{
    lemma_attribute_advances(s, pos);
    if let Some((attr, next)) = spec_attribute(s, pos) {
        lemma_attributes_end(s, next);
    }
}

/// The keys of the attributes that the grammar reads are keys.
pub proof fn lemma_attributes_keys(s: Seq<u8>, pos: int)
    ensures
        forall|i: int|
            0 <= i < spec_attributes(s, pos).0.len() ==> is_key(
                (#[trigger] spec_attributes(s, pos).0[i]).key(),
            ),
    decreases s.len() - pos,
{
    lemma_attribute_advances(s, pos);
    lemma_attribute_key(s, pos);
    if let Some((attr, next)) = spec_attribute(s, pos) {
        lemma_attributes_keys(s, next);
        let rest = spec_attributes(s, next).0;
        let all = spec_attributes(s, pos).0;
        assert forall|i: int| 0 <= i < all.len() implies is_key((#[trigger] all[i]).key()) by {
            if i > 0 {
                assert(all[i] == rest[i - 1]);
            }
        }
    }
}

/// An options block: `"(" subject? attribute* ")"`, where the subject is a
/// string literal.
pub open spec fn spec_options(s: Seq<u8>, pos: int) -> Option<(AttrListView, int)> {
    match spec_byte(s, pos, OPEN_PAREN) {
        Some(pos1) => {
            let subject = spec_stringlit(s, pos1);
            let pos2 = match subject {
                Some((_, end)) => end,
                None => pos1,
            };
            let attrs = spec_attributes(s, pos2);
            match spec_byte(s, attrs.1, CLOSE_PAREN) {
                Some(pos3) => Some(
                    (
                        AttrListView {
                            s: match subject {
                                Some((text, _)) => Some(text),
                                None => None,
                            },
                            attrs: attrs.0,
                        },
                        pos3,
                    ),
                ),
                None => None,
            }
        },
        None => None,
    }
}

/// An options block is never empty.
pub proof fn lemma_options_advance(s: Seq<u8>, pos: int)
    ensures
        advances(spec_options(s, pos), pos, s.len()),
{
    lemma_tokens_advance(s, pos);
    if let Some(pos1) = spec_byte(s, pos, OPEN_PAREN) {
        lemma_tokens_advance(s, pos1);
        let pos2 = match spec_stringlit(s, pos1) {
            Some((_, end)) => end,
            None => pos1,
        };
        lemma_attributes_end(s, pos2);
        lemma_tokens_advance(s, spec_attributes(s, pos2).1);
    }
}

/// A context. After its identifier, `=` commits to a binding, which needs a
/// context behind it; else `->` makes a reference, whose context may be
/// missing; else the identifier stands alone.
pub open spec fn spec_context(s: Seq<u8>, pos: int) -> Option<(ContextView, int)>
    decreases s.len() - pos,
{
    match spec_identifier(s, pos) {
        Some((name, pos1)) => {
            proof {
                lemma_tokens_advance(s, pos);
                lemma_tokens_advance(s, pos1);
            }
            match spec_byte(s, pos1, EQUALS) {
                Some(pos2) => match spec_context(s, pos2) {
                    Some((inner, pos3)) => Some(
                        (ContextView::Assignment(name, Box::new(inner)), pos3),
                    ),
                    None => None,
                },
                None => match spec_pair(s, pos1, MINUS, GREATER) {
                    Some(pos2) => match spec_context(s, pos2) {
                        Some((inner, pos3)) => Some(
                            (ContextView::Reference(name, Some(Box::new(inner))), pos3),
                        ),
                        None => Some((ContextView::Reference(name, None), pos2)),
                    },
                    None => Some((ContextView::Identifier(name), pos1)),
                },
            }
        },
        None => None,
    }
}

/// A context is never empty.
pub proof fn lemma_context_advances(s: Seq<u8>, pos: int)
    ensures
        advances(spec_context(s, pos), pos, s.len()),
    decreases s.len() - pos,
{
    lemma_tokens_advance(s, pos);
    if let Some((name, pos1)) = spec_identifier(s, pos) {
        lemma_tokens_advance(s, pos1);
        if let Some(pos2) = spec_byte(s, pos1, EQUALS) {
            lemma_context_advances(s, pos2);
        } else if let Some(pos2) = spec_pair(s, pos1, MINUS, GREATER) {
            lemma_context_advances(s, pos2);
        }
    }
}

/// A body: `"{" expression* "}"`.
pub open spec fn spec_body(s: Seq<u8>, pos: int) -> Option<(Seq<ExprView>, int)>
    decreases s.len() - pos, 0int,
{
    match spec_byte(s, pos, OPEN_BRACE) {
        Some(pos1) => {
            proof {
                lemma_tokens_advance(s, pos);
            }
            let children = spec_expressions(s, pos1);
            match spec_byte(s, children.1, CLOSE_BRACE) {
                Some(pos2) => Some((children.0, pos2)),
                None => None,
            }
        },
        None => None,
    }
}

/// `context options body`
pub open spec fn spec_element_full(s: Seq<u8>, pos: int) -> Option<(ExprView, int)>
    decreases s.len() - pos, 1int,
{
    match spec_context(s, pos) {
        Some((context, pos1)) => match spec_options(s, pos1) {
            Some((attrs, pos2)) => {
                proof {
                    lemma_context_advances(s, pos);
                    lemma_options_advance(s, pos1);
                }
                match spec_body(s, pos2) {
                    Some((children, pos3)) => Some(
                        (ExprView::ElemFull(context, attrs, children), pos3),
                    ),
                    None => None,
                }
            },
            None => None,
        },
        None => None,
    }
}

/// `context options`
pub open spec fn spec_element_empty(s: Seq<u8>, pos: int) -> Option<(ExprView, int)> {
    match spec_context(s, pos) {
        Some((context, pos1)) => match spec_options(s, pos1) {
            Some((attrs, pos2)) => Some((ExprView::ElemEmpty(context, attrs), pos2)),
            None => None,
        },
        None => None,
    }
}

/// `context body`
pub open spec fn spec_element_slim(s: Seq<u8>, pos: int) -> Option<(ExprView, int)>
    decreases s.len() - pos, 1int,
{
    match spec_context(s, pos) {
        Some((context, pos1)) => {
            proof {
                lemma_context_advances(s, pos);
            }
            match spec_body(s, pos1) {
                Some((children, pos2)) => Some((ExprView::ElemSlim(context, children), pos2)),
                None => None,
            }
        },
        None => None,
    }
}

/// `context`
pub open spec fn spec_element_slim_empty(s: Seq<u8>, pos: int) -> Option<(ExprView, int)> {
    match spec_context(s, pos) {
        Some((context, pos1)) => Some((ExprView::ElemSlimEmpty(context), pos1)),
        None => None,
    }
}

/// An element: the first of its four shapes that matches, the fullest first.
pub open spec fn spec_element(s: Seq<u8>, pos: int) -> Option<(ExprView, int)>
    decreases s.len() - pos, 2int,
{
    first_of(
        spec_element_full(s, pos),
        first_of(
            spec_element_empty(s, pos),
            first_of(spec_element_slim(s, pos), spec_element_slim_empty(s, pos)),
        ),
    )
}

/// A string literal as an expression.
pub open spec fn spec_string(s: Seq<u8>, pos: int) -> Option<(ExprView, int)> {
    match spec_stringlit(s, pos) {
        Some((text, end)) => Some((ExprView::Text(text), end)),
        None => None,
    }
}

/// An expression: an element, else a string literal.
pub open spec fn spec_expression(s: Seq<u8>, pos: int) -> Option<(ExprView, int)>
    decreases s.len() - pos, 3int,
{
    first_of(spec_element(s, pos), spec_string(s, pos))
}

/// As many expressions as follow one another, and where they end. An
/// expression is never empty, so the test on `next` never fails
/// (`lemma_expressions_follow`); it is what shows that the definition
/// terminates.
pub open spec fn spec_expressions(s: Seq<u8>, pos: int) -> (Seq<ExprView>, int)
    decreases s.len() - pos, 4int,
{
    match spec_expression(s, pos) {
        Some((expr, next)) => if pos < next <= s.len() {
            let rest = spec_expressions(s, next);
            (seq![expr] + rest.0, rest.1)
        } else {
            (Seq::empty(), pos)
        },
        None => (Seq::empty(), pos),
    }
}

/// An expression is never empty.
pub proof fn lemma_expression_advances(s: Seq<u8>, pos: int)
    ensures
        advances(spec_expression(s, pos), pos, s.len()),
        advances(spec_element(s, pos), pos, s.len()),
        advances(spec_body(s, pos), pos, s.len()),
        0 <= pos <= s.len() ==> pos <= spec_expressions(s, pos).1 <= s.len(),
    decreases s.len() - pos, 5int,
{
    lemma_tokens_advance(s, pos);
    lemma_context_advances(s, pos);
    if let Some((context, pos1)) = spec_context(s, pos) {
        lemma_options_advance(s, pos1);
        lemma_body_advances(s, pos1);
        if let Some((attrs, pos2)) = spec_options(s, pos1) {
            lemma_body_advances(s, pos2);
        }
    }
    lemma_body_advances(s, pos);
    if 0 <= pos <= s.len() {
        if let Some((expr, next)) = spec_expression(s, pos) {
            lemma_expression_advances(s, next);
        }
    }
}

/// Expressions are read one after another until none follows: the test on
/// `next` in `spec_expressions` never fails.
pub proof fn lemma_expressions_follow(s: Seq<u8>, pos: int)
    ensures
        spec_expressions(s, pos) == match spec_expression(s, pos) {
            Some((expr, next)) => (
                seq![expr] + spec_expressions(s, next).0,
                spec_expressions(s, next).1,
            ),
            None => (Seq::empty(), pos),
        },
{
    lemma_expression_advances(s, pos);
}

/// A body is never empty.
pub proof fn lemma_body_advances(s: Seq<u8>, pos: int)
    ensures
        advances(spec_body(s, pos), pos, s.len()),
    decreases s.len() - pos, 0int,
{
    lemma_tokens_advance(s, pos);
    if let Some(pos1) = spec_byte(s, pos, OPEN_BRACE) {
        lemma_expression_advances(s, pos1);
        lemma_tokens_advance(s, spec_expressions(s, pos1).1);
    }
}

/// The rule that finds no match at `stop`, a position behind whitespace at
/// which no expression starts.
pub open spec fn spec_failed_rule(s: Seq<u8>, stop: int) -> Rule {
    if !(0 <= stop < s.len()) {
        Rule::Document
    } else if s[stop] == QUOTE {
        Rule::Literal
    } else if s[stop] == OPEN_PAREN || s[stop] == CLOSE_PAREN {
        Rule::Options
    } else if s[stop] == OPEN_BRACE || s[stop] == CLOSE_BRACE {
        Rule::Body
    } else if ByteClass::Identifier.admits(s[stop]) {
        Rule::Context
    } else {
        Rule::Identifier
    }
}

/// A document: one or more expressions that use up the input, but for
/// whitespace at its end. Otherwise the error gives the first byte that
/// belongs to no expression, and the rule that found no match there.
pub open spec fn spec_document(s: Seq<u8>) -> Result<Seq<ExprView>, SyntaxError> {
    let exprs = spec_expressions(s, 0);
    let stop = run_end(s, exprs.1, ByteClass::Space);
    if exprs.0.len() > 0 && stop == s.len() {
        Ok(exprs.0)
    } else {
        Err(SyntaxError { offset: stop as usize, rule: spec_failed_rule(s, stop) })
    }
}

/// Reads one attribute.
pub fn attribute<'a>(input: &'a [u8], pos: usize) -> (r: Option<(Attr<'a>, usize)>)
    ensures
        match r {
            Some((attr, end)) => spec_attribute(input@, pos as int) == Some((attr@, end as int)),
            None => spec_attribute(input@, pos as int).is_none(),
        },
{
    match key(input, pos) {
        Some((k, pos1)) => {
            if let Some(pos2) = byte(input, pos1, EQUALS) {
                if let Some((v, pos3)) = value(input, pos2) {
                    return Some((Attr::KeyValue(k, v), pos3));
                }
            }
            if let Some(pos2) = pair(input, pos1, PLUS, EQUALS) {
                if let Some((v, pos3)) = value(input, pos2) {
                    return Some((Attr::KeyValueAdd(k, v), pos3));
                }
            }
            Some((Attr::Key(k), pos1))
        },
        None => None,
    }
}

/// Reads attributes until none follows.
pub fn attributes<'a>(input: &'a [u8], pos: usize) -> (r: (Vec<Attr<'a>>, usize))
    ensures
        attr_views(r.0@) == spec_attributes(input@, pos as int).0,
        r.1 == spec_attributes(input@, pos as int).1,
{
    let mut attrs: Vec<Attr<'a>> = Vec::new();
    let mut p: usize = pos;
    loop
        invariant
            attr_views(attrs@) + spec_attributes(input@, p as int).0 == spec_attributes(
                input@,
                pos as int,
            ).0,
            spec_attributes(input@, p as int).1 == spec_attributes(input@, pos as int).1,
        ensures
            attr_views(attrs@) == spec_attributes(input@, pos as int).0,
            p == spec_attributes(input@, pos as int).1,
        decreases input@.len() - p,
    {
        match attribute(input, p) {
            Some((attr, next)) => {
                proof {
                    lemma_attribute_advances(input@, p as int);
                }
                attrs.push(attr);
                p = next;
            },
            None => {
                break;
            },
        }
    }
    (attrs, p)
}

/// Reads an options block.
pub fn options<'a>(input: &'a [u8], pos: usize) -> (r: Option<(AttrList<'a>, usize)>)
    ensures
        match r {
            Some((list, end)) => spec_options(input@, pos as int) == Some((list@, end as int)),
            None => spec_options(input@, pos as int).is_none(),
        },
{
    match byte(input, pos, OPEN_PAREN) {
        Some(pos1) => {
            let (subject, pos2) = match stringlit(input, pos1) {
                Some((text, end)) => (Some(text), end),
                None => (None, pos1),
            };
            let (attrs, pos3) = attributes(input, pos2);
            match byte(input, pos3, CLOSE_PAREN) {
                Some(pos4) => Some((AttrList { s: subject, attrs }, pos4)),
                None => None,
            }
        },
        None => None,
    }
}

/// Reads a context.
pub fn context<'a>(input: &'a [u8], pos: usize) -> (r: Option<(Context<'a>, usize)>)
    ensures
        match r {
            Some((c, end)) => spec_context(input@, pos as int) == Some((c@, end as int)),
            None => spec_context(input@, pos as int).is_none(),
        },
    decreases input@.len() - pos,
{
    match identifier(input, pos) {
        Some((name, pos1)) => {
            proof {
                lemma_tokens_advance(input@, pos as int);
                lemma_tokens_advance(input@, pos1 as int);
            }
            match byte(input, pos1, EQUALS) {
                Some(pos2) => match context(input, pos2) {
                    Some((inner, pos3)) => Some((Context::Assignment(name, Box::new(inner)), pos3)),
                    None => None,
                },
                None => match pair(input, pos1, MINUS, GREATER) {
                    Some(pos2) => match context(input, pos2) {
                        Some((inner, pos3)) => Some(
                            (Context::Reference(name, Box::new(Some(inner))), pos3),
                        ),
                        None => Some((Context::Reference(name, Box::new(None)), pos2)),
                    },
                    None => Some((Context::Identifier(name), pos1)),
                },
            }
        },
        None => None,
    }
}

/// Reads a body and returns its expressions.
pub fn body<'a>(input: &'a [u8], pos: usize) -> (r: Option<(Vec<Expr<'a>>, usize)>)
    ensures
        match r {
            Some((children, end)) => spec_body(input@, pos as int) == Some(
                (expr_views(children@), end as int),
            ),
            None => spec_body(input@, pos as int).is_none(),
        },
    decreases input@.len() - pos, 0int,
{
    match byte(input, pos, OPEN_BRACE) {
        Some(pos1) => {
            proof {
                lemma_tokens_advance(input@, pos as int);
            }
            let (children, pos2) = expressions(input, pos1);
            match byte(input, pos2, CLOSE_BRACE) {
                Some(pos3) => Some((children, pos3)),
                None => None,
            }
        },
        None => None,
    }
}

/// Reads an element in the fullest of its four shapes that matches.
pub fn element<'a>(input: &'a [u8], pos: usize) -> (r: Option<(Expr<'a>, usize)>)
    ensures
        match r {
            Some((expr, end)) => spec_element(input@, pos as int) == Some((expr@, end as int)),
            None => spec_element(input@, pos as int).is_none(),
        },
    decreases input@.len() - pos, 2int,
{
    match context(input, pos) {
        Some((c, pos1)) => {
            proof {
                lemma_context_advances(input@, pos as int);
                lemma_options_advance(input@, pos1 as int);
            }
            match options(input, pos1) {
                Some((attrs, pos2)) => match body(input, pos2) {
                    Some((children, pos3)) => {
                        let expr = Expr::ElemFull(c, attrs, children);
                        proof {
                            lemma_children_views(expr);
                        }
                        Some((expr, pos3))
                    },
                    None => Some((Expr::ElemEmpty(c, attrs), pos2)),
                },
                None => match body(input, pos1) {
                    Some((children, pos3)) => {
                        let expr = Expr::ElemSlim(c, children);
                        proof {
                            lemma_children_views(expr);
                        }
                        Some((expr, pos3))
                    },
                    None => Some((Expr::ElemSlimEmpty(c), pos1)),
                },
            }
        },
        None => None,
    }
}

/// Reads a string literal as an expression.
pub fn string<'a>(input: &'a [u8], pos: usize) -> (r: Option<(Expr<'a>, usize)>)
    ensures
        match r {
            Some((expr, end)) => spec_string(input@, pos as int) == Some((expr@, end as int)),
            None => spec_string(input@, pos as int).is_none(),
        },
{
    match stringlit(input, pos) {
        Some((text, end)) => Some((Expr::Text(text), end)),
        None => None,
    }
}

/// Reads an expression: an element, else a string literal.
pub fn expression<'a>(input: &'a [u8], pos: usize) -> (r: Option<(Expr<'a>, usize)>)
    ensures
        match r {
            Some((expr, end)) => spec_expression(input@, pos as int) == Some((expr@, end as int)),
            None => spec_expression(input@, pos as int).is_none(),
        },
    decreases input@.len() - pos, 3int,
{
    match element(input, pos) {
        Some(found) => Some(found),
        None => string(input, pos),
    }
}

/// Reads expressions until none follows.
pub fn expressions<'a>(input: &'a [u8], pos: usize) -> (r: (Vec<Expr<'a>>, usize))
    ensures
        expr_views(r.0@) == spec_expressions(input@, pos as int).0,
        r.1 == spec_expressions(input@, pos as int).1,
    decreases input@.len() - pos, 4int,
{
    let mut exprs: Vec<Expr<'a>> = Vec::new();
    let mut p: usize = pos;
    if pos > input.len() {
        proof {
            lemma_expression_advances(input@, pos as int);
        }
        return (exprs, p);
    }
    loop
        invariant
            pos <= p <= input@.len(),
            expr_views(exprs@) + spec_expressions(input@, p as int).0 == spec_expressions(
                input@,
                pos as int,
            ).0,
            spec_expressions(input@, p as int).1 == spec_expressions(input@, pos as int).1,
        ensures
            expr_views(exprs@) == spec_expressions(input@, pos as int).0,
            p == spec_expressions(input@, pos as int).1,
        decreases input@.len() - p,
    {
        match expression(input, p) {
            Some((expr, next)) => {
                proof {
                    lemma_expression_advances(input@, p as int);
                }
                exprs.push(expr);
                p = next;
            },
            None => {
                break;
            },
        }
    }
    (exprs, p)
}

/// Names the rule that finds no match at `stop`.
pub fn failed_rule(input: &[u8], stop: usize) -> (rule: Rule)
    ensures
        rule == spec_failed_rule(input@, stop as int),
{
    if stop >= input.len() {
        Rule::Document
    } else {
        let b = input[stop];
        if b == QUOTE {
            Rule::Literal
        } else if b == OPEN_PAREN || b == CLOSE_PAREN {
            Rule::Options
        } else if b == OPEN_BRACE || b == CLOSE_BRACE {
            Rule::Body
        } else if ByteClass::Identifier.contains(b) {
            Rule::Context
        } else {
            Rule::Identifier
        }
    }
}

/// Parses a whole document: one or more expressions, and nothing behind them
/// but whitespace.
pub fn parser<'a>(input: &'a [u8]) -> (r: Result<Vec<Expr<'a>>, SyntaxError>)
    ensures
        match r {
            Ok(exprs) => spec_document(input@) == Ok::<Seq<ExprView>, SyntaxError>(
                expr_views(exprs@),
            ),
            Err(e) => spec_document(input@) == Err::<Seq<ExprView>, SyntaxError>(e),
        },
{
    let (exprs, end) = expressions(input, 0);
    let stop = skip_spaces(input, end);
    if exprs.len() > 0 && stop == input.len() {
        Ok(exprs)
    } else {
        Err(SyntaxError { offset: stop, rule: failed_rule(input, stop) })
    }
}

} // verus!
