use htgs::grammar::{
    attribute, attributes, body, context, element, expression, expressions, failed_rule, options,
    parser, string, Rule, SyntaxError,
};
use htgs::lexer::{
    byte, identifier, key, pair, scan, skip_spaces, stringlit, value, word, ByteClass,
};
use htgs::syntax::{Attr, AttrList, Context, Expr};

fn id(name: &str) -> Context<'_> {
    Context::Identifier(name.as_bytes())
}

fn leaf(name: &str) -> Expr<'_> {
    Expr::ElemSlimEmpty(id(name))
}

fn token(text: &str, end: usize) -> Option<(&[u8], usize)> {
    Some((text.as_bytes(), end))
}

#[test]
fn round_trip_shape() {
    let ast = parser(b"a { b c }").unwrap();
    assert_eq!(ast, vec![Expr::ElemSlim(id("a"), vec![leaf("b"), leaf("c")])]);
}

#[test]
fn whitespace_is_skipped() {
    assert_eq!(skip_spaces(b" \t\r\n x", 0), 5);
    assert_eq!(skip_spaces(b"x  ", 0), 0);
    assert_eq!(skip_spaces(b"x  ", 1), 3);
    assert_eq!(skip_spaces(b"x", 9), 9);
}

#[test]
fn scan_stops_at_the_first_byte_outside_the_class() {
    assert_eq!(scan(b"abc def", 0, ByteClass::Identifier), 3);
    assert_eq!(scan(b"abc-def", 0, ByteClass::Identifier), 3);
    assert_eq!(scan(b"abc-def", 0, ByteClass::Value), 7);
    assert_eq!(scan(b"ab1_c", 0, ByteClass::Alphanumeric), 3);
    assert_eq!(scan(b"ab\"c", 0, ByteClass::Quoted), 2);
    assert_eq!(scan(b"abc", 3, ByteClass::Identifier), 3);
}

#[test]
fn byte_classes() {
    for b in [b' ', b'\t', b'\n', b'\r'] {
        assert!(ByteClass::Space.contains(b));
        assert!(!ByteClass::Identifier.contains(b));
        assert!(!ByteClass::Value.contains(b));
    }
    for b in [b'(', b')', b'{', b'}', b'"'] {
        assert!(!ByteClass::Identifier.contains(b));
        assert!(!ByteClass::Value.contains(b));
    }
    for b in [b'-', b'>', b'<'] {
        assert!(!ByteClass::Identifier.contains(b));
        assert!(ByteClass::Value.contains(b));
    }
    assert!(ByteClass::Identifier.contains(b'='));
    assert!(ByteClass::Identifier.contains(b'+'));
    assert!(ByteClass::Quoted.contains(b' '));
    assert!(!ByteClass::Quoted.contains(b'"'));
    assert!(ByteClass::Alphanumeric.contains(b'a'));
    assert!(ByteClass::Alphanumeric.contains(b'Z'));
    assert!(ByteClass::Alphanumeric.contains(b'0'));
    assert!(!ByteClass::Alphanumeric.contains(b'_'));
    assert!(!ByteClass::Alphanumeric.contains(b'@'));
    assert!(!ByteClass::Alphanumeric.contains(b'['));
    assert!(!ByteClass::Alphanumeric.contains(b'`'));
    assert!(!ByteClass::Alphanumeric.contains(b'{'));
    assert!(!ByteClass::Alphanumeric.contains(b'/'));
    assert!(!ByteClass::Alphanumeric.contains(b':'));
}

#[test]
fn identifier_is_a_maximal_run() {
    assert_eq!(identifier(b"  abc-def", 0), token("abc", 5));
    assert_eq!(identifier(b"abc", 0), token("abc", 3));
    assert_eq!(identifier(b"a=b c", 0), token("a=b", 3));
    assert_eq!(identifier(b"ab cd", 2), token("cd", 5));
}

#[test]
fn identifier_fails_on_an_empty_run() {
    assert_eq!(identifier(b"", 0), None);
    assert_eq!(identifier(b"   ", 0), None);
    assert_eq!(identifier(b"(x", 0), None);
    assert_eq!(identifier(b"->x", 0), None);
    assert_eq!(identifier(b"<x", 0), None);
    assert_eq!(identifier(b"\"x\"", 0), None);
    assert_eq!(identifier(b"ab", 2), None);
    assert_eq!(identifier(b"ab", 5), None);
}

#[test]
fn word_reads_a_run_of_its_class() {
    assert_eq!(word(b" a-b c", 0, ByteClass::Value), token("a-b", 4));
    assert_eq!(word(b" a-b c", 0, ByteClass::Identifier), token("a", 2));
    assert_eq!(word(b" )", 0, ByteClass::Value), None);
}

#[test]
fn string_literal_is_what_stands_between_the_quotes() {
    assert_eq!(stringlit(b"\"hi there\" x", 0), token("hi there", 10));
    assert_eq!(stringlit(b"  \"a\"", 0), token("a", 5));
    assert_eq!(stringlit(b"\"\"", 0), token("", 2));
    assert_eq!(stringlit(b"\"a(b){c}\"", 0), token("a(b){c}", 9));
}

#[test]
fn string_literal_needs_its_closing_quote() {
    assert_eq!(stringlit(b"\"abc", 0), None);
    assert_eq!(stringlit(b"\"", 0), None);
    assert_eq!(stringlit(b"abc\"", 0), None);
    assert_eq!(stringlit(b"", 0), None);
    assert_eq!(stringlit(b"\"a\"", 3), None);
}

#[test]
fn key_is_a_run_of_letters_and_digits() {
    assert_eq!(key(b"abc=1", 0), token("abc", 3));
    assert_eq!(key(b" k3+=x", 0), token("k3", 3));
    assert_eq!(key(b"abc", 0), token("abc", 3));
    assert_eq!(key(b"aZ09_x", 0), token("aZ09", 4));
    assert_eq!(key(b"ab cd", 2), token("cd", 5));
}

#[test]
fn key_fails_on_an_empty_run() {
    assert_eq!(key(b"-a", 0), None);
    assert_eq!(key(b"=a", 0), None);
    assert_eq!(key(b"", 0), None);
    assert_eq!(key(b"  ", 0), None);
    assert_eq!(key(b"ab", 2), None);
    assert_eq!(key(b"ab", 7), None);
}

#[test]
fn value_is_quoted_or_bare() {
    assert_eq!(value(b"v2 k3", 0), token("v2", 2));
    assert_eq!(value(b"\"a b\")", 0), token("a b", 5));
    assert_eq!(value(b"a->b<c=d)", 0), token("a->b<c=d", 8));
    assert_eq!(value(b"  x", 0), token("x", 3));
    assert_eq!(value(b")", 0), None);
    assert_eq!(value(b"\"open", 0), None);
    assert_eq!(value(b"", 0), None);
}

#[test]
fn structural_tokens() {
    assert_eq!(byte(b"  (", 0, b'('), Some(3));
    assert_eq!(byte(b"  (", 0, b')'), None);
    assert_eq!(byte(b"", 0, b'('), None);
    assert_eq!(byte(b"(", 4, b'('), None);
    assert_eq!(pair(b" ->", 0, b'-', b'>'), Some(3));
    assert_eq!(pair(b" +=", 0, b'+', b'='), Some(3));
    assert_eq!(pair(b" -", 0, b'-', b'>'), None);
    assert_eq!(pair(b"- >", 0, b'-', b'>'), None);
    assert_eq!(pair(b"", 0, b'-', b'>'), None);
}

#[test]
fn attribute_has_three_forms() {
    assert_eq!(attribute(b"k=v", 0), Some((Attr::KeyValue(b"k", b"v"), 3)));
    assert_eq!(attribute(b"k = v", 0), Some((Attr::KeyValue(b"k", b"v"), 5)));
    assert_eq!(attribute(b"k += v", 0), Some((Attr::KeyValueAdd(b"k", b"v"), 6)));
    assert_eq!(attribute(b"k+=\"a b\"", 0), Some((Attr::KeyValueAdd(b"k", b"a b"), 8)));
    assert_eq!(attribute(b"k )", 0), Some((Attr::Key(b"k"), 1)));
    assert_eq!(attribute(b"k", 0), Some((Attr::Key(b"k"), 1)));
}

#[test]
fn attribute_without_a_value_is_a_key() {
    assert_eq!(attribute(b"k=)", 0), Some((Attr::Key(b"k"), 1)));
    assert_eq!(attribute(b"k+=", 0), Some((Attr::Key(b"k"), 1)));
    assert_eq!(attribute(b"k=\"open", 0), Some((Attr::Key(b"k"), 1)));
}

#[test]
fn attribute_needs_a_key() {
    assert_eq!(attribute(b"=v", 0), None);
    assert_eq!(attribute(b")", 0), None);
    assert_eq!(attribute(b"", 0), None);
    assert_eq!(attribute(b"\"s\"", 0), None);
}

#[test]
fn attributes_are_read_until_none_follows() {
    let (attrs, end) = attributes(b" a b=1 c+=2 )", 0);
    assert_eq!(
        attrs,
        vec![Attr::Key(b"a"), Attr::KeyValue(b"b", b"1"), Attr::KeyValueAdd(b"c", b"2")]
    );
    assert_eq!(end, 11);
    let (none, at) = attributes(b")", 0);
    assert_eq!(none, vec![]);
    assert_eq!(at, 0);
}

#[test]
fn options_block() {
    let input = b"(\"subj\" k1 k2=v2 k3+=x k3+=y)";
    let expected = AttrList {
        s: Some(b"subj"),
        attrs: vec![
            Attr::Key(b"k1"),
            Attr::KeyValue(b"k2", b"v2"),
            Attr::KeyValueAdd(b"k3", b"x"),
            Attr::KeyValueAdd(b"k3", b"y"),
        ],
    };
    assert_eq!(options(input, 0), Some((expected, input.len())));
}

#[test]
fn options_block_may_be_empty() {
    assert_eq!(options(b"()", 0), Some((AttrList { s: None, attrs: vec![] }, 2)));
    assert_eq!(options(b" ( ) ", 0), Some((AttrList { s: None, attrs: vec![] }, 4)));
    assert_eq!(options(b"( \"s\" )", 0), Some((AttrList { s: Some(b"s"), attrs: vec![] }, 7)));
}

#[test]
fn options_block_needs_its_closing_parenthesis() {
    assert_eq!(options(b"(k", 0), None);
    assert_eq!(options(b"(k=v {", 0), None);
    assert_eq!(options(b"(", 0), None);
    assert_eq!(options(b"k)", 0), None);
    assert_eq!(options(b"(k=)", 0), None);
}

#[test]
fn subject_comes_before_the_attributes() {
    assert_eq!(options(b"(k \"s\")", 0), None);
    assert_eq!(options(b"(\"s\" \"t\")", 0), None);
}

#[test]
fn context_has_three_forms() {
    assert_eq!(context(b"a", 0), Some((id("a"), 1)));
    assert_eq!(context(b"a = b", 0), Some((Context::Assignment(b"a", Box::new(id("b"))), 5)));
    assert_eq!(
        context(b"x -> a {", 0),
        Some((Context::Reference(b"x", Box::new(Some(id("a")))), 6))
    );
}

#[test]
fn reference_may_lack_a_context() {
    assert_eq!(context(b"x -> {", 0), Some((Context::Reference(b"x", Box::new(None)), 4)));
    assert_eq!(context(b"x ->", 0), Some((Context::Reference(b"x", Box::new(None)), 4)));
    assert_eq!(context(b"x->(k)", 0), Some((Context::Reference(b"x", Box::new(None)), 3)));
}

#[test]
fn contexts_nest_to_the_right() {
    assert_eq!(
        context(b"a = b -> c", 0),
        Some((
            Context::Assignment(
                b"a",
                Box::new(Context::Reference(b"b", Box::new(Some(id("c")))))
            ),
            10
        ))
    );
    assert_eq!(
        context(b"a -> b = c = d", 0),
        Some((
            Context::Reference(
                b"a",
                Box::new(Some(Context::Assignment(
                    b"b",
                    Box::new(Context::Assignment(b"c", Box::new(id("d"))))
                )))
            ),
            14
        ))
    );
}

#[test]
fn binding_needs_a_context() {
    assert_eq!(context(b"a = (", 0), None);
    assert_eq!(context(b"a =", 0), None);
    assert_eq!(context(b"a = b = {", 0), None);
    assert_eq!(context(b"(", 0), None);
    assert_eq!(context(b"", 0), None);
}

#[test]
fn element_has_four_shapes() {
    let list = AttrList { s: None, attrs: vec![Attr::Key(b"k")] };
    assert_eq!(
        element(b"a (k) { b }", 0),
        Some((
            Expr::ElemFull(
                id("a"),
                AttrList { s: None, attrs: vec![Attr::Key(b"k")] },
                vec![leaf("b")]
            ),
            11
        ))
    );
    assert_eq!(element(b"a (k)", 0), Some((Expr::ElemEmpty(id("a"), list), 5)));
    assert_eq!(element(b"a { }", 0), Some((Expr::ElemSlim(id("a"), vec![]), 5)));
    assert_eq!(element(b"a", 0), Some((leaf("a"), 1)));
}

#[test]
fn element_falls_back_to_a_smaller_shape() {
    assert_eq!(element(b"a (k { b }", 0), Some((leaf("a"), 1)));
    assert_eq!(element(b"a { b", 0), Some((leaf("a"), 1)));
    assert_eq!(
        element(b"a (k) { b", 0),
        Some((Expr::ElemEmpty(id("a"), AttrList { s: None, attrs: vec![Attr::Key(b"k")] }), 5))
    );
    assert_eq!(element(b"(k)", 0), None);
}

#[test]
fn body_holds_expressions() {
    assert_eq!(body(b"{ b \"t\" }", 0), Some((vec![leaf("b"), Expr::Text(b"t")], 9)));
    assert_eq!(body(b"{}", 0), Some((vec![], 2)));
    assert_eq!(body(b"{ b", 0), None);
    assert_eq!(body(b"b }", 0), None);
    assert_eq!(body(b"{ b ) }", 0), None);
}

#[test]
fn expression_is_an_element_or_a_string() {
    assert_eq!(expression(b" a", 0), Some((leaf("a"), 2)));
    assert_eq!(expression(b" \"a b\"", 0), Some((Expr::Text(b"a b"), 6)));
    assert_eq!(string(b"\"a\"", 0), Some((Expr::Text(b"a"), 3)));
    assert_eq!(string(b"a", 0), None);
    assert_eq!(expression(b"}", 0), None);
    assert_eq!(expression(b"", 0), None);
}

#[test]
fn expressions_are_read_until_none_follows() {
    assert_eq!(expressions(b"a b } c", 0), (vec![leaf("a"), leaf("b")], 3));
    assert_eq!(expressions(b"}", 0), (vec![], 0));
    assert_eq!(expressions(b"a", 5), (vec![], 5));
}

#[test]
fn strings_may_follow_one_another() {
    assert_eq!(parser(b"\"x\" \"y\"").unwrap(), vec![Expr::Text(b"x"), Expr::Text(b"y")]);
    assert_eq!(parser(b"  \"x\"  ").unwrap(), vec![Expr::Text(b"x")]);
}

#[test]
fn text_inside_a_body() {
    assert_eq!(
        parser(b"p { \"hello\" b }").unwrap(),
        vec![Expr::ElemSlim(id("p"), vec![Expr::Text(b"hello"), leaf("b")])]
    );
}

#[test]
fn document_without_whitespace() {
    assert_eq!(
        parser(b"a(k=v){b{c}}").unwrap(),
        vec![Expr::ElemFull(
            id("a"),
            AttrList { s: None, attrs: vec![Attr::KeyValue(b"k", b"v")] },
            vec![Expr::ElemSlim(id("b"), vec![leaf("c")])]
        )]
    );
}

#[test]
fn document_over_several_lines() {
    let input = b"html {\n\thead { title { \"T\" } }\r\n\tbody (class=main) {\n\t\tp\n\t}\n}\n";
    assert_eq!(
        parser(input).unwrap(),
        vec![Expr::ElemSlim(
            id("html"),
            vec![
                Expr::ElemSlim(
                    id("head"),
                    vec![Expr::ElemSlim(id("title"), vec![Expr::Text(b"T")])]
                ),
                Expr::ElemFull(
                    id("body"),
                    AttrList { s: None, attrs: vec![Attr::KeyValue(b"class", b"main")] },
                    vec![leaf("p")]
                ),
            ]
        )]
    );
}

#[test]
fn reference_before_its_binding_parses() {
    assert_eq!(
        parser(b"x -> a { } a = b { }").unwrap(),
        vec![
            Expr::ElemSlim(Context::Reference(b"x", Box::new(Some(id("a")))), vec![]),
            Expr::ElemSlim(Context::Assignment(b"a", Box::new(id("b"))), vec![]),
        ]
    );
}

#[test]
fn reference_without_identity_takes_a_body() {
    assert_eq!(
        parser(b"a -> { b }").unwrap(),
        vec![Expr::ElemSlim(Context::Reference(b"a", Box::new(None)), vec![leaf("b")])]
    );
}

#[test]
fn empty_document_is_refused() {
    assert_eq!(parser(b""), Err(SyntaxError { offset: 0, rule: Rule::Document }));
    assert_eq!(parser(b" \n "), Err(SyntaxError { offset: 3, rule: Rule::Document }));
}

#[test]
fn unterminated_string_is_refused() {
    assert_eq!(parser(b"\"abc"), Err(SyntaxError { offset: 0, rule: Rule::Literal }));
    assert_eq!(parser(b"a { \"abc }"), Err(SyntaxError { offset: 2, rule: Rule::Body }));
    assert_eq!(parser(b"a \"abc"), Err(SyntaxError { offset: 2, rule: Rule::Literal }));
}

#[test]
fn unmatched_brace_is_refused() {
    assert_eq!(parser(b"a { b"), Err(SyntaxError { offset: 2, rule: Rule::Body }));
    assert_eq!(parser(b"a }"), Err(SyntaxError { offset: 2, rule: Rule::Body }));
    assert_eq!(parser(b"a { } }"), Err(SyntaxError { offset: 6, rule: Rule::Body }));
}

#[test]
fn unmatched_parenthesis_is_refused() {
    assert_eq!(parser(b"a (k { b }"), Err(SyntaxError { offset: 2, rule: Rule::Options }));
    assert_eq!(parser(b"a )"), Err(SyntaxError { offset: 2, rule: Rule::Options }));
    assert_eq!(parser(b"(k)"), Err(SyntaxError { offset: 0, rule: Rule::Options }));
}

#[test]
fn unexpected_token_is_refused() {
    assert_eq!(parser(b"a -b"), Err(SyntaxError { offset: 2, rule: Rule::Identifier }));
    assert_eq!(parser(b"a < b"), Err(SyntaxError { offset: 2, rule: Rule::Identifier }));
    assert_eq!(parser(b"> a"), Err(SyntaxError { offset: 0, rule: Rule::Identifier }));
}

#[test]
fn binding_without_context_is_refused() {
    assert_eq!(parser(b"a = ("), Err(SyntaxError { offset: 0, rule: Rule::Context }));
    assert_eq!(parser(b"b a ="), Err(SyntaxError { offset: 2, rule: Rule::Context }));
}

#[test]
fn failed_rule_goes_by_the_byte() {
    assert_eq!(failed_rule(b"\"", 0), Rule::Literal);
    assert_eq!(failed_rule(b"(", 0), Rule::Options);
    assert_eq!(failed_rule(b")", 0), Rule::Options);
    assert_eq!(failed_rule(b"{", 0), Rule::Body);
    assert_eq!(failed_rule(b"}", 0), Rule::Body);
    assert_eq!(failed_rule(b"a", 0), Rule::Context);
    assert_eq!(failed_rule(b"-", 0), Rule::Identifier);
    assert_eq!(failed_rule(b"a", 1), Rule::Document);
}
