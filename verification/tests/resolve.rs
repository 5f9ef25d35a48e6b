use htgs::attributes::AttrMap;
use htgs::dict::StrMap;
use htgs::document::{HContent, HElement};
use htgs::grammar::{parser, Rule, SyntaxError};
use htgs::outline::{outline, parse_context, Entry, Item};
use htgs::reader::{read, Error};
use htgs::resolver::{
    assemble, bind, check_cycles, destinations, parse_exprs, reaches, resolve, resolve_outline,
    ResolveError,
};
use htgs::syntax::{Context, Expr};

fn show_element(element: &HElement) -> String {
    let mut out = String::new();
    out.push_str(&element.tagname);
    let mut keys = element.attributes.keys();
    keys.sort();
    if !keys.is_empty() {
        out.push('(');
        for (i, key) in keys.iter().enumerate() {
            if i > 0 {
                out.push(' ');
            }
            out.push_str(key);
            out.push('=');
            out.push_str(&format!("{:?}", element.attributes.get(key).unwrap()));
        }
        out.push(')');
    }
    out.push('{');
    out.push_str(&show(&element.content));
    out.push('}');
    out
}

fn show(content: &[HContent]) -> String {
    let mut parts: Vec<String> = Vec::new();
    for piece in content {
        match piece {
            HContent::Text(text) => parts.push(format!("{:?}", text)),
            HContent::Node(element) => parts.push(show_element(element)),
        }
    }
    parts.join(" ")
}

fn resolved(source: &str) -> Result<String, ResolveError> {
    let ast = parser(source.as_bytes()).unwrap();
    match resolve(&ast) {
        Ok(document) => Ok(show(&document.content)),
        Err(e) => Err(e),
    }
}

fn tree(source: &str) -> String {
    resolved(source).unwrap()
}

fn element(parent: Option<usize>, tag: &str, names: &[&str], targets: &[&str]) -> Entry {
    Entry {
        parent,
        item: Item::Element {
            tagname: tag.to_string(),
            attributes: AttrMap::new(),
            names: names.iter().map(|s| s.to_string()).collect(),
            targets: targets.iter().map(|s| s.to_string()).collect(),
        },
    }
}

fn text(parent: Option<usize>, content: &str) -> Entry {
    Entry { parent, item: Item::Text(content.to_string()) }
}

#[test]
fn context_of_an_identifier() {
    let placement = parse_context(&Context::Identifier(b"div"));
    assert_eq!(placement.tagname, "div");
    assert_eq!(placement.names, Vec::<String>::new());
    assert_eq!(placement.targets, Vec::<String>::new());
    assert_eq!(placement.parent(), None);
}

#[test]
fn context_of_a_binding() {
    let context = Context::Assignment(
        b"a",
        Box::new(Context::Assignment(b"b", Box::new(Context::Identifier(b"div")))),
    );
    let placement = parse_context(&context);
    assert_eq!(placement.tagname, "div");
    assert_eq!(placement.names, vec!["a", "b"]);
    assert_eq!(placement.parent(), None);
}

#[test]
fn context_of_a_reference() {
    let context = Context::Reference(
        b"a",
        Box::new(Some(Context::Assignment(
            b"n",
            Box::new(Context::Reference(b"b", Box::new(Some(Context::Identifier(b"div"))))),
        ))),
    );
    let placement = parse_context(&context);
    assert_eq!(placement.tagname, "div");
    assert_eq!(placement.names, vec!["n"]);
    assert_eq!(placement.targets, vec!["a", "b"]);
    assert_eq!(placement.parent(), Some(&"b".to_string()));
}

#[test]
fn context_of_a_reference_without_identity() {
    let placement = parse_context(&Context::Reference(b"a", Box::new(None)));
    assert_eq!(placement.tagname, "");
    assert_eq!(placement.names, Vec::<String>::new());
    assert_eq!(placement.targets, vec!["a"]);
}

#[test]
fn context_names_are_decoded() {
    let context = Context::Assignment(
        b"n\xff",
        Box::new(Context::Reference(
            "\u{e9}".as_bytes(),
            Box::new(Some(Context::Identifier(b"\xfe"))),
        )),
    );
    let placement = parse_context(&context);
    assert_eq!(placement.tagname, "\u{fffd}");
    assert_eq!(placement.names, vec!["n\u{fffd}"]);
    assert_eq!(placement.targets, vec!["\u{e9}"]);
}

#[test]
fn outline_lists_expressions_in_document_order() {
    let ast = parser(b"a { b { \"t\" } x = c } d (k)").unwrap();
    let entries = outline(&ast);
    assert_eq!(entries.len(), 5);
    let parents: Vec<Option<usize>> = entries.iter().map(|e| e.parent).collect();
    assert_eq!(parents, vec![None, Some(0), Some(1), Some(0), None]);
    let tags: Vec<String> = entries
        .iter()
        .map(|e| match &e.item {
            Item::Text(t) => format!("text {}", t),
            Item::Element { tagname, .. } => tagname.clone(),
        })
        .collect();
    assert_eq!(tags, vec!["a", "b", "text t", "c", "d"]);
    match &entries[3].item {
        Item::Element { names, targets, attributes, .. } => {
            assert_eq!(names, &vec!["x".to_string()]);
            assert!(targets.is_empty());
            assert_eq!(attributes.len(), 0);
        }
        Item::Text(_) => panic!("an element was expected"),
    }
    match &entries[4].item {
        Item::Element { attributes, .. } => {
            assert_eq!(attributes.get("k"), Some(&Vec::<String>::new()));
        }
        Item::Text(_) => panic!("an element was expected"),
    }
}

#[test]
fn lexical_nesting_is_kept() {
    assert_eq!(tree("a { b c }"), "a{b{} c{}}");
    assert_eq!(tree("a { b { c { d } } e } f"), "a{b{c{d{}}} e{}} f{}");
}

#[test]
fn round_trip_shape_resolves() {
    let ast = parser(b"a { b c }").unwrap();
    let document = resolve(&ast).unwrap();
    assert_eq!(document.content.len(), 1);
    match &document.content[0] {
        HContent::Node(a) => {
            assert_eq!(a.tagname, "a");
            assert_eq!(a.attributes.len(), 0);
            assert_eq!(a.content.len(), 2);
            for (piece, tag) in a.content.iter().zip(["b", "c"]) {
                match piece {
                    HContent::Node(child) => {
                        assert_eq!(child.tagname, tag);
                        assert_eq!(child.attributes.len(), 0);
                        assert!(child.content.is_empty());
                    }
                    HContent::Text(_) => panic!("an element was expected"),
                }
            }
        }
        HContent::Text(_) => panic!("an element was expected"),
    }
}

#[test]
fn text_stays_where_it_is_written() {
    assert_eq!(tree("\"t\" a \"u\""), "\"t\" a{} \"u\"");
    assert_eq!(tree("a = p { } a -> x { \"t\" }"), "p{x{\"t\"}}");
}

#[test]
fn attributes_are_folded() {
    assert_eq!(
        tree("a (\"s\" k j=1 j+=2) { b (x=y) }"),
        "a($=[\"s\"] j=[\"1\", \"2\"] k=[]){b(x=[\"y\"]){}}"
    );
}

#[test]
fn forward_reference_resolves() {
    assert_eq!(tree("a -> x { } a = b { }"), "b{x{}}");
}

#[test]
fn backward_reference_resolves() {
    assert_eq!(tree("a = b { } a -> x { }"), "b{x{}}");
}

#[test]
fn reference_from_inside_another_element() {
    assert_eq!(tree("head = h { } body { head -> title { \"T\" } p }"), "h{title{\"T\"}} body{p{}}");
}

#[test]
fn reference_names_its_target_first() {
    assert_eq!(
        resolved("x -> a { } a = b { }"),
        Err(ResolveError::UnresolvedReference("x".to_string()))
    );
    assert_eq!(
        resolved("p = q -> p { }"),
        Err(ResolveError::UnresolvedReference("q".to_string()))
    );
    assert_eq!(tree("x = b { } x -> a { }"), "b{a{}}");
}

#[test]
fn unresolved_reference_fails() {
    assert_eq!(
        resolved("missing -> x { }"),
        Err(ResolveError::UnresolvedReference("missing".to_string()))
    );
    assert_eq!(
        resolved("a = b { missing -> x }"),
        Err(ResolveError::UnresolvedReference("missing".to_string()))
    );
}

#[test]
fn first_unresolved_reference_is_named() {
    assert_eq!(
        resolved("a b { one -> x } two -> y"),
        Err(ResolveError::UnresolvedReference("one".to_string()))
    );
    assert_eq!(
        resolved("x -> missing { }"),
        Err(ResolveError::UnresolvedReference("x".to_string()))
    );
}

#[test]
fn cycle_fails() {
    assert_eq!(resolved("p = p -> q { }"), Err(ResolveError::ReferenceCycle("p".to_string())));
}

#[test]
fn cycle_of_two_fails() {
    assert_eq!(
        resolved("p = q -> a { } q = p -> b { }"),
        Err(ResolveError::ReferenceCycle("q".to_string()))
    );
}

#[test]
fn reference_into_the_own_body_fails() {
    assert_eq!(
        resolved("p -> a { p = b }"),
        Err(ResolveError::ReferenceCycle("p".to_string()))
    );
    assert_eq!(
        resolved("r c -> a { b { c = d } }"),
        Err(ResolveError::ReferenceCycle("c".to_string()))
    );
}

#[test]
fn reference_into_a_circle_fails() {
    assert_eq!(
        resolved("p -> x p = p -> q"),
        Err(ResolveError::ReferenceCycle("p".to_string()))
    );
}

#[test]
fn duplicate_binding_fails() {
    assert_eq!(resolved("a = x a = y"), Err(ResolveError::DuplicateBinding("a".to_string())));
    assert_eq!(resolved("a = a = x"), Err(ResolveError::DuplicateBinding("a".to_string())));
    assert_eq!(
        resolved("a = x { b = y { a = z } }"),
        Err(ResolveError::DuplicateBinding("a".to_string()))
    );
}

#[test]
fn duplicate_binding_comes_before_other_errors() {
    assert_eq!(
        resolved("m -> x a = y a = z"),
        Err(ResolveError::DuplicateBinding("a".to_string()))
    );
    assert_eq!(
        resolved("p = p -> q m -> x"),
        Err(ResolveError::UnresolvedReference("m".to_string()))
    );
}

#[test]
fn siblings_keep_source_order() {
    assert_eq!(tree("a -> x { } a = p { y } a -> z"), "p{x{} y{} z{}}");
    assert_eq!(tree("r { a -> x } a = p { \"t\" y } q { a -> z { w } }"), "r{} p{x{} \"t\" y{} z{w{}}} q{}");
}

#[test]
fn chained_references_place_under_the_last() {
    assert_eq!(tree("a = p b = q a -> b -> x"), "p{} q{x{}}");
    assert_eq!(
        resolved("a = p a -> zz -> x"),
        Err(ResolveError::UnresolvedReference("zz".to_string()))
    );
    assert_eq!(
        resolved("a = p zz -> a -> x"),
        Err(ResolveError::UnresolvedReference("zz".to_string()))
    );
}

#[test]
fn binding_and_reference_in_one_context() {
    assert_eq!(tree("a = p n = a -> x n -> y"), "p{x{y{}}}");
    assert_eq!(tree("a = p a -> n = x n -> y"), "p{x{y{}}}");
}

#[test]
fn reference_without_identity_makes_a_nameless_element() {
    assert_eq!(tree("a = p a -> { c }"), "p{{c{}}}");
}

#[test]
fn resolving_twice_gives_the_same() {
    let ast = parser(b"a -> x (k=v) { \"t\" } a = p { y } q").unwrap();
    let first = resolve(&ast).unwrap();
    let second = resolve(&ast).unwrap();
    assert_eq!(show(&first.content), show(&second.content));
    assert_eq!(show(&first.content), "p{x(k=[\"v\"]){\"t\"} y{}} q{}");
    let mut used: StrMap<usize> = StrMap::new();
    used.insert("a".to_string(), 7);
    used.insert("stale".to_string(), 9);
    let third = parse_exprs(&ast, &mut used).unwrap();
    assert_eq!(show(&third), show(&first.content));
    let bad = parser(b"a -> x b -> y").unwrap();
    assert_eq!(resolve(&bad).unwrap_err(), resolve(&bad).unwrap_err());
}

#[test]
fn symbol_table_holds_the_places_of_the_bound_elements() {
    let ast = parser(b"t a = x { \"s\" b = c = y }").unwrap();
    let mut names: StrMap<usize> = StrMap::new();
    names.insert("old".to_string(), 5);
    let content = parse_exprs(&ast, &mut names).unwrap();
    assert_eq!(show(&content), "t{} x{\"s\" y{}}");
    assert_eq!(names.len(), 3);
    assert_eq!(names.get("a"), Some(&1));
    assert_eq!(names.get("b"), Some(&3));
    assert_eq!(names.get("c"), Some(&3));
    assert_eq!(names.get("old"), None);
}

#[test]
fn symbol_table_stops_at_a_duplicate() {
    let ast = parser(b"a = x b = a = y c = z").unwrap();
    let mut names: StrMap<usize> = StrMap::new();
    assert_eq!(
        parse_exprs(&ast, &mut names).unwrap_err(),
        ResolveError::DuplicateBinding("a".to_string())
    );
    assert_eq!(names.keys(), vec!["a", "b"]);
}

#[test]
fn bind_by_hand() {
    let entries = vec![
        element(None, "x", &["a", "b"], &[]),
        text(Some(0), "t"),
        element(Some(0), "y", &["c"], &["a"]),
    ];
    let mut names: StrMap<usize> = StrMap::new();
    assert_eq!(bind(&entries, &mut names), Ok(()));
    assert_eq!(names.get("a"), Some(&0));
    assert_eq!(names.get("b"), Some(&0));
    assert_eq!(names.get("c"), Some(&2));
    assert_eq!(names.len(), 3);
    let twice = vec![element(None, "x", &["a"], &[]), element(None, "y", &["b", "a", "c"], &[])];
    assert_eq!(
        bind(&twice, &mut names),
        Err(ResolveError::DuplicateBinding("a".to_string()))
    );
    assert_eq!(names.keys(), vec!["a", "b"]);
}

#[test]
fn destinations_by_hand() {
    let entries = vec![
        element(None, "x", &["a"], &[]),
        text(Some(0), "t"),
        element(Some(0), "y", &["b"], &[]),
        element(Some(2), "z", &[], &["b", "a"]),
        element(None, "w", &[], &["b"]),
    ];
    let mut names: StrMap<usize> = StrMap::new();
    bind(&entries, &mut names).unwrap();
    assert_eq!(
        destinations(&entries, &names),
        Ok(vec![None, Some(0), Some(0), Some(0), Some(2)])
    );
    let empty: StrMap<usize> = StrMap::new();
    assert_eq!(
        destinations(&entries, &empty),
        Err(ResolveError::UnresolvedReference("b".to_string()))
    );
}

#[test]
fn reaches_follows_destinations_to_the_root() {
    let dest = vec![None, Some(0), Some(1), Some(4), Some(3), Some(9), Some(6)];
    assert!(reaches(&dest, 0));
    assert!(reaches(&dest, 1));
    assert!(reaches(&dest, 2));
    assert!(!reaches(&dest, 3));
    assert!(!reaches(&dest, 4));
    assert!(!reaches(&dest, 5));
    assert!(!reaches(&dest, 6));
    assert!(!reaches(&dest, 7));
    let chain = vec![Some(1), Some(2), Some(3), None];
    assert!(reaches(&chain, 0));
}

#[test]
fn check_cycles_by_hand() {
    let entries = vec![
        element(None, "x", &["a"], &[]),
        element(None, "y", &["b"], &["c"]),
        element(None, "z", &["c"], &["b"]),
    ];
    assert_eq!(check_cycles(&entries, &vec![None, Some(0), Some(0)]), Ok(()));
    assert_eq!(
        check_cycles(&entries, &vec![None, Some(2), Some(1)]),
        Err(ResolveError::ReferenceCycle("c".to_string()))
    );
}

#[test]
fn assemble_by_hand() {
    let entries = vec![
        element(None, "x", &[], &[]),
        text(Some(0), "t"),
        element(None, "y", &[], &[]),
        element(Some(2), "z", &[], &[]),
    ];
    let lexical = vec![None, Some(0), None, Some(2)];
    assert_eq!(show(&assemble(&entries, &lexical)), "x{\"t\"} y{z{}}");
    let moved = vec![Some(3), Some(0), None, Some(2)];
    assert_eq!(show(&assemble(&entries, &moved)), "y{z{x{\"t\"}}}");
    let none: Vec<Entry> = Vec::new();
    assert_eq!(show(&assemble(&none, &Vec::new())), "");
}

#[test]
fn resolve_outline_by_hand() {
    let entries = vec![
        element(None, "x", &[], &["a"]),
        element(None, "p", &["a"], &[]),
        text(Some(1), "t"),
    ];
    let mut names: StrMap<usize> = StrMap::new();
    let content = resolve_outline(&entries, &mut names).unwrap();
    assert_eq!(show(&content), "p{x{} \"t\"}");
    assert_eq!(names.get("a"), Some(&1));
}

#[test]
fn deep_nesting_is_assembled_whole() {
    let mut source = String::new();
    for i in 0..40 {
        source.push_str(&format!("e{} {{ ", i));
    }
    for _ in 0..40 {
        source.push_str("} ");
    }
    let mut expected = String::new();
    for i in 0..40 {
        expected.push_str(&format!("e{}{{", i));
    }
    for _ in 0..40 {
        expected.push('}');
    }
    assert_eq!(tree(&source), expected);
}

#[test]
fn chain_of_references_is_assembled_whole() {
    assert_eq!(
        tree("n3 -> n4 = e4 n2 -> n3 = e3 n1 -> n2 = e2 n1 = e1"),
        "e1{e2{e3{e4{}}}}"
    );
}

#[test]
fn read_parses_and_resolves() {
    let document = read(b"a -> x { } a = b (k=v) { \"t\" }").unwrap();
    assert_eq!(show(&document.content), "b(k=[\"v\"]){x{} \"t\"}");
}

#[test]
fn read_reports_the_syntax_error() {
    assert_eq!(
        read(b"a { b").unwrap_err(),
        Error::Syntax(SyntaxError { offset: 2, rule: Rule::Body })
    );
    assert_eq!(read(b"").unwrap_err(), Error::Syntax(SyntaxError { offset: 0, rule: Rule::Document }));
}

#[test]
fn read_reports_the_resolution_error() {
    assert_eq!(
        read(b"missing -> x { }").unwrap_err(),
        Error::Resolve(ResolveError::UnresolvedReference("missing".to_string()))
    );
    assert_eq!(
        read(b"p = p -> q { }").unwrap_err(),
        Error::Resolve(ResolveError::ReferenceCycle("p".to_string()))
    );
    assert_eq!(
        read(b"a = x a = y").unwrap_err(),
        Error::Resolve(ResolveError::DuplicateBinding("a".to_string()))
    );
}

#[test]
fn syntax_tree_is_left_as_it_was() {
    let ast = parser(b"a = p { c } a -> x").unwrap();
    let copy: Vec<Expr> = parser(b"a = p { c } a -> x").unwrap();
    resolve(&ast).unwrap();
    assert_eq!(ast, copy);
}
