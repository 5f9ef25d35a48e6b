use htgs::attributes::{parse_attrs, AttrMap};
use htgs::dict::StrMap;
use htgs::grammar::options;
use htgs::syntax::{Attr, AttrList};

fn fold(block: &str) -> AttrMap {
    let (list, end) = options(block.as_bytes(), 0).unwrap();
    assert_eq!(end, block.len());
    parse_attrs(&list)
}

fn values(map: &AttrMap, key: &str) -> Option<Vec<String>> {
    map.get(key).map(|found| found.to_vec())
}

fn strs(items: &[&str]) -> Option<Vec<String>> {
    Some(items.iter().map(|s| s.to_string()).collect())
}

#[test]
fn attribute_folding() {
    let map = fold("(\"subj\" k1 k2=v2 k3+=x k3+=y)");
    assert_eq!(map.len(), 4);
    assert_eq!(values(&map, "$"), strs(&["subj"]));
    assert_eq!(values(&map, "k1"), strs(&[]));
    assert_eq!(values(&map, "k2"), strs(&["v2"]));
    assert_eq!(values(&map, "k3"), strs(&["x", "y"]));
    assert_eq!(map.keys(), vec!["$", "k1", "k2", "k3"]);
}

#[test]
fn last_write_overwrite() {
    let map = fold("(k=a k=b)");
    assert_eq!(map.len(), 1);
    assert_eq!(values(&map, "k"), strs(&["b"]));
}

#[test]
fn key_keeps_the_values_it_has() {
    let map = fold("(k=a k)");
    assert_eq!(map.len(), 1);
    assert_eq!(values(&map, "k"), strs(&["a"]));
    let added = fold("(k+=a k+=b k)");
    assert_eq!(values(&added, "k"), strs(&["a", "b"]));
}

#[test]
fn set_overwrites_what_was_added() {
    let map = fold("(k+=a k+=b k=c)");
    assert_eq!(map.len(), 1);
    assert_eq!(values(&map, "k"), strs(&["c"]));
}

#[test]
fn add_goes_behind_what_was_set() {
    let map = fold("(k=a k+=b)");
    assert_eq!(values(&map, "k"), strs(&["a", "b"]));
    let flagged = fold("(k k+=a)");
    assert_eq!(values(&flagged, "k"), strs(&["a"]));
}

#[test]
fn empty_options_fold_to_an_empty_map() {
    let map = fold("()");
    assert_eq!(map.len(), 0);
    assert_eq!(values(&map, "$"), None);
    assert!(!map.contains_key("$"));
    assert_eq!(map.keys(), Vec::<String>::new());
}

#[test]
fn subject_is_kept_under_the_dollar_key() {
    let map = fold("( \"the subject\" )");
    assert_eq!(map.len(), 1);
    assert_eq!(values(&map, "$"), strs(&["the subject"]));
}

#[test]
fn attribute_may_replace_the_subject() {
    let list = AttrList {
        s: Some(b"subj"),
        attrs: vec![Attr::KeyValueAdd(b"$", b"more"), Attr::Key(b"$")],
    };
    let map = parse_attrs(&list);
    assert_eq!(map.len(), 1);
    assert_eq!(values(&map, "$"), strs(&["subj", "more"]));
    let set = AttrList { s: Some(b"subj"), attrs: vec![Attr::KeyValue(b"$", b"other")] };
    assert_eq!(values(&parse_attrs(&set), "$"), strs(&["other"]));
}

#[test]
fn quoted_value_keeps_its_spaces() {
    let map = fold("(title=\"a b  c\")");
    assert_eq!(values(&map, "title"), strs(&["a b  c"]));
}

#[test]
fn bytes_are_decoded_as_utf8() {
    let list = AttrList {
        s: None,
        attrs: vec![Attr::KeyValue(b"k", "h\u{e9}llo \u{4e16}".as_bytes())],
    };
    assert_eq!(values(&parse_attrs(&list), "k"), strs(&["h\u{e9}llo \u{4e16}"]));
}

#[test]
fn bytes_that_are_not_utf8_are_replaced() {
    let list = AttrList {
        s: Some(b"\xff"),
        attrs: vec![Attr::KeyValue(b"k", b"a\xffb"), Attr::Key(b"\xc3")],
    };
    let map = parse_attrs(&list);
    assert_eq!(values(&map, "$"), strs(&["\u{fffd}"]));
    assert_eq!(values(&map, "k"), strs(&["a\u{fffd}b"]));
    assert_eq!(values(&map, "\u{fffd}"), strs(&[]));
}

#[test]
fn attr_map_by_hand() {
    let mut map = AttrMap::new();
    assert_eq!(map.len(), 0);
    map.flag("a".to_string());
    map.set("b".to_string(), "1".to_string());
    map.append("c".to_string(), "2".to_string());
    map.append("a".to_string(), "3".to_string());
    map.flag("b".to_string());
    assert_eq!(map.len(), 3);
    assert_eq!(values(&map, "a"), strs(&["3"]));
    assert_eq!(values(&map, "b"), strs(&["1"]));
    assert_eq!(values(&map, "c"), strs(&["2"]));
    assert_eq!(values(&map, "d"), None);
    assert!(map.contains_key("a"));
    assert!(!map.contains_key("d"));
    assert_eq!(map.keys(), vec!["a", "b", "c"]);
}

#[test]
fn duplicate_is_a_copy() {
    let mut map = AttrMap::new();
    map.append("k".to_string(), "x".to_string());
    let copy = map.duplicate();
    map.append("k".to_string(), "y".to_string());
    map.flag("j".to_string());
    assert_eq!(copy.len(), 1);
    assert_eq!(values(&copy, "k"), strs(&["x"]));
    assert_eq!(values(&map, "k"), strs(&["x", "y"]));
    assert_eq!(map.len(), 2);
}

#[test]
fn str_map_holds_one_value_for_each_key() {
    let mut map: StrMap<usize> = StrMap::new();
    assert_eq!(map.len(), 0);
    assert_eq!(map.insert("a".to_string(), 1), None);
    assert_eq!(map.insert("b".to_string(), 2), None);
    assert_eq!(map.insert("a".to_string(), 3), Some(1));
    assert_eq!(map.len(), 2);
    assert_eq!(map.get("a"), Some(&3));
    assert_eq!(map.get("b"), Some(&2));
    assert_eq!(map.get("c"), None);
    assert!(map.contains_key("b"));
    assert!(!map.contains_key(""));
    assert_eq!(map.keys(), vec!["a", "b"]);
    map.clear();
    assert_eq!(map.len(), 0);
    assert_eq!(map.get("a"), None);
}
