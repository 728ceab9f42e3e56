use listlang::node::NodeKind;
use listlang::parser::check_data;
use listlang::parser::check_items;
use listlang::parser::check_oneitem;
use listlang::serial::serialize_node;

#[test]
fn data_accepts_simple_list() {
    let node = check_data("{a: 3, {d: apple}}").expect("should parse");
    assert!(matches!(node.kind, NodeKind::List));
    assert_eq!(node.value, "a");
    assert_eq!(node.children.len(), 2);
    assert!(matches!(node.children[0].kind, NodeKind::Number));
    assert_eq!(node.children[0].value, "3");
    assert!(matches!(node.children[1].kind, NodeKind::List));
    assert_eq!(node.children[1].value, "d");
}

#[test]
fn data_accepts_minimal_list() {
    let node = check_data("{a:1}").expect("should parse");
    assert_eq!(node.value, "a");
    assert_eq!(node.children.len(), 1);
}

#[test]
fn data_rejects_empty_items() {
    assert!(check_data("{x: }").is_none());
    assert!(check_data("{x:}").is_none());
}

#[test]
fn data_rejects_trailing_comma_and_empty_segment() {
    assert!(check_data("{a: 1, }").is_none());
    assert!(check_data("{a: 1,,2}").is_none());
}

#[test]
fn data_rejects_bad_names_and_braces() {
    assert!(check_data("{3: a}").is_none());
    assert!(check_data("{: a}").is_none());
    assert!(check_data("{a b: 1}").is_none());
    assert!(check_data("a: 1}").is_none());
    assert!(check_data("{a: 1").is_none());
    assert!(check_data("").is_none());
    assert!(check_data("{a:1").is_none());
}

#[test]
fn data_rejects_missing_colon() {
    assert!(check_data("{abcde}").is_none());
}

#[test]
fn items_split_only_at_top_level_commas() {
    let items = check_items("1, {b: 2, 3}, c").expect("should parse");
    assert_eq!(items.len(), 3);
    assert!(matches!(items[1].kind, NodeKind::List));
    assert_eq!(items[1].children.len(), 2);
}

#[test]
fn items_split_tracks_depth_across_nesting() {
    let items = check_items("{y: {z: 1}, 2}").expect("should parse");
    assert_eq!(items.len(), 1);
    let y = &items[0];
    assert_eq!(y.value, "y");
    assert_eq!(y.children.len(), 2);
    assert!(matches!(y.children[0].kind, NodeKind::List));
    assert!(matches!(y.children[1].kind, NodeKind::Number));
}

#[test]
fn oneitem_classifies_in_order() {
    let n = check_oneitem("42").unwrap();
    assert!(matches!(n.kind, NodeKind::Number));
    let s = check_oneitem("apple").unwrap();
    assert!(matches!(s.kind, NodeKind::ListString));
    let p = check_oneitem("@apple").unwrap();
    assert!(matches!(p.kind, NodeKind::Pointer));
    assert_eq!(p.value, "apple");
    let l = check_oneitem("{a: 1}").unwrap();
    assert!(matches!(l.kind, NodeKind::List));
    assert!(check_oneitem("???").is_none());
}

#[test]
fn serialization_is_canonical() {
    let node = check_data("{ a :  3 ,  {d: apple}  }").expect("should parse");
    assert_eq!(serialize_node(&node), "{a:3,{d:apple}}");
}

#[test]
fn parse_of_serialization_gives_same_tree() {
    let node = check_data("{a: 3, {d: apple, @a, -7}}").expect("should parse");
    let text = serialize_node(&node);
    let again = check_data(&text).expect("canonical text should parse");
    assert_eq!(serialize_node(&again), text);
    assert_eq!(again.value, node.value);
    assert_eq!(again.children.len(), node.children.len());
}
