use egui_json_tree::pointer::JsonPointerSegment;
use egui_json_tree::search::SearchTerm;
use egui_json_tree::value::{BaseValueType, ExpandableType, JsonTreeValue, ToJsonTreeValue};

fn string(s: &str) -> JsonTreeValue<'static> {
    JsonTreeValue::Base(s.to_string(), BaseValueType::String)
}

fn number(n: i64) -> JsonTreeValue<'static> {
    JsonTreeValue::Base(n.to_string(), BaseValueType::Number)
}

fn boolean(b: bool) -> JsonTreeValue<'static> {
    JsonTreeValue::Base(b.to_string(), BaseValueType::Bool)
}

/// {"foo": {"bar": {"fizz": true}, "baz": {"qux": "thud"}, "buzz": [{"grep": 50}]}}
fn nested_document() -> JsonTreeValue<'static> {
    JsonTreeValue::object(vec![(
        "foo",
        JsonTreeValue::object(vec![
            ("bar", JsonTreeValue::object(vec![("fizz", boolean(true))])),
            ("baz", JsonTreeValue::object(vec![("qux", string("thud"))])),
            (
                "buzz",
                JsonTreeValue::array(vec![JsonTreeValue::object(vec![("grep", number(50))])]),
            ),
        ]),
    )])
}

#[test]
fn parse_rejects_empty_search_string() {
    assert!(SearchTerm::parse("").is_none());
    assert!(SearchTerm::parse("a").is_some());
    assert!(!SearchTerm::is_valid(""));
    assert!(SearchTerm::is_valid(" "));
}

#[test]
fn search_term_length_is_in_bytes() {
    assert_eq!(SearchTerm::parse("GrEp").unwrap().len(), 4);
    assert_eq!(SearchTerm::parse("é").unwrap().len(), 2);
    assert_eq!(SearchTerm::new("").len(), 0);
}

#[test]
fn find_match_indices_ignores_ascii_case() {
    let term = SearchTerm::parse("HELLO").unwrap();
    assert_eq!(term.find_match_indices_in("Hello hello"), vec![0, 6]);
    assert_eq!(term.find_match_indices_in("nothing here"), Vec::<usize>::new());
}

#[test]
fn find_match_indices_does_not_overlap() {
    let term = SearchTerm::parse("aa").unwrap();
    assert_eq!(term.find_match_indices_in("aaa"), vec![0]);
    assert_eq!(term.find_match_indices_in("aaaa"), vec![0, 2]);
    assert_eq!("aaaa".match_indices("aa").map(|(i, _)| i).collect::<Vec<_>>(), vec![0, 2]);
}

#[test]
fn find_match_indices_are_byte_positions() {
    let term = SearchTerm::parse("b").unwrap();
    assert_eq!(term.find_match_indices_in("éb"), vec![2]);
}

#[test]
fn empty_term_matches_every_char_boundary() {
    let term = SearchTerm::new("");
    assert_eq!(term.find_match_indices_in("ab"), vec![0, 1, 2]);
    assert_eq!(term.find_match_indices_in("é"), vec![0, 2]);
    assert_eq!(term.find_match_indices_in(""), vec![0]);
    let expected: Vec<usize> = "aé".match_indices("").map(|(i, _)| i).collect();
    assert_eq!(term.find_match_indices_in("aé"), expected);
}

#[test]
fn matches_requires_non_empty_term() {
    assert!(SearchTerm::parse("ELL").unwrap().matches("hello"));
    assert!(!SearchTerm::parse("x").unwrap().matches("hello"));
    assert!(!SearchTerm::new("").matches("hello"));
    assert!(!SearchTerm::parse("longer than text").unwrap().matches("short"));
}

#[test]
fn search_expands_paths_enclosing_matches() {
    let value = nested_document();
    let term = SearchTerm::parse("t").unwrap();
    let paths = term.find_matching_paths_in(&value, false);
    assert!(paths.contains(&[]));
    assert!(paths.contains(&[JsonPointerSegment::Key("foo")]));
    assert!(paths.contains(&[JsonPointerSegment::Key("foo"), JsonPointerSegment::Key("bar")]));
    assert!(paths.contains(&[JsonPointerSegment::Key("foo"), JsonPointerSegment::Key("baz")]));
    assert!(!paths.contains(&[JsonPointerSegment::Key("foo"), JsonPointerSegment::Key("buzz")]));
    assert_eq!(paths.len(), 4);
}

#[test]
fn search_matches_object_keys() {
    let value = nested_document();
    let term = SearchTerm::parse("GREP").unwrap();
    let paths = term.find_matching_paths_in(&value, false);
    assert!(paths.contains(&[
        JsonPointerSegment::Key("foo"),
        JsonPointerSegment::Key("buzz"),
        JsonPointerSegment::Index(0),
    ]));
    assert_eq!(paths.len(), 4);
}

#[test]
fn search_ignores_array_indices() {
    let value = JsonTreeValue::array(vec![string("x"), string("y")]);
    let term = SearchTerm::parse("0").unwrap();
    assert!(term.find_matching_paths_in(&value, true).is_empty());
}

#[test]
fn single_top_level_match_expands_nothing_unless_root_abbreviated() {
    let value = JsonTreeValue::object(vec![("foo", string("bar"))]);
    let term = SearchTerm::parse("bar").unwrap();
    assert!(term.find_matching_paths_in(&value, false).is_empty());
    let abbreviated = term.find_matching_paths_in(&value, true);
    assert_eq!(abbreviated.len(), 1);
    assert!(abbreviated.contains(&[]));
}

#[test]
fn search_in_base_document_finds_nothing_to_expand() {
    let value = string("Hello World!");
    let term = SearchTerm::parse("world").unwrap();
    assert!(term.find_matching_paths_in(&value, true).is_empty());
}

#[test]
fn array_constructor_numbers_elements() {
    let value = JsonTreeValue::array(vec![number(1), number(2)]);
    match value {
        JsonTreeValue::Expandable(entries, ExpandableType::Array) => {
            assert_eq!(entries.len(), 2);
            assert_eq!(entries[0].0, JsonPointerSegment::Index(0));
            assert_eq!(entries[1].0, JsonPointerSegment::Index(1));
        }
        _ => panic!("expected an array"),
    }
}

#[test]
fn deep_clone_and_expandability() {
    let value = nested_document();
    let copy = value.to_json_tree_value();
    assert!(copy.is_expandable());
    assert!(!string("x").is_expandable());
    let term = SearchTerm::parse("t").unwrap();
    assert_eq!(term.find_matching_paths_in(&copy, false).len(), 4);
}
