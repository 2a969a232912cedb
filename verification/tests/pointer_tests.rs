use egui_json_tree::pointer::{JsonPointer, JsonPointerSegment};
use egui_json_tree::text::usize_to_decimal;

#[test]
fn pointer_empty_path_segments() {
    let path = [];
    let pointer = JsonPointer(&path);
    assert_eq!(pointer.to_json_pointer_string(), String::new());
    assert!(pointer.parent().is_none());
}

#[test]
fn pointer_one_path_segment() {
    let path = [JsonPointerSegment::Key("foo")];
    let pointer = JsonPointer(&path);
    assert_eq!(pointer.to_json_pointer_string(), "/foo".to_owned());
    assert_eq!(
        pointer.parent().unwrap().to_json_pointer_string(),
        String::new()
    );
}

#[test]
fn pointer_multiple_path_segments() {
    let path = [
        JsonPointerSegment::Key("foo"),
        JsonPointerSegment::Index(0),
        JsonPointerSegment::Key("bar"),
        JsonPointerSegment::Index(1),
    ];
    let pointer = JsonPointer(&path);
    assert_eq!(pointer.to_json_pointer_string(), "/foo/0/bar/1".to_owned());
    assert_eq!(
        pointer.parent().unwrap().to_json_pointer_string(),
        "/foo/0/bar".to_owned()
    );
}

#[test]
fn pointer_delimits_special_chars() {
    let path = [
        JsonPointerSegment::Key("a/b"),
        JsonPointerSegment::Key("m~n"),
    ];
    let pointer = JsonPointer(&path);
    assert_eq!(pointer.to_json_pointer_string(), "/a~1b/m~0n".to_owned());
    assert_eq!(
        pointer.parent().unwrap().to_json_pointer_string(),
        "/a~1b".to_owned()
    );
}

#[test]
fn pointer_handles_nested_empty_string_path_segment() {
    let path = [
        JsonPointerSegment::Key("foo"),
        JsonPointerSegment::Index(0),
        JsonPointerSegment::Key(""),
        JsonPointerSegment::Index(1),
    ];
    let pointer = JsonPointer(&path);
    assert_eq!(pointer.to_json_pointer_string(), "/foo/0//1".to_owned());
    assert_eq!(
        pointer.parent().unwrap().to_json_pointer_string(),
        "/foo/0/".to_owned()
    );
}

#[test]
fn pointer_handles_nested_whitespace_path_segment() {
    let path = [
        JsonPointerSegment::Key(" "),
        JsonPointerSegment::Index(0),
        JsonPointerSegment::Key("  "),
        JsonPointerSegment::Index(1),
    ];
    let pointer = JsonPointer(&path);
    assert_eq!(pointer.to_json_pointer_string(), "/ /0/  /1".to_owned());
    assert_eq!(
        pointer.parent().unwrap().to_json_pointer_string(),
        "/ /0/  ".to_owned()
    );
}

#[test]
fn pointer_last_segment() {
    let path = [JsonPointerSegment::Key("foo"), JsonPointerSegment::Index(7)];
    let pointer = JsonPointer(&path);
    assert_eq!(pointer.last(), Some(&JsonPointerSegment::Index(7)));
    let empty: [JsonPointerSegment; 0] = [];
    assert_eq!(JsonPointer(&empty).last(), None);
}

#[test]
fn pointer_parent_of_single_segment_is_root() {
    let path = [JsonPointerSegment::Index(3)];
    let pointer = JsonPointer(&path);
    let parent = pointer.parent().unwrap();
    assert!(parent.0.is_empty());
    assert!(parent.parent().is_none());
}

#[test]
fn pointer_parent_then_last_segment_rebuilds_pointer_string() {
    let path = [
        JsonPointerSegment::Key("x~/y"),
        JsonPointerSegment::Index(12),
        JsonPointerSegment::Key("~~"),
    ];
    let pointer = JsonPointer(&path);
    let parent = pointer.parent().unwrap();
    let last = pointer.last().unwrap();
    let rebuilt = parent.to_json_pointer_string() + &last.to_json_pointer_segment_string();
    assert_eq!(rebuilt, pointer.to_json_pointer_string());
    assert_eq!(rebuilt, "/x~0~1y/12/~0~0");
}

#[test]
fn pointer_string_has_one_slash_per_segment() {
    let path = [
        JsonPointerSegment::Key("//"),
        JsonPointerSegment::Key("a/b/c"),
        JsonPointerSegment::Index(0),
    ];
    let s = JsonPointer(&path).to_json_pointer_string();
    assert_eq!(s.matches('/').count(), 3);
}

#[test]
fn segment_strings_of_index_and_key() {
    assert_eq!(JsonPointerSegment::Index(0).to_json_pointer_segment_string(), "/0");
    assert_eq!(JsonPointerSegment::Index(1234567).to_json_pointer_segment_string(), "/1234567");
    assert_eq!(JsonPointerSegment::Key("é/~").to_json_pointer_segment_string(), "/é~1~0");
    assert_eq!(JsonPointerSegment::Key("").to_json_pointer_segment_string(), "/");
}

#[test]
fn segment_display_strings() {
    assert_eq!(JsonPointerSegment::Index(42).to_string(), "42");
    assert_eq!(JsonPointerSegment::Key("a/b~c").to_string(), "a/b~c");
}

#[test]
fn decimal_formatting_matches_std() {
    for n in [0usize, 9, 10, 99, 100, 101, 4096, usize::MAX] {
        assert_eq!(usize_to_decimal(n), format!("{n}"));
    }
}

#[test]
fn key_pointer_string_decodes_back_to_keys() {
    let keys = ["a/b", "c~d", "~1", "", "plain"];
    let path: Vec<JsonPointerSegment> = keys.iter().map(|k| JsonPointerSegment::Key(k)).collect();
    let s = JsonPointer(&path).to_json_pointer_string();
    assert_eq!(s, "/a~1b/c~0d/~01//plain");
    assert!(s.starts_with('/'));
    let decoded: Vec<String> = s[1..]
        .split('/')
        .map(|piece| piece.replace("~1", "/").replace("~0", "~"))
        .collect();
    assert_eq!(decoded, keys);
}

#[test]
fn different_keys_give_different_pointer_strings() {
    let a = [JsonPointerSegment::Key("a/b")];
    let b = [JsonPointerSegment::Key("a"), JsonPointerSegment::Key("b")];
    assert_ne!(JsonPointer(&a).to_json_pointer_string(), JsonPointer(&b).to_json_pointer_string());
}
