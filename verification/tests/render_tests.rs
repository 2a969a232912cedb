use egui_json_tree::pointer::JsonPointerSegment;
use egui_json_tree::render::{
    highlight_spans, property_layout, resolve_visuals, value_layout, JsonTreeVisuals, LayoutPiece,
    PieceText, Rgba, TextSpan,
};
use egui_json_tree::search::SearchTerm;
use egui_json_tree::value::BaseValueType;

fn span(start: usize, end: usize, highlighted: bool) -> TextSpan {
    TextSpan { start, end, highlighted }
}

#[test]
fn highlight_spans_alternate_plain_and_matches() {
    let term = SearchTerm::parse("hello").unwrap();
    assert_eq!(
        highlight_spans("Hello hello", Some(&term)),
        vec![span(0, 0, false), span(0, 5, true), span(5, 6, false), span(6, 11, true), span(11, 11, false)]
    );
}

#[test]
fn highlight_spans_without_match_or_term() {
    let term = SearchTerm::parse("zzz").unwrap();
    assert_eq!(highlight_spans("abc", Some(&term)), vec![span(0, 3, false)]);
    assert_eq!(highlight_spans("abc", None), vec![span(0, 3, false)]);
    assert_eq!(highlight_spans("", None), vec![span(0, 0, false)]);
}

#[test]
fn highlight_spans_cover_text() {
    let term = SearchTerm::parse("an").unwrap();
    let text = "banana bandana";
    let spans = highlight_spans(text, Some(&term));
    let rebuilt: String = spans.iter().map(|s| &text[s.start..s.end]).collect();
    assert_eq!(rebuilt, text);
    for s in spans.iter().filter(|s| s.highlighted) {
        assert_eq!(&text[s.start..s.end], "an");
    }
}

#[test]
fn string_value_layout_is_quoted_and_highlighted() {
    let visuals = JsonTreeVisuals::dark();
    let term = SearchTerm::parse("B").unwrap();
    let pieces = value_layout(&visuals, "abc", &BaseValueType::String, Some(&term));
    let color = visuals.string_color;
    assert_eq!(
        pieces,
        vec![
            LayoutPiece { text: PieceText::Quote, color, background: None },
            LayoutPiece { text: PieceText::Span { start: 0, end: 1 }, color, background: None },
            LayoutPiece { text: PieceText::Span { start: 1, end: 2 }, color, background: Some(visuals.highlight_color) },
            LayoutPiece { text: PieceText::Span { start: 2, end: 3 }, color, background: None },
            LayoutPiece { text: PieceText::Quote, color, background: None },
        ]
    );
}

#[test]
fn number_value_layout_is_not_quoted() {
    let visuals = JsonTreeVisuals::light();
    let pieces = value_layout(&visuals, "42", &BaseValueType::Number, None);
    assert_eq!(
        pieces,
        vec![LayoutPiece { text: PieceText::Span { start: 0, end: 2 }, color: visuals.number_color, background: None }]
    );
}

#[test]
fn property_layouts() {
    let visuals = JsonTreeVisuals::dark();
    let (text, pieces) = property_layout(&visuals, &JsonPointerSegment::Index(10), None);
    assert_eq!(text, "10");
    assert_eq!(
        pieces,
        vec![LayoutPiece { text: PieceText::Span { start: 0, end: 2 }, color: visuals.array_idx_color, background: None }]
    );
    let term = SearchTerm::parse("1").unwrap();
    let (text, pieces) = property_layout(&visuals, &JsonPointerSegment::Index(10), Some(&term));
    assert_eq!(text, "10");
    assert_eq!(pieces.len(), 1);
    let (text, pieces) = property_layout(&visuals, &JsonPointerSegment::Key("foo"), None);
    assert_eq!(text, "foo");
    let color = visuals.object_key_color;
    assert_eq!(
        pieces,
        vec![
            LayoutPiece { text: PieceText::Quote, color, background: None },
            LayoutPiece { text: PieceText::Span { start: 0, end: 3 }, color, background: None },
            LayoutPiece { text: PieceText::Quote, color, background: None },
        ]
    );
}

#[test]
fn color_schemes() {
    let dark = JsonTreeVisuals::dark();
    assert_eq!(dark.object_key_color, Rgba { r: 161, g: 206, b: 235, a: 255 });
    assert_eq!(dark.highlight_color, Rgba { r: 72, g: 72, b: 72, a: 50 });
    assert_eq!(dark.punctuation_color, Rgba::from_gray(140));
    assert_eq!(JsonTreeVisuals::default(), dark);
    assert_eq!(dark.get_color(&BaseValueType::Null), dark.null_color);
    assert_eq!(dark.get_color(&BaseValueType::String), Rgba::from_rgb(194, 146, 122));
    let light = JsonTreeVisuals::light();
    assert_eq!(light.get_color(&BaseValueType::Number), Rgba::from_rgb(1, 97, 63));
    assert_eq!(resolve_visuals(&None, true), dark);
    assert_eq!(resolve_visuals(&None, false), light);
    assert_eq!(resolve_visuals(&Some(light), true), light);
}

#[test]
fn highlight_spans_fall_on_char_boundaries() {
    let text = "ÄbcÉbc ébc";
    let term = SearchTerm::parse("BC").unwrap();
    let spans = highlight_spans(text, Some(&term));
    assert_eq!(
        spans,
        vec![span(0, 2, false), span(2, 4, true), span(4, 6, false), span(6, 8, true), span(8, 11, false), span(11, 13, true), span(13, 13, false)]
    );
    for s in &spans {
        assert!(text.is_char_boundary(s.start) && text.is_char_boundary(s.end));
    }
    let accented = SearchTerm::parse("é").unwrap();
    let spans = highlight_spans(text, Some(&accented));
    assert_eq!(spans, vec![span(0, 9, false), span(9, 11, true), span(11, 13, false)]);
    let empty = SearchTerm::new("");
    for s in highlight_spans(text, Some(&empty)) {
        assert!(text.is_char_boundary(s.start) && text.is_char_boundary(s.end));
    }
}

#[test]
fn match_indices_fall_on_char_boundaries() {
    let text = "żółw Żółw";
    let term = SearchTerm::parse("ółw").unwrap();
    let found = term.find_match_indices_in(text);
    assert_eq!(found, vec![2, 10]);
    for i in found {
        assert!(text.is_char_boundary(i) && text.is_char_boundary(i + term.len()));
    }
}
