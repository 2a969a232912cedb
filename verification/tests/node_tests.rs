use egui_json_tree::delimiters::{Delimiters, ExpandableDelimiter, SpacingDelimiter};
use egui_json_tree::node::{
    base_value_plan, child_indent, default_open, expandable_layout, resolve_default_expand,
    ChildIndent, InnerExpand, ParentStatus, RenderItem, RenderTarget,
};
use egui_json_tree::pointer::JsonPointerSegment;
use egui_json_tree::value::{BaseValueType, ExpandableType, JsonTreeValue};
use egui_json_tree::{DefaultExpand, ToggleButtonsState};

fn boolean(b: bool) -> JsonTreeValue<'static> {
    JsonTreeValue::Base(b.to_string(), BaseValueType::Bool)
}

/// {"foo": {"bar": {"fizz": true}}}
fn document() -> JsonTreeValue<'static> {
    JsonTreeValue::object(vec![(
        "foo",
        JsonTreeValue::object(vec![("bar", JsonTreeValue::object(vec![("fizz", boolean(true))]))]),
    )])
}

#[test]
fn collapsed_root_shows_children_inline() {
    let value = document();
    let layout = expandable_layout(&value, false, true, false, false);
    assert_eq!(
        layout.header,
        vec![
            RenderItem::ExpandableDelimiter(RenderTarget::Node, ExpandableDelimiter::OpeningObject),
            RenderItem::Spacing(SpacingDelimiter::Empty),
            RenderItem::Property(RenderTarget::Entry(0)),
            RenderItem::Spacing(SpacingDelimiter::Colon),
            RenderItem::ExpandableDelimiter(RenderTarget::Entry(0), ExpandableDelimiter::CollapsedObject),
            RenderItem::Spacing(SpacingDelimiter::Empty),
            RenderItem::ExpandableDelimiter(RenderTarget::Node, ExpandableDelimiter::ClosingObject),
        ]
    );
    assert!(layout.footer.is_empty());
}

#[test]
fn collapsed_abbreviated_root_shows_one_token() {
    let value = document();
    let layout = expandable_layout(&value, false, true, false, true);
    assert_eq!(
        layout.header,
        vec![RenderItem::ExpandableDelimiter(RenderTarget::Node, ExpandableDelimiter::CollapsedObject)]
    );
    let array = JsonTreeValue::array(vec![boolean(true)]);
    let layout = expandable_layout(&array, false, true, false, true);
    assert_eq!(
        layout.header,
        vec![RenderItem::ExpandableDelimiter(RenderTarget::Node, ExpandableDelimiter::CollapsedArray)]
    );
}

#[test]
fn collapsed_root_array_hides_indices_and_separates_with_commas() {
    let value = JsonTreeValue::array(vec![
        boolean(true),
        JsonTreeValue::array(vec![]),
        JsonTreeValue::object(vec![("a", boolean(false))]),
    ]);
    let layout = expandable_layout(&value, false, true, false, false);
    assert_eq!(
        layout.header,
        vec![
            RenderItem::ExpandableDelimiter(RenderTarget::Node, ExpandableDelimiter::OpeningArray),
            RenderItem::Spacing(SpacingDelimiter::Empty),
            RenderItem::BaseValue(RenderTarget::Entry(0), ParentStatus::CollapsedRoot),
            RenderItem::Spacing(SpacingDelimiter::Comma),
            RenderItem::ExpandableDelimiter(RenderTarget::Entry(1), ExpandableDelimiter::CollapsedEmptyArray),
            RenderItem::Spacing(SpacingDelimiter::Comma),
            RenderItem::ExpandableDelimiter(RenderTarget::Entry(2), ExpandableDelimiter::CollapsedObject),
            RenderItem::Spacing(SpacingDelimiter::Empty),
            RenderItem::ExpandableDelimiter(RenderTarget::Node, ExpandableDelimiter::ClosingArray),
        ]
    );
}

#[test]
fn expanded_child_shows_property_and_opening_then_closing() {
    let value = document();
    let layout = expandable_layout(&value, true, false, true, false);
    assert_eq!(
        layout.header,
        vec![
            RenderItem::Property(RenderTarget::Node),
            RenderItem::Spacing(SpacingDelimiter::Colon),
            RenderItem::ExpandableDelimiter(RenderTarget::Node, ExpandableDelimiter::OpeningObject),
        ]
    );
    assert_eq!(
        layout.footer,
        vec![RenderItem::ExpandableDelimiter(RenderTarget::Node, ExpandableDelimiter::ClosingObject)]
    );
}

#[test]
fn collapsed_empty_child_shows_empty_token() {
    let value = JsonTreeValue::object(vec![]);
    let layout = expandable_layout(&value, true, false, false, false);
    assert_eq!(
        layout.header,
        vec![
            RenderItem::Property(RenderTarget::Node),
            RenderItem::Spacing(SpacingDelimiter::Colon),
            RenderItem::ExpandableDelimiter(RenderTarget::Node, ExpandableDelimiter::CollapsedEmptyObject),
        ]
    );
}

#[test]
fn base_value_plans() {
    assert_eq!(
        base_value_plan(false),
        vec![RenderItem::BaseValue(RenderTarget::Node, ParentStatus::NoParent)]
    );
    assert_eq!(
        base_value_plan(true),
        vec![
            RenderItem::Property(RenderTarget::Node),
            RenderItem::Spacing(SpacingDelimiter::Colon),
            RenderItem::BaseValue(RenderTarget::Node, ParentStatus::ExpandedParent),
        ]
    );
}

#[test]
fn default_open_by_level() {
    let level_one = InnerExpand::ToLevel(1);
    assert!(default_open(&level_one, &[]));
    assert!(default_open(&level_one, &[JsonPointerSegment::Key("foo")]));
    assert!(!default_open(
        &level_one,
        &[JsonPointerSegment::Key("foo"), JsonPointerSegment::Key("bar")]
    ));
    assert!(default_open(&InnerExpand::All, &[JsonPointerSegment::Index(3)]));
    assert!(!default_open(&InnerExpand::Collapsed, &[]));
}

#[test]
fn default_expand_search_results() {
    let value = document();
    let (expand, term) = resolve_default_expand(DefaultExpand::SearchResults("FIZZ"), &value, false);
    assert!(term.is_some());
    assert!(default_open(&expand, &[]));
    assert!(default_open(&expand, &[JsonPointerSegment::Key("foo")]));
    assert!(default_open(&expand, &[JsonPointerSegment::Key("foo"), JsonPointerSegment::Key("bar")]));
    let (expand, term) = resolve_default_expand(DefaultExpand::SearchResults(""), &value, false);
    assert!(term.is_none());
    assert!(!default_open(&expand, &[]));
}

#[test]
fn default_expand_search_results_or_all() {
    let value = document();
    let (expand, term) = resolve_default_expand(DefaultExpand::SearchResultsOrAll(""), &value, false);
    assert!(term.is_none());
    assert!(matches!(expand, InnerExpand::All));
    let (expand, term) = resolve_default_expand(DefaultExpand::SearchResultsOrAll("zzz"), &value, false);
    assert!(term.is_some());
    assert!(!default_open(&expand, &[]));
}

#[test]
fn default_expand_simple_settings() {
    let value = document();
    assert!(matches!(resolve_default_expand(DefaultExpand::All, &value, false).0, InnerExpand::All));
    assert!(matches!(
        resolve_default_expand(DefaultExpand::default(), &value, false).0,
        InnerExpand::Collapsed
    ));
    assert!(matches!(
        resolve_default_expand(DefaultExpand::ToLevel(2), &value, false).0,
        InnerExpand::ToLevel(2)
    ));
}

#[test]
fn child_indentation() {
    assert_eq!(child_indent(true, false), ChildIndent::Direct);
    assert_eq!(child_indent(false, false), ChildIndent::Indented { halved: false });
    assert_eq!(child_indent(true, true), ChildIndent::Indented { halved: true });
}

#[test]
fn toggle_buttons_state_enabled() {
    assert_eq!(ToggleButtonsState::VisibleEnabled.enabled(), Some(true));
    assert_eq!(ToggleButtonsState::VisibleDisabled.enabled(), Some(false));
    assert_eq!(ToggleButtonsState::Hidden.enabled(), None);
    assert_eq!(ToggleButtonsState::default(), ToggleButtonsState::VisibleEnabled);
}

#[test]
fn delimiter_texts() {
    assert_eq!(ExpandableDelimiter::CollapsedArray.as_ref(), "[...]");
    assert_eq!(ExpandableDelimiter::CollapsedEmptyObject.as_ref(), "{}");
    assert_eq!(SpacingDelimiter::Comma.as_ref(), ", ");
    assert_eq!(SpacingDelimiter::Colon.as_ref(), ": ");
    assert_eq!(SpacingDelimiter::Empty.as_ref(), " ");
    let d = Delimiters::of(ExpandableType::Object);
    assert_eq!(d.opening.as_ref(), "{");
    assert_eq!(d.closing.as_ref(), "}");
    assert_eq!(d.collapsed.as_ref(), "{...}");
}
