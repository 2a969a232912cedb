//! The decisions behind showing one node of a JSON tree: which arrays/objects start expanded,
//! and which render calls show a value, in which order.
use vstd::prelude::*;
use vstd::string::StringSliceAdditionalSpecFns;

use crate::default_expand::DefaultExpand;
use crate::delimiters::{delimiters_of, Delimiters, ExpandableDelimiter, SpacingDelimiter};
use crate::path_set::PathSet;
use crate::pointer::{path_view, JsonPointerSegment, SegmentView};
use crate::search::{
    lemma_search_reveals_matching_key, lemma_search_reveals_matching_value, lower_bytes,
    matching_paths, occurs_at, search_hits, SearchTerm,
};
use crate::pointer::segment_display;
use crate::value::{node_at, path_of, valid_positions, ExpandableType, JsonTreeValue, JsonTreeView};
use vstd::utf8::encode_utf8;

verus! {

/// How the arrays/objects of one tree expand by default, once its search (if any) is done.
pub enum InnerExpand<'a> {
    All,
    Collapsed,
    ToLevel(u8),
    Paths(PathSet<'a>),
}

/// The search paths to expand for a search string: none for an empty string.
pub open spec fn search_paths(value: JsonTreeView, search_str: Seq<u8>, abbreviate_root: bool) -> Set<
    Seq<SegmentView>,
> {
    if search_str.len() == 0 {
        Set::empty()
    } else {
        matching_paths(search_hits(value, lower_bytes(search_str), Seq::empty()), abbreviate_root)
    }
}

/// Resolves a [`DefaultExpand`] setting for `value`: searches it for a search string,
/// and returns the search term, if any, whose matches are to be highlighted.
pub fn resolve_default_expand<'a>(
    default_expand: DefaultExpand,
    value: &JsonTreeValue<'a>,
    abbreviate_root: bool,
) -> (res: (InnerExpand<'a>, Option<SearchTerm>))
    ensures
        match default_expand {
            DefaultExpand::All => res.0 is All && res.1 is None,
            DefaultExpand::Collapsed => res.0 is Collapsed && res.1 is None,
            DefaultExpand::ToLevel(level) => res.0 == InnerExpand::<'a>::ToLevel(level)
                && res.1 is None,
            DefaultExpand::SearchResults(search_str) => {
                &&& res.1 is Some <==> search_str@.len() > 0
                &&& res.1 matches Some(term) ==> term@ == lower_bytes(search_str.spec_bytes())
                &&& res.0 matches InnerExpand::Paths(paths) && paths@ == search_paths(
                    value@,
                    search_str.spec_bytes(),
                    abbreviate_root,
                )
            },
            DefaultExpand::SearchResultsOrAll(search_str) => if search_str@.len() == 0 {
                res.0 is All && res.1 is None
            } else {
                &&& res.1 matches Some(term) && term@ == lower_bytes(search_str.spec_bytes())
                &&& res.0 matches InnerExpand::Paths(paths) && paths@ == search_paths(
                    value@,
                    search_str.spec_bytes(),
                    abbreviate_root,
                )
            },
        },
{
    match default_expand {
        DefaultExpand::All => (InnerExpand::All, None),
        DefaultExpand::Collapsed => (InnerExpand::Collapsed, None),
        DefaultExpand::ToLevel(level) => (InnerExpand::ToLevel(level), None),
        DefaultExpand::SearchResults(search_str) => {
            let search_term = SearchTerm::parse(search_str);
            let paths = match &search_term {
                Some(term) => term.find_matching_paths_in(value, abbreviate_root),
                None => PathSet::new(),
            };
            proof {
                vstd::utf8::encode_utf8_decode_utf8(search_str@);
            }
            (InnerExpand::Paths(paths), search_term)
        },
        DefaultExpand::SearchResultsOrAll(search_str) => {
            let search_term = SearchTerm::parse(search_str);
            match search_term {
                Some(term) => {
                    let paths = term.find_matching_paths_in(value, abbreviate_root);
                    proof {
                        vstd::utf8::encode_utf8_decode_utf8(search_str@);
                    }
                    (InnerExpand::Paths(paths), Some(term))
                },
                None => (InnerExpand::All, None),
            }
        },
    }
}

/// Whether [`InnerExpand::ToLevel`] with `level` opens an array/object whose path has `depth`
/// segments: the depth is compared as a byte, so it wraps around past 255.
pub open spec fn opens_to_level(depth: nat, level: u8) -> bool {
    (depth as u8) <= level
}

/// Expanding to a level opens exactly the arrays/objects nested at most that many levels deep,
/// for every depth below 256.
pub proof fn lemma_to_level_opens_up_to_level(depth: nat, level: u8)
    requires
        depth < 256,
    ensures
        opens_to_level(depth, level) <==> depth <= level,
{
}

/// Whether the array/object at `path` starts expanded.
pub fn default_open(default_expand: &InnerExpand, path: &[JsonPointerSegment]) -> (res: bool)
    ensures
        res == match default_expand {
            InnerExpand::All => true,
            InnerExpand::Collapsed => false,
            InnerExpand::ToLevel(level) => opens_to_level(path@.len(), *level),
            InnerExpand::Paths(paths) => paths@.contains(path_view(path@)),
        },
{
    match default_expand {
        InnerExpand::All => true,
        InnerExpand::Collapsed => false,
        InnerExpand::ToLevel(num_levels_open) => (path.len() as u8) <= *num_levels_open,
        InnerExpand::Paths(search_match_paths) => search_match_paths.contains(path),
    }
}

/// Where a non-recursive value is shown.
#[derive(Debug, Clone, Copy, PartialEq, Eq, Hash, Structural)]
pub enum ParentStatus {
    /// The value is the whole document.
    NoParent,
    /// The value is a child of an expanded array/object.
    ExpandedParent,
    /// The value is a direct child of a collapsed root array/object.
    CollapsedRoot,
}

/// The value that a render call is about: the node being shown, or one of its entries.
#[derive(Debug, Clone, Copy, PartialEq, Eq, Hash, Structural)]
pub enum RenderTarget {
    /// The node itself (its property is the segment that leads to it from its parent).
    Node,
    /// The entry of the node's array/object at this position.
    Entry(usize),
}

/// One render call of a node: a property (array index or object key), a non-recursive value,
/// an array bracket or object brace, or spacing punctuation.
#[derive(Debug, Clone, Copy, PartialEq, Eq, Hash, Structural)]
pub enum RenderItem {
    Property(RenderTarget),
    BaseValue(RenderTarget, ParentStatus),
    ExpandableDelimiter(RenderTarget, ExpandableDelimiter),
    Spacing(SpacingDelimiter),
}

/// The render calls of a non-recursive value: its property and a colon when it has a parent,
/// then the value itself.
pub open spec fn base_value_items(has_parent: bool) -> Seq<RenderItem> {
    if has_parent {
        seq![
            RenderItem::Property(RenderTarget::Node),
            RenderItem::Spacing(SpacingDelimiter::Colon),
            RenderItem::BaseValue(RenderTarget::Node, ParentStatus::ExpandedParent),
        ]
    } else {
        seq![RenderItem::BaseValue(RenderTarget::Node, ParentStatus::NoParent)]
    }
}

/// The token shown for a collapsed array/object: `[...]`/`{...}`, or `[]`/`{}` when it is empty.
pub open spec fn collapsed_delimiter(expandable_type: ExpandableType, is_empty: bool) -> ExpandableDelimiter {
    if is_empty {
        delimiters_of(expandable_type).collapsed_empty
    } else {
        delimiters_of(expandable_type).collapsed
    }
}

/// The render calls for entry `i` of a collapsed root array/object shown inline:
/// the key and a colon (objects only; array indices are not shown), the value or the collapsed
/// token of a nested array/object, then a comma, or a space after the last entry.
pub open spec fn collapsed_root_entry_items(
    entries: Seq<(SegmentView, JsonTreeView)>,
    expandable_type: ExpandableType,
    i: int,
) -> Seq<RenderItem> {
    let target = RenderTarget::Entry(i as usize);
    (if expandable_type == ExpandableType::Object {
        seq![RenderItem::Property(target), RenderItem::Spacing(SpacingDelimiter::Colon)]
    } else {
        Seq::empty()
    }) + seq![
        match entries[i].1 {
            JsonTreeView::Base(..) => RenderItem::BaseValue(target, ParentStatus::CollapsedRoot),
            JsonTreeView::Expandable(nested, nested_type) => RenderItem::ExpandableDelimiter(
                target,
                collapsed_delimiter(nested_type, nested.len() == 0),
            ),
        },
    ] + seq![
        RenderItem::Spacing(
            if i == entries.len() - 1 {
                SpacingDelimiter::Empty
            } else {
                SpacingDelimiter::Comma
            },
        ),
    ]
}

/// The render calls for the first `n` entries of a collapsed root array/object shown inline.
pub open spec fn collapsed_root_items(
    entries: Seq<(SegmentView, JsonTreeView)>,
    expandable_type: ExpandableType,
    n: int,
) -> Seq<RenderItem>
    decreases n,
{
    if n <= 0 {
        Seq::empty()
    } else {
        collapsed_root_items(entries, expandable_type, n - 1) + collapsed_root_entry_items(
            entries,
            expandable_type,
            n - 1,
        )
    }
}

/// The render calls of the header line of an array/object.
/// - A collapsed root is shown as its collapsed token when abbreviated,
///   else inline: its opening token, a space, its entries, its closing token.
/// - Otherwise: its property and a colon when it has a parent, then its opening token when
///   expanded, else its collapsed token.
pub open spec fn header_items(
    value: JsonTreeView,
    has_parent: bool,
    is_root: bool,
    is_expanded: bool,
    abbreviate_root: bool,
) -> Seq<RenderItem> {
    match value {
        JsonTreeView::Base(..) => Seq::empty(),
        JsonTreeView::Expandable(entries, expandable_type) => {
            let delimiters = delimiters_of(expandable_type);
            if is_root && !is_expanded {
                if abbreviate_root {
                    seq![RenderItem::ExpandableDelimiter(RenderTarget::Node, delimiters.collapsed)]
                } else {
                    seq![
                        RenderItem::ExpandableDelimiter(RenderTarget::Node, delimiters.opening),
                        RenderItem::Spacing(SpacingDelimiter::Empty),
                    ] + collapsed_root_items(entries, expandable_type, entries.len() as int)
                        + seq![RenderItem::ExpandableDelimiter(RenderTarget::Node, delimiters.closing)]
                }
            } else {
                (if has_parent {
                    seq![
                        RenderItem::Property(RenderTarget::Node),
                        RenderItem::Spacing(SpacingDelimiter::Colon),
                    ]
                } else {
                    Seq::empty()
                }) + seq![
                    RenderItem::ExpandableDelimiter(
                        RenderTarget::Node,
                        if is_expanded {
                            delimiters.opening
                        } else {
                            collapsed_delimiter(expandable_type, entries.len() == 0)
                        },
                    ),
                ]
            }
        },
    }
}

/// The render calls after the body of an array/object: its closing token when expanded.
pub open spec fn footer_items(expandable_type: ExpandableType, is_expanded: bool) -> Seq<RenderItem> {
    if is_expanded {
        seq![RenderItem::ExpandableDelimiter(RenderTarget::Node, delimiters_of(expandable_type).closing)]
    } else {
        Seq::empty()
    }
}

/// The render calls of an array/object: before its body (the header line) and after it.
pub struct ExpandableLayout {
    pub header: Vec<RenderItem>,
    pub footer: Vec<RenderItem>,
}

/// How a child of an expanded array/object is placed in the body.
#[derive(Debug, Clone, Copy, PartialEq, Eq, Hash, Structural)]
pub enum ChildIndent {
    /// Directly in the body: a nested array/object brings its own toggle button.
    Direct,
    /// Within an extra indent, halved when the toggle buttons are hidden.
    Indented { halved: bool },
}

/// The render calls of a non-recursive value.
pub fn base_value_plan(has_parent: bool) -> (res: Vec<RenderItem>)
    ensures
        res@ == base_value_items(has_parent),
{
    let mut items: Vec<RenderItem> = Vec::new();
    if has_parent {
        items.push(RenderItem::Property(RenderTarget::Node));
        items.push(RenderItem::Spacing(SpacingDelimiter::Colon));
        items.push(RenderItem::BaseValue(RenderTarget::Node, ParentStatus::ExpandedParent));
    } else {
        items.push(RenderItem::BaseValue(RenderTarget::Node, ParentStatus::NoParent));
    }
    proof {
        assert(items@ =~= base_value_items(has_parent));
    }
    items
}

/// The token for a collapsed array/object of the given type and emptiness.
fn collapsed_token(expandable_type: ExpandableType, is_empty: bool) -> (res: ExpandableDelimiter)
    ensures
        res == collapsed_delimiter(expandable_type, is_empty),
{
    let delimiters = Delimiters::of(expandable_type);
    if is_empty {
        delimiters.collapsed_empty
    } else {
        delimiters.collapsed
    }
}

/// The render calls of the header line and after the body of the array/object `value`.
pub fn expandable_layout(
    value: &JsonTreeValue,
    has_parent: bool,
    is_root: bool,
    is_expanded: bool,
    abbreviate_root: bool,
) -> (res: ExpandableLayout)
    requires
        value is Expandable,
    ensures
        res.header@ == header_items(value@, has_parent, is_root, is_expanded, abbreviate_root),
        res.footer@ == footer_items(value->Expandable_1, is_expanded),
{
    let JsonTreeValue::Expandable(entries, expandable_type) = value else { unreached() };
    let expandable_type = *expandable_type;
    let delimiters = Delimiters::of(expandable_type);
    let ghost view_entries = value@->Expandable_0;
    let mut header: Vec<RenderItem> = Vec::new();
    if is_root && !is_expanded {
        if abbreviate_root {
            header.push(RenderItem::ExpandableDelimiter(RenderTarget::Node, delimiters.collapsed));
            proof {
                assert(header@ =~= header_items(value@, has_parent, is_root, is_expanded, abbreviate_root));
            }
        } else {
            header.push(RenderItem::ExpandableDelimiter(RenderTarget::Node, delimiters.opening));
            header.push(RenderItem::Spacing(SpacingDelimiter::Empty));
            let ghost start = header@;
            let entries_len = entries.len();
            let mut idx: usize = 0;
            while idx < entries_len
                invariant
                    *value == JsonTreeValue::Expandable(*entries, expandable_type),
                    view_entries == value@->Expandable_0,
                    entries_len == entries@.len(),
                    idx <= entries_len,
                    header@ == start + collapsed_root_items(view_entries, expandable_type, idx as int),
                decreases entries_len - idx,
            {
                let ghost before = header@;
                let target = RenderTarget::Entry(idx);
                // Don't show array indices when the array is collapsed.
                if expandable_type == ExpandableType::Object {
                    header.push(RenderItem::Property(target));
                    header.push(RenderItem::Spacing(SpacingDelimiter::Colon));
                }
                let elem = &entries[idx].1;
                assert(view_entries[idx as int].1 == elem@);
                match elem {
                    JsonTreeValue::Base(..) => {
                        header.push(RenderItem::BaseValue(target, ParentStatus::CollapsedRoot));
                    },
                    JsonTreeValue::Expandable(nested_entries, nested_type) => {
                        header.push(
                            RenderItem::ExpandableDelimiter(
                                target,
                                collapsed_token(*nested_type, nested_entries.len() == 0),
                            ),
                        );
                    },
                }
                let spacing = if idx == entries_len - 1 {
                    SpacingDelimiter::Empty
                } else {
                    SpacingDelimiter::Comma
                };
                header.push(RenderItem::Spacing(spacing));
                proof {
                    assert(header@ =~= before + collapsed_root_entry_items(
                        view_entries,
                        expandable_type,
                        idx as int,
                    ));
                    assert(header@ =~= start + collapsed_root_items(
                        view_entries,
                        expandable_type,
                        idx + 1,
                    ));
                }
                idx = idx + 1;
            }
            header.push(RenderItem::ExpandableDelimiter(RenderTarget::Node, delimiters.closing));
            proof {
                assert(header@ =~= header_items(value@, has_parent, is_root, is_expanded, abbreviate_root));
            }
        }
    } else {
        if has_parent {
            header.push(RenderItem::Property(RenderTarget::Node));
            header.push(RenderItem::Spacing(SpacingDelimiter::Colon));
        }
        if is_expanded {
            header.push(RenderItem::ExpandableDelimiter(RenderTarget::Node, delimiters.opening));
        } else {
            header.push(
                RenderItem::ExpandableDelimiter(
                    RenderTarget::Node,
                    collapsed_token(expandable_type, entries.len() == 0),
                ),
            );
        }
        proof {
            assert(header@ =~= header_items(value@, has_parent, is_root, is_expanded, abbreviate_root));
        }
    }
    let mut footer: Vec<RenderItem> = Vec::new();
    if is_expanded {
        footer.push(RenderItem::ExpandableDelimiter(RenderTarget::Node, delimiters.closing));
    }
    proof {
        assert(footer@ =~= footer_items(expandable_type, is_expanded));
    }
    ExpandableLayout { header, footer }
}

/// How a child is placed in the body of an expanded array/object.
pub fn child_indent(is_expandable: bool, toggle_buttons_hidden: bool) -> (res: ChildIndent)
    ensures
        res == if is_expandable && !toggle_buttons_hidden {
            ChildIndent::Direct
        } else {
            ChildIndent::Indented { halved: toggle_buttons_hidden }
        },
{
    if is_expandable && !toggle_buttons_hidden {
        ChildIndent::Direct
    } else {
        ChildIndent::Indented { halved: toggle_buttons_hidden }
    }
}

/// Whether a tree resets its arrays/objects to their default expansion this frame: when a reset was
/// requested, or, with automatic resets, when the expansion setting differs from the one of the
/// previous frame (identified by a hash; there is none on the first frame).
pub fn should_reset_expanded(
    reset_requested: bool,
    auto_reset_expanded: bool,
    previous_setting: Option<u64>,
    current_setting: u64,
) -> (res: bool)
    ensures
        res == (reset_requested || (auto_reset_expanded && (previous_setting matches Some(previous)
            && previous != current_setting))),
{
    let changed = match previous_setting {
        Some(previous) => previous != current_setting,
        None => false,
    };
    reset_requested || (auto_reset_expanded && changed)
}

/// The entry whose value (or collapsed token) a render call shows, if it shows one.
pub open spec fn entry_shown(item: RenderItem) -> Option<usize> {
    match item {
        RenderItem::BaseValue(RenderTarget::Entry(i), _) => Some(i),
        RenderItem::ExpandableDelimiter(RenderTarget::Entry(i), _) => Some(i),
        _ => None,
    }
}

/// The entries whose values are shown by a sequence of render calls, in order.
pub open spec fn entries_shown(items: Seq<RenderItem>) -> Seq<usize>
    decreases items.len(),
{
    if items.len() == 0 {
        Seq::empty()
    } else {
        entries_shown(items.drop_last()) + match entry_shown(items.last()) {
            Some(i) => seq![i],
            None => Seq::empty(),
        }
    }
}

proof fn lemma_entries_shown_concat(a: Seq<RenderItem>, b: Seq<RenderItem>)
    ensures
        entries_shown(a + b) == entries_shown(a) + entries_shown(b),
    decreases b.len(),
{
    if b.len() == 0 {
        assert(a + b =~= a);
        assert(entries_shown(a) + entries_shown(b) =~= entries_shown(a));
    } else {
        lemma_entries_shown_concat(a, b.drop_last());
        assert((a + b).drop_last() =~= a + b.drop_last());
        assert(entries_shown(a + b) =~= entries_shown(a) + entries_shown(b));
    }
}

proof fn lemma_entries_shown_of_entry(
    entries: Seq<(SegmentView, JsonTreeView)>,
    expandable_type: ExpandableType,
    i: int,
)
    requires
        0 <= i < entries.len() <= usize::MAX,
    ensures
        entries_shown(collapsed_root_entry_items(entries, expandable_type, i)) == seq![i as usize],
{
    reveal_with_fuel(entries_shown, 5);
    let items = collapsed_root_entry_items(entries, expandable_type, i);
    let prefix = if expandable_type == ExpandableType::Object {
        seq![
            RenderItem::Property(RenderTarget::Entry(i as usize)),
            RenderItem::Spacing(SpacingDelimiter::Colon),
        ]
    } else {
        Seq::empty()
    };
    assert(entries_shown(prefix) =~= Seq::<usize>::empty()) by {
        if prefix.len() == 2 {
            assert(prefix.drop_last().drop_last() =~= Seq::<RenderItem>::empty());
            assert(prefix.drop_last().last() == prefix[0]);
        }
    }
    let rest = items.subrange(prefix.len() as int, items.len() as int);
    assert(items =~= prefix + rest);
    assert(rest.len() == 2);
    assert(rest.drop_last().drop_last() =~= Seq::<RenderItem>::empty());
    assert(entries_shown(rest) =~= seq![i as usize]);
    lemma_entries_shown_concat(prefix, rest);
}

/// A collapsed root shown inline shows the value (or collapsed token) of each of its entries
/// exactly once, in the order of the entries.
pub proof fn lemma_collapsed_root_shows_each_entry(
    entries: Seq<(SegmentView, JsonTreeView)>,
    expandable_type: ExpandableType,
    n: int,
)
    requires
        0 <= n <= entries.len() <= usize::MAX,
    ensures
        entries_shown(collapsed_root_items(entries, expandable_type, n)) == Seq::new(
            n as nat,
            |i: int| i as usize,
        ),
    decreases n,
{
    if n == 0 {
        assert(entries_shown(collapsed_root_items(entries, expandable_type, n)) =~= Seq::new(
            n as nat,
            |i: int| i as usize,
        ));
    } else {
        lemma_collapsed_root_shows_each_entry(entries, expandable_type, n - 1);
        lemma_entries_shown_of_entry(entries, expandable_type, n - 1);
        lemma_entries_shown_concat(
            collapsed_root_items(entries, expandable_type, n - 1),
            collapsed_root_entry_items(entries, expandable_type, n - 1),
        );
        assert(entries_shown(collapsed_root_items(entries, expandable_type, n)) =~= Seq::new(
            n as nat,
            |i: int| i as usize,
        ));
    }
}

/// The header of a collapsed root: a single collapsed token when abbreviated; otherwise the value
/// (or collapsed token) of every entry, each once and in order, between the opening and closing
/// tokens.
pub proof fn lemma_collapsed_root_header(value: JsonTreeView, has_parent: bool, abbreviate_root: bool)
    requires
        value is Expandable,
        value->Expandable_0.len() <= usize::MAX,
    ensures
        ({
            let header = header_items(value, has_parent, true, false, abbreviate_root);
            let entries = value->Expandable_0;
            let delimiters = delimiters_of(value->Expandable_1);
            &&& abbreviate_root ==> header == seq![
                RenderItem::ExpandableDelimiter(RenderTarget::Node, delimiters.collapsed),
            ]
            &&& !abbreviate_root ==> {
                &&& header[0] == RenderItem::ExpandableDelimiter(RenderTarget::Node, delimiters.opening)
                &&& header.last() == RenderItem::ExpandableDelimiter(RenderTarget::Node, delimiters.closing)
                &&& entries_shown(header) == Seq::new(entries.len(), |i: int| i as usize)
            }
        }),
{
    if !abbreviate_root {
        let entries = value->Expandable_0;
        let ty = value->Expandable_1;
        let delimiters = delimiters_of(ty);
        let open = seq![
            RenderItem::ExpandableDelimiter(RenderTarget::Node, delimiters.opening),
            RenderItem::Spacing(SpacingDelimiter::Empty),
        ];
        let middle = collapsed_root_items(entries, ty, entries.len() as int);
        let close = seq![RenderItem::ExpandableDelimiter(RenderTarget::Node, delimiters.closing)];
        lemma_collapsed_root_shows_each_entry(entries, ty, entries.len() as int);
        lemma_entries_shown_concat(open, middle);
        lemma_entries_shown_concat(open + middle, close);
        reveal_with_fuel(entries_shown, 3);
        assert(open.drop_last().drop_last() =~= Seq::<RenderItem>::empty());
        assert(entries_shown(open) =~= Seq::<usize>::empty());
        assert(close.drop_last() =~= Seq::<RenderItem>::empty());
        assert(entries_shown(close) =~= Seq::<usize>::empty());
        assert(header_items(value, has_parent, true, false, abbreviate_root) == open + middle + close);
        assert(entries_shown(open + middle + close) =~= entries_shown(middle));
    }
}

/// The number of render calls per entry of a collapsed root shown inline: key, colon, value and
/// punctuation for an object; value and punctuation for an array.
pub open spec fn inline_entry_width(expandable_type: ExpandableType) -> int {
    if expandable_type == ExpandableType::Object {
        4
    } else {
        2
    }
}

/// The render call that shows the value of entry `i` of a collapsed root: a non-recursive value
/// as it is, a nested array/object as its collapsed token (`[]`/`{}` when empty, else `[...]`/`{...}`).
pub open spec fn inline_value_item(entries: Seq<(SegmentView, JsonTreeView)>, i: int) -> RenderItem {
    let target = RenderTarget::Entry(i as usize);
    match entries[i].1 {
        JsonTreeView::Base(..) => RenderItem::BaseValue(target, ParentStatus::CollapsedRoot),
        JsonTreeView::Expandable(nested, ExpandableType::Array) => RenderItem::ExpandableDelimiter(
            target,
            if nested.len() == 0 {
                ExpandableDelimiter::CollapsedEmptyArray
            } else {
                ExpandableDelimiter::CollapsedArray
            },
        ),
        JsonTreeView::Expandable(nested, ExpandableType::Object) => RenderItem::ExpandableDelimiter(
            target,
            if nested.len() == 0 {
                ExpandableDelimiter::CollapsedEmptyObject
            } else {
                ExpandableDelimiter::CollapsedObject
            },
        ),
    }
}

proof fn lemma_collapsed_root_items_positions(
    entries: Seq<(SegmentView, JsonTreeView)>,
    expandable_type: ExpandableType,
    n: int,
)
    requires
        0 <= n <= entries.len(),
    ensures
        ({
            let items = collapsed_root_items(entries, expandable_type, n);
            let w = inline_entry_width(expandable_type);
            &&& items.len() == w * n
            &&& forall|i: int, k: int|
                0 <= i < n && 0 <= k < w ==> #[trigger] items[w * i + k]
                    == collapsed_root_entry_items(entries, expandable_type, i)[k]
        }),
    decreases n,
{
    let w = inline_entry_width(expandable_type);
    if n > 0 {
        lemma_collapsed_root_items_positions(entries, expandable_type, n - 1);
        let before = collapsed_root_items(entries, expandable_type, n - 1);
        let last = collapsed_root_entry_items(entries, expandable_type, n - 1);
        assert(last.len() == w);
        let items = collapsed_root_items(entries, expandable_type, n);
        assert(items == before + last);
        assert forall|i: int, k: int| 0 <= i < n && 0 <= k < w implies #[trigger] items[w * i + k]
            == collapsed_root_entry_items(entries, expandable_type, i)[k] by {
            if i < n - 1 {
                assert(w * i + k < w * (n - 1)) by (nonlinear_arith)
                    requires
                        0 <= i < n - 1,
                        0 <= k < w,
                ;
            } else {
                assert(w * i + k - w * (n - 1) == k) by (nonlinear_arith)
                    requires
                        i == n - 1,
                ;
            }
        }
    }
}

/// A collapsed root that is not abbreviated is shown inline: its opening token, a space, then for
/// each entry in order its key and a colon (objects only: array indices are never shown), its value
/// or the collapsed token of its nested array/object, and a comma, or a space after the last
/// entry; then its closing token. Every object entry gets its key, whatever the kind of its value.
pub proof fn lemma_collapsed_root_inline_layout(value: JsonTreeView, has_parent: bool)
    requires
        value is Expandable,
        value->Expandable_0.len() <= usize::MAX,
    ensures
        ({
            let header = header_items(value, has_parent, true, false, false);
            let entries = value->Expandable_0;
            let is_object = value->Expandable_1 == ExpandableType::Object;
            let n = entries.len() as int;
            let w = if is_object {
                4int
            } else {
                2int
            };
            &&& header.len() == w * n + 3
            &&& header[0] == RenderItem::ExpandableDelimiter(
                RenderTarget::Node,
                if is_object {
                    ExpandableDelimiter::OpeningObject
                } else {
                    ExpandableDelimiter::OpeningArray
                },
            )
            &&& header[1] == RenderItem::Spacing(SpacingDelimiter::Empty)
            &&& header.last() == RenderItem::ExpandableDelimiter(
                RenderTarget::Node,
                if is_object {
                    ExpandableDelimiter::ClosingObject
                } else {
                    ExpandableDelimiter::ClosingArray
                },
            )
            &&& forall|i: int|
                0 <= i < n ==> {
                    &&& is_object ==> header[2 + w * i] == RenderItem::Property(
                        RenderTarget::Entry(i as usize),
                    ) && header[2 + w * i + 1] == RenderItem::Spacing(SpacingDelimiter::Colon)
                    &&& header[2 + w * i + w - 2] == #[trigger] inline_value_item(entries, i)
                    &&& header[2 + w * i + w - 1] == RenderItem::Spacing(
                        if i == n - 1 {
                            SpacingDelimiter::Empty
                        } else {
                            SpacingDelimiter::Comma
                        },
                    )
                }
            &&& !is_object ==> forall|p: int| 0 <= p < header.len() ==> !(#[trigger] header[p] is Property)
        }),
{
    let entries = value->Expandable_0;
    let ty = value->Expandable_1;
    let is_object = ty == ExpandableType::Object;
    let n = entries.len() as int;
    let w = inline_entry_width(ty);
    let delimiters = delimiters_of(ty);
    let open = seq![
        RenderItem::ExpandableDelimiter(RenderTarget::Node, delimiters.opening),
        RenderItem::Spacing(SpacingDelimiter::Empty),
    ];
    let middle = collapsed_root_items(entries, ty, n);
    let close = seq![RenderItem::ExpandableDelimiter(RenderTarget::Node, delimiters.closing)];
    let header = header_items(value, has_parent, true, false, false);
    assert(header == open + middle + close);
    lemma_collapsed_root_items_positions(entries, ty, n);
    assert forall|i: int| 0 <= i < n implies {
        &&& is_object ==> header[2 + w * i] == RenderItem::Property(
            RenderTarget::Entry(i as usize),
        ) && header[2 + w * i + 1] == RenderItem::Spacing(SpacingDelimiter::Colon)
        &&& header[2 + w * i + w - 2] == #[trigger] inline_value_item(entries, i)
        &&& header[2 + w * i + w - 1] == RenderItem::Spacing(
            if i == n - 1 {
                SpacingDelimiter::Empty
            } else {
                SpacingDelimiter::Comma
            },
        )
    } by {
        let at = 2 + w * i;
        let e = collapsed_root_entry_items(entries, ty, i);
        assert(w * i + w <= w * n) by (nonlinear_arith)
            requires
                0 <= i < n,
                w > 0,
        ;
        assert(0 <= w * i) by (nonlinear_arith)
            requires
                0 <= i,
                w > 0,
        ;
        assert(header[at] == middle[w * i + 0]);
        assert(header[at + 1] == middle[w * i + 1]);
        assert(header[at + w - 2] == middle[w * i + (w - 2)]);
        assert(header[at + w - 1] == middle[w * i + (w - 1)]);
        if is_object {
            assert(e[0] == RenderItem::Property(RenderTarget::Entry(i as usize)));
            assert(e[1] == RenderItem::Spacing(SpacingDelimiter::Colon));
        }
        assert(e[w - 2] == inline_value_item(entries, i));
    }
    if !is_object {
        assert forall|p: int| 0 <= p < header.len() implies !(#[trigger] header[p] is Property) by {
            if 2 <= p < 2 + w * n {
                let q = p - 2;
                let i = q / 2;
                let k = q % 2;
                assert(q == 2 * i + k && 0 <= k < 2);
                assert(0 <= i < n) by (nonlinear_arith)
                    requires
                        q == 2 * i + k,
                        0 <= k < 2,
                        0 <= q < 2 * n,
                ;
                assert(header[p] == middle[w * i + k]);
            }
        }
    }
}

/// Searching for a non-empty search string reveals every non-recursive value whose text holds it,
/// ignoring ASCII letter case, whatever the type of the value: the arrays/objects that enclose it
/// all start expanded. With an abbreviated root this holds of every match, top level ones included
/// (the root `{...}`/`[...]` is expanded); otherwise of every match below the top level.
pub proof fn lemma_search_results_reveal_matching_value(
    value: JsonTreeView,
    search_str: Seq<u8>,
    idxs: Seq<int>,
    j: int,
    abbreviate_root: bool,
)
    requires
        search_str.len() > 0,
        valid_positions(value, idxs),
        node_at(value, idxs) is Base,
        occurs_at(lower_bytes(encode_utf8(node_at(value, idxs)->Base_0)), lower_bytes(search_str), j),
        abbreviate_root || idxs.len() >= 2,
    ensures
        forall|k: int|
            0 <= k < idxs.len() ==> search_paths(value, search_str, abbreviate_root).contains(
                #[trigger] path_of(value, idxs).take(k),
            ),
{
    lemma_search_reveals_matching_value(value, lower_bytes(search_str), idxs, j, abbreviate_root);
}

/// Searching for a non-empty search string reveals every object key that holds it, ignoring ASCII
/// letter case: the arrays/objects that enclose its entry all start expanded. With an abbreviated
/// root this holds of every match, top level keys included; otherwise of every key below the top level.
pub proof fn lemma_search_results_reveal_matching_key(
    value: JsonTreeView,
    search_str: Seq<u8>,
    idxs: Seq<int>,
    j: int,
    abbreviate_root: bool,
)
    requires
        search_str.len() > 0,
        valid_positions(value, idxs),
        idxs.len() > 0,
        node_at(value, idxs.drop_last()) is Expandable,
        node_at(value, idxs.drop_last())->Expandable_1 == ExpandableType::Object,
        occurs_at(
            lower_bytes(encode_utf8(segment_display(path_of(value, idxs).last()))),
            lower_bytes(search_str),
            j,
        ),
        abbreviate_root || idxs.len() >= 2,
    ensures
        forall|k: int|
            0 <= k < idxs.len() ==> search_paths(value, search_str, abbreviate_root).contains(
                #[trigger] path_of(value, idxs).take(k),
            ),
{
    lemma_search_reveals_matching_key(value, lower_bytes(search_str), idxs, j, abbreviate_root);
}

} // verus!
