//! What is drawn for a property or a non-recursive value: the colors, the quotes,
//! and the highlighting of search matches.
use vstd::prelude::*;
use vstd::string::StringSliceAdditionalSpecFns;

use crate::pointer::{segment_display, JsonPointerSegment, SegmentView};
use crate::search::{
    is_search_term, lemma_match_indices_on_char_boundaries, lemma_match_indices_well_formed,
    lower_bytes, match_indices, SearchTerm,
};
use vstd::utf8::{
    encode_utf8, encode_utf8_valid_utf8, is_char_boundary, is_char_boundary_start_end_of_seq,
};
use crate::value::BaseValueType;

verus! {

/// An RGBA color with premultiplied alpha, as held by `egui::Color32`.
#[derive(Debug, Clone, Copy, PartialEq, Eq, Hash, Structural)]
pub struct Rgba {
    pub r: u8,
    pub g: u8,
    pub b: u8,
    pub a: u8,
}

impl Rgba {
    /// An opaque color.
    pub fn from_rgb(r: u8, g: u8, b: u8) -> (res: Self)
        ensures
            res == (Rgba { r, g, b, a: 255 }),
    {
        Rgba { r, g, b, a: 255 }
    }

    /// An opaque gray.
    pub fn from_gray(l: u8) -> (res: Self)
        ensures
            res == (Rgba { r: l, g: l, b: l, a: 255 }),
    {
        Rgba { r: l, g: l, b: l, a: 255 }
    }

    /// A color from premultiplied components.
    pub fn from_rgba_premultiplied(r: u8, g: u8, b: u8, a: u8) -> (res: Self)
        ensures
            res == (Rgba { r, g, b, a }),
    {
        Rgba { r, g, b, a }
    }
}

/// Colors for JSON syntax highlighting, and search match highlighting.
#[derive(Debug, Clone, Copy, PartialEq, Eq, Hash, Structural)]
pub struct JsonTreeVisuals {
    pub object_key_color: Rgba,
    pub array_idx_color: Rgba,
    pub null_color: Rgba,
    pub bool_color: Rgba,
    pub number_color: Rgba,
    pub string_color: Rgba,
    pub highlight_color: Rgba,
    /// The color for array brackets, object braces, colons and commas.
    pub punctuation_color: Rgba,
}

/// The dark color scheme.
pub open spec fn dark_visuals() -> JsonTreeVisuals {
    JsonTreeVisuals {
        object_key_color: Rgba { r: 161, g: 206, b: 235, a: 255 },
        array_idx_color: Rgba { r: 96, g: 103, b: 168, a: 255 },
        null_color: Rgba { r: 103, g: 154, b: 209, a: 255 },
        bool_color: Rgba { r: 103, g: 154, b: 209, a: 255 },
        number_color: Rgba { r: 181, g: 199, b: 166, a: 255 },
        string_color: Rgba { r: 194, g: 146, b: 122, a: 255 },
        highlight_color: Rgba { r: 72, g: 72, b: 72, a: 50 },
        punctuation_color: Rgba { r: 140, g: 140, b: 140, a: 255 },
    }
}

/// The light color scheme.
pub open spec fn light_visuals() -> JsonTreeVisuals {
    JsonTreeVisuals {
        object_key_color: Rgba { r: 23, g: 74, b: 151, a: 255 },
        array_idx_color: Rgba { r: 158, g: 46, b: 103, a: 255 },
        null_color: Rgba { r: 40, g: 34, b: 245, a: 255 },
        bool_color: Rgba { r: 40, g: 34, b: 245, a: 255 },
        number_color: Rgba { r: 1, g: 97, b: 63, a: 255 },
        string_color: Rgba { r: 149, g: 38, b: 31, a: 255 },
        highlight_color: Rgba { r: 181, g: 213, b: 251, a: 255 },
        punctuation_color: Rgba { r: 70, g: 70, b: 70, a: 255 },
    }
}

/// The color of a non-recursive value of the given type.
pub open spec fn value_color(visuals: JsonTreeVisuals, value_type: BaseValueType) -> Rgba {
    match value_type {
        BaseValueType::Null => visuals.null_color,
        BaseValueType::Bool => visuals.bool_color,
        BaseValueType::Number => visuals.number_color,
        BaseValueType::String => visuals.string_color,
    }
}

/// Each type of non-recursive value is drawn in the color of its own field of the color scheme:
/// null values in `null_color`, booleans in `bool_color`, numbers in `number_color` and strings in
/// `string_color`.
pub proof fn lemma_value_color_per_type(visuals: JsonTreeVisuals)
    ensures
        value_color(visuals, BaseValueType::Null) == visuals.null_color,
        value_color(visuals, BaseValueType::Bool) == visuals.bool_color,
        value_color(visuals, BaseValueType::Number) == visuals.number_color,
        value_color(visuals, BaseValueType::String) == visuals.string_color,
{
}

impl Default for JsonTreeVisuals {
    fn default() -> (res: Self)
        ensures
            res == dark_visuals(),
    {
        JsonTreeVisuals::dark()
    }
}

impl JsonTreeVisuals {
    /// The dark color scheme.
    pub fn dark() -> (res: Self)
        ensures
            res == dark_visuals(),
    {
        JsonTreeVisuals {
            object_key_color: Rgba::from_rgb(161, 206, 235),
            array_idx_color: Rgba::from_rgb(96, 103, 168),
            null_color: Rgba::from_rgb(103, 154, 209),
            bool_color: Rgba::from_rgb(103, 154, 209),
            number_color: Rgba::from_rgb(181, 199, 166),
            string_color: Rgba::from_rgb(194, 146, 122),
            highlight_color: Rgba::from_rgba_premultiplied(72, 72, 72, 50),
            punctuation_color: Rgba::from_gray(140),
        }
    }

    /// The light color scheme.
    pub fn light() -> (res: Self)
        ensures
            res == light_visuals(),
    {
        JsonTreeVisuals {
            object_key_color: Rgba::from_rgb(23, 74, 151),
            array_idx_color: Rgba::from_rgb(158, 46, 103),
            null_color: Rgba::from_rgb(40, 34, 245),
            bool_color: Rgba::from_rgb(40, 34, 245),
            number_color: Rgba::from_rgb(1, 97, 63),
            string_color: Rgba::from_rgb(149, 38, 31),
            highlight_color: Rgba::from_rgba_premultiplied(181, 213, 251, 255),
            punctuation_color: Rgba::from_gray(70),
        }
    }

    /// The color of a non-recursive value of the given type.
    pub fn get_color(&self, base_value_type: &BaseValueType) -> (res: Rgba)
        ensures
            res == value_color(*self, *base_value_type),
            *base_value_type == BaseValueType::Null ==> res == self.null_color,
            *base_value_type == BaseValueType::Bool ==> res == self.bool_color,
            *base_value_type == BaseValueType::Number ==> res == self.number_color,
            *base_value_type == BaseValueType::String ==> res == self.string_color,
    {
        match base_value_type {
            BaseValueType::Null => self.null_color,
            BaseValueType::Bool => self.bool_color,
            BaseValueType::Number => self.number_color,
            BaseValueType::String => self.string_color,
        }
    }
}

/// The color scheme to use: the configured one, else the dark or light scheme that matches the UI.
pub fn resolve_visuals(visuals: &Option<JsonTreeVisuals>, dark_mode: bool) -> (res: JsonTreeVisuals)
    ensures
        res == match *visuals {
            Some(configured) => configured,
            None => if dark_mode {
                dark_visuals()
            } else {
                light_visuals()
            },
        },
{
    match visuals {
        Some(visuals) => *visuals,
        None => if dark_mode {
            JsonTreeVisuals::dark()
        } else {
            JsonTreeVisuals::light()
        },
    }
}

/// A byte range `start..end` of a text, highlighted as a search match or not.
#[derive(Debug, Clone, Copy, PartialEq, Eq, Hash, Structural)]
pub struct TextSpan {
    pub start: usize,
    pub end: usize,
    pub highlighted: bool,
}

/// The match positions to highlight in a text: none without a search term.
pub open spec fn highlight_positions(text: Seq<u8>, search_term: Option<&SearchTerm>) -> Seq<int> {
    match search_term {
        Some(term) => match_indices(text, term@),
        None => Seq::empty(),
    }
}

/// The length of a search term, zero without one.
pub open spec fn highlight_len(search_term: Option<&SearchTerm>) -> int {
    match search_term {
        Some(term) => term@.len() as int,
        None => 0,
    }
}

/// Span `k` of a text of length `len` with matches of length `n` at `m`: the text before
/// match `k / 2` (or after the last match) for even `k`, match `k / 2` for odd `k`.
pub open spec fn highlight_span(len: int, m: Seq<int>, n: int, k: int) -> TextSpan {
    let j = k / 2;
    if k % 2 == 0 {
        TextSpan {
            start: (if j == 0 {
                0
            } else {
                m[j - 1] + n
            }) as usize,
            end: (if j < m.len() {
                m[j]
            } else {
                len
            }) as usize,
            highlighted: false,
        }
    } else {
        TextSpan { start: m[j] as usize, end: (m[j] + n) as usize, highlighted: true }
    }
}

/// The spans of a text with matches of length `n` at `m`: the text between the matches and
/// the matches themselves, alternately; one plain span of the whole text when nothing matches.
pub open spec fn highlight_spans_of(len: int, m: Seq<int>, n: int) -> Seq<TextSpan> {
    Seq::new((2 * m.len() + 1) as nat, |k: int| highlight_span(len, m, n, k))
}

/// Splits `text` into spans to draw plainly and spans to highlight as matches of `search_term`.
/// The spans are consecutive and cover the whole text; each highlighted span is a match,
/// i.e. its ASCII lower case bytes are the term.
#[verifier::rlimit(40)]
pub fn highlight_spans(text: &str, search_term: Option<&SearchTerm>) -> (res: Vec<TextSpan>)
    ensures
        res@ == highlight_spans_of(
            text.spec_bytes().len() as int,
            highlight_positions(text.spec_bytes(), search_term),
            highlight_len(search_term),
        ),
        res@.len() > 0,
        res@[0].start == 0,
        res@.last().end == text.spec_bytes().len(),
        forall|k: int| 0 <= k < res@.len() ==> #[trigger] res@[k].start <= res@[k].end,
        forall|k: int| 0 <= k < res@.len() - 1 ==> #[trigger] res@[k].end == res@[k + 1].start,
        forall|k: int|
            0 <= k < res@.len() && #[trigger] res@[k].highlighted ==> (search_term matches Some(term)
                && lower_bytes(text.spec_bytes()).subrange(res@[k].start as int, res@[k].end as int)
                == term@),
        forall|k: int|
            0 <= k < res@.len() ==> is_char_boundary(text.spec_bytes(), #[trigger] res@[k].start as int)
                && is_char_boundary(text.spec_bytes(), res@[k].end as int),
{
    let len = text.as_bytes().len();
    let ghost bytes = text.spec_bytes();
    if let Some(term) = search_term {
        proof {
            use_type_invariant(term);
        }
    }

    let mut spans: Vec<TextSpan> = Vec::new();
    if let Some(search_term) = search_term {
        let matches = search_term.find_match_indices_in(text);
        let n = search_term.len();
        let ghost m = matches@.map_values(|i: usize| i as int);
        proof {
            lemma_match_indices_well_formed(bytes, search_term@);
        }
        if !matches.is_empty() {
            let mut start: usize = 0;
            let mut j: usize = 0;
            while j < matches.len()
                invariant
                    bytes == text.spec_bytes(),
                    len == bytes.len(),
                    m == matches@.map_values(|i: usize| i as int),
                    m == match_indices(bytes, search_term@),
                    n == search_term@.len(),
                    forall|a: int| 0 <= a < m.len() ==> 0 <= #[trigger] m[a] && m[a] + n <= len,
                    forall|a: int, b: int| 0 <= a < b < m.len() ==> #[trigger] m[a] + n <= #[trigger] m[b],
                    j <= matches@.len(),
                    spans@.len() == 2 * j,
                    start == (if j == 0 {
                        0
                    } else {
                        m[j - 1] + n
                    }),
                    forall|k: int| 0 <= k < 2 * j ==> #[trigger] spans@[k] == highlight_span(len as int, m, n as int, k),
                decreases matches@.len() - j,
            {
                let match_idx = matches[j];
                assert(m[j as int] == match_idx);
                if j > 0 {
                    assert(m[j - 1] + n <= m[j as int]);
                }
                spans.push(TextSpan { start, end: match_idx, highlighted: false });
                let highlight_end_idx = match_idx + n;
                spans.push(TextSpan { start: match_idx, end: highlight_end_idx, highlighted: true });
                proof {
                    assert((2 * j) / 2 == j && (2 * j) % 2 == 0);
                    assert((2 * j + 1) / 2 == j && (2 * j + 1) % 2 == 1);
                    assert forall|k: int| 0 <= k < 2 * (j + 1) implies #[trigger] spans@[k] == highlight_span(len as int, m, n as int, k) by {
                        if k == 2 * j {
                        } else if k == 2 * j + 1 {
                        }
                    }
                }
                start = highlight_end_idx;
                j = j + 1;
            }
            spans.push(TextSpan { start, end: len, highlighted: false });
            proof {
                let k = 2 * j;
                assert(k / 2 == j && k % 2 == 0);
                assert(spans@[k as int] == highlight_span(len as int, m, n as int, k as int));
                assert(spans@ =~= highlight_spans_of(len as int, m, n as int));
                lemma_highlight_spans_tile(bytes, search_term@, m, spans@);
                lemma_highlight_spans_on_char_boundaries(text@, Some(search_term));
            }
            return spans;
        }
    }
    spans.push(TextSpan { start: 0, end: len, highlighted: false });
    proof {
        encode_utf8_valid_utf8(text@);
        is_char_boundary_start_end_of_seq(bytes);
        let m = highlight_positions(bytes, search_term);
        assert(m.len() == 0);
        assert(spans@ =~= highlight_spans_of(len as int, m, highlight_len(search_term)));
    }
    spans
}

/// The spans of a highlighting are consecutive and cover the text; the highlighted ones are the matches.
proof fn lemma_highlight_spans_tile(text: Seq<u8>, term: Seq<u8>, m: Seq<int>, spans: Seq<TextSpan>)
    requires
        text.len() <= usize::MAX,
        m == match_indices(text, term),
        m.len() > 0,
        spans == highlight_spans_of(text.len() as int, m, term.len() as int),
    ensures
        spans[0].start == 0,
        spans.last().end == text.len(),
        forall|k: int| 0 <= k < spans.len() ==> #[trigger] spans[k].start <= spans[k].end,
        forall|k: int| 0 <= k < spans.len() - 1 ==> #[trigger] spans[k].end == spans[k + 1].start,
        forall|k: int|
            0 <= k < spans.len() && #[trigger] spans[k].highlighted ==> lower_bytes(text).subrange(
                spans[k].start as int,
                spans[k].end as int,
            ) == term,
{
    lemma_match_indices_well_formed(text, term);
    let n = term.len() as int;
    let len = text.len() as int;
    assert(spans[0] == highlight_span(len, m, n, 0));
    assert(spans.last() == highlight_span(len, m, n, 2 * m.len() as int));
    assert((2 * m.len()) / 2 == m.len() && (2 * m.len()) % 2 == 0);
    assert forall|k: int| 0 <= k < spans.len() implies #[trigger] spans[k].start <= spans[k].end by {
        assert(spans[k] == highlight_span(len, m, n, k));
        let j = k / 2;
        if k % 2 == 0 {
            if j > 0 && j < m.len() {
                assert(m[j - 1] + n <= m[j]);
            }
        }
    }
    assert forall|k: int| 0 <= k < spans.len() - 1 implies #[trigger] spans[k].end == spans[k + 1].start by {
        assert(spans[k] == highlight_span(len, m, n, k));
        assert(spans[k + 1] == highlight_span(len, m, n, k + 1));
        if k % 2 == 0 {
            assert((k + 1) / 2 == k / 2 && (k + 1) % 2 == 1);
        } else {
            assert((k + 1) / 2 == k / 2 + 1 && (k + 1) % 2 == 0);
        }
    }
    assert forall|k: int| 0 <= k < spans.len() && #[trigger] spans[k].highlighted implies lower_bytes(text).subrange(
        spans[k].start as int,
        spans[k].end as int,
    ) == term by {
        assert(spans[k] == highlight_span(len, m, n, k));
        let j = k / 2;
        assert(k % 2 == 1);
        if term.len() == 0 {
            assert(lower_bytes(text).subrange(m[j], m[j]) =~= term);
        }
    }
}

/// Every span of a highlighting starts and ends on a character boundary of the text.
proof fn lemma_highlight_spans_on_char_boundaries(text: Seq<char>, search_term: Option<&SearchTerm>)
    requires
        encode_utf8(text).len() <= usize::MAX,
        search_term matches Some(term) ==> is_search_term(term@),
    ensures
        ({
            let bytes = encode_utf8(text);
            let spans = highlight_spans_of(
                bytes.len() as int,
                highlight_positions(bytes, search_term),
                highlight_len(search_term),
            );
            forall|k: int|
                0 <= k < spans.len() ==> is_char_boundary(bytes, #[trigger] spans[k].start as int)
                    && is_char_boundary(bytes, spans[k].end as int)
        }),
{
    let bytes = encode_utf8(text);
    let len = bytes.len() as int;
    let m = highlight_positions(bytes, search_term);
    let n = highlight_len(search_term);
    let spans = highlight_spans_of(len, m, n);
    encode_utf8_valid_utf8(text);
    is_char_boundary_start_end_of_seq(bytes);
    if let Some(term) = search_term {
        lemma_match_indices_well_formed(bytes, term@);
        lemma_match_indices_on_char_boundaries(text, term@);
    }
    assert forall|k: int| 0 <= k < spans.len() implies is_char_boundary(
        bytes,
        #[trigger] spans[k].start as int,
    ) && is_char_boundary(bytes, spans[k].end as int) by {
        assert(spans[k] == highlight_span(len, m, n, k));
        let j = k / 2;
        if k % 2 == 0 {
            if j > 0 {
                assert(0 <= m[j - 1] && m[j - 1] + n <= len);
            }
            if j < m.len() {
                assert(0 <= m[j] && m[j] + n <= len);
            }
        } else {
            assert(0 <= m[j] && m[j] + n <= len);
        }
    }
}

/// The text of a piece falls on character boundaries of `bytes`: a quote always does,
/// a span when both its start and its end are character boundaries.
pub open spec fn piece_on_char_boundaries(piece: LayoutPiece, bytes: Seq<u8>) -> bool {
    match piece.text {
        PieceText::Quote => true,
        PieceText::Span { start, end } => is_char_boundary(bytes, start as int) && is_char_boundary(
            bytes,
            end as int,
        ),
    }
}

/// The pieces that draw a highlighted text slice it only at character boundaries.
proof fn lemma_highlighted_pieces_on_char_boundaries(
    text: Seq<char>,
    color: Rgba,
    search_term: Option<&SearchTerm>,
    highlight_color: Rgba,
)
    requires
        encode_utf8(text).len() <= usize::MAX,
        search_term matches Some(term) ==> is_search_term(term@),
    ensures
        forall|k: int|
            0 <= k < highlighted_text_pieces(encode_utf8(text), color, search_term, highlight_color).len()
                ==> piece_on_char_boundaries(
                #[trigger] highlighted_text_pieces(encode_utf8(text), color, search_term, highlight_color)[k],
                encode_utf8(text),
            ),
{
    lemma_highlight_spans_on_char_boundaries(text, search_term);
    let bytes = encode_utf8(text);
    let spans = highlight_spans_of(
        bytes.len() as int,
        highlight_positions(bytes, search_term),
        highlight_len(search_term),
    );
    assert forall|k: int|
        0 <= k < highlighted_text_pieces(bytes, color, search_term, highlight_color).len() implies piece_on_char_boundaries(
        #[trigger] highlighted_text_pieces(bytes, color, search_term, highlight_color)[k],
        bytes,
    ) by {
        assert(highlighted_text_pieces(bytes, color, search_term, highlight_color)[k] == span_piece(
            spans[k],
            color,
            highlight_color,
        ));
        assert(is_char_boundary(bytes, spans[k].start as int));
    }
}

/// The text of a piece of a layout: a double quote, or a byte range of the text being laid out.
#[derive(Debug, Clone, Copy, PartialEq, Eq, Hash, Structural)]
pub enum PieceText {
    Quote,
    Span { start: usize, end: usize },
}

/// A piece of a laid out property or value: its text, its color, and its background
/// (the highlight color for a search match).
#[derive(Debug, Clone, Copy, PartialEq, Eq, Hash, Structural)]
pub struct LayoutPiece {
    pub text: PieceText,
    pub color: Rgba,
    pub background: Option<Rgba>,
}

/// A double quote in `color`.
pub open spec fn quote_piece(color: Rgba) -> LayoutPiece {
    LayoutPiece { text: PieceText::Quote, color, background: None }
}

/// The piece that draws `span` in `color`, on `highlight_color` when it is a match.
pub open spec fn span_piece(span: TextSpan, color: Rgba, highlight_color: Rgba) -> LayoutPiece {
    LayoutPiece {
        text: PieceText::Span { start: span.start, end: span.end },
        color,
        background: if span.highlighted {
            Some(highlight_color)
        } else {
            None
        },
    }
}

/// The pieces that draw a text with its search matches highlighted.
pub open spec fn highlighted_text_pieces(
    text: Seq<u8>,
    color: Rgba,
    search_term: Option<&SearchTerm>,
    highlight_color: Rgba,
) -> Seq<LayoutPiece> {
    highlight_spans_of(
        text.len() as int,
        highlight_positions(text, search_term),
        highlight_len(search_term),
    ).map_values(|span: TextSpan| span_piece(span, color, highlight_color))
}

/// Appends the pieces that draw `text_str` in `text_color`, with the matches of `search_term`
/// on `highlight_color`.
fn add_text_with_highlighting(
    pieces: &mut Vec<LayoutPiece>,
    text_str: &str,
    text_color: Rgba,
    search_term: Option<&SearchTerm>,
    highlight_color: Rgba,
)
    ensures
        final(pieces)@ == old(pieces)@ + highlighted_text_pieces(
            text_str.spec_bytes(),
            text_color,
            search_term,
            highlight_color,
        ),
        text_str.spec_bytes().len() <= usize::MAX,
{
    let spans = highlight_spans(text_str, search_term);
    let ghost expected = spans@.map_values(
        |span: TextSpan| span_piece(span, text_color, highlight_color),
    );
    let mut i: usize = 0;
    while i < spans.len()
        invariant
            i <= spans@.len(),
            expected == spans@.map_values(
                |span: TextSpan| span_piece(span, text_color, highlight_color),
            ),
            pieces@ == old(pieces)@ + expected.take(i as int),
        decreases spans@.len() - i,
    {
        let span = spans[i];
        let background = if span.highlighted {
            Some(highlight_color)
        } else {
            None
        };
        pieces.push(
            LayoutPiece {
                text: PieceText::Span { start: span.start, end: span.end },
                color: text_color,
                background,
            },
        );
        proof {
            assert(expected.take(i + 1) =~= expected.take(i as int).push(expected[i as int]));
        }
        i = i + 1;
    }
    proof {
        assert(expected.take(spans@.len() as int) =~= expected);
    }
}

/// The pieces that draw a non-recursive value: its text in the color of its type, between
/// double quotes for a string, with the matches of `search_term` highlighted.
pub fn value_layout(
    visuals: &JsonTreeVisuals,
    value_str: &str,
    value_type: &BaseValueType,
    search_term: Option<&SearchTerm>,
) -> (res: Vec<LayoutPiece>)
    ensures
        ({
            let color = value_color(*visuals, *value_type);
            let quote = if *value_type == BaseValueType::String {
                seq![quote_piece(color)]
            } else {
                Seq::empty()
            };
            res@ == quote + highlighted_text_pieces(
                value_str.spec_bytes(),
                color,
                search_term,
                visuals.highlight_color,
            ) + quote
        }),
        forall|k: int|
            0 <= k < res@.len() ==> piece_on_char_boundaries(#[trigger] res@[k], value_str.spec_bytes()),
        forall|k: int| 0 <= k < res@.len() ==> #[trigger] res@[k].color == value_color(*visuals, *value_type),
{
    if let Some(term) = search_term {
        proof {
            use_type_invariant(term);
        }
    }
    let color = visuals.get_color(value_type);
    let mut pieces: Vec<LayoutPiece> = Vec::new();
    if *value_type == BaseValueType::String {
        pieces.push(LayoutPiece { text: PieceText::Quote, color, background: None });
    }
    add_text_with_highlighting(
        &mut pieces,
        value_str,
        color,
        search_term,
        visuals.highlight_color,
    );
    if *value_type == BaseValueType::String {
        pieces.push(LayoutPiece { text: PieceText::Quote, color, background: None });
    }
    proof {
        let quote = if *value_type == BaseValueType::String {
            seq![quote_piece(color)]
        } else {
            Seq::<LayoutPiece>::empty()
        };
        let hp = highlighted_text_pieces(
            value_str.spec_bytes(),
            color,
            search_term,
            visuals.highlight_color,
        );
        assert(pieces@ =~= quote + hp + quote);
        lemma_highlighted_pieces_on_char_boundaries(
            value_str@,
            color,
            search_term,
            visuals.highlight_color,
        );
        assert forall|k: int| 0 <= k < pieces@.len() implies piece_on_char_boundaries(
            #[trigger] pieces@[k],
            value_str.spec_bytes(),
        ) by {
            if quote.len() <= k < quote.len() + hp.len() {
                assert(pieces@[k] == hp[k - quote.len()]);
            }
        }
        assert forall|k: int| 0 <= k < pieces@.len() implies #[trigger] pieces@[k].color == color by {
            if quote.len() <= k < quote.len() + hp.len() {
                assert(pieces@[k] == hp[k - quote.len()]);
            }
        }
    }
    pieces
}

/// The pieces that draw an array index or an object key, and the text that their spans refer to:
/// an index in decimal in the array index color; a key between double quotes in the object key
/// color, with the matches of `search_term` highlighted.
pub fn property_layout(
    visuals: &JsonTreeVisuals,
    property: &JsonPointerSegment,
    search_term: Option<&SearchTerm>,
) -> (res: (String, Vec<LayoutPiece>))
    ensures
        res.0@ == segment_display(property@),
        match property@ {
            SegmentView::Index(_) => res.1@ == seq![
                LayoutPiece {
                    text: PieceText::Span {
                        start: 0,
                        end: vstd::utf8::encode_utf8(res.0@).len() as usize,
                    },
                    color: visuals.array_idx_color,
                    background: None,
                },
            ],
            SegmentView::Key(_) => res.1@ == seq![quote_piece(visuals.object_key_color)]
                + highlighted_text_pieces(
                vstd::utf8::encode_utf8(res.0@),
                visuals.object_key_color,
                search_term,
                visuals.highlight_color,
            ) + seq![quote_piece(visuals.object_key_color)],
        },
        forall|k: int|
            0 <= k < res.1@.len() ==> piece_on_char_boundaries(
                #[trigger] res.1@[k],
                vstd::utf8::encode_utf8(res.0@),
            ),
{
    if let Some(term) = search_term {
        proof {
            use_type_invariant(term);
        }
    }
    let text = property.to_string();
    proof {
        encode_utf8_valid_utf8(text@);
        is_char_boundary_start_end_of_seq(encode_utf8(text@));
    }
    let mut pieces: Vec<LayoutPiece> = Vec::new();
    match property {
        JsonPointerSegment::Index(_) => {
            let len = text.as_str().as_bytes().len();
            pieces.push(
                LayoutPiece {
                    text: PieceText::Span { start: 0, end: len },
                    color: visuals.array_idx_color,
                    background: None,
                },
            );
            proof {
                assert(pieces@ =~= seq![
                    LayoutPiece {
                        text: PieceText::Span {
                            start: 0,
                            end: vstd::utf8::encode_utf8(text@).len() as usize,
                        },
                        color: visuals.array_idx_color,
                        background: None,
                    },
                ]);
            }
        },
        JsonPointerSegment::Key(_) => {
            let color = visuals.object_key_color;
            pieces.push(LayoutPiece { text: PieceText::Quote, color, background: None });
            add_text_with_highlighting(
                &mut pieces,
                text.as_str(),
                color,
                search_term,
                visuals.highlight_color,
            );
            pieces.push(LayoutPiece { text: PieceText::Quote, color, background: None });
            proof {
                let hp = highlighted_text_pieces(
                    vstd::utf8::encode_utf8(text@),
                    color,
                    search_term,
                    visuals.highlight_color,
                );
                assert(pieces@ =~= seq![quote_piece(color)] + hp + seq![quote_piece(color)]);
                lemma_highlighted_pieces_on_char_boundaries(
                    text@,
                    color,
                    search_term,
                    visuals.highlight_color,
                );
                assert forall|k: int| 0 <= k < pieces@.len() implies piece_on_char_boundaries(
                    #[trigger] pieces@[k],
                    encode_utf8(text@),
                ) by {
                    if 1 <= k < 1 + hp.len() {
                        assert(pieces@[k] == hp[k - 1]);
                    }
                }
            }
        },
    }
    (text, pieces)
}

} // verus!
