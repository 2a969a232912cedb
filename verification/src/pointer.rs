//! A JSON Pointer implementation for identifying specific values within a JSON document.
use vstd::prelude::*;

use crate::text::{decimal, push_char, push_decimal, usize_to_decimal};
use vstd::std_specs::iter::IteratorSpec;

verus! {

/// The mathematical value of a [`JsonPointerSegment`]: an array index, or an object key as characters.
pub ghost enum SegmentView {
    Index(usize),
    Key(Seq<char>),
}

/// An individual segment of a [`JsonPointer`] - either an array index or object key.
#[derive(Debug, Clone, Copy, PartialEq, Eq, Hash)]
pub enum JsonPointerSegment<'a> {
    Index(usize),
    Key(&'a str),
}

impl<'a> View for JsonPointerSegment<'a> {
    type V = SegmentView;

    open spec fn view(&self) -> SegmentView {
        match *self {
            JsonPointerSegment::Index(idx) => SegmentView::Index(idx),
            JsonPointerSegment::Key(key) => SegmentView::Key(key@),
        }
    }
}

/// The mathematical value of a path of segments.
pub open spec fn path_view<'a>(path: Seq<JsonPointerSegment<'a>>) -> Seq<SegmentView> {
    path.map_values(|seg: JsonPointerSegment<'a>| seg@)
}

/// The escape sequence of one character of an object key:
/// `~` is written `~0`, `/` is written `~1`, every other character stands for itself.
pub open spec fn escape_char(c: char) -> Seq<char> {
    if c == '~' {
        seq!['~', '0']
    } else if c == '/' {
        seq!['~', '1']
    } else {
        seq![c]
    }
}

/// An object key with `~` delimited as `~0` and `/` delimited as `~1`.
pub open spec fn escape_key(key: Seq<char>) -> Seq<char>
    decreases key.len(),
{
    if key.len() == 0 {
        Seq::empty()
    } else {
        escape_key(key.drop_last()) + escape_char(key.last())
    }
}

/// How a segment is displayed: an index in decimal, a key as it is.
pub open spec fn segment_display(seg: SegmentView) -> Seq<char> {
    match seg {
        SegmentView::Index(idx) => decimal(idx as nat),
        SegmentView::Key(key) => key,
    }
}

/// The text of a segment after its `/`: the index in decimal, or the escaped key.
pub open spec fn segment_text(seg: SegmentView) -> Seq<char> {
    match seg {
        SegmentView::Index(idx) => decimal(idx as nat),
        SegmentView::Key(key) => escape_key(key),
    }
}

/// A segment of a JSON pointer string: `/` followed by the index, or by the escaped key.
pub open spec fn segment_string(seg: SegmentView) -> Seq<char> {
    seq!['/'] + segment_text(seg)
}

/// The JSON pointer string of a path: the concatenation of its segment strings.
/// The empty path, i.e. the whole document, is identified by the empty string.
pub open spec fn pointer_string(path: Seq<SegmentView>) -> Seq<char>
    decreases path.len(),
{
    if path.len() == 0 {
        Seq::empty()
    } else {
        pointer_string(path.drop_last()) + segment_string(path.last())
    }
}

/// A JSON Pointer implementation.
#[derive(Debug, Clone, Copy, PartialEq, Eq, Hash)]
pub struct JsonPointer<'a, 'b>(pub &'b [JsonPointerSegment<'a>]);

impl<'a, 'b> View for JsonPointer<'a, 'b> {
    type V = Seq<SegmentView>;

    open spec fn view(&self) -> Seq<SegmentView> {
        path_view(self.0@)
    }
}

/// Appends the escaped form of `key` to `s`.
fn push_escaped_key(s: &mut String, key: &str)
    ensures
        final(s)@ == old(s)@ + escape_key(key@),
{
    broadcast use {vstd::string::axiom_spec_iter, vstd::string::next_postcondition};

    let mut chars = key.chars();
    let ghost mut i: int = 0;
    loop
        invariant
            0 <= i <= key@.len(),
            IteratorSpec::remaining(&chars) == key@.skip(i),
            s@ == old(s)@ + escape_key(key@.take(i)),
        ensures
            s@ == old(s)@ + escape_key(key@),
        decreases key@.len() - i,
    {
        let next = chars.next();
        match next {
            Some(c) => {
                proof {
                    assert(key@.take(i + 1).drop_last() == key@.take(i));
                    assert(key@.take(i + 1).last() == c);
                }
                if c == '~' {
                    push_char(s, '~');
                    push_char(s, '0');
                } else if c == '/' {
                    push_char(s, '~');
                    push_char(s, '1');
                } else {
                    push_char(s, c);
                }
                proof {
                    assert(key@.skip(i).drop_first() == key@.skip(i + 1));
                    i = i + 1;
                }
            },
            None => {
                proof {
                    assert(key@.take(i) == key@);
                }
                break;
            },
        }
    }
}

impl<'a> JsonPointerSegment<'a> {
    /// Returns the segment of a JSON pointer string for this array index or object key:
    /// `/` followed by the index, or by the key with `~` delimited as `~0` and `/` as `~1`.
    #[must_use]
    pub fn to_json_pointer_segment_string(&self) -> (s: String)
        ensures
            s@ == segment_string(self@),
    {
        let mut s = String::new();
        push_char(&mut s, '/');
        match self {
            JsonPointerSegment::Key(key) => {
                push_escaped_key(&mut s, key);
            },
            JsonPointerSegment::Index(idx) => {
                push_decimal(&mut s, *idx);
            },
        }
        s
    }

    /// The array index in decimal, or the object key as it is.
    pub fn to_string(&self) -> (s: String)
        ensures
            s@ == segment_display(self@),
    {
        match self {
            JsonPointerSegment::Key(key) => (*key).to_owned(),
            JsonPointerSegment::Index(idx) => usize_to_decimal(*idx),
        }
    }
}

impl<'a, 'b> JsonPointer<'a, 'b> {
    /// Returns a JSON Pointer string that can be used to look up specific values within a JSON document, where:
    /// - The whole document is identified by the empty string `""`.
    /// - A pointer string to a value within the document starts with `/`.
    /// - The pointer string is comprised of segments separated by `/`.
    /// - Each segment represents either an array index or object key.
    /// - The special character `~` in an object key is delimited as `~0`.
    /// - The special character `/` in an object key is delimited as `~1`.
    pub fn to_json_pointer_string(&self) -> (s: String)
        ensures
            s@ == pointer_string(self@),
    {
        let segments = self.0;
        let mut s = String::new();
        let mut i: usize = 0;
        while i < segments.len()
            invariant
                segments@ == self.0@,
                i <= segments@.len(),
                s@ == pointer_string(path_view(segments@.take(i as int))),
            decreases segments@.len() - i,
        {
            let segment_str = segments[i].to_json_pointer_segment_string();
            s.append(segment_str.as_str());
            proof {
                let next = path_view(segments@.take(i + 1));
                assert(next.drop_last() == path_view(segments@.take(i as int)));
                assert(next.last() == segments@[i as int]@);
            }
            i = i + 1;
        }
        proof {
            assert(segments@.take(segments@.len() as int) == segments@);
        }
        s
    }

    /// Returns the last [`JsonPointerSegment`] of this pointer, if it exists.
    ///
    /// This is useful for retrieving the array index or object key that points to a JSON value.
    #[must_use]
    pub fn last(&self) -> (res: Option<&JsonPointerSegment<'a>>)
        ensures
            res is None <==> self.0@.len() == 0,
            res matches Some(seg) ==> *seg == self.0@.last(),
    {
        self.0.last()
    }

    /// Returns a [`JsonPointer`] to the parent of this pointer, if it exists.
    ///
    /// This is useful for retrieving a pointer to the enclosing array or object of a JSON value.
    #[must_use]
    pub fn parent(&self) -> (res: Option<JsonPointer<'a, 'b>>)
        ensures
            res is None <==> self.0@.len() == 0,
            res matches Some(parent) ==> parent.0@ == self.0@.drop_last(),
    {
        let segments = self.0;
        if segments.len() == 0 {
            None
        } else {
            let (init, _) = segments.split_at(segments.len() - 1);
            Some(JsonPointer(init))
        }
    }
}

/// The number of occurrences of `c` in `s`.
pub open spec fn count_char(s: Seq<char>, c: char) -> nat
    decreases s.len(),
{
    if s.len() == 0 {
        0
    } else {
        count_char(s.drop_last(), c) + if s.last() == c {
            1nat
        } else {
            0nat
        }
    }
}

proof fn lemma_count_char_concat(a: Seq<char>, b: Seq<char>, c: char)
    ensures
        count_char(a + b, c) == count_char(a, c) + count_char(b, c),
    decreases b.len(),
{
    if b.len() == 0 {
        assert(a + b =~= a);
    } else {
        lemma_count_char_concat(a, b.drop_last(), c);
        assert((a + b).drop_last() =~= a + b.drop_last());
    }
}

proof fn lemma_escape_key_has_no_slash(key: Seq<char>)
    ensures
        count_char(escape_key(key), '/') == 0,
    decreases key.len(),
{
    if key.len() > 0 {
        lemma_escape_key_has_no_slash(key.drop_last());
        lemma_count_char_concat(escape_key(key.drop_last()), escape_char(key.last()), '/');
        let e = escape_char(key.last());
        assert(count_char(e, '/') == 0) by {
            reveal_with_fuel(count_char, 3);
            assert(e.len() <= 2);
            if e.len() == 2 {
                assert(e.drop_last().drop_last() =~= Seq::<char>::empty());
            } else {
                assert(e.drop_last() =~= Seq::<char>::empty());
            }
        }
    }
}

proof fn lemma_decimal_has_no_slash(n: nat)
    ensures
        count_char(decimal(n), '/') == 0,
    decreases n,
{
    reveal_with_fuel(count_char, 2);
    if n < 10 {
        assert(decimal(n).drop_last() =~= Seq::<char>::empty());
    } else {
        lemma_decimal_has_no_slash(n / 10);
        assert(decimal(n).drop_last() =~= decimal(n / 10));
    }
}

/// Each segment of a JSON pointer string is one `/` followed by text without `/`:
/// a segment string starts with `/` and holds no other `/`, whatever the object key.
pub proof fn lemma_segment_string_has_one_slash(seg: SegmentView)
    ensures
        segment_string(seg)[0] == '/',
        count_char(segment_string(seg), '/') == 1,
{
    let rest = match seg {
        SegmentView::Index(idx) => decimal(idx as nat),
        SegmentView::Key(key) => escape_key(key),
    };
    match seg {
        SegmentView::Index(idx) => lemma_decimal_has_no_slash(idx as nat),
        SegmentView::Key(key) => lemma_escape_key_has_no_slash(key),
    }
    lemma_count_char_concat(seq!['/'], rest, '/');
    reveal_with_fuel(count_char, 2);
    assert(seq!['/'].drop_last() =~= Seq::<char>::empty());
}

/// A JSON pointer string holds exactly one `/` per segment of its path,
/// so the segments can be told apart whatever the object keys hold.
pub proof fn lemma_pointer_string_separates_segments(path: Seq<SegmentView>)
    ensures
        count_char(pointer_string(path), '/') == path.len(),
        path.len() > 0 ==> pointer_string(path)[0] == '/',
    decreases path.len(),
{
    if path.len() > 0 {
        lemma_pointer_string_separates_segments(path.drop_last());
        lemma_segment_string_has_one_slash(path.last());
        lemma_count_char_concat(pointer_string(path.drop_last()), segment_string(path.last()), '/');
        if path.len() == 1 {
            assert(pointer_string(path.drop_last()) =~= Seq::<char>::empty());
        }
    }
}

/// The JSON pointer string of a pointer is that of its parent followed by the segment string of
/// its last segment.
pub proof fn lemma_parent_and_last_segment(
    pointer: JsonPointer,
    parent: JsonPointer,
    last: JsonPointerSegment,
)
    requires
        pointer.0@.len() > 0,
        parent.0@ == pointer.0@.drop_last(),
        last == pointer.0@.last(),
    ensures
        pointer_string(pointer@) == pointer_string(parent@) + segment_string(last@),
{
    assert(pointer@.drop_last() =~= parent@);
}

/// An escaped object key never ends with a lone `~`.
proof fn lemma_escape_key_no_trailing_tilde(key: Seq<char>)
    ensures
        escape_key(key).len() == 0 || escape_key(key).last() != '~',
{
    if key.len() > 0 {
        assert(escape_key(key).last() == escape_char(key.last()).last());
    }
}

/// Different object keys have different escaped forms.
pub proof fn lemma_escape_key_injective(a: Seq<char>, b: Seq<char>)
    requires
        escape_key(a) == escape_key(b),
    ensures
        a == b,
    decreases a.len() + b.len(),
{
    if a.len() == 0 || b.len() == 0 {
        if a.len() > 0 {
            assert(escape_key(a).len() >= escape_char(a.last()).len());
        }
        if b.len() > 0 {
            assert(escape_key(b).len() >= escape_char(b.last()).len());
        }
        assert(a =~= b);
    } else {
        let (x, y) = (a.last(), b.last());
        let (ea, eb) = (escape_key(a.drop_last()), escape_key(b.drop_last()));
        let (cx, cy) = (escape_char(x), escape_char(y));
        let whole = escape_key(a);
        assert(whole == ea + cx && whole == eb + cy);
        lemma_escape_key_no_trailing_tilde(a.drop_last());
        lemma_escape_key_no_trailing_tilde(b.drop_last());
        if cx.len() == cy.len() {
            assert(cx =~= whole.subrange(whole.len() - cx.len(), whole.len() as int));
            assert(cy =~= whole.subrange(whole.len() - cy.len(), whole.len() as int));
            assert(ea =~= whole.subrange(0, whole.len() - cx.len()));
            assert(eb =~= whole.subrange(0, whole.len() - cy.len()));
            assert(x == y) by {
                if cx.len() == 2 {
                    assert(cx[1] == cy[1]);
                } else {
                    assert(cx[0] == cy[0]);
                }
            }
            lemma_escape_key_injective(a.drop_last(), b.drop_last());
            assert(a =~= a.drop_last().push(x));
            assert(b =~= b.drop_last().push(y));
        } else if cx.len() == 2 {
            // `x` is `~` or `/`, escaped as two characters; `y` stands for itself,
            // so the escaped form of `b.drop_last()` would end with a lone `~`.
            assert(eb.len() == whole.len() - 1);
            assert(eb.last() == whole[whole.len() - 2]);
            assert(whole[whole.len() - 2] == cx[0]);
        } else {
            assert(ea.len() == whole.len() - 1);
            assert(ea.last() == whole[whole.len() - 2]);
            assert(whole[whole.len() - 2] == cy[0]);
        }
    }
}

/// Different object keys have different JSON pointer segment strings.
pub proof fn lemma_key_segment_strings_distinct(a: Seq<char>, b: Seq<char>)
    requires
        a != b,
    ensures
        segment_string(SegmentView::Key(a)) != segment_string(SegmentView::Key(b)),
{
    if segment_string(SegmentView::Key(a)) == segment_string(SegmentView::Key(b)) {
        let sa = segment_string(SegmentView::Key(a));
        assert(escape_key(a) =~= sa.subrange(1, sa.len() as int));
        assert(escape_key(b) =~= sa.subrange(1, sa.len() as int));
        lemma_escape_key_injective(a, b);
    }
}

/// The pieces of a pointer string: the text that follows each `/`, up to the next `/` or the end.
/// Text before the first `/` belongs to no piece.
pub open spec fn split_pointer(s: Seq<char>) -> Seq<Seq<char>>
    decreases s.len(),
{
    if s.len() == 0 {
        Seq::empty()
    } else if s.last() == '/' {
        split_pointer(s.drop_last()).push(Seq::empty())
    } else {
        let pieces = split_pointer(s.drop_last());
        if pieces.len() == 0 {
            pieces
        } else {
            pieces.update(pieces.len() - 1, pieces.last().push(s.last()))
        }
    }
}

/// Decodes an escaped object key: `~1` stands for `/` and `~0` for `~`.
pub open spec fn unescape_key(s: Seq<char>) -> Seq<char>
    decreases s.len(),
{
    if s.len() == 0 {
        Seq::empty()
    } else if s.len() >= 2 && s[s.len() - 2] == '~' && s.last() == '0' {
        unescape_key(s.take(s.len() - 2)).push('~')
    } else if s.len() >= 2 && s[s.len() - 2] == '~' && s.last() == '1' {
        unescape_key(s.take(s.len() - 2)).push('/')
    } else {
        unescape_key(s.drop_last()).push(s.last())
    }
}

/// Every segment of `path` is an object key.
pub open spec fn key_only(path: Seq<SegmentView>) -> bool {
    forall|i: int| 0 <= i < path.len() ==> #[trigger] path[i] is Key
}

/// Splitting `a`, a `/`, and text without `/` gives the pieces of `a` and that text.
proof fn lemma_split_after_last_slash(a: Seq<char>, r: Seq<char>)
    requires
        count_char(r, '/') == 0,
    ensures
        split_pointer(a + seq!['/'] + r) == split_pointer(a).push(r),
    decreases r.len(),
{
    let s = a + seq!['/'] + r;
    if r.len() == 0 {
        assert(s.drop_last() =~= a);
        assert(r =~= Seq::<char>::empty());
    } else {
        let r0 = r.drop_last();
        assert(count_char(r, '/') == count_char(r0, '/') + if r.last() == '/' {
            1nat
        } else {
            0nat
        });
        lemma_split_after_last_slash(a, r0);
        assert(s.drop_last() =~= a + seq!['/'] + r0);
        assert(s.last() == r.last());
        assert(r =~= r0.push(r.last()));
        let pieces = split_pointer(a).push(r0);
        assert(pieces.update(pieces.len() - 1, pieces.last().push(r.last())) =~= split_pointer(
            a,
        ).push(r));
    }
}

/// The pieces of a JSON pointer string are the texts of its segments, one per segment and in
/// order: an index in decimal, a key escaped.
pub proof fn lemma_pointer_string_splits_into_segments(path: Seq<SegmentView>)
    ensures
        split_pointer(pointer_string(path)) == path.map_values(|seg: SegmentView| segment_text(seg)),
    decreases path.len(),
{
    if path.len() == 0 {
        assert(path.map_values(|seg: SegmentView| segment_text(seg)) =~= Seq::<Seq<char>>::empty());
    } else {
        let init = path.drop_last();
        lemma_pointer_string_splits_into_segments(init);
        let t = segment_text(path.last());
        match path.last() {
            SegmentView::Index(idx) => lemma_decimal_has_no_slash(idx as nat),
            SegmentView::Key(key) => lemma_escape_key_has_no_slash(key),
        }
        assert(pointer_string(path) =~= pointer_string(init) + seq!['/'] + t);
        lemma_split_after_last_slash(pointer_string(init), t);
        assert(path.map_values(|seg: SegmentView| segment_text(seg)) =~= init.map_values(
            |seg: SegmentView| segment_text(seg),
        ).push(t));
    }
}

/// Decoding an escaped key gives the key back.
pub proof fn lemma_unescape_escape_key(key: Seq<char>)
    ensures
        unescape_key(escape_key(key)) == key,
    decreases key.len(),
{
    if key.len() > 0 {
        let init = key.drop_last();
        let c = key.last();
        let e = escape_key(init);
        lemma_unescape_escape_key(init);
        lemma_escape_key_no_trailing_tilde(init);
        let whole = escape_key(key);
        assert(whole == e + escape_char(c));
        if c == '~' || c == '/' {
            assert(whole.take(whole.len() - 2) =~= e);
        } else {
            assert(whole.drop_last() =~= e);
            if whole.len() >= 2 {
                assert(whole[whole.len() - 2] == e.last());
            }
        }
        assert(key =~= init.push(c));
    }
}

/// A pointer made of object keys only can be read back from its JSON pointer string: the string
/// starts with `/` (unless there are no keys), it splits at `/` into one piece per key, and
/// decoding each piece (`~1` to `/`, `~0` to `~`) gives that key.
pub proof fn lemma_key_pointer_string_round_trip(path: Seq<SegmentView>)
    requires
        key_only(path),
    ensures
        path.len() > 0 ==> pointer_string(path)[0] == '/',
        split_pointer(pointer_string(path)).len() == path.len(),
        forall|i: int|
            0 <= i < path.len() ==> unescape_key(#[trigger] split_pointer(pointer_string(path))[i])
                == path[i]->Key_0,
{
    lemma_pointer_string_separates_segments(path);
    lemma_pointer_string_splits_into_segments(path);
    assert forall|i: int| 0 <= i < path.len() implies unescape_key(
        #[trigger] split_pointer(pointer_string(path))[i],
    ) == path[i]->Key_0 by {
        assert(path[i] is Key);
        lemma_unescape_escape_key(path[i]->Key_0);
    }
}

/// Two pointers made of object keys only have the same JSON pointer string only if they have the
/// same keys.
pub proof fn lemma_key_pointer_strings_injective(a: Seq<SegmentView>, b: Seq<SegmentView>)
    requires
        key_only(a),
        key_only(b),
        pointer_string(a) == pointer_string(b),
    ensures
        a == b,
{
    lemma_key_pointer_string_round_trip(a);
    lemma_key_pointer_string_round_trip(b);
    assert forall|i: int| 0 <= i < a.len() implies a[i] == b[i] by {
        assert(a[i] is Key && b[i] is Key);
        assert(unescape_key(split_pointer(pointer_string(a))[i]) == a[i]->Key_0);
        assert(unescape_key(split_pointer(pointer_string(b))[i]) == b[i]->Key_0);
    }
    assert(a =~= b);
}

} // verus!
