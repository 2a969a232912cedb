//! Case-insensitive search of a term within texts and within a JSON document.
use vstd::prelude::*;
use vstd::string::StringSliceAdditionalSpecFns;
use vstd::utf8::{
    encode_utf8, encode_utf8_valid_utf8, is_char_boundary, is_char_boundary_iff_not_is_continuation_byte,
    is_continuation_byte, length_of_first_scalar, pop_first_scalar, valid_utf8,
};

use crate::path_set::PathSet;
use crate::pointer::{path_view, segment_display, JsonPointerSegment, SegmentView};
use crate::value::{
    node_at, path_of, valid_positions, ExpandableType, JsonTreeValue, JsonTreeView,
};

verus! {

/// ASCII lower case of one byte: `A`..=`Z` become `a`..=`z`, every other byte is unchanged.
pub open spec fn ascii_lower(b: u8) -> u8 {
    if 65 <= b && b <= 90 {
        (b + 32) as u8
    } else {
        b
    }
}

/// ASCII lower case of a byte string.
pub open spec fn lower_bytes(s: Seq<u8>) -> Seq<u8> {
    s.map_values(|b: u8| ascii_lower(b))
}

/// `needle` occurs in `hay` starting at byte `i`.
pub open spec fn occurs_at(hay: Seq<u8>, needle: Seq<u8>, i: int) -> bool {
    0 <= i && i + needle.len() <= hay.len() && hay.subrange(i, i + needle.len()) == needle
}

/// `needle` occurs somewhere in `hay`.
pub open spec fn contains_bytes(hay: Seq<u8>, needle: Seq<u8>) -> bool {
    exists|i: int| occurs_at(hay, needle, i)
}

/// The starts of the occurrences of a non-empty `needle` in `hay` at or after `from`,
/// found left to right, each search resuming after the end of the previous occurrence.
pub open spec fn match_positions_from(hay: Seq<u8>, needle: Seq<u8>, from: int) -> Seq<int>
    decreases hay.len() - from,
{
    if needle.len() == 0 || from < 0 || from + needle.len() > hay.len() {
        Seq::empty()
    } else if occurs_at(hay, needle, from) {
        seq![from] + match_positions_from(hay, needle, from + needle.len())
    } else {
        match_positions_from(hay, needle, from + 1)
    }
}

/// The character boundaries of the UTF-8 text `bytes` at or after `from`, end included.
pub open spec fn boundary_positions(bytes: Seq<u8>, from: int) -> Seq<int>
    decreases bytes.len() + 1 - from,
{
    if from < 0 || from > bytes.len() {
        Seq::empty()
    } else if is_char_boundary(bytes, from) {
        seq![from] + boundary_positions(bytes, from + 1)
    } else {
        boundary_positions(bytes, from + 1)
    }
}

/// The byte positions at which a lower case `term` matches in the text whose UTF-8 bytes are
/// `text`, ignoring ASCII letter case: the non-overlapping matches from left to right,
/// or, for an empty term, every character boundary.
pub open spec fn match_indices(text: Seq<u8>, term: Seq<u8>) -> Seq<int> {
    if term.len() == 0 {
        boundary_positions(text, 0)
    } else {
        match_positions_from(lower_bytes(text), term, 0)
    }
}

/// A non-empty `term` occurs in the text whose UTF-8 bytes are `text`, ignoring ASCII letter case.
pub open spec fn term_matches(term: Seq<u8>, text: Seq<u8>) -> bool {
    term.len() > 0 && contains_bytes(lower_bytes(text), term)
}

/// The paths that are proper prefixes of `path`, i.e. the paths of its enclosing arrays/objects.
pub open spec fn proper_prefixes(path: Seq<SegmentView>) -> Set<Seq<SegmentView>> {
    Set::new(|q: Seq<SegmentView>| q.len() < path.len() && q == path.take(q.len() as int))
}

/// The prefixes of `path` shorter than `n`.
pub open spec fn prefixes_shorter_than(path: Seq<SegmentView>, n: int) -> Set<Seq<SegmentView>> {
    Set::new(
        |q: Seq<SegmentView>| q.len() < n && q.len() < path.len() && q == path.take(q.len() as int),
    )
}

/// The paths of the arrays/objects that enclose a match of `term` within `v`,
/// where `v` is found at path `prefix`: for a non-recursive value whose text matches,
/// every proper prefix of its path; for an object key that matches, every proper prefix
/// of the path of its entry. Array indices are never matched.
pub open spec fn search_hits(v: JsonTreeView, term: Seq<u8>, prefix: Seq<SegmentView>) -> Set<
    Seq<SegmentView>,
>
    decreases v, 1nat, 0int,
{
    match v {
        JsonTreeView::Base(text, _) => if term_matches(term, encode_utf8(text)) {
            proper_prefixes(prefix)
        } else {
            Set::empty()
        },
        JsonTreeView::Expandable(entries, _) => entries_hits(v, term, prefix, entries.len() as int),
    }
}

/// The matches of [`search_hits`] within the first `n` entries of the array/object `v`.
pub open spec fn entries_hits(v: JsonTreeView, term: Seq<u8>, prefix: Seq<SegmentView>, n: int) -> Set<
    Seq<SegmentView>,
>
    decreases v, 0nat, n,
{
    match v {
        JsonTreeView::Base(..) => Set::empty(),
        JsonTreeView::Expandable(entries, ty) => if n <= 0 || n > entries.len() {
            Set::empty()
        } else {
            let seg = entries[n - 1].0;
            let path = prefix.push(seg);
            proof {
                assert(decreases_to!(v => entries));
                assert(decreases_to!(entries => entries[n - 1]));
                assert(decreases_to!(entries[n - 1] => entries[n - 1].1));
            }
            entries_hits(v, term, prefix, n - 1).union(
                if ty == ExpandableType::Object && term_matches(
                    term,
                    encode_utf8(segment_display(seg)),
                ) {
                    proper_prefixes(path)
                } else {
                    Set::empty()
                },
            ).union(search_hits(entries[n - 1].1, term, path))
        },
    }
}

/// The result of a search for `hits`: no path when the only match was a top level key or value
/// of a document whose root is not abbreviated (there is nothing to expand), else `hits`.
pub open spec fn matching_paths(hits: Set<Seq<SegmentView>>, abbreviate_root: bool) -> Set<
    Seq<SegmentView>,
> {
    if !abbreviate_root && exists|p: Seq<SegmentView>| hits == set![p] {
        Set::empty()
    } else {
        hits
    }
}

/// The positions found from `from` are increasing, do not overlap, and are occurrences.
proof fn lemma_match_positions_from(hay: Seq<u8>, needle: Seq<u8>, from: int)
    ensures
        ({
            let r = match_positions_from(hay, needle, from);
            &&& forall|j: int| 0 <= j < r.len() ==> from <= #[trigger] r[j] && occurs_at(hay, needle, r[j])
            &&& forall|j: int, k: int| 0 <= j < k < r.len() ==> #[trigger] r[j] + needle.len() <= #[trigger] r[k]
        }),
    decreases hay.len() - from,
{
    if needle.len() == 0 || from < 0 || from + needle.len() > hay.len() {
    } else if occurs_at(hay, needle, from) {
        lemma_match_positions_from(hay, needle, from + needle.len());
        let rest = match_positions_from(hay, needle, from + needle.len());
        let r = match_positions_from(hay, needle, from);
        assert(r == seq![from] + rest);
        assert forall|j: int| 0 <= j < r.len() implies from <= #[trigger] r[j] && occurs_at(hay, needle, r[j]) by {
            if j > 0 {
                assert(r[j] == rest[j - 1]);
            }
        }
        assert forall|j: int, k: int| 0 <= j < k < r.len() implies #[trigger] r[j] + needle.len() <= #[trigger] r[k] by {
            assert(r[k] == rest[k - 1]);
            if j > 0 {
                assert(r[j] == rest[j - 1]);
            }
        }
    } else {
        lemma_match_positions_from(hay, needle, from + 1);
        assert(match_positions_from(hay, needle, from) == match_positions_from(hay, needle, from + 1));
    }
}

/// The boundaries found from `from` are increasing and lie between `from` and the end.
proof fn lemma_boundary_positions(bytes: Seq<u8>, from: int)
    ensures
        ({
            let r = boundary_positions(bytes, from);
            &&& forall|j: int| 0 <= j < r.len() ==> from <= #[trigger] r[j] <= bytes.len()
            &&& forall|j: int| 0 <= j < r.len() ==> is_char_boundary(bytes, #[trigger] r[j])
            &&& forall|j: int, k: int| 0 <= j < k < r.len() ==> #[trigger] r[j] < #[trigger] r[k]
        }),
    decreases bytes.len() + 1 - from,
{
    if from < 0 || from > bytes.len() {
    } else if is_char_boundary(bytes, from) {
        lemma_boundary_positions(bytes, from + 1);
        let rest = boundary_positions(bytes, from + 1);
        let r = boundary_positions(bytes, from);
        assert(r == seq![from] + rest);
        assert forall|j: int| 0 <= j < r.len() implies from <= #[trigger] r[j] <= bytes.len()
            && is_char_boundary(bytes, r[j]) by {
            if j > 0 {
                assert(r[j] == rest[j - 1]);
            }
        }
        assert forall|j: int, k: int| 0 <= j < k < r.len() implies #[trigger] r[j] < #[trigger] r[k] by {
            assert(r[k] == rest[k - 1]);
            if j > 0 {
                assert(r[j] == rest[j - 1]);
            }
        }
    } else {
        lemma_boundary_positions(bytes, from + 1);
        assert(boundary_positions(bytes, from) == boundary_positions(bytes, from + 1));
    }
}

/// The match positions of a term in a text are increasing and do not overlap;
/// each one leaves room for the term before the end of the text,
/// and at each one the ASCII lower case text holds a non-empty term.
pub proof fn lemma_match_indices_well_formed(text: Seq<u8>, term: Seq<u8>)
    ensures
        ({
            let m = match_indices(text, term);
            &&& forall|j: int| 0 <= j < m.len() ==> 0 <= #[trigger] m[j] && m[j] + term.len() <= text.len()
            &&& forall|j: int, k: int| 0 <= j < k < m.len() ==> #[trigger] m[j] + term.len() <= #[trigger] m[k] && m[j] < m[k]
            &&& term.len() > 0 ==> forall|j: int| 0 <= j < m.len() ==> occurs_at(lower_bytes(text), term, #[trigger] m[j])
        }),
{
    if term.len() == 0 {
        lemma_boundary_positions(text, 0);
    } else {
        lemma_match_positions_from(lower_bytes(text), term, 0);
    }
}

/// The number of bytes of the character that a UTF-8 leading byte starts; zero for a
/// continuation byte or an invalid byte.
pub open spec fn leading_width(b: u8) -> int {
    if b <= 0x7f {
        1
    } else if 0xc0 <= b <= 0xdf {
        2
    } else if 0xe0 <= b <= 0xef {
        3
    } else if 0xf0 <= b <= 0xf7 {
        4
    } else {
        0
    }
}

/// The UTF-8 bytes of some text in ASCII lower case, as a search term holds them.
pub open spec fn is_search_term(term: Seq<u8>) -> bool {
    exists|s: Seq<char>| term == lower_bytes(encode_utf8(s))
}

/// In valid UTF-8, the first byte of a character decides its length, and the end of that
/// character is a character boundary too.
proof fn lemma_boundary_after_char(bytes: Seq<u8>, p: int)
    requires
        valid_utf8(bytes),
        0 <= p < bytes.len(),
        is_char_boundary(bytes, p),
    ensures
        leading_width(bytes[p]) > 0,
        p + leading_width(bytes[p]) <= bytes.len(),
        is_char_boundary(bytes, p + leading_width(bytes[p])),
    decreases bytes.len(),
{
    let l = length_of_first_scalar(bytes);
    let tail = pop_first_scalar(bytes);
    assert(tail.len() == bytes.len() - l);
    if p == 0 {
        reveal_with_fuel(is_char_boundary, 2);
        assert(is_char_boundary(tail, 0));
    } else {
        assert(is_char_boundary(tail, p - l));
        assert(tail[p - l] == bytes[p]);
        lemma_boundary_after_char(tail, p - l);
        let w = leading_width(bytes[p]);
        assert(is_char_boundary(bytes, p + w) == is_char_boundary(tail, p + w - l));
    }
}

/// A non-empty valid UTF-8 text ends with a whole character: some byte `k` starts a character
/// that runs to the end.
proof fn lemma_last_char_start(e: Seq<u8>) -> (k: int)
    requires
        valid_utf8(e),
        e.len() > 0,
    ensures
        0 <= k < e.len(),
        leading_width(e[k]) > 0,
        k + leading_width(e[k]) == e.len(),
    decreases e.len(),
{
    let l = length_of_first_scalar(e);
    let tail = pop_first_scalar(e);
    assert(tail.len() == e.len() - l);
    if tail.len() == 0 {
        0
    } else {
        let k2 = lemma_last_char_start(tail);
        assert(tail[k2] == e[l + k2]);
        l + k2
    }
}

/// Bytes with the same ASCII lower case start characters of the same length.
proof fn lemma_lower_keeps_width(a: u8, b: u8)
    requires
        ascii_lower(a) == ascii_lower(b),
        leading_width(b) > 0,
    ensures
        leading_width(a) == leading_width(b),
{
}

/// A match of a search term starts and ends on character boundaries of the text.
proof fn lemma_occurrence_on_char_boundaries(d: Seq<u8>, e: Seq<u8>, i: int)
    requires
        valid_utf8(d),
        valid_utf8(e),
        e.len() > 0,
        occurs_at(lower_bytes(d), lower_bytes(e), i),
    ensures
        is_char_boundary(d, i),
        is_char_boundary(d, i + e.len()),
{
    let n = e.len() as int;
    let ld = lower_bytes(d);
    let le = lower_bytes(e);
    assert forall|x: int| 0 <= x < n implies ascii_lower(#[trigger] d[i + x]) == ascii_lower(e[x]) by {
        assert(ld.subrange(i, i + n)[x] == le[x]);
    }
    assert(leading_width(e[0]) > 0) by {
        reveal_with_fuel(valid_utf8, 1);
    }
    assert(ascii_lower(d[i + 0]) == ascii_lower(e[0]));
    lemma_lower_keeps_width(d[i], e[0]);
    is_char_boundary_iff_not_is_continuation_byte(d, i);
    let k = lemma_last_char_start(e);
    assert(ascii_lower(d[i + k]) == ascii_lower(e[k]));
    lemma_lower_keeps_width(d[i + k], e[k]);
    is_char_boundary_iff_not_is_continuation_byte(d, i + k);
    lemma_boundary_after_char(d, i + k);
}

/// The match positions of a search term in a text, and the ends of those matches, fall on
/// character boundaries of the text.
pub proof fn lemma_match_indices_on_char_boundaries(text: Seq<char>, term: Seq<u8>)
    requires
        is_search_term(term),
    ensures
        ({
            let m = match_indices(encode_utf8(text), term);
            forall|j: int|
                0 <= j < m.len() ==> is_char_boundary(encode_utf8(text), #[trigger] m[j])
                    && is_char_boundary(encode_utf8(text), m[j] + term.len())
        }),
{
    let d = encode_utf8(text);
    let s = choose|s: Seq<char>| term == lower_bytes(encode_utf8(s));
    let e = encode_utf8(s);
    encode_utf8_valid_utf8(text);
    encode_utf8_valid_utf8(s);
    let m = match_indices(d, term);
    lemma_match_indices_well_formed(d, term);
    if term.len() == 0 {
        lemma_boundary_positions(d, 0);
    } else {
        assert forall|j: int| 0 <= j < m.len() implies is_char_boundary(d, #[trigger] m[j])
            && is_char_boundary(d, m[j] + term.len()) by {
            lemma_occurrence_on_char_boundaries(d, e, m[j]);
        }
    }
}

/// The matches found from `from` leave no occurrence at or after `from` uncovered: each one
/// has a reported match that starts at it or overlaps it from the left.
proof fn lemma_match_positions_from_complete(hay: Seq<u8>, needle: Seq<u8>, from: int, i: int)
    requires
        needle.len() > 0,
        0 <= from <= i,
        occurs_at(hay, needle, i),
    ensures
        exists|j: int|
            0 <= j < match_positions_from(hay, needle, from).len() && i - needle.len()
                < #[trigger] match_positions_from(hay, needle, from)[j] <= i,
    decreases hay.len() - from,
{
    let r = match_positions_from(hay, needle, from);
    if occurs_at(hay, needle, from) {
        let rest = match_positions_from(hay, needle, from + needle.len());
        assert(r == seq![from] + rest);
        if i < from + needle.len() {
            assert(r[0] == from);
        } else {
            lemma_match_positions_from_complete(hay, needle, from + needle.len(), i);
            let j = choose|j: int| 0 <= j < rest.len() && i - needle.len() < #[trigger] rest[j] <= i;
            assert(r[j + 1] == rest[j]);
        }
    } else {
        assert(from != i);
        lemma_match_positions_from_complete(hay, needle, from + 1, i);
        assert(r == match_positions_from(hay, needle, from + 1));
    }
}

/// Matching misses no occurrence: wherever the ASCII lower case text holds a non-empty term,
/// a reported match starts there, or an earlier reported match overlaps it.
pub proof fn lemma_match_indices_complete(text: Seq<u8>, term: Seq<u8>, i: int)
    requires
        term.len() > 0,
        occurs_at(lower_bytes(text), term, i),
    ensures
        exists|j: int|
            0 <= j < match_indices(text, term).len() && i - term.len() < #[trigger] match_indices(
                text,
                term,
            )[j] <= i,
{
    let m = match_positions_from(lower_bytes(text), term, 0);
    lemma_match_positions_from_complete(lower_bytes(text), term, 0, i);
    assert(match_indices(text, term) == m);
    let j = choose|j: int| 0 <= j < m.len() && i - term.len() < #[trigger] m[j] <= i;
    assert(i - term.len() < match_indices(text, term)[j] <= i);
}

/// Following valid entry positions gives a path with one segment per position.
pub proof fn lemma_path_of_len(v: JsonTreeView, idxs: Seq<int>)
    requires
        valid_positions(v, idxs),
    ensures
        path_of(v, idxs).len() == idxs.len(),
    decreases idxs.len(),
{
    if idxs.len() > 0 {
        let entries = v->Expandable_0;
        lemma_path_of_len(entries[idxs[0]].1, idxs.drop_first());
    }
}

/// The hits within the first `n` entries of an array/object include the hits of each of those
/// entries: its value's hits, and for an object, the hits of its key.
proof fn lemma_entries_hits_include(
    v: JsonTreeView,
    term: Seq<u8>,
    prefix: Seq<SegmentView>,
    n: int,
    i: int,
)
    requires
        v is Expandable,
        0 <= i < n <= v->Expandable_0.len(),
    ensures
        ({
            let seg = v->Expandable_0[i].0;
            let path = prefix.push(seg);
            &&& search_hits(v->Expandable_0[i].1, term, path).subset_of(entries_hits(v, term, prefix, n))
            &&& (v->Expandable_1 == ExpandableType::Object && term_matches(
                term,
                encode_utf8(segment_display(seg)),
            )) ==> proper_prefixes(path).subset_of(entries_hits(v, term, prefix, n))
        }),
    decreases n,
{
    if i < n - 1 {
        lemma_entries_hits_include(v, term, prefix, n - 1, i);
    }
}

/// The hits of `v`, found at path `prefix`, reveal a matching non-recursive value reached by `idxs`.
proof fn lemma_hits_reveal_value(
    v: JsonTreeView,
    term: Seq<u8>,
    prefix: Seq<SegmentView>,
    idxs: Seq<int>,
    j: int,
)
    requires
        valid_positions(v, idxs),
        node_at(v, idxs) is Base,
        term.len() > 0,
        occurs_at(lower_bytes(encode_utf8(node_at(v, idxs)->Base_0)), term, j),
    ensures
        proper_prefixes(prefix + path_of(v, idxs)).subset_of(search_hits(v, term, prefix)),
    decreases idxs.len(),
{
    if idxs.len() == 0 {
        assert(prefix + path_of(v, idxs) =~= prefix);
        assert(contains_bytes(lower_bytes(encode_utf8(v->Base_0)), term));
    } else {
        let entries = v->Expandable_0;
        let i = idxs[0];
        let seg = entries[i].0;
        let child = entries[i].1;
        lemma_hits_reveal_value(child, term, prefix.push(seg), idxs.drop_first(), j);
        assert(prefix.push(seg) + path_of(child, idxs.drop_first()) =~= prefix + path_of(v, idxs));
        lemma_entries_hits_include(v, term, prefix, entries.len() as int, i);
    }
}

/// The hits of `v`, found at path `prefix`, reveal a matching object key: the key of the entry
/// reached by `idxs`.
proof fn lemma_hits_reveal_key(
    v: JsonTreeView,
    term: Seq<u8>,
    prefix: Seq<SegmentView>,
    idxs: Seq<int>,
    j: int,
)
    requires
        valid_positions(v, idxs),
        idxs.len() > 0,
        node_at(v, idxs.drop_last()) is Expandable,
        node_at(v, idxs.drop_last())->Expandable_1 == ExpandableType::Object,
        term.len() > 0,
        occurs_at(lower_bytes(encode_utf8(segment_display(path_of(v, idxs).last()))), term, j),
    ensures
        proper_prefixes(prefix + path_of(v, idxs)).subset_of(search_hits(v, term, prefix)),
    decreases idxs.len(),
{
    let entries = v->Expandable_0;
    let i = idxs[0];
    let seg = entries[i].0;
    let child = entries[i].1;
    let rest = idxs.drop_first();
    lemma_path_of_len(child, rest);
    if idxs.len() == 1 {
        assert(idxs.drop_last() =~= Seq::<int>::empty());
        assert(path_of(v, idxs) =~= seq![seg]);
        assert(prefix + path_of(v, idxs) =~= prefix.push(seg));
        assert(contains_bytes(lower_bytes(encode_utf8(segment_display(seg))), term));
        lemma_entries_hits_include(v, term, prefix, entries.len() as int, i);
    } else {
        assert(idxs.drop_last().drop_first() =~= rest.drop_last());
        assert(idxs.drop_last()[0] == i);
        assert(path_of(v, idxs).last() == path_of(child, rest).last());
        lemma_hits_reveal_key(child, term, prefix.push(seg), rest, j);
        assert(prefix.push(seg) + path_of(child, rest) =~= prefix + path_of(v, idxs));
        lemma_entries_hits_include(v, term, prefix, entries.len() as int, i);
    }
}

/// A set of paths holding the first `n` prefixes of `path` is not a single path when `n >= 2`.
proof fn lemma_two_prefixes_not_single(paths: Set<Seq<SegmentView>>, path: Seq<SegmentView>, n: int)
    requires
        2 <= n <= path.len(),
        forall|k: int| 0 <= k < n ==> paths.contains(#[trigger] path.take(k)),
    ensures
        !(exists|p: Seq<SegmentView>| paths == set![p]),
{
    if exists|p: Seq<SegmentView>| paths == set![p] {
        let p = choose|p: Seq<SegmentView>| paths == set![p];
        assert(paths.contains(path.take(0)));
        assert(paths.contains(path.take(1)));
        assert(path.take(0).len() != path.take(1).len());
    }
}

/// A search reveals every non-recursive value whose text holds the term, ignoring ASCII letter
/// case, whatever the type of the value (null, bool, number or string): the paths of all the
/// arrays/objects that enclose it are among the paths found. Only when the root is not
/// abbreviated and the sole match is at the top level is nothing expanded (the root is shown).
pub proof fn lemma_search_reveals_matching_value(
    value: JsonTreeView,
    term: Seq<u8>,
    idxs: Seq<int>,
    j: int,
    abbreviate_root: bool,
)
    requires
        valid_positions(value, idxs),
        node_at(value, idxs) is Base,
        term.len() > 0,
        occurs_at(lower_bytes(encode_utf8(node_at(value, idxs)->Base_0)), term, j),
    ensures
        forall|k: int|
            0 <= k < idxs.len() ==> search_hits(value, term, Seq::empty()).contains(
                #[trigger] path_of(value, idxs).take(k),
            ),
        abbreviate_root || idxs.len() >= 2 ==> forall|k: int|
            0 <= k < idxs.len() ==> matching_paths(
                search_hits(value, term, Seq::empty()),
                abbreviate_root,
            ).contains(#[trigger] path_of(value, idxs).take(k)),
{
    let hits = search_hits(value, term, Seq::empty());
    let path = path_of(value, idxs);
    lemma_path_of_len(value, idxs);
    lemma_hits_reveal_value(value, term, Seq::empty(), idxs, j);
    assert(Seq::<SegmentView>::empty() + path =~= path);
    assert forall|k: int| 0 <= k < idxs.len() implies hits.contains(#[trigger] path.take(k)) by {
        assert(proper_prefixes(path).contains(path.take(k)));
    }
    if !abbreviate_root && idxs.len() >= 2 {
        lemma_two_prefixes_not_single(hits, path, idxs.len() as int);
    }
}

/// A search reveals every object key that holds the term, ignoring ASCII letter case: the paths
/// of all the arrays/objects that enclose its entry are among the paths found. Only when the root
/// is not abbreviated and the sole match is a top level key is nothing expanded (the root is shown).
pub proof fn lemma_search_reveals_matching_key(
    value: JsonTreeView,
    term: Seq<u8>,
    idxs: Seq<int>,
    j: int,
    abbreviate_root: bool,
)
    requires
        valid_positions(value, idxs),
        idxs.len() > 0,
        node_at(value, idxs.drop_last()) is Expandable,
        node_at(value, idxs.drop_last())->Expandable_1 == ExpandableType::Object,
        term.len() > 0,
        occurs_at(lower_bytes(encode_utf8(segment_display(path_of(value, idxs).last()))), term, j),
    ensures
        forall|k: int|
            0 <= k < idxs.len() ==> search_hits(value, term, Seq::empty()).contains(
                #[trigger] path_of(value, idxs).take(k),
            ),
        abbreviate_root || idxs.len() >= 2 ==> forall|k: int|
            0 <= k < idxs.len() ==> matching_paths(
                search_hits(value, term, Seq::empty()),
                abbreviate_root,
            ).contains(#[trigger] path_of(value, idxs).take(k)),
{
    let hits = search_hits(value, term, Seq::empty());
    let path = path_of(value, idxs);
    lemma_path_of_len(value, idxs);
    lemma_hits_reveal_key(value, term, Seq::empty(), idxs, j);
    assert(Seq::<SegmentView>::empty() + path =~= path);
    assert forall|k: int| 0 <= k < idxs.len() implies hits.contains(#[trigger] path.take(k)) by {
        assert(proper_prefixes(path).contains(path.take(k)));
    }
    if !abbreviate_root && idxs.len() >= 2 {
        lemma_two_prefixes_not_single(hits, path, idxs.len() as int);
    }
}

/// Every prefix of a path in `paths` is in `paths` too.
pub open spec fn prefix_closed(paths: Set<Seq<SegmentView>>) -> bool {
    forall|p: Seq<SegmentView>, i: int|
        paths.contains(p) && 0 <= i <= p.len() ==> #[trigger] paths.contains(p.take(i))
}

proof fn lemma_proper_prefixes_closed(path: Seq<SegmentView>)
    ensures
        prefix_closed(proper_prefixes(path)),
{
    assert forall|p: Seq<SegmentView>, i: int|
        proper_prefixes(path).contains(p) && 0 <= i <= p.len() implies #[trigger] proper_prefixes(
        path,
    ).contains(p.take(i)) by {
        assert(p.take(i) =~= path.take(i));
    }
}

proof fn lemma_union_closed(a: Set<Seq<SegmentView>>, b: Set<Seq<SegmentView>>)
    requires
        prefix_closed(a),
        prefix_closed(b),
    ensures
        prefix_closed(a.union(b)),
{
    assert forall|p: Seq<SegmentView>, i: int|
        a.union(b).contains(p) && 0 <= i <= p.len() implies #[trigger] a.union(b).contains(
        p.take(i),
    ) by {
        if a.contains(p) {
            assert(a.contains(p.take(i)));
        } else {
            assert(b.contains(p.take(i)));
        }
    }
}

proof fn lemma_search_hits_closed(v: JsonTreeView, term: Seq<u8>, prefix: Seq<SegmentView>)
    ensures
        prefix_closed(search_hits(v, term, prefix)),
    decreases v, 1nat, 0int,
{
    match v {
        JsonTreeView::Base(text, _) => {
            lemma_proper_prefixes_closed(prefix);
        },
        JsonTreeView::Expandable(entries, _) => {
            lemma_entries_hits_closed(v, term, prefix, entries.len() as int);
        },
    }
}

proof fn lemma_entries_hits_closed(v: JsonTreeView, term: Seq<u8>, prefix: Seq<SegmentView>, n: int)
    ensures
        prefix_closed(entries_hits(v, term, prefix, n)),
    decreases v, 0nat, n,
{
    match v {
        JsonTreeView::Base(..) => {},
        JsonTreeView::Expandable(entries, ty) => {
            if n <= 0 || n > entries.len() {
            } else {
                let seg = entries[n - 1].0;
                let path = prefix.push(seg);
                assert(decreases_to!(v => entries));
                assert(decreases_to!(entries => entries[n - 1]));
                assert(decreases_to!(entries[n - 1] => entries[n - 1].1));
                lemma_entries_hits_closed(v, term, prefix, n - 1);
                lemma_search_hits_closed(entries[n - 1].1, term, path);
                lemma_proper_prefixes_closed(path);
                let keys = if ty == ExpandableType::Object && term_matches(
                    term,
                    encode_utf8(segment_display(seg)),
                ) {
                    proper_prefixes(path)
                } else {
                    Set::empty()
                };
                lemma_union_closed(entries_hits(v, term, prefix, n - 1), keys);
                lemma_union_closed(
                    entries_hits(v, term, prefix, n - 1).union(keys),
                    search_hits(entries[n - 1].1, term, path),
                );
            }
        },
    }
}

/// The paths expanded for the search results of a term are closed under prefixes: whenever an
/// array/object is expanded to reveal a match, so is every array/object that encloses it
/// (in particular the root, as soon as any path is expanded).
pub proof fn lemma_matching_paths_prefix_closed(value: JsonTreeView, term: Seq<u8>, abbreviate_root: bool)
    ensures
        prefix_closed(matching_paths(search_hits(value, term, Seq::empty()), abbreviate_root)),
{
    lemma_search_hits_closed(value, term, Seq::empty());
}

/// Search ignores ASCII letter case: texts that agree up to ASCII letter case parse to the same
/// search term, and any term matches in both or in neither.
pub proof fn lemma_search_ignores_ascii_case(a: Seq<u8>, b: Seq<u8>, term: Seq<u8>)
    requires
        lower_bytes(a) == lower_bytes(b),
    ensures
        term_matches(term, a) == term_matches(term, b),
        term.len() > 0 ==> match_indices(a, term) == match_indices(b, term),
{
}

/// A parsed search term is already in ASCII lower case.
pub proof fn lemma_lower_bytes_idempotent(s: Seq<u8>)
    ensures
        lower_bytes(lower_bytes(s)) == lower_bytes(s),
{
    assert(lower_bytes(lower_bytes(s)) =~= lower_bytes(s));
}

/// A search term, held in ASCII lower case as UTF-8 bytes.
#[derive(Debug, Hash)]
pub struct SearchTerm(Vec<u8>);

impl View for SearchTerm {
    type V = Seq<u8>;

    closed spec fn view(&self) -> Seq<u8> {
        self.0@
    }
}

impl Clone for SearchTerm {
    fn clone(&self) -> (res: Self)
        ensures
            res@ == self@,
    {
        proof {
            use_type_invariant(self);
        }
        SearchTerm(self.0.clone())
    }
}

impl SearchTerm {
    /// A search term holds the ASCII lower case UTF-8 bytes of a text.
    #[verifier::type_invariant]
    pub open spec fn holds_lowered_text(&self) -> bool {
        is_search_term(self@)
    }
}

fn ascii_lower_byte(b: u8) -> (res: u8)
    ensures
        res == ascii_lower(b),
{
    if b >= 65 && b <= 90 {
        b + 32
    } else {
        b
    }
}

/// The ASCII lower case of the UTF-8 bytes of `s`.
fn lowercase_bytes(s: &str) -> (res: Vec<u8>)
    ensures
        res@ == lower_bytes(s.spec_bytes()),
{
    let bytes = s.as_bytes();
    let mut res: Vec<u8> = Vec::new();
    let mut i: usize = 0;
    while i < bytes.len()
        invariant
            bytes@ == s.spec_bytes(),
            i <= bytes@.len(),
            res@ == lower_bytes(bytes@.take(i as int)),
        decreases bytes@.len() - i,
    {
        res.push(ascii_lower_byte(bytes[i]));
        proof {
            assert(lower_bytes(bytes@.take(i + 1)) =~= lower_bytes(bytes@.take(i as int)).push(
                ascii_lower(bytes@[i as int]),
            ));
        }
        i = i + 1;
    }
    proof {
        assert(bytes@.take(bytes@.len() as int) == bytes@);
    }
    res
}

/// Whether `needle` occurs in the ASCII lower case of `hay` at byte `i`.
fn occurs_lowered_at(hay: &[u8], needle: &[u8], i: usize) -> (res: bool)
    requires
        i + needle@.len() <= hay@.len(),
    ensures
        res == occurs_at(lower_bytes(hay@), needle@, i as int),
{
    let n = needle.len();
    let hay_len = hay.len();
    let mut k: usize = 0;
    while k < n
        invariant
            n == needle@.len(),
            hay_len == hay@.len(),
            i + n <= hay@.len(),
            k <= n,
            forall|j: int| 0 <= j < k ==> ascii_lower(hay@[i + j]) == needle@[j],
        decreases n - k,
    {
        if ascii_lower_byte(hay[i + k]) != needle[k] {
            proof {
                assert(lower_bytes(hay@).subrange(i as int, i + n)[k as int] != needle@[k as int]);
            }
            return false;
        }
        k = k + 1;
    }
    proof {
        assert(lower_bytes(hay@).subrange(i as int, i + n) =~= needle@);
    }
    true
}

impl SearchTerm {
    /// Parses a search term, ignoring ASCII letter case. An empty search string is no search term.
    pub fn parse(search_str: &str) -> (res: Option<Self>)
        ensures
            res is Some <==> search_str@.len() > 0,
            res matches Some(term) ==> term@ == lower_bytes(search_str.spec_bytes()),
    {
        if SearchTerm::is_valid(search_str) {
            let bytes = lowercase_bytes(search_str);
            proof {
                assert(bytes@ == lower_bytes(encode_utf8(search_str@)));
            }
            Some(SearchTerm(bytes))
        } else {
            None
        }
    }

    /// A search string is valid when it is not empty.
    pub fn is_valid(search_str: &str) -> (res: bool)
        ensures
            res == (search_str@.len() > 0),
    {
        !search_str.is_empty()
    }

    /// A search term for `search_str`, ignoring ASCII letter case; it may be empty.
    pub fn new(search_str: &str) -> (res: Self)
        ensures
            res@ == lower_bytes(search_str.spec_bytes()),
    {
        let bytes = lowercase_bytes(search_str);
        proof {
            assert(bytes@ == lower_bytes(encode_utf8(search_str@)));
        }
        SearchTerm(bytes)
    }

    /// The byte positions in `other` at which this term matches, ignoring ASCII letter case:
    /// the non-overlapping matches from left to right, or every character boundary for an empty term.
    pub fn find_match_indices_in(&self, other: &str) -> (res: Vec<usize>)
        ensures
            res@.map_values(|i: usize| i as int) == match_indices(other.spec_bytes(), self@),
            forall|j: int|
                0 <= j < res@.len() ==> is_char_boundary(other.spec_bytes(), #[trigger] res@[j] as int)
                    && is_char_boundary(other.spec_bytes(), res@[j] + self@.len()),
    {
        proof {
            use_type_invariant(self);
        }
        let hay = other.as_bytes();
        let needle = self.0.as_slice();
        let len = hay.len();
        let n = needle.len();
        let mut res: Vec<usize> = Vec::new();
        if n == 0 {
            let mut i: usize = 0;
            while i <= len
                invariant_except_break
                    hay@ == other.spec_bytes(),
                    len == hay@.len(),
                    i <= len,
                    res@.map_values(|i: usize| i as int) + boundary_positions(hay@, i as int)
                        == boundary_positions(hay@, 0),
                ensures
                    res@.map_values(|i: usize| i as int) == boundary_positions(hay@, 0),
                decreases len + 1 - i,
            {
                let ghost before = res@;
                if other.is_char_boundary(i) {
                    res.push(i);
                    proof {
                        assert(res@.map_values(|i: usize| i as int) =~= before.map_values(
                            |i: usize| i as int,
                        ).push(i as int));
                        assert(before.map_values(|i: usize| i as int) + boundary_positions(
                            hay@,
                            i as int,
                        ) =~= res@.map_values(|i: usize| i as int) + boundary_positions(
                            hay@,
                            i + 1,
                        ));
                    }
                }
                if i == len {
                    proof {
                        assert(boundary_positions(hay@, i + 1) =~= Seq::<int>::empty());
                        assert(res@.map_values(|i: usize| i as int) + boundary_positions(
                            hay@,
                            i + 1,
                        ) =~= res@.map_values(|i: usize| i as int));
                    }
                    break;
                }
                i = i + 1;
            }
        } else {
            let ghost lh = lower_bytes(hay@);
            let mut i: usize = 0;
            while i <= len && n <= len - i
                invariant
                    hay@ == other.spec_bytes(),
                    lh == lower_bytes(hay@),
                    needle@ == self@,
                    len == hay@.len(),
                    n == needle@.len(),
                    n > 0,
                    i <= len + n,
                    res@.map_values(|i: usize| i as int) + match_positions_from(
                        lh,
                        needle@,
                        i as int,
                    ) == match_positions_from(lh, needle@, 0),
                decreases len + n - i,
            {
                let ghost before = res@;
                if occurs_lowered_at(hay, needle, i) {
                    res.push(i);
                    proof {
                        assert(res@.map_values(|i: usize| i as int) =~= before.map_values(
                            |i: usize| i as int,
                        ).push(i as int));
                        assert(before.map_values(|i: usize| i as int) + match_positions_from(
                            lh,
                            needle@,
                            i as int,
                        ) =~= res@.map_values(|i: usize| i as int) + match_positions_from(
                            lh,
                            needle@,
                            i + n,
                        ));
                    }
                    i = i + n;
                } else {
                    i = i + 1;
                }
            }
            proof {
                assert(res@.map_values(|i: usize| i as int) + match_positions_from(
                    lh,
                    needle@,
                    i as int,
                ) =~= res@.map_values(|i: usize| i as int));
            }
        }
        proof {
            let m = match_indices(other.spec_bytes(), self@);
            assert(res@.map_values(|i: usize| i as int) == m);
            lemma_match_indices_on_char_boundaries(other@, self@);
            assert forall|j: int| 0 <= j < res@.len() implies is_char_boundary(
                other.spec_bytes(),
                #[trigger] res@[j] as int,
            ) && is_char_boundary(other.spec_bytes(), res@[j] + self@.len()) by {
                assert(m[j] == res@[j] as int);
            }
        }
        res
    }

    /// The length of this term in bytes.
    pub fn len(&self) -> (res: usize)
        ensures
            res == self@.len(),
    {
        self.0.len()
    }

    /// Whether this term is not empty and occurs in `other`, ignoring ASCII letter case.
    pub fn matches(&self, other: &str) -> (res: bool)
        ensures
            res == term_matches(self@, other.spec_bytes()),
    {
        let hay = other.as_bytes();
        let needle = self.0.as_slice();
        let len = hay.len();
        let n = needle.len();
        if n == 0 || n > len {
            proof {
                if n > len && n > 0 {
                    assert forall|i: int| !occurs_at(lower_bytes(hay@), needle@, i) by {}
                }
            }
            return false;
        }
        let mut i: usize = 0;
        while i <= len - n
            invariant
                hay@ == other.spec_bytes(),
                needle@ == self@,
                len == hay@.len(),
                n == needle@.len(),
                0 < n <= len,
                i <= len - n + 1,
                forall|j: int| 0 <= j < i ==> !occurs_at(lower_bytes(hay@), needle@, j),
            decreases len - n + 1 - i,
        {
            if occurs_lowered_at(hay, needle, i) {
                return true;
            }
            i = i + 1;
        }
        proof {
            assert forall|j: int| !occurs_at(lower_bytes(hay@), needle@, j) by {
                if 0 <= j < i {
                } else {
                }
            }
        }
        false
    }

    /// The paths of the arrays/objects to expand to reveal the matches of this term in `value`.
    pub fn find_matching_paths_in<'a>(&self, value: &JsonTreeValue<'a>, abbreviate_root: bool) -> (res:
        PathSet<'a>)
        ensures
            res@ == matching_paths(search_hits(value@, self@, Seq::empty()), abbreviate_root),
    {
        let mut matching_paths = PathSet::new();
        let mut path_segments: Vec<JsonPointerSegment<'a>> = Vec::new();
        search_impl(value, self, &mut path_segments, &mut matching_paths);
        proof {
            assert(path_view(Seq::<JsonPointerSegment<'a>>::empty()) =~= Seq::<SegmentView>::empty());
            assert(Set::<Seq<SegmentView>>::empty().union(search_hits(value@, self@, Seq::empty()))
                =~= search_hits(value@, self@, Seq::empty()));
        }
        if !abbreviate_root && matching_paths.len() == 1 {
            // The only match was a top level key or value - no need to expand anything.
            matching_paths.clear();
        }
        matching_paths
    }
}

/// Adds to `matching_paths` the paths of the arrays/objects that enclose the matches of
/// `search_term` within `value`, found at `path_segments`.
fn search_impl<'a>(
    value: &JsonTreeValue<'a>,
    search_term: &SearchTerm,
    path_segments: &mut Vec<JsonPointerSegment<'a>>,
    matching_paths: &mut PathSet<'a>,
)
    ensures
        final(path_segments)@ == old(path_segments)@,
        final(matching_paths)@ == old(matching_paths)@.union(
            search_hits(value@, search_term@, path_view(old(path_segments)@)),
        ),
    decreases value,
{
    match value {
        JsonTreeValue::Base(display_value, _) => {
            if search_term.matches(display_value.as_str()) {
                update_matches(path_segments.as_slice(), matching_paths);
            } else {
                proof {
                    assert(old(matching_paths)@.union(Set::empty()) =~= old(matching_paths)@);
                }
            }
        },
        JsonTreeValue::Expandable(entries, expandable_type) => {
            let ghost v = value@;
            let ghost prefix = path_view(path_segments@);
            proof {
                assert(old(matching_paths)@.union(entries_hits(v, search_term@, prefix, 0))
                    =~= old(matching_paths)@);
            }
            let mut i: usize = 0;
            while i < entries.len()
                invariant
                    *value == JsonTreeValue::Expandable(*entries, *expandable_type),
                    v == value@,
                    prefix == path_view(path_segments@),
                    path_segments@ == old(path_segments)@,
                    i <= entries@.len(),
                    matching_paths@ == old(matching_paths)@.union(
                        entries_hits(v, search_term@, prefix, i as int),
                    ),
                decreases entries@.len() - i,
            {
                let ghost before = matching_paths@;
                let (property, val) = &entries[i];
                proof {
                    assert(decreases_to!(*value => value->Expandable_0));
                    assert(decreases_to!(*entries => entries[i as int]));
                    assert(decreases_to!(entries[i as int] => entries[i as int].1));
                }
                path_segments.push(*property);
                proof {
                    assert(path_view(path_segments@) =~= prefix.push(property@));
                    assert(v->Expandable_0[i as int] == (property@, val@));
                }
                let ghost key_hits = if *expandable_type == ExpandableType::Object
                    && term_matches(search_term@, encode_utf8(segment_display(property@))) {
                    proper_prefixes(prefix.push(property@))
                } else {
                    Set::empty()
                };
                // Ignore matches for indices in an array.
                if *expandable_type == ExpandableType::Object && search_term.matches(
                    property.to_string().as_str(),
                ) {
                    update_matches(path_segments.as_slice(), matching_paths);
                } else {
                    proof {
                        assert(matching_paths@.union(Set::empty()) =~= matching_paths@);
                    }
                }
                assert(matching_paths@ == before.union(key_hits));
                search_impl(val, search_term, path_segments, matching_paths);
                path_segments.pop();
                proof {
                    assert(path_segments@ =~= old(path_segments)@);
                    assert(matching_paths@ =~= old(matching_paths)@.union(
                        entries_hits(v, search_term@, prefix, i + 1),
                    ));
                }
                i = i + 1;
            }
        },
    }
}

/// Adds every proper prefix of `path_segments` to `matching_paths`.
fn update_matches<'a>(path_segments: &[JsonPointerSegment<'a>], matching_paths: &mut PathSet<'a>)
    ensures
        final(matching_paths)@ == old(matching_paths)@.union(
            proper_prefixes(path_view(path_segments@)),
        ),
{
    let ghost p = path_view(path_segments@);
    proof {
        assert(old(matching_paths)@.union(prefixes_shorter_than(p, 0)) =~= old(matching_paths)@);
    }
    let mut i: usize = 0;
    while i < path_segments.len()
        invariant
            p == path_view(path_segments@),
            i <= path_segments@.len(),
            matching_paths@ == old(matching_paths)@.union(prefixes_shorter_than(p, i as int)),
        decreases path_segments@.len() - i,
    {
        let (prefix, _) = path_segments.split_at(i);
        let prefix_vec = vstd::slice::slice_to_vec(prefix);
        matching_paths.insert(prefix_vec);
        proof {
            assert(path_view(prefix_vec@) =~= p.take(i as int));
            assert(prefixes_shorter_than(p, i as int).insert(p.take(i as int)) =~= prefixes_shorter_than(
                p,
                i + 1,
            ));
        }
        i = i + 1;
    }
    proof {
        assert(prefixes_shorter_than(p, i as int) =~= proper_prefixes(p));
    }
}

} // verus!
