//! Representation of JSON values for presentation purposes.
//!
//! A JSON document of any JSON library is shown by converting it to a [`JsonTreeValue`]:
//! non-recursive values are held by the text that visually represents them,
//! arrays and objects by their property-value pairs.
use vstd::prelude::*;

use crate::pointer::{JsonPointerSegment, SegmentView};

verus! {

/// The type of a non-recursive JSON value.
#[derive(Debug, Clone, Copy, PartialEq, Eq, Hash, Structural)]
pub enum BaseValueType {
    Null,
    Bool,
    Number,
    String,
}

/// The type of a recursive JSON value.
#[derive(Debug, Clone, Copy, PartialEq, Eq, Hash, Structural)]
pub enum ExpandableType {
    Array,
    Object,
}

/// Representation of JSON values for presentation purposes.
#[derive(Debug)]
pub enum JsonTreeValue<'a> {
    /// Representation for a non-recursive JSON value:
    /// - The text that visually represents the JSON value (a string without its quotes).
    /// - The type of the base value.
    Base(String, BaseValueType),
    /// Representation for a recursive JSON value:
    /// - A `Vec` of property-value pairs. The order *must always* be the same.
    ///   - For arrays, the property is the index of each element.
    ///   - For objects, the property is the key of each object entry, without quotes.
    /// - The type of the recursive value, i.e. array or object.
    Expandable(Vec<(JsonPointerSegment<'a>, JsonTreeValue<'a>)>, ExpandableType),
}

/// The mathematical value of a [`JsonTreeValue`].
pub ghost enum JsonTreeView {
    Base(Seq<char>, BaseValueType),
    Expandable(Seq<(SegmentView, JsonTreeView)>, ExpandableType),
}

impl<'a> JsonTreeValue<'a> {
    /// The mathematical value of this JSON value.
    pub open spec fn tree_view(&self) -> JsonTreeView
        decreases self,
    {
        match self {
            JsonTreeValue::Base(text, ty) => JsonTreeView::Base(text@, *ty),
            JsonTreeValue::Expandable(entries, ty) => JsonTreeView::Expandable(
                Seq::new(
                    entries@.len(),
                    |i: int|
                        (
                            entries@[i].0@,
                            if 0 <= i < entries@.len() {
                                entries@[i].1.tree_view()
                            } else {
                                JsonTreeView::Base(Seq::empty(), BaseValueType::Null)
                            },
                        ),
                ),
                *ty,
            ),
        }
    }
}

impl<'a> View for JsonTreeValue<'a> {
    type V = JsonTreeView;

    open spec fn view(&self) -> JsonTreeView {
        self.tree_view()
    }
}

/// A trait for types that can be converted to a [JsonTreeValue].
pub trait ToJsonTreeValue {
    /// Converts this JSON value to a [JsonTreeValue].
    fn to_json_tree_value(&self) -> JsonTreeValue<'_>;

    /// Returns whether this JSON value is expandable, i.e. whether it is an object or an array.
    fn is_expandable(&self) -> bool;
}

impl<'a> JsonTreeValue<'a> {
    /// A JSON array of `elements`: the property of each element is its index.
    pub fn array(elements: Vec<JsonTreeValue<'a>>) -> (res: Self)
        ensures
            res matches JsonTreeValue::Expandable(entries, ty) && ty == ExpandableType::Array
                && entries@.len() == elements@.len() && forall|i: int|
                0 <= i < entries@.len() ==> #[trigger] entries@[i] == (
                JsonPointerSegment::Index(i as usize),
                elements@[i],
            ),
    {
        let mut entries: Vec<(JsonPointerSegment<'a>, JsonTreeValue<'a>)> = Vec::new();
        let ghost all = elements@;
        let n = elements.len();
        let mut idx: usize = 0;
        for elem in it: elements.into_iter()
            invariant
                it.seq() == all,
                all.len() == n,
                idx == it.index(),
                entries@.len() == idx,
                forall|i: int|
                    0 <= i < idx ==> #[trigger] entries@[i] == (
                        JsonPointerSegment::Index(i as usize),
                        all[i],
                    ),
        {
            entries.push((JsonPointerSegment::Index(idx), elem));
            idx = idx + 1;
        }
        JsonTreeValue::Expandable(entries, ExpandableType::Array)
    }

    /// A JSON object of `members`: the property of each value is its key.
    pub fn object(members: Vec<(&'a str, JsonTreeValue<'a>)>) -> (res: Self)
        ensures
            res matches JsonTreeValue::Expandable(entries, ty) && ty == ExpandableType::Object
                && entries@.len() == members@.len() && forall|i: int|
                0 <= i < entries@.len() ==> #[trigger] entries@[i] == (
                JsonPointerSegment::Key(members@[i].0),
                members@[i].1,
            ),
    {
        let mut entries: Vec<(JsonPointerSegment<'a>, JsonTreeValue<'a>)> = Vec::new();
        let ghost all = members@;
        for member in it: members.into_iter()
            invariant
                it.seq() == all,
                entries@.len() == it.index(),
                forall|i: int|
                    0 <= i < it.index() ==> #[trigger] entries@[i] == (
                        JsonPointerSegment::Key(all[i].0),
                        all[i].1,
                    ),
        {
            let (key, value) = member;
            entries.push((JsonPointerSegment::Key(key), value));
        }
        JsonTreeValue::Expandable(entries, ExpandableType::Object)
    }

    /// An independent copy of this value.
    pub fn deep_clone(&self) -> (res: Self)
        ensures
            res@ == self@,
        decreases self,
    {
        match self {
            JsonTreeValue::Base(text, ty) => JsonTreeValue::Base(text.clone(), *ty),
            JsonTreeValue::Expandable(entries, ty) => {
                let mut copy: Vec<(JsonPointerSegment<'a>, JsonTreeValue<'a>)> = Vec::new();
                let mut i: usize = 0;
                while i < entries.len()
                    invariant
                        *self == JsonTreeValue::Expandable(*entries, *ty),
                        i <= entries@.len(),
                        copy@.len() == i,
                        forall|j: int|
                            0 <= j < i ==> #[trigger] copy@[j].0 == entries@[j].0 && copy@[j].1@
                                == entries@[j].1@,
                    decreases entries@.len() - i,
                {
                    let (seg, child) = &entries[i];
                    proof {
                        assert(decreases_to!(*self => self->Expandable_0));
                        assert(decreases_to!(*entries => entries[i as int]));
                        assert(decreases_to!(entries[i as int] => entries[i as int].1));
                    }
                    copy.push((*seg, child.deep_clone()));
                    i = i + 1;
                }
                let res = JsonTreeValue::Expandable(copy, *ty);
                proof {
                    assert(res@->Expandable_0 =~= self@->Expandable_0);
                }
                res
            },
        }
    }
}

impl<'a> ToJsonTreeValue for JsonTreeValue<'a> {
    fn to_json_tree_value(&self) -> (res: JsonTreeValue<'_>)
        ensures
            res@ == self@,
    {
        self.deep_clone()
    }

    fn is_expandable(&self) -> (res: bool)
        ensures
            res == (*self is Expandable),
    {
        match self {
            JsonTreeValue::Base(..) => false,
            JsonTreeValue::Expandable(..) => true,
        }
    }
}

/// Following the entry positions `idxs` from `v` stays within arrays/objects: each position is
/// an entry of the array/object reached so far.
pub open spec fn valid_positions(v: JsonTreeView, idxs: Seq<int>) -> bool
    decreases idxs.len(),
{
    if idxs.len() == 0 {
        true
    } else {
        match v {
            JsonTreeView::Base(..) => false,
            JsonTreeView::Expandable(entries, _) => 0 <= idxs[0] < entries.len() && valid_positions(
                entries[idxs[0]].1,
                idxs.drop_first(),
            ),
        }
    }
}

/// The value reached from `v` by following the entry positions `idxs`.
pub open spec fn node_at(v: JsonTreeView, idxs: Seq<int>) -> JsonTreeView
    decreases idxs.len(),
{
    if idxs.len() == 0 {
        v
    } else {
        match v {
            JsonTreeView::Base(..) => v,
            JsonTreeView::Expandable(entries, _) => node_at(entries[idxs[0]].1, idxs.drop_first()),
        }
    }
}

/// The path (array indices and object keys) of the value reached from `v` by following the entry
/// positions `idxs`.
pub open spec fn path_of(v: JsonTreeView, idxs: Seq<int>) -> Seq<SegmentView>
    decreases idxs.len(),
{
    if idxs.len() == 0 {
        Seq::empty()
    } else {
        match v {
            JsonTreeView::Base(..) => Seq::empty(),
            JsonTreeView::Expandable(entries, _) => seq![entries[idxs[0]].0] + path_of(
                entries[idxs[0]].1,
                idxs.drop_first(),
            ),
        }
    }
}

} // verus!
