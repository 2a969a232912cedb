//! Helpers for editing a JSON document shown in a tree.
use vstd::prelude::*;
use vstd::set_lib::{lemma_int_range, lemma_len_subset, lemma_map_size, set_int_range};

use crate::path_set::str_equal;
use crate::text::{decimal, digit_char, push_decimal};

verus! {

/// The `n`-th key tried for a new object entry: `new_key`, then `new_key_1`, `new_key_2`, ...
pub open spec fn new_key_candidate(n: nat) -> Seq<char> {
    if n == 0 {
        seq!['n', 'e', 'w', '_', 'k', 'e', 'y']
    } else {
        seq!['n', 'e', 'w', '_', 'k', 'e', 'y', '_'] + decimal(n)
    }
}

/// Whether `key` is one of `keys`.
pub open spec fn key_taken(keys: Seq<&str>, key: Seq<char>) -> bool {
    exists|i: int| 0 <= i < keys.len() && #[trigger] keys[i]@ == key
}

proof fn lemma_decimal_len(n: nat)
    ensures
        decimal(n).len() >= 1,
        n >= 10 ==> decimal(n).len() >= 2,
    decreases n,
{
    if n >= 10 {
        lemma_decimal_len(n / 10);
    }
}

proof fn lemma_decimal_injective(a: nat, b: nat)
    requires
        decimal(a) == decimal(b),
    ensures
        a == b,
    decreases a,
{
    lemma_decimal_len(a);
    lemma_decimal_len(b);
    if a < 10 && b < 10 {
        assert(decimal(a)[0] == digit_char(a));
        assert(decimal(b)[0] == digit_char(b));
    } else if a >= 10 && b >= 10 {
        assert(decimal(a).last() == digit_char(a % 10));
        assert(decimal(b).last() == digit_char(b % 10));
        assert(decimal(a).drop_last() == decimal(a / 10));
        assert(decimal(b).drop_last() == decimal(b / 10));
        lemma_decimal_injective(a / 10, b / 10);
    } else {
        assert(decimal(a).len() != decimal(b).len());
    }
}

proof fn lemma_candidates_distinct(a: nat, b: nat)
    requires
        new_key_candidate(a) == new_key_candidate(b),
    ensures
        a == b,
{
    lemma_decimal_len(a);
    lemma_decimal_len(b);
    if a > 0 && b > 0 {
        let prefix = seq!['n', 'e', 'w', '_', 'k', 'e', 'y', '_'];
        assert(decimal(a) =~= new_key_candidate(a).subrange(8, new_key_candidate(a).len() as int));
        assert(decimal(b) =~= new_key_candidate(b).subrange(8, new_key_candidate(b).len() as int));
        lemma_decimal_injective(a, b);
    } else if a > 0 || b > 0 {
        let n = if a > 0 {
            a
        } else {
            b
        };
        assert(new_key_candidate(0).len() == 7);
        assert(new_key_candidate(n).len() == 8 + decimal(n).len());
    }
}

/// `key` is the first of `new_key`, `new_key_1`, `new_key_2`, ... that is not one of `keys`.
pub open spec fn is_first_free_key(keys: Seq<&str>, key: Seq<char>) -> bool {
    &&& exists|n: nat|
        key == new_key_candidate(n) && (forall|j: nat|
            j < n ==> key_taken(keys, #[trigger] new_key_candidate(j)))
    &&& !key_taken(keys, key)
}

/// If the first `n` candidates are all taken, there are at least `n` keys.
proof fn lemma_taken_candidates_bound(keys: Seq<&str>, n: nat)
    requires
        forall|j: nat| j < n ==> key_taken(keys, #[trigger] new_key_candidate(j)),
    ensures
        n <= keys.len(),
{
    let tried = set_int_range(0, n as int);
    let f = |j: int| new_key_candidate(j as nat);
    let names = tried.map(f);
    let key_views = keys.map_values(|k: &str| k@);
    lemma_int_range(0, n as int);
    assert forall|x: int, y: int| tried.contains(x) && tried.contains(y) && #[trigger] f(x) == #[trigger] f(
        y,
    ) implies x == y by {
        lemma_candidates_distinct(x as nat, y as nat);
    }
    lemma_map_size(tried, names, f);
    assert forall|name: Seq<char>| names.contains(name) implies key_views.to_set().contains(name) by {
        let j = choose|j: int| tried.contains(j) && f(j) == name;
        assert(key_taken(keys, new_key_candidate(j as nat)));
        let i = choose|i: int| 0 <= i < keys.len() && #[trigger] keys[i]@ == new_key_candidate(j as nat);
        assert(key_views[i] == name);
    }
    key_views.lemma_cardinality_of_set();
    vstd::seq_lib::seq_to_set_is_finite(key_views);
    lemma_len_subset(names, key_views.to_set());
}

/// Whether `key` is one of `keys`.
fn is_taken(keys: &[&str], key: &str) -> (res: bool)
    ensures
        res == key_taken(keys@, key@),
{
    let mut i: usize = 0;
    while i < keys.len()
        invariant
            i <= keys@.len(),
            forall|j: int| 0 <= j < i ==> keys@[j]@ != key@,
        decreases keys@.len() - i,
    {
        if str_equal(keys[i], key) {
            return true;
        }
        i = i + 1;
    }
    false
}

/// The key for a new entry of an object that holds `keys`: the first of `new_key`, `new_key_1`,
/// `new_key_2`, ... that it does not hold.
pub fn new_object_key(keys: &[&str]) -> (res: String)
    ensures
        is_first_free_key(keys@, res@),
{
    let n_keys = keys.len();
    let mut counter: usize = 0;
    let mut new_key = String::new();
    new_key.append("new_key");
    proof {
        reveal_strlit("new_key");
        assert(new_key@ =~= new_key_candidate(0));
    }
    while is_taken(keys, new_key.as_str())
        invariant
            n_keys == keys@.len(),
            counter <= keys@.len(),
            new_key@ == new_key_candidate(counter as nat),
            forall|j: nat| j < counter ==> key_taken(keys@, #[trigger] new_key_candidate(j)),
        decreases keys@.len() - counter,
    {
        proof {
            assert forall|j: nat| j < counter + 1 implies key_taken(keys@, #[trigger] new_key_candidate(j)) by {
                if j == counter {
                }
            }
            lemma_taken_candidates_bound(keys@, (counter + 1) as nat);
        }
        counter = counter + 1;
        let mut candidate = String::new();
        candidate.append("new_key_");
        push_decimal(&mut candidate, counter);
        proof {
            reveal_strlit("new_key_");
            assert(candidate@ =~= new_key_candidate(counter as nat));
        }
        new_key = candidate;
    }
    new_key
}

/// A request made while editing a document shown in a tree.
pub enum EditEvent {
    DeleteFromObject { object_pointer: String, key: String },
    DeleteFromArray { array_pointer: String, idx: usize },
    AddToObject { pointer: String },
    AddToArray { pointer: String },
    SaveValueEdit,
    SaveObjectKeyEdit,
    CloseObjectKeyEdit,
    CloseValueEdit,
}

/// An object key being edited.
pub struct EditObjectKeyState {
    pub key: String,
    pub object_pointer: String,
    pub new_key_input: String,
    pub request_focus: bool,
    pub is_new_key: bool,
}

/// A value being edited.
pub struct EditValueState {
    pub pointer: String,
    pub new_value_input: String,
    pub request_focus: bool,
}

/// What is being edited.
pub enum EditState {
    EditObjectKey(EditObjectKeyState),
    EditValue(EditValueState),
}

/// A change to make to the document, at a JSON pointer string.
pub enum DocumentEdit {
    /// Leave the document as it is.
    Nothing,
    /// If the pointer leads to an array, remove its element at `idx`.
    RemoveArrayElement { pointer: String, idx: usize },
    /// If the pointer leads to an object, remove its entry for `key`.
    RemoveObjectEntry { pointer: String, key: String },
    /// If the pointer leads to an object, add an entry for `key` holding `null`.
    InsertNullEntry { pointer: String, key: String },
    /// If the pointer leads to an array, append `null` to it.
    PushNull { pointer: String },
    /// If the pointer leads to a value, replace it with `input` read as JSON,
    /// or with the string `input` when it is not JSON.
    ReplaceValue { pointer: String, input: String },
    /// If the pointer leads to an object with an entry for `key`, move that entry's value to
    /// `new_key`.
    RenameEntry { pointer: String, key: String, new_key: String },
}

/// Handles one edit request: returns what is being edited afterwards, and the change to make to
/// the document. `object_keys` are the keys of the object that the request's pointer leads to,
/// when it leads to an object; only an addition to an object reads them.
pub fn edit_step(state: Option<EditState>, event: EditEvent, object_keys: Option<&[&str]>) -> (res: (
    Option<EditState>,
    DocumentEdit,
))
    ensures
        match event {
            EditEvent::DeleteFromArray { array_pointer, idx } => res.0 == state && res.1
                == (DocumentEdit::RemoveArrayElement { pointer: array_pointer, idx }),
            EditEvent::DeleteFromObject { object_pointer, key } => res.0 == state && res.1
                == (DocumentEdit::RemoveObjectEntry { pointer: object_pointer, key }),
            EditEvent::AddToObject { pointer } => match object_keys {
                Some(keys) => res.1 matches DocumentEdit::InsertNullEntry { pointer: p, key: k } && p
                    == pointer && is_first_free_key(keys@, k@) && res.0 == Some(
                    EditState::EditObjectKey(
                        (EditObjectKeyState {
                            key: k,
                            object_pointer: pointer,
                            new_key_input: k,
                            request_focus: true,
                            is_new_key: true,
                        }),
                    ),
                ),
                None => res.0 == state && res.1 is Nothing,
            },
            EditEvent::AddToArray { pointer } => res.0 == state && res.1 == (DocumentEdit::PushNull {
                pointer,
            }),
            EditEvent::SaveValueEdit => res.0 is None && res.1 == match state {
                Some(EditState::EditValue(edit)) => DocumentEdit::ReplaceValue {
                    pointer: edit.pointer,
                    input: edit.new_value_input,
                },
                _ => DocumentEdit::Nothing,
            },
            EditEvent::SaveObjectKeyEdit => res.0 is None && res.1 == match state {
                Some(EditState::EditObjectKey(edit)) => DocumentEdit::RenameEntry {
                    pointer: edit.object_pointer,
                    key: edit.key,
                    new_key: edit.new_key_input,
                },
                _ => DocumentEdit::Nothing,
            },
            EditEvent::CloseObjectKeyEdit | EditEvent::CloseValueEdit => res.0 is None
                && res.1 is Nothing,
        },
{
    match event {
        EditEvent::DeleteFromArray { array_pointer, idx } => (
            state,
            DocumentEdit::RemoveArrayElement { pointer: array_pointer, idx },
        ),
        EditEvent::DeleteFromObject { object_pointer, key } => (
            state,
            DocumentEdit::RemoveObjectEntry { pointer: object_pointer, key },
        ),
        EditEvent::AddToObject { pointer } => match object_keys {
            Some(keys) => {
                let new_key = new_object_key(keys);
                let entry_key = new_key.clone();
                let input = new_key.clone();
                (
                    Some(
                        EditState::EditObjectKey(
                            EditObjectKeyState {
                                key: new_key,
                                object_pointer: pointer.clone(),
                                new_key_input: input,
                                request_focus: true,
                                is_new_key: true,
                            },
                        ),
                    ),
                    DocumentEdit::InsertNullEntry { pointer, key: entry_key },
                )
            },
            None => (state, DocumentEdit::Nothing),
        },
        EditEvent::AddToArray { pointer } => (state, DocumentEdit::PushNull { pointer }),
        EditEvent::SaveValueEdit => match state {
            Some(EditState::EditValue(edit)) => (
                None,
                DocumentEdit::ReplaceValue { pointer: edit.pointer, input: edit.new_value_input },
            ),
            _ => (None, DocumentEdit::Nothing),
        },
        EditEvent::SaveObjectKeyEdit => match state {
            Some(EditState::EditObjectKey(edit)) => (
                None,
                DocumentEdit::RenameEntry {
                    pointer: edit.object_pointer,
                    key: edit.key,
                    new_key: edit.new_key_input,
                },
            ),
            _ => (None, DocumentEdit::Nothing),
        },
        EditEvent::CloseObjectKeyEdit | EditEvent::CloseValueEdit => (None, DocumentEdit::Nothing),
    }
}

} // verus!
