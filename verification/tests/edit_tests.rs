use egui_json_tree::edit::{
    edit_step, new_object_key, DocumentEdit, EditEvent, EditObjectKeyState, EditState, EditValueState,
};

fn key_edit(key: &str, pointer: &str, input: &str) -> EditState {
    EditState::EditObjectKey(EditObjectKeyState {
        key: key.to_string(),
        object_pointer: pointer.to_string(),
        new_key_input: input.to_string(),
        request_focus: false,
        is_new_key: false,
    })
}

fn value_edit(pointer: &str, input: &str) -> EditState {
    EditState::EditValue(EditValueState {
        pointer: pointer.to_string(),
        new_value_input: input.to_string(),
        request_focus: false,
    })
}

#[test]
fn new_object_key_takes_first_free_name() {
    assert_eq!(new_object_key(&[]), "new_key");
    assert_eq!(new_object_key(&["a", "b"]), "new_key");
    assert_eq!(new_object_key(&["new_key"]), "new_key_1");
    assert_eq!(new_object_key(&["new_key_1", "new_key", "new_key_2", "new_key_10"]), "new_key_3");
}

#[test]
fn add_to_object_inserts_free_key_and_edits_it() {
    let keys = ["new_key", "x"];
    let (state, edit) = edit_step(None, EditEvent::AddToObject { pointer: "/obj".to_string() }, Some(&keys));
    match edit {
        DocumentEdit::InsertNullEntry { pointer, key } => {
            assert_eq!(pointer, "/obj");
            assert_eq!(key, "new_key_1");
        }
        _ => panic!("expected an insertion"),
    }
    match state {
        Some(EditState::EditObjectKey(s)) => {
            assert_eq!(s.key, "new_key_1");
            assert_eq!(s.new_key_input, "new_key_1");
            assert_eq!(s.object_pointer, "/obj");
            assert!(s.request_focus && s.is_new_key);
        }
        _ => panic!("expected a key edit"),
    }
}

#[test]
fn add_to_missing_object_changes_nothing() {
    let (state, edit) = edit_step(
        Some(value_edit("/a", "1")),
        EditEvent::AddToObject { pointer: "/nope".to_string() },
        None,
    );
    assert!(matches!(edit, DocumentEdit::Nothing));
    assert!(matches!(state, Some(EditState::EditValue(_))));
}

#[test]
fn deletions_and_array_additions_keep_the_state() {
    let (state, edit) = edit_step(
        Some(value_edit("/a", "1")),
        EditEvent::DeleteFromArray { array_pointer: "/arr".to_string(), idx: 2 },
        None,
    );
    assert!(matches!(edit, DocumentEdit::RemoveArrayElement { ref pointer, idx: 2 } if pointer == "/arr"));
    assert!(matches!(state, Some(EditState::EditValue(_))));
    let (state, edit) = edit_step(
        None,
        EditEvent::DeleteFromObject { object_pointer: "".to_string(), key: "k".to_string() },
        None,
    );
    assert!(matches!(edit, DocumentEdit::RemoveObjectEntry { ref pointer, ref key } if pointer.is_empty() && key == "k"));
    assert!(state.is_none());
    let (_, edit) = edit_step(None, EditEvent::AddToArray { pointer: "/arr".to_string() }, None);
    assert!(matches!(edit, DocumentEdit::PushNull { ref pointer } if pointer == "/arr"));
}

#[test]
fn saving_applies_the_matching_edit_and_ends_it() {
    let (state, edit) = edit_step(Some(value_edit("/v", "[1]")), EditEvent::SaveValueEdit, None);
    assert!(state.is_none());
    assert!(matches!(edit, DocumentEdit::ReplaceValue { ref pointer, ref input } if pointer == "/v" && input == "[1]"));

    let (state, edit) = edit_step(Some(key_edit("old", "/o", "new")), EditEvent::SaveObjectKeyEdit, None);
    assert!(state.is_none());
    assert!(matches!(edit, DocumentEdit::RenameEntry { ref pointer, ref key, ref new_key }
        if pointer == "/o" && key == "old" && new_key == "new"));

    // A save of the other kind of edit only ends the edit.
    let (state, edit) = edit_step(Some(key_edit("old", "/o", "new")), EditEvent::SaveValueEdit, None);
    assert!(state.is_none());
    assert!(matches!(edit, DocumentEdit::Nothing));
}

#[test]
fn closing_ends_the_edit() {
    let (state, edit) = edit_step(Some(key_edit("a", "", "b")), EditEvent::CloseObjectKeyEdit, None);
    assert!(state.is_none() && matches!(edit, DocumentEdit::Nothing));
    let (state, edit) = edit_step(Some(value_edit("", "1")), EditEvent::CloseValueEdit, None);
    assert!(state.is_none() && matches!(edit, DocumentEdit::Nothing));
}
