use encnotes::{
    add_note, change_password, delete_note, edit_note, init_vault, list_notes, read_vault,
    verify_password, view_note, write_vault, Note, Vault, VaultError,
};

fn b(s: &str) -> Vec<u8> {
    s.as_bytes().to_vec()
}

fn sample_vault() -> Vault {
    Vault {
        notes: vec![
            Note {
                id: b("id-one"),
                title: b("Groceries"),
                description: b("milk, eggs"),
                created_at: 1700000000,
                modified_at: 1700000000,
            },
            Note {
                id: b("id-two"),
                title: b("Wifi"),
                description: b("pass: abc123"),
                created_at: 1700000001,
                modified_at: 1700000002,
            },
        ],
    }
}

fn notes_equal(a: &[Note], c: &[Note]) -> bool {
    a.len() == c.len()
        && a.iter().zip(c.iter()).all(|(x, y)| {
            x.id == y.id
                && x.title == y.title
                && x.description == y.description
                && x.created_at == y.created_at
                && x.modified_at == y.modified_at
        })
}

#[test]
fn round_trip_preserves_notes() {
    let v = sample_vault();
    let file = write_vault(&v, "hunter2").unwrap();
    let back = read_vault(&Some(file), "hunter2").unwrap();
    assert!(notes_equal(&v.notes, &back.notes));
}

#[test]
fn round_trip_of_empty_vault() {
    let v = Vault { notes: vec![] };
    let file = write_vault(&v, "pw").unwrap();
    let back = read_vault(&Some(file), "pw").unwrap();
    assert!(back.notes.is_empty());
}

#[test]
fn missing_file_reads_as_empty_vault() {
    let back = read_vault(&None, "anything").unwrap();
    assert!(back.notes.is_empty());
}

#[test]
fn wrong_password_is_authentication_failure() {
    let v = sample_vault();
    let file = write_vault(&v, "right horse").unwrap();
    let r = read_vault(&Some(file), "wrong horse");
    assert_eq!(r.unwrap_err(), VaultError::AuthenticationFailure);
}

#[test]
fn rewrites_use_fresh_salt_and_nonce() {
    let v = sample_vault();
    let f1 = write_vault(&v, "hunter2").unwrap();
    let f2 = write_vault(&v, "hunter2").unwrap();
    assert_ne!(f1, f2);
    let e1 = encnotes::decode_envelope(&f1).unwrap();
    let e2 = encnotes::decode_envelope(&f2).unwrap();
    assert_ne!(e1.salt_b64, e2.salt_b64);
    assert_ne!(e1.nonce_b64, e2.nonce_b64);
    assert_ne!(e1.cipher_text_b64, e2.cipher_text_b64);
}

#[test]
fn init_then_verify_accepts_right_password_only() {
    let file = init_vault(&None, "hunter2").unwrap();
    assert!(verify_password(&Some(file.clone()), "hunter2").is_ok());
    assert_eq!(
        verify_password(&Some(file), "wrong").unwrap_err(),
        VaultError::AuthenticationFailure
    );
}

#[test]
fn init_refuses_existing_vault() {
    let file = init_vault(&None, "pw").unwrap();
    assert_eq!(
        init_vault(&Some(file), "pw").unwrap_err(),
        VaultError::VaultAlreadyExists
    );
}

#[test]
fn verify_password_needs_a_file() {
    assert_eq!(
        verify_password(&None, "pw").unwrap_err(),
        VaultError::VaultMissing
    );
}

#[test]
fn add_note_then_view_by_title() {
    let file = init_vault(&None, "hunter2").unwrap();
    let file = add_note(&Some(file), "hunter2", b("Wifi"), b("pass: abc123")).unwrap();
    let note = view_note(&Some(file), &b("Wifi"), "hunter2").unwrap();
    assert_eq!(note.description, b("pass: abc123"));
}

#[test]
fn view_matches_title_case_insensitively() {
    let file = init_vault(&None, "pw").unwrap();
    let file = add_note(&Some(file), "pw", b("Wifi"), b("secret")).unwrap();
    let note = view_note(&Some(file.clone()), &b("wIFI"), "pw").unwrap();
    assert_eq!(note.title, b("Wifi"));
    assert_eq!(
        view_note(&Some(file), &b("Wifi!"), "pw").unwrap_err(),
        VaultError::NoteNotFound
    );
}

#[test]
fn view_matches_exact_id() {
    let v = sample_vault();
    let file = write_vault(&v, "pw").unwrap();
    let note = view_note(&Some(file), &b("id-two"), "pw").unwrap();
    assert_eq!(note.title, b("Wifi"));
}

#[test]
fn added_notes_get_fresh_36_byte_ids() {
    let file = init_vault(&None, "pw").unwrap();
    let file = add_note(&Some(file), "pw", b("a"), b("x")).unwrap();
    let file = add_note(&Some(file), "pw", b("b"), b("y")).unwrap();
    let notes = list_notes(&Some(file), "pw").unwrap();
    assert_eq!(notes.len(), 2);
    assert_eq!(notes[0].id.len(), 36);
    assert_eq!(notes[1].id.len(), 36);
    assert_ne!(notes[0].id, notes[1].id);
    assert_eq!(notes[0].title, b("a"));
    assert_eq!(notes[1].title, b("b"));
}

#[test]
fn delete_of_missing_id_reports_not_found_and_changes_nothing() {
    let v = sample_vault();
    let file = write_vault(&v, "hunter2").unwrap();
    let before = file.clone();
    let r = delete_note(&Some(file.clone()), &b("no-such-id"), "hunter2");
    assert_eq!(r.unwrap_err(), VaultError::NoteNotFound);
    assert_eq!(file, before);
    let back = read_vault(&Some(file), "hunter2").unwrap();
    assert!(notes_equal(&v.notes, &back.notes));
}

#[test]
fn delete_removes_exactly_the_matching_note() {
    let v = sample_vault();
    let file = write_vault(&v, "pw").unwrap();
    let file = delete_note(&Some(file), &b("id-one"), "pw").unwrap();
    let notes = list_notes(&Some(file), "pw").unwrap();
    assert_eq!(notes.len(), 1);
    assert_eq!(notes[0].id, b("id-two"));
}

#[test]
fn edit_replaces_texts_and_keeps_the_rest() {
    let v = sample_vault();
    let file = write_vault(&v, "pw").unwrap();
    let file = edit_note(&Some(file), &b("id-two"), b("Router"), b("new pass"), "pw").unwrap();
    let notes = list_notes(&Some(file), "pw").unwrap();
    assert_eq!(notes[1].id, b("id-two"));
    assert_eq!(notes[1].title, b("Router"));
    assert_eq!(notes[1].description, b("new pass"));
    assert_eq!(notes[1].created_at, 1700000001);
    assert_eq!(notes[1].modified_at, 1700000002);
    assert_eq!(notes[0].title, b("Groceries"));
}

#[test]
fn edit_of_missing_id_reports_not_found() {
    let file = init_vault(&None, "pw").unwrap();
    assert_eq!(
        edit_note(&Some(file), &b("ghost"), b("t"), b("d"), "pw").unwrap_err(),
        VaultError::NoteNotFound
    );
}

#[test]
fn change_password_locks_out_the_old_one() {
    let v = sample_vault();
    let file = write_vault(&v, "old").unwrap();
    let file = change_password(&Some(file), "old", "new").unwrap();
    assert_eq!(
        read_vault(&Some(file.clone()), "old").unwrap_err(),
        VaultError::AuthenticationFailure
    );
    let back = read_vault(&Some(file), "new").unwrap();
    assert!(notes_equal(&v.notes, &back.notes));
}

#[test]
fn change_password_needs_a_file() {
    assert_eq!(
        change_password(&None, "old", "new").unwrap_err(),
        VaultError::VaultMissing
    );
}

#[test]
fn change_password_with_wrong_old_password_fails() {
    let v = sample_vault();
    let file = write_vault(&v, "old").unwrap();
    assert_eq!(
        change_password(&Some(file), "not old", "new").unwrap_err(),
        VaultError::AuthenticationFailure
    );
}

#[test]
fn garbled_file_is_a_format_error() {
    let r = read_vault(&Some(b("this is not an envelope")), "pw");
    assert_eq!(r.unwrap_err(), VaultError::FormatError);
}
