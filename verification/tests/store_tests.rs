use senha::cipher::KeyMaterial;
use senha::errors::CipherError;
use senha::store::{decode_stored_row, NewCredential, StoredRow, Vault};

const KEY: &[u8; 32] = b"32-byte-secret-key-used-for-encr";
const IV: &[u8; 16] = b"16-byte-iv-vec!!";

fn new_vault() -> Vault {
    Vault::new(KeyMaterial::new(KEY.to_vec(), IV.to_vec()).unwrap())
}

fn credential(app: &str, user: &str, email: &str, secret: &str, note: Option<&str>) -> NewCredential {
    NewCredential {
        application: app.to_string(),
        username: user.to_string(),
        email: email.to_string(),
        secret: secret.to_string(),
        note: note.map(|n| n.to_string()),
    }
}

#[test]
fn end_to_end_scenario() {
    let mut v = new_vault();
    let id = v.create(credential("mail", "alice", "a@x.com", "hunter2", None));
    assert_eq!(id, 1);

    let found = v.find_by_application(&"mail".to_string());
    assert_eq!(found.records.len(), 1);
    assert_eq!(found.failures.len(), 0);
    assert_eq!(found.records[0].id, 1);
    assert_eq!(found.records[0].application, "mail");
    assert_eq!(found.records[0].username, "alice");
    assert_eq!(found.records[0].email, "a@x.com");
    assert_eq!(found.records[0].secret, "hunter2");
    assert_eq!(found.records[0].note, None);

    let deleted = v.delete_by_application(&"mail".to_string());
    assert_eq!(deleted, 1);

    let found_again = v.find_by_application(&"mail".to_string());
    assert_eq!(found_again.records.len(), 0);
    assert_eq!(found_again.failures.len(), 0);
}

#[test]
fn secret_is_never_stored_in_clear() {
    let mut v = new_vault();
    v.create(credential("mail", "alice", "a@x.com", "hunter2", None));
    assert!(!v.rows[0].secret_text.contains("hunter2"));
}

#[test]
fn list_all_is_idempotent() {
    let mut v = new_vault();
    v.create(credential("mail", "alice", "a@x.com", "hunter2", Some("personal")));
    v.create(credential("bank", "bob", "b@y.org", "letmein", None));

    let first = v.list_all();
    let second = v.list_all();
    assert_eq!(first.records.len(), second.records.len());
    for (a, b) in first.records.iter().zip(second.records.iter()) {
        assert_eq!(a.id, b.id);
        assert_eq!(a.application, b.application);
        assert_eq!(a.username, b.username);
        assert_eq!(a.email, b.email);
        assert_eq!(a.secret, b.secret);
        assert_eq!(a.note, b.note);
    }
    assert_eq!(first.failures.len(), 0);
    assert_eq!(second.failures.len(), 0);
}

#[test]
fn one_corrupt_row_does_not_hide_the_rest() {
    let mut v = new_vault();
    v.create(credential("mail", "alice", "a@x.com", "hunter2", None));
    v.restore_row(
        "mail".to_string(),
        "mallory".to_string(),
        "m@z.net".to_string(),
        "not base64!!".to_string(),
        None,
    );
    v.create(credential("mail", "carol", "c@w.io", "swordfish", None));

    let all = v.list_all();
    assert_eq!(all.records.len(), 2);
    assert_eq!(all.failures.len(), 1);
    assert_eq!(all.records[0].secret, "hunter2");
    assert_eq!(all.records[1].secret, "swordfish");
    assert_eq!(all.failures[0].username, "mallory");
    assert_eq!(all.failures[0].error, CipherError::DecodeError);

    let found = v.find_by_application(&"mail".to_string());
    assert_eq!(found.records.len(), 2);
    assert_eq!(found.failures.len(), 1);
}

#[test]
fn search_matches_exactly() {
    let mut v = new_vault();
    v.create(credential("mail", "alice", "a@x.com", "hunter2", None));
    v.create(credential("mailer", "bob", "b@y.org", "letmein", None));

    let found = v.find_by_application(&"mail".to_string());
    assert_eq!(found.records.len(), 1);
    assert_eq!(found.records[0].username, "alice");

    let missing = v.find_by_application(&"absent".to_string());
    assert_eq!(missing.records.len(), 0);
    assert_eq!(missing.failures.len(), 0);
}

#[test]
fn delete_with_no_match_returns_zero() {
    let mut v = new_vault();
    v.create(credential("mail", "alice", "a@x.com", "hunter2", None));
    assert_eq!(v.delete_by_application(&"absent".to_string()), 0);
    assert_eq!(v.list_all().records.len(), 1);
}

#[test]
fn delete_removes_every_match() {
    let mut v = new_vault();
    v.create(credential("mail", "alice", "a@x.com", "one", None));
    v.create(credential("bank", "bob", "b@y.org", "two", None));
    v.create(credential("mail", "carol", "c@w.io", "three", None));
    assert_eq!(v.delete_by_application(&"mail".to_string()), 2);
    let left = v.list_all();
    assert_eq!(left.records.len(), 1);
    assert_eq!(left.records[0].application, "bank");
}

#[test]
fn identifiers_are_never_reused() {
    let mut v = new_vault();
    let first = v.create(credential("mail", "alice", "a@x.com", "one", None));
    assert_eq!(first, 1);
    v.delete_by_application(&"mail".to_string());
    let second = v.create(credential("mail", "alice", "a@x.com", "two", None));
    assert_eq!(second, 2);
}

#[test]
fn bootstrap_runs_once() {
    let mut v = new_vault();
    assert!(!v.is_admin_exists());
    let created = v.bootstrap("root-secret");
    assert!(created);
    assert!(v.is_admin_exists());
    // A second startup finds the row and prompts for nothing.
    let created_again = v.bootstrap("other-secret");
    assert!(!created_again);
    assert_eq!(v.users.len(), 1);
    assert_eq!(v.users[0].username, "admin");
    assert!(!v.users[0].secret_text.contains("root-secret"));
}

#[test]
fn decode_stored_row_recovers_created_secret() {
    let mut v = new_vault();
    v.create(credential("mail", "alice", "a@x.com", "hunter2", Some("note")));
    let km = KeyMaterial::new(KEY.to_vec(), IV.to_vec()).unwrap();
    let row = StoredRow {
        id: v.rows[0].id,
        application: v.rows[0].application.clone(),
        username: v.rows[0].username.clone(),
        email: v.rows[0].email.clone(),
        secret_text: v.rows[0].secret_text.clone(),
        note: v.rows[0].note.clone(),
    };
    let rec = decode_stored_row(&km, &row).unwrap();
    assert_eq!(rec.secret, "hunter2");
    assert_eq!(rec.note, Some("note".to_string()));
}
