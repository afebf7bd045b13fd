use xenon_vault::envelope::VaultError;
use xenon_vault::store::{add, contains_text_exec, delete, edit, get_all, get_only, get_row, Vault};

fn cols(v: &[&str]) -> Vec<String> {
    v.iter().map(|s| s.to_string()).collect()
}

#[test]
fn add_delete_keeps_order_and_dense_indices() {
    let mut v = Vault::new();
    add(&mut v, "a.com", "ua", "pa", "na", "pw").unwrap();
    add(&mut v, "b.com", "ub", "pb", "nb", "pw").unwrap();
    add(&mut v, "c.com", "uc", "pc", "nc", "pw").unwrap();
    delete(&mut v, 1).unwrap();
    assert_eq!(v.len(), 2);
    let (w, u, p, n) = get_all(&v, "pw").unwrap();
    assert_eq!(w, cols(&["a.com", "c.com"]));
    assert_eq!(u, cols(&["ua", "uc"]));
    assert_eq!(p, cols(&["pa", "pc"]));
    assert_eq!(n, cols(&["na", "nc"]));
    assert_eq!(get_row(&v, 1, "pw").unwrap().0, "c.com");
    assert_eq!(get_row(&v, 2, "pw"), Err(VaultError::NotFound));
}

#[test]
fn empty_vault_reads_empty() {
    let v = Vault::new();
    let (w, u, p, n) = get_all(&v, "pw").unwrap();
    assert!(w.is_empty() && u.is_empty() && p.is_empty() && n.is_empty());
}

#[test]
fn get_row_reads_one_entry() {
    let mut v = Vault::new();
    add(&mut v, "site", "user", "pass", "note", "pw").unwrap();
    assert_eq!(
        get_row(&v, 0, "pw").unwrap(),
        ("site".to_string(), "user".to_string(), "pass".to_string(), "note".to_string())
    );
    assert_eq!(get_row(&v, -1, "pw"), Err(VaultError::NotFound));
    assert_eq!(get_row(&v, 1, "pw"), Err(VaultError::NotFound));
}

#[test]
fn wrong_master_password_aborts_reads() {
    let mut v = Vault::new();
    add(&mut v, "site", "user", "pass", "note", "pw").unwrap();
    assert_eq!(get_all(&v, "nope"), Err(VaultError::WrongPassword));
    assert_eq!(get_row(&v, 0, "nope"), Err(VaultError::WrongPassword));
    assert_eq!(get_only(&v, "s", "website", "nope"), Err(VaultError::WrongPassword));
}

#[test]
fn tampered_row_aborts_get_all() {
    let mut v = Vault::new();
    add(&mut v, "site", "user", "pass", "note", "pw").unwrap();
    v.rows[0].notes.encryption[0] ^= 0x80;
    assert_eq!(get_all(&v, "pw"), Err(VaultError::IntegrityFailure));
}

#[test]
fn get_only_filters_by_website() {
    let mut v = Vault::new();
    add(&mut v, "foo.com", "user1", "pass1", "note1", "pw").unwrap();
    add(&mut v, "bar.com", "foo", "pass2", "note2", "pw").unwrap();
    add(&mut v, "www.foobar.org", "user3", "pass3", "note3", "pw").unwrap();
    add(&mut v, "Foo.net", "user4", "pass4", "note4", "pw").unwrap();
    let (w, u, p, n) = get_only(&v, "foo", "website", "pw").unwrap();
    assert_eq!(w, cols(&["foo.com", "www.foobar.org"]));
    assert_eq!(u, cols(&["user1", "user3"]));
    assert_eq!(p, cols(&["pass1", "pass3"]));
    assert_eq!(n, cols(&["note1", "note3"]));
}

#[test]
fn get_only_filters_by_username() {
    let mut v = Vault::new();
    add(&mut v, "foo.com", "alice", "pass1", "note1", "pw").unwrap();
    add(&mut v, "bar.com", "bob", "pass2", "note2", "pw").unwrap();
    let (w, u, _, _) = get_only(&v, "bo", "username", "pw").unwrap();
    assert_eq!(w, cols(&["bar.com"]));
    assert_eq!(u, cols(&["bob"]));
}

#[test]
fn get_only_unknown_field_is_empty() {
    let mut v = Vault::new();
    add(&mut v, "foo.com", "foo", "foo", "foo", "pw").unwrap();
    let (w, u, p, n) = get_only(&v, "foo", "password", "pw").unwrap();
    assert!(w.is_empty() && u.is_empty() && p.is_empty() && n.is_empty());
}

#[test]
fn delete_out_of_range_changes_nothing() {
    let mut v = Vault::new();
    add(&mut v, "a", "b", "c", "d", "pw").unwrap();
    assert_eq!(delete(&mut v, 1), Err(VaultError::NotFound));
    assert_eq!(delete(&mut v, -3), Err(VaultError::NotFound));
    assert_eq!(v.len(), 1);
    delete(&mut v, 0).unwrap();
    assert_eq!(v.len(), 0);
}

#[test]
fn edit_replaces_one_entry() {
    let mut v = Vault::new();
    add(&mut v, "a", "b", "c", "d", "pw").unwrap();
    add(&mut v, "e", "f", "g", "h", "pw").unwrap();
    edit(&mut v, 0, "A", "B", "C", "D", "pw").unwrap();
    let (w, u, p, n) = get_all(&v, "pw").unwrap();
    assert_eq!(w, cols(&["A", "e"]));
    assert_eq!(u, cols(&["B", "f"]));
    assert_eq!(p, cols(&["C", "g"]));
    assert_eq!(n, cols(&["D", "h"]));
    assert_eq!(edit(&mut v, 2, "x", "x", "x", "x", "pw"), Err(VaultError::NotFound));
    assert_eq!(edit(&mut v, -1, "x", "x", "x", "x", "pw"), Err(VaultError::NotFound));
}

#[test]
fn substring_search() {
    assert!(contains_text_exec("www.foobar.org", "foo"));
    assert!(contains_text_exec("foo", "foo"));
    assert!(contains_text_exec("anything", ""));
    assert!(!contains_text_exec("Foo", "foo"));
    assert!(!contains_text_exec("fo", "foo"));
    assert!(contains_text_exec("☃x☃", "x☃"));
}
