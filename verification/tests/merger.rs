use isabelle_store::crypto::{get_new_salt, get_password_hash, is_hashed_password, verify_password};
use isabelle_store::item::Item;
use isabelle_store::merger::prepare_merge_item;

#[test]
fn plaintext_user_password_is_rehashed() {
    let mut itm = Item::new();
    itm.id = 7;
    itm.set_str("login", "bob".to_string());
    itm.set_str("password", "admin".to_string());
    let out = prepare_merge_item("user", &itm);
    let pw = out.safe_str("password", "");
    assert!(is_hashed_password(&pw));
    assert_ne!(pw, "admin");
    assert!(verify_password("admin", &pw));
    assert!(!verify_password("other", &pw));
    assert_eq!(out.safe_str("login", ""), "bob");
    assert_eq!(out.id, 7);
}

#[test]
fn hashed_user_password_is_copied_unchanged() {
    let salt = get_new_salt();
    let hash = get_password_hash("admin", &salt);
    let mut itm = Item::new();
    itm.set_str("password", hash.clone());
    let out = prepare_merge_item("user", &itm);
    assert_eq!(out.safe_str("password", ""), hash);
}

#[test]
fn other_collections_pass_through_unchanged() {
    let mut itm = Item::new();
    itm.set_str("password", "admin".to_string());
    let out = prepare_merge_item("job", &itm);
    assert_eq!(out.safe_str("password", ""), "admin");
}

#[test]
fn empty_or_missing_password_passes_through() {
    let mut with_empty = Item::new();
    with_empty.set_str("password", String::new());
    let out = prepare_merge_item("user", &with_empty);
    assert_eq!(out.safe_str("password", "sentinel"), "");
    let without = Item::new();
    let out = prepare_merge_item("user", &without);
    assert_eq!(out.safe_str("password", "sentinel"), "sentinel");
}
