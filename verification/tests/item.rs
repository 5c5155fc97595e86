use isabelle_store::item::{Item, ID_UNASSIGNED};

#[test]
fn new_item_is_empty_and_unassigned() {
    let itm = Item::new();
    assert_eq!(itm.id, ID_UNASSIGNED);
    assert_eq!(itm.safe_str("anything", "fallback"), "fallback");
    assert!(!itm.safe_bool("anything", false));
    assert_eq!(itm.safe_num("anything", 17), 17);
}

#[test]
fn set_and_get_fields() {
    let mut itm = Item::new();
    itm.set_str("login", "bob".to_string());
    itm.set_bool("active", true);
    itm.set_num("age", 33);
    assert_eq!(itm.safe_str("login", ""), "bob");
    assert!(itm.safe_bool("active", false));
    assert_eq!(itm.safe_num("age", 0), 33);
    itm.set_str("login", "alice".to_string());
    assert_eq!(itm.safe_str("login", ""), "alice");
}

#[test]
fn remove_bool_reports_presence() {
    let mut itm = Item::new();
    itm.set_bool("flag", true);
    assert!(itm.remove_bool("flag"));
    assert!(!itm.remove_bool("flag"));
    assert!(!itm.safe_bool("flag", false));
}

#[test]
fn merge_overwrites_field_by_field() {
    let mut base = Item::new();
    base.id = 4;
    base.set_str("login", "bob".to_string());
    base.set_str("city", "berlin".to_string());
    base.set_num("age", 33);
    let mut incoming = Item::new();
    incoming.set_str("city", "paris".to_string());
    incoming.set_str("phone", "123".to_string());
    base.merge(&incoming);
    // Incoming fields overwrite, the rest stay; the unassigned incoming id
    // leaves the id alone.
    assert_eq!(base.id, 4);
    assert_eq!(base.safe_str("login", ""), "bob");
    assert_eq!(base.safe_str("city", ""), "paris");
    assert_eq!(base.safe_str("phone", ""), "123");
    assert_eq!(base.safe_num("age", 0), 33);
}

#[test]
fn merge_takes_assigned_incoming_id() {
    let mut base = Item::new();
    base.id = 4;
    let mut incoming = Item::new();
    incoming.id = 9;
    base.merge(&incoming);
    assert_eq!(base.id, 9);
}

#[test]
fn duplicate_copies_every_field() {
    let mut itm = Item::new();
    itm.id = 11;
    itm.set_str("login", "bob".to_string());
    itm.set_bool("active", true);
    itm.set_num("age", 33);
    let copy = itm.duplicate();
    assert_eq!(copy.id, 11);
    assert_eq!(copy.safe_str("login", ""), "bob");
    assert!(copy.safe_bool("active", false));
    assert_eq!(copy.safe_num("age", 0), 33);
}
