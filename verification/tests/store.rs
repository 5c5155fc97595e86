use isabelle_store::item::Item;
use isabelle_store::store::{
    ConnAction, ConnProbe, ItemsPlan, StoreMongo, get_items_finish_sorted,
    get_items_finish_unsorted,
};

/// Drive one full write through the split write path, as the surrounding
/// process would: assign the id, resolve against the (absent) remote item,
/// record the write in the index.
fn write_new(st: &mut StoreMongo, coll: &str, itm: &Item) -> u64 {
    let prepared = st.set_item_prepare(coll, itm);
    let resolved = StoreMongo::set_item_resolve(&prepared, &None, false);
    st.set_item_record(coll, resolved.id)
}

fn make_item(name: &str) -> Item {
    let mut itm = Item::new();
    itm.set_str("name", name.to_string());
    itm
}

#[test]
fn connection_loop_trusts_only_the_probe() {
    let mut st = StoreMongo::new();
    assert!(st.needs_connection());
    assert!(matches!(st.conn_step(&ConnProbe::ClientError), ConnAction::Retry));
    assert!(st.needs_connection());
    assert!(matches!(st.conn_step(&ConnProbe::PingError), ConnAction::Retry));
    assert!(st.needs_connection());
    assert!(matches!(st.conn_step(&ConnProbe::PingOk), ConnAction::Established));
    assert!(!st.needs_connection());
}

#[test]
fn register_collections_once() {
    let mut st = StoreMongo::new();
    st.register_collections(&vec!["user".to_string(), "job".to_string(), "user".to_string()]);
    let names = st.get_collections();
    assert_eq!(names, vec!["user".to_string(), "job".to_string()]);
    assert!(st.get_item_ids("user").is_empty());
    assert!(st.get_item_ids("nowhere").is_empty());
}

#[test]
fn unassigned_writes_take_dense_ids() {
    let mut st = StoreMongo::new();
    st.register_collections(&vec!["user".to_string()]);
    let id1 = write_new(&mut st, "user", &make_item("a"));
    let id2 = write_new(&mut st, "user", &make_item("b"));
    let id3 = write_new(&mut st, "user", &make_item("c"));
    assert_eq!((id1, id2, id3), (1, 2, 3));
    assert_eq!(st.get_item_ids("user"), vec![1, 2, 3]);
}

#[test]
fn explicit_id_advances_the_counter() {
    let mut st = StoreMongo::new();
    st.register_collections(&vec!["user".to_string()]);
    let mut itm = make_item("x");
    itm.id = 10;
    let prepared = st.set_item_prepare("user", &itm);
    assert_eq!(prepared.id, 10);
    st.set_item_record("user", prepared.id);
    let next = write_new(&mut st, "user", &make_item("y"));
    assert_eq!(next, 11);
}

#[test]
fn prepare_strips_the_preserve_flag() {
    let mut st = StoreMongo::new();
    st.register_collections(&vec!["user".to_string()]);
    let mut itm = make_item("x");
    itm.set_bool("__security_preserve", true);
    itm.set_bool("active", true);
    let prepared = st.set_item_prepare("user", &itm);
    assert!(!prepared.safe_bool("__security_preserve", false));
    assert!(prepared.safe_bool("active", false));
}

#[test]
fn resolve_merges_onto_the_existing_item() {
    let mut existing = make_item("bob");
    existing.id = 3;
    existing.set_str("city", "berlin".to_string());
    let mut incoming = Item::new();
    incoming.id = 3;
    incoming.set_str("city", "paris".to_string());
    let merged = StoreMongo::set_item_resolve(&incoming, &Some(existing.duplicate()), true);
    assert_eq!(merged.safe_str("name", ""), "bob");
    assert_eq!(merged.safe_str("city", ""), "paris");
    let replaced = StoreMongo::set_item_resolve(&incoming, &Some(existing), false);
    assert_eq!(replaced.safe_str("name", ""), "");
    assert_eq!(replaced.safe_str("city", ""), "paris");
}

#[test]
fn del_item_reflects_local_bookkeeping_only() {
    let mut st = StoreMongo::new();
    st.register_collections(&vec!["user".to_string()]);
    let id = write_new(&mut st, "user", &make_item("a"));
    // An id the index never saw: the remote delete may have been sent, the
    // answer is still false.
    assert!(!st.del_item("user", 999));
    assert!(st.del_item("user", id));
    assert!(!st.del_item("user", id));
    assert!(!st.del_item("nowhere", 1));
}

#[test]
fn end_to_end_scenario() {
    let mut st = StoreMongo::new();
    st.set_endpoints("mongodb://127.0.0.1:27017", "/tmp/data");
    assert!(matches!(st.conn_step(&ConnProbe::PingOk), ConnAction::Established));
    st.register_collections(&vec!["user".to_string()]);
    let id1 = write_new(&mut st, "user", &make_item("first"));
    let id2 = write_new(&mut st, "user", &make_item("second"));
    assert_eq!(id1, 1);
    assert_eq!(id2, 2);
    assert!(st.del_item("user", 1));
    // The unsorted read path no longer asks for id 1, so a later read of it
    // finds nothing.
    let plan = st.get_items_plan("user", u64::MAX, u64::MAX, "", "", u64::MAX, u64::MAX);
    match plan {
        ItemsPlan::Unsorted { ids } => assert_eq!(ids, vec![2]),
        _ => panic!("expected the unsorted path"),
    }
    assert!(!st.del_item("user", 1));
}

#[test]
fn unsorted_plan_ignores_the_filter() {
    let mut st = StoreMongo::new();
    st.register_collections(&vec!["user".to_string()]);
    for name in ["a", "b", "c"] {
        write_new(&mut st, "user", &make_item(name));
    }
    let with_filter =
        st.get_items_plan("user", u64::MAX, u64::MAX, "", "{\"name\":\"a\"}", u64::MAX, u64::MAX);
    let without_filter = st.get_items_plan("user", u64::MAX, u64::MAX, "", "", u64::MAX, u64::MAX);
    let ids_a = match with_filter {
        ItemsPlan::Unsorted { ids } => ids,
        _ => panic!("expected the unsorted path"),
    };
    let ids_b = match without_filter {
        ItemsPlan::Unsorted { ids } => ids,
        _ => panic!("expected the unsorted path"),
    };
    assert_eq!(ids_a, vec![1, 2, 3]);
    assert_eq!(ids_a, ids_b);
}

#[test]
fn unsorted_plan_honours_the_id_range() {
    let mut st = StoreMongo::new();
    st.register_collections(&vec!["user".to_string()]);
    for name in ["a", "b", "c", "d"] {
        write_new(&mut st, "user", &make_item(name));
    }
    let plan = st.get_items_plan("user", 2, 3, "", "", u64::MAX, u64::MAX);
    match plan {
        ItemsPlan::Unsorted { ids } => assert_eq!(ids, vec![2, 3]),
        _ => panic!("expected the unsorted path"),
    }
}

#[test]
fn sorted_plan_carries_filter_and_window() {
    let mut st = StoreMongo::new();
    st.register_collections(&vec!["user".to_string()]);
    let plan = st.get_items_plan("user", u64::MAX, u64::MAX, "name", "{\"role\":\"admin\"}", 2, 10);
    match plan {
        ItemsPlan::Sorted { filter_parsed, skip, limit, .. } => {
            assert!(filter_parsed);
            assert_eq!(skip, 2);
            assert_eq!(limit, 10);
        },
        _ => panic!("expected the sorted path"),
    }
    // A malformed filter degrades to match-all rather than failing.
    let plan = st.get_items_plan("user", u64::MAX, u64::MAX, "name", "not json", u64::MAX, 7);
    match plan {
        ItemsPlan::Sorted { filter_parsed, skip, limit, .. } => {
            assert!(!filter_parsed);
            assert_eq!(skip, 0);
            assert_eq!(limit, 7);
        },
        _ => panic!("expected the sorted path"),
    }
    // A sort key without the sentinel lower bound stays on the unsorted path.
    let plan = st.get_items_plan("user", 0, u64::MAX, "name", "", u64::MAX, u64::MAX);
    assert!(matches!(plan, ItemsPlan::Unsorted { .. }));
}

#[test]
fn get_all_items_plan_reads_everything() {
    let mut st = StoreMongo::new();
    st.register_collections(&vec!["user".to_string()]);
    write_new(&mut st, "user", &make_item("a"));
    write_new(&mut st, "user", &make_item("b"));
    let plan = st.get_all_items_plan("user", "", "");
    match plan {
        ItemsPlan::Unsorted { ids } => assert_eq!(ids, vec![1, 2]),
        _ => panic!("expected the unsorted path"),
    }
    let plan = st.get_all_items_plan("user", "id", "");
    match plan {
        ItemsPlan::Sorted { filter_parsed, skip, limit, .. } => {
            assert!(!filter_parsed);
            assert_eq!(skip, 0);
            assert_eq!(limit, i64::MAX);
        },
        _ => panic!("expected the sorted path"),
    }
}

#[test]
fn json_filter_conversion() {
    let mut st = StoreMongo::new();
    assert!(st.json_to_bson("{\"a\": 1}").is_ok());
    assert!(st.json_to_bson("not json").is_err());
    assert!(st.json_to_bson("[1, 2]").is_err());
}

#[test]
fn unsorted_finish_pages_present_rows() {
    let fetched = vec![
        (1u64, Some(make_item("a"))),
        (2u64, None),
        (3u64, Some(make_item("c"))),
        (4u64, Some(make_item("d"))),
    ];
    let lr = get_items_finish_unsorted(fetched, 1, 1);
    // Present rows are 1, 3, 4; skip one, take one.
    assert_eq!(lr.total_count, 4);
    assert_eq!(lr.map.len(), 1);
    assert_eq!(lr.map[0].0, 3);
    assert!(lr.find(3).is_some());
    assert!(lr.find(1).is_none());
}

#[test]
fn unsorted_finish_total_counts_tracked_ids_not_present_rows() {
    let fetched = vec![(1u64, Some(make_item("a"))), (2u64, None), (3u64, None)];
    let lr = get_items_finish_unsorted(fetched, u64::MAX, u64::MAX);
    assert_eq!(lr.total_count, 3);
    assert_eq!(lr.map.len(), 1);
}

#[test]
fn unsorted_finish_keeps_the_zero_limit_edge() {
    // The in-process pager returns one row for limit zero without a skip,
    // and none with one.
    let fetched = vec![(1u64, Some(make_item("a"))), (2u64, Some(make_item("b")))];
    let lr = get_items_finish_unsorted(fetched, u64::MAX, 0);
    assert_eq!(lr.map.len(), 1);
    assert_eq!(lr.map[0].0, 1);
    let fetched = vec![(1u64, Some(make_item("a"))), (2u64, Some(make_item("b")))];
    let lr = get_items_finish_unsorted(fetched, 1, 0);
    assert_eq!(lr.map.len(), 0);
}

#[test]
fn sorted_finish_total_count_is_the_remote_match_count() {
    let mut a = make_item("a");
    a.id = 5;
    let lr = get_items_finish_sorted(42, vec![a]);
    assert_eq!(lr.total_count, 42);
    assert_eq!(lr.map.len(), 1);
    assert_eq!(lr.find(5).unwrap().safe_str("name", ""), "a");
}

#[test]
fn derived_paths_concatenate_the_local_path() {
    let mut st = StoreMongo::new();
    st.set_endpoints("mongodb://127.0.0.1:27017", "/srv/data");
    assert_eq!(st.get_credentials(), "/srv/data/credentials.json");
    assert_eq!(st.get_pickle(), "/srv/data/token.pickle");
    assert_eq!(st.internals_path(), "/srv/data/internals.js");
    assert_eq!(st.settings_path(), "/srv/data/settings.js");
}
