//! Tests of the index, the query engine and the statistics aggregator,
//! including the two-tag browsing scenario end to end.

use tagdb::index::{DataBase, ScanEntry, SqlScanEntry};
use tagdb::item::{TagRecord, TxtDB};
use tagdb::query::{Selection, vec_compare};
use tagdb::sqldb::SqliteDB;
use tagdb::stats::{StatItem, aggregate, selection_from_key};

fn tags(v: &[&str]) -> Vec<String> {
    v.iter().map(|s| s.to_string()).collect()
}

fn entry(name: &str, record: TagRecord) -> ScanEntry {
    ScanEntry { file_name: name.to_string(), record }
}

/// The two-tag scenario: universe ["cat", "dog"], three images with tag
/// sets {cat}, {cat, dog} and {}.
fn scenario() -> DataBase {
    let entries = vec![
        entry("b.jpg", TagRecord::Text("cat\ndog".to_string())),
        entry("a.jpg", TagRecord::Text("cat".to_string())),
        entry("c.jpg", TagRecord::Text("".to_string())),
    ];
    TxtDB::create_database(&entries, "tags", false)
}

#[test]
fn the_index_keeps_exactly_the_image_files_sorted() {
    let entries = vec![
        entry("b.jpg", TagRecord::Missing),
        entry("notes.txt", TagRecord::Missing),
        entry("a.png", TagRecord::Missing),
        entry("README", TagRecord::Missing),
    ];
    let db = TxtDB::create_database(&entries, "tags", false);
    let names: Vec<&str> = db.items.iter().map(|i| i.image_name.as_str()).collect();
    assert_eq!(names, vec!["a.png", "b.jpg"]);
}

#[test]
fn skip_missing_drops_entries_without_a_record() {
    let entries = vec![
        entry("a.jpg", TagRecord::Text("cat".to_string())),
        entry("b.jpg", TagRecord::Missing),
    ];
    let db = TxtDB::create_database(&entries, "tags", true);
    assert_eq!(db.items.len(), 1);
    assert_eq!(db.items[0].image_name, "a.jpg");
    let db = TxtDB::create_database(&entries, "tags", false);
    assert_eq!(db.items.len(), 2);
}

#[test]
fn the_sql_index_keeps_images_without_rows() {
    let entries = vec![
        SqlScanEntry { file_name: "b.jpg".to_string(), row_data: Some("cat".to_string()) },
        SqlScanEntry { file_name: "a.jpg".to_string(), row_data: None },
        SqlScanEntry { file_name: "notes.txt".to_string(), row_data: None },
    ];
    let db = SqliteDB::create_database(&entries, true);
    assert_eq!(db.items.len(), 2);
    assert_eq!(db.items[0].image_name, "a.jpg");
    assert_eq!(db.items[0].checked_tags, tags(&[""]));
    assert_eq!(db.items[1].checked_tags, tags(&["cat"]));
}

#[test]
fn items_are_found_by_name() {
    let db = scenario();
    let idx = db.find_by_name("b.jpg").expect("b.jpg is in the index");
    assert_eq!(db.items[idx].image_name, "b.jpg");
    assert!(db.find_by_name("missing.jpg").is_none());
}

#[test]
fn boolean_vectors_compare_by_length_and_content() {
    assert!(vec_compare(&[true, false], &[true, false]));
    assert!(!vec_compare(&[true, false], &[true, true]));
    assert!(!vec_compare(&[true], &[true, true]));
    assert!(vec_compare(&[], &[]));
}

#[test]
fn selections_come_from_query_pairs() {
    let pairs = vec![
        ("cat".to_string(), "in".to_string()),
        ("dog".to_string(), "ex".to_string()),
        ("bird".to_string(), "whatever".to_string()),
    ];
    let sel = Selection::from_pairs(&pairs);
    assert_eq!(sel.inc, tags(&["cat"]));
    assert_eq!(sel.exc, tags(&["dog"]));
}

#[test]
fn filtering_matches_the_selection_exactly() {
    let db = scenario();
    let sel = Selection { inc: tags(&["cat"]), exc: tags(&["dog"]) };
    let hits = db.filter(&sel);
    assert_eq!(hits.len(), 1);
    assert_eq!(hits[0].image_name, "a.jpg");

    let all = db.filter(&Selection { inc: Vec::new(), exc: Vec::new() });
    assert_eq!(all.len(), 3);

    let none = db.filter(&Selection { inc: tags(&["dog"]), exc: tags(&["cat"]) });
    assert!(none.is_empty());

    let both = db.filter(&Selection { inc: tags(&["cat", "dog"]), exc: Vec::new() });
    assert_eq!(both.len(), 1);
    assert_eq!(both[0].image_name, "b.jpg");
}

#[test]
fn stats_group_the_scenario_into_three_groups() {
    let db = scenario();
    let universe = tags(&["cat", "dog"]);
    let groups: Vec<StatItem> = aggregate(&db.items, &universe);
    let keys: Vec<&str> = groups.iter().map(|g| g.key.as_str()).collect();
    assert_eq!(keys, vec!["", "cat", "cat & dog"]);
    let counts: Vec<usize> = groups.iter().map(|g| g.count).collect();
    assert_eq!(counts, vec![1, 1, 1]);
}

#[test]
fn each_stats_group_round_trips_through_the_filter() {
    let db = scenario();
    let universe = tags(&["cat", "dog"]);
    let groups = aggregate(&db.items, &universe);
    let total: usize = groups.iter().map(|g| g.count).sum();
    assert_eq!(total, db.items.len());
    for g in &groups {
        let sel = selection_from_key(&g.key, &universe);
        let hits = db.filter(&sel);
        assert_eq!(hits.len(), g.count, "group {:?} does not round-trip", g.key);
    }
}

#[test]
fn stat_urls_spell_out_the_selection() {
    let db = scenario();
    let universe = tags(&["cat", "dog"]);
    let groups = aggregate(&db.items, &universe);
    let by_key = |k: &str| groups.iter().find(|g| g.key == k).expect("group");
    assert_eq!(by_key("cat").url, "/query?cat=in&dog=ex");
    assert_eq!(by_key("cat & dog").url, "/query?cat=in&dog=in");
    assert_eq!(by_key("").url, "/query?cat=ex&dog=ex");
}

#[test]
fn clearing_tags_moves_the_item_into_the_empty_group() {
    let mut db = scenario();
    let universe = tags(&["cat", "dog"]);
    let idx = db.find_by_name("a.jpg").expect("a.jpg is in the index");

    let backend = TxtDB::new();
    let action = backend.update_tags(&db.items[idx], &Vec::new());
    match action {
        tagdb::item::UpdateAction::WriteText { contents, .. } => {
            assert_eq!(TxtDB::load_tags(&contents), Vec::<String>::new());
        },
        tagdb::item::UpdateAction::RewriteJson { .. } => panic!("expected a text write"),
    }
    db.items[idx].set_tags(Vec::new());
    assert!(db.items[idx].checked_tags.is_empty());

    let groups = aggregate(&db.items, &universe);
    let empty = groups.iter().find(|g| g.key.is_empty()).expect("empty group");
    assert_eq!(empty.count, 2);
    let sel = selection_from_key("", &universe);
    assert_eq!(db.filter(&sel).len(), 2);
}

#[test]
fn an_empty_index_gives_no_groups_and_no_hits() {
    let db = TxtDB::create_database(&Vec::new(), "tags", false);
    assert!(db.items.is_empty());
    assert!(aggregate(&db.items, &tags(&["cat"])).is_empty());
    let sel = Selection { inc: tags(&["cat"]), exc: Vec::new() };
    assert!(db.filter(&sel).is_empty());
}

#[test]
fn items_with_the_same_tags_share_a_group() {
    let entries = vec![
        entry("a.jpg", TagRecord::Text("cat".to_string())),
        entry("b.jpg", TagRecord::Text("cat".to_string())),
    ];
    let db = TxtDB::create_database(&entries, "tags", false);
    let groups = aggregate(&db.items, &tags(&["cat", "dog"]));
    assert_eq!(groups.len(), 1);
    assert_eq!(groups[0].key, "cat");
    assert_eq!(groups[0].count, 2);
}

#[test]
fn a_tag_listed_on_both_sides_counts_as_required() {
    let db = scenario();
    let sel = Selection { inc: tags(&["cat"]), exc: tags(&["cat"]) };
    let hits = db.filter(&sel);
    let names: Vec<&str> = hits.iter().map(|i| i.image_name.as_str()).collect();
    assert_eq!(names, vec!["a.jpg", "b.jpg"]);
}

#[test]
fn selections_ignore_unmentioned_tags() {
    let db = scenario();
    let sel = Selection { inc: Vec::new(), exc: tags(&["dog"]) };
    let names: Vec<&str> = db.filter(&sel).iter().map(|i| i.image_name.as_str()).collect();
    assert_eq!(names, vec!["a.jpg", "c.jpg"]);
}
