//! Tests of the tag-record strategies: text parsing and serialising, JSON
//! flag handling, SQL row data, and item construction.

use tagdb::item::{DBItem, TagRecord, TxtDB, UpdateAction, is_image_name, path_join,
    with_extension, update_flags};
use tagdb::sqldb::{Record, SqliteDB};

fn tags(v: &[&str]) -> Vec<String> {
    v.iter().map(|s| s.to_string()).collect()
}

#[test]
fn image_names_are_recognised_by_extension() {
    assert!(is_image_name("a.jpg"));
    assert!(is_image_name("photo.png"));
    assert!(is_image_name("scan.jpeg"));
    assert!(is_image_name(".jpg"));
    assert!(!is_image_name("a.txt"));
    assert!(!is_image_name("jpg"));
    assert!(!is_image_name("a.JPG"));
    assert!(!is_image_name("a.jpg.bak"));
    assert!(!is_image_name(""));
}

#[test]
fn path_helpers_build_record_locations() {
    assert_eq!(path_join("tags", "a.txt"), "tags/a.txt");
    assert_eq!(path_join("tags/", "a.txt"), "tags/a.txt");
    assert_eq!(path_join("", "a.txt"), "a.txt");
    assert_eq!(with_extension("a.jpg", "txt"), "a.txt");
    assert_eq!(with_extension("a.b.jpg", "json"), "a.b.json");
    assert_eq!(with_extension("noext", "txt"), "noext.txt");
    assert_eq!(with_extension(".hidden", "txt"), ".hidden.txt");
}

#[test]
fn text_records_parse_non_empty_lines() {
    assert_eq!(TxtDB::load_tags("cat\ndog"), tags(&["cat", "dog"]));
    assert_eq!(TxtDB::load_tags(""), Vec::<String>::new());
    assert_eq!(TxtDB::load_tags("cat\n\ndog\n"), tags(&["cat", "dog"]));
    assert_eq!(TxtDB::load_tags("one"), tags(&["one"]));
}

#[test]
fn json_records_give_the_set_labels() {
    let flags = vec![
        ("cat".to_string(), false),
        ("dog".to_string(), true),
        ("bird".to_string(), true),
    ];
    assert_eq!(TxtDB::load_json(&flags), tags(&["dog", "bird"]));
    assert_eq!(TxtDB::load_json(&Vec::new()), Vec::<String>::new());
}

#[test]
fn updating_flags_rewrites_every_flag() {
    let mut flags = vec![
        ("cat".to_string(), false),
        ("dog".to_string(), true),
        ("bird".to_string(), true),
    ];
    update_flags(&mut flags, &tags(&["cat", "bird"]));
    assert_eq!(
        flags,
        vec![
            ("cat".to_string(), true),
            ("dog".to_string(), false),
            ("bird".to_string(), true),
        ]
    );
}

#[test]
fn json_update_then_load_round_trips() {
    let mut flags = vec![("cat".to_string(), true), ("dog".to_string(), false)];
    update_flags(&mut flags, &tags(&["dog"]));
    assert_eq!(TxtDB::load_json(&flags), tags(&["dog"]));
    update_flags(&mut flags, &Vec::new());
    assert_eq!(TxtDB::load_json(&flags), Vec::<String>::new());
}

#[test]
fn new_item_reads_a_text_record() {
    let rec = TagRecord::Text("cat\ndog".to_string());
    let item = TxtDB::new_item("a.jpg", "tags", &rec);
    assert_eq!(item.image_name, "a.jpg");
    assert_eq!(item.image_path, "/images/a.jpg");
    assert_eq!(item.tag_path, "tags/a.txt");
    assert_eq!(item.checked_tags, tags(&["cat", "dog"]));
}

#[test]
fn new_item_reads_a_json_record() {
    let rec = TagRecord::Json(vec![("cat".to_string(), true), ("dog".to_string(), false)]);
    let item = TxtDB::new_item("b.png", "tags", &rec);
    assert_eq!(item.tag_path, "tags/b.json");
    assert_eq!(item.checked_tags, tags(&["cat"]));
}

#[test]
fn new_item_without_a_record_has_no_tags() {
    let item = TxtDB::new_item("c.jpeg", "tags", &TagRecord::Missing);
    assert_eq!(item.tag_path, "tags/c.txt");
    assert!(item.checked_tags.is_empty());
}

#[test]
fn text_update_writes_the_tags_newline_joined() {
    let db = TxtDB::new();
    let item = TxtDB::new_item("a.jpg", "tags", &TagRecord::Missing);
    let new_tags = tags(&["cat", "dog"]);
    match db.update_tags(&item, &new_tags) {
        UpdateAction::WriteText { path, contents } => {
            assert_eq!(path, "tags/a.txt");
            assert_eq!(contents, "cat\ndog");
            assert_eq!(TxtDB::load_tags(&contents), new_tags);
        },
        UpdateAction::RewriteJson { .. } => panic!("expected a text write"),
    }
}

#[test]
fn text_update_to_nothing_reads_back_empty() {
    let db = TxtDB::new();
    let item = TxtDB::new_item("a.jpg", "tags", &TagRecord::Missing);
    match db.update_tags(&item, &Vec::new()) {
        UpdateAction::WriteText { contents, .. } => {
            assert_eq!(contents, "");
            assert_eq!(TxtDB::load_tags(&contents), Vec::<String>::new());
        },
        UpdateAction::RewriteJson { .. } => panic!("expected a text write"),
    }
}

#[test]
fn json_item_update_is_a_rewrite() {
    let rec = TagRecord::Json(vec![("cat".to_string(), true)]);
    let item = TxtDB::new_item("b.png", "tags", &rec);
    let db = TxtDB::new();
    match db.update_tags(&item, &tags(&["cat"])) {
        UpdateAction::RewriteJson { path } => assert_eq!(path, "tags/b.json"),
        UpdateAction::WriteText { .. } => panic!("expected a JSON rewrite"),
    }
}

#[test]
fn records_turn_into_items() {
    let item = DBItem::from_record(Record {
        key: "a.jpg".to_string(),
        data: "cat,dog".to_string(),
    });
    assert_eq!(item.image_name, "a.jpg");
    assert_eq!(item.image_path, "/images/a.jpg");
    assert_eq!(item.tag_path, "");
    assert_eq!(item.checked_tags, tags(&["cat", "dog"]));
}

#[test]
fn an_absent_row_reads_as_one_empty_tag() {
    let item = SqliteDB::new_item("a.jpg", None);
    assert_eq!(item.checked_tags, tags(&[""]));
    let item = SqliteDB::new_item("a.jpg", Some("".to_string()));
    assert_eq!(item.checked_tags, tags(&[""]));
}

#[test]
fn sql_update_then_load_round_trips() {
    let db = SqliteDB { db_path: "tags.sqlite3".to_string() };
    let new_tags = tags(&["cat", "dog"]);
    let data = db.update_tags(&new_tags);
    assert_eq!(data, "cat,dog");
    let back = DBItem::from_record(Record { key: "a.jpg".to_string(), data });
    assert_eq!(back.checked_tags, new_tags);
}

#[test]
fn setting_tags_replaces_only_the_tags() {
    let mut item = TxtDB::new_item("a.jpg", "tags", &TagRecord::Missing);
    item.set_tags(tags(&["cat"]));
    assert_eq!(item.checked_tags, tags(&["cat"]));
    assert_eq!(item.image_name, "a.jpg");
    assert_eq!(item.tag_path, "tags/a.txt");
}
