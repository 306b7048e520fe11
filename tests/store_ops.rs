use mditor_store::node::{Node, NodeKind, NodeMeta, StoreError};
use mditor_store::schema::{needs_init, opened_version, SCHEMA_VERSION};
use mditor_store::store::Db;

fn listing(db: &Db, parent: Option<i64>) -> Vec<(i64, String, NodeKind)> {
    db.list_tree(parent)
        .into_iter()
        .map(|m: NodeMeta| (m.id, m.name, m.kind))
        .collect()
}

fn ids(db: &Db, parent: Option<i64>) -> Vec<i64> {
    db.list_tree(parent).into_iter().map(|m| m.id).collect()
}

fn row(id: i64, parent_id: Option<i64>, name: &str, kind: NodeKind, content: Option<&str>) -> Node {
    Node {
        id,
        parent_id,
        name: name.to_string(),
        kind,
        mime: String::new(),
        content: content.map(|c| c.to_string()),
        created_at: 5,
        updated_at: 5,
    }
}

#[test]
fn example_notes_scenario() {
    let mut db = Db::new();
    let notes = db.create_folder_at(None, "Notes", 10).unwrap();
    assert_eq!(notes, 1);
    let todo = db.create_file_at(Some(notes), "todo.md", Some("- buy milk"), 11).unwrap();
    assert_eq!(todo, 2);
    assert_eq!(db.read_file(todo), Some("- buy milk".to_string()));
    db.write_file_at(todo, "- buy milk\n- call mom", 12).unwrap();
    assert_eq!(db.read_file(todo), Some("- buy milk\n- call mom".to_string()));
    assert_eq!(listing(&db, Some(notes)), vec![(2, "todo.md".to_string(), NodeKind::File)]);
    db.delete_node(notes);
    assert!(!ids(&db, None).contains(&1));
    assert_eq!(db.read_file(todo), None);
}

#[test]
fn created_ids_are_distinct_and_never_reused() {
    let mut db = Db::new();
    let a = db.create_folder_at(None, "a", 1).unwrap();
    let b = db.create_file_at(Some(a), "b", None, 1).unwrap();
    let c = db.create_file_at(None, "c", Some("x"), 1).unwrap();
    db.delete_node(c);
    let d = db.create_file_at(None, "d", None, 1).unwrap();
    let all = vec![a, b, c, d];
    for i in 0..all.len() {
        for j in (i + 1)..all.len() {
            assert_ne!(all[i], all[j]);
        }
    }
    assert_eq!(all, vec![1, 2, 3, 4]);
    assert_eq!(db.next_id(), 5);
}

#[test]
fn write_then_read_gives_written_text() {
    let mut db = Db::new();
    let f = db.create_file_at(None, "f.md", None, 1).unwrap();
    assert_eq!(db.read_file(f), None);
    for text in ["", "hello", "line one\nline two", "ünïcödé"] {
        db.write_file_at(f, text, 2).unwrap();
        assert_eq!(db.read_file(f), Some(text.to_string()));
    }
    let n = db.node(f).unwrap();
    assert_eq!(n.updated_at, 2);
    assert_eq!(n.created_at, 1);
    assert_eq!(n.mime, "text/markdown");
}

#[test]
fn delete_folder_removes_its_subtree() {
    let mut db = Db::new();
    let top = db.create_folder_at(None, "top", 1).unwrap();
    let f = db.create_folder_at(Some(top), "F", 1).unwrap();
    let a = db.create_file_at(Some(f), "A", Some("a"), 1).unwrap();
    let inner = db.create_folder_at(Some(f), "inner", 1).unwrap();
    let deep = db.create_file_at(Some(inner), "deep", Some("d"), 1).unwrap();
    let other = db.create_file_at(Some(top), "other", Some("o"), 1).unwrap();
    db.delete_node(f);
    assert_eq!(db.read_file(a), None);
    assert_eq!(db.read_file(deep), None);
    assert!(db.node(f).is_none());
    assert!(db.node(inner).is_none());
    assert_eq!(ids(&db, Some(top)), vec![other]);
    assert_eq!(ids(&db, None), vec![top]);
    assert_eq!(db.read_file(other), Some("o".to_string()));
}

#[test]
fn delete_of_missing_id_changes_nothing() {
    let mut db = Db::new();
    let a = db.create_file_at(None, "a", Some("x"), 1).unwrap();
    db.delete_node(99);
    assert_eq!(ids(&db, None), vec![a]);
    assert_eq!(db.read_file(a), Some("x".to_string()));
}

#[test]
fn move_into_own_descendant_is_rejected() {
    let mut db = Db::new();
    let f1 = db.create_folder_at(None, "F1", 1).unwrap();
    let f2 = db.create_folder_at(Some(f1), "F2", 1).unwrap();
    let f3 = db.create_folder_at(Some(f2), "F3", 1).unwrap();
    assert_eq!(db.move_node(f1, Some(f3)), Err(StoreError::CycleDetected));
    assert_eq!(db.move_node(f1, Some(f1)), Err(StoreError::CycleDetected));
    assert_eq!(ids(&db, None), vec![f1]);
    assert_eq!(ids(&db, Some(f1)), vec![f2]);
    assert_eq!(ids(&db, Some(f2)), vec![f3]);
    assert_eq!(ids(&db, Some(f3)), Vec::<i64>::new());
    assert!(db.in_subtree_of(f3, f1));
    assert!(!db.in_subtree_of(f1, f3));
}

#[test]
fn move_relists_node_under_new_parent() {
    let mut db = Db::new();
    let a = db.create_folder_at(None, "a", 1).unwrap();
    let b = db.create_folder_at(None, "b", 1).unwrap();
    let x = db.create_file_at(Some(a), "x.md", Some("x"), 1).unwrap();
    db.move_node(x, Some(b)).unwrap();
    assert_eq!(ids(&db, Some(a)), Vec::<i64>::new());
    assert_eq!(listing(&db, Some(b)), vec![(x, "x.md".to_string(), NodeKind::File)]);
    db.move_node(x, None).unwrap();
    assert_eq!(ids(&db, None), vec![a, b, x]);
    assert_eq!(ids(&db, Some(b)), Vec::<i64>::new());
    db.move_node(b, Some(a)).unwrap();
    assert_eq!(ids(&db, Some(a)), vec![b]);
}

#[test]
fn move_errors() {
    let mut db = Db::new();
    let a = db.create_folder_at(None, "a", 1).unwrap();
    let f = db.create_file_at(Some(a), "f", None, 1).unwrap();
    assert_eq!(db.move_node(42, None), Err(StoreError::NotFound));
    assert_eq!(db.move_node(a, Some(42)), Err(StoreError::NotFound));
    assert_eq!(db.move_node(a, Some(f)), Err(StoreError::ReferentialIntegrity));
    assert_eq!(ids(&db, Some(a)), vec![f]);
}

#[test]
fn create_errors() {
    let mut db = Db::new();
    let f = db.create_file_at(None, "f", None, 1).unwrap();
    assert_eq!(db.create_file_at(Some(7), "g", None, 1), Err(StoreError::NotFound));
    assert_eq!(db.create_file_at(Some(f), "g", None, 1), Err(StoreError::ReferentialIntegrity));
    assert_eq!(db.create_folder_at(Some(f), "g", 1), Err(StoreError::ReferentialIntegrity));
    assert_eq!(db.create_file_at(None, "", None, 1), Err(StoreError::EmptyName));
    assert_eq!(db.next_id(), 2);
}

#[test]
fn read_and_write_on_folder_or_missing_id() {
    let mut db = Db::new();
    let d = db.create_folder_at(None, "d", 1).unwrap();
    assert_eq!(db.read_file(d), None);
    assert_eq!(db.read_file(9), None);
    assert_eq!(db.write_file_at(d, "x", 2), Err(StoreError::NotFound));
    assert_eq!(db.write_file_at(9, "x", 2), Err(StoreError::NotFound));
    assert_eq!(db.read_file(d), None);
}

#[test]
fn clock_stamps_new_and_written_files() {
    let mut db = Db::new();
    let d = db.create_folder(None, "d").unwrap();
    let f = db.create_file(Some(d), "f", Some("one")).unwrap();
    let n = db.node(f).unwrap();
    assert!(n.created_at > 1_600_000_000_000);
    assert_eq!(n.created_at, n.updated_at);
    db.write_file(f, "two").unwrap();
    assert_eq!(db.read_file(f), Some("two".to_string()));
    assert!(db.node(f).unwrap().updated_at >= n.created_at);
    assert_eq!(db.write_file(d, "x"), Err(StoreError::NotFound));
    assert!(db.node(d).unwrap().created_at > 1_600_000_000_000);
}

#[test]
fn reopen_marker_runs_init_once() {
    assert!(needs_init(0));
    assert_eq!(opened_version(0), SCHEMA_VERSION);
    assert!(!needs_init(opened_version(0)));
    assert_eq!(opened_version(opened_version(0)), opened_version(0));
    assert!(!needs_init(3));
    assert_eq!(opened_version(3), 3);
}

#[test]
fn loading_rows_keeps_every_node() {
    let rows = vec![
        row(1, Some(4), "moved", NodeKind::Folder, None),
        row(3, Some(1), "f.md", NodeKind::File, Some("text")),
        row(4, None, "top", NodeKind::Folder, None),
    ];
    let db = Db::from_rows(rows, 7).unwrap();
    assert_eq!(ids(&db, None), vec![4]);
    assert_eq!(ids(&db, Some(4)), vec![1]);
    assert_eq!(db.read_file(3), Some("text".to_string()));
    assert_eq!(db.next_id(), 7);
}

#[test]
fn loading_bad_rows_fails() {
    let cycle = vec![
        row(1, Some(2), "a", NodeKind::Folder, None),
        row(2, Some(1), "b", NodeKind::Folder, None),
    ];
    assert_eq!(Db::from_rows(cycle, 3).err(), Some(StoreError::StorageFailure));
    let unordered = vec![row(2, None, "a", NodeKind::Folder, None), row(1, None, "b", NodeKind::Folder, None)];
    assert_eq!(Db::from_rows(unordered, 3).err(), Some(StoreError::StorageFailure));
    let under_file = vec![row(1, None, "a", NodeKind::File, None), row(2, Some(1), "b", NodeKind::File, None)];
    assert_eq!(Db::from_rows(under_file, 3).err(), Some(StoreError::StorageFailure));
    let id_too_big = vec![row(5, None, "a", NodeKind::File, None)];
    assert_eq!(Db::from_rows(id_too_big, 5).err(), Some(StoreError::StorageFailure));
    let empty_name = vec![row(1, None, "", NodeKind::File, None)];
    assert_eq!(Db::from_rows(empty_name, 5).err(), Some(StoreError::StorageFailure));
    let folder_text = vec![row(1, None, "a", NodeKind::Folder, Some("x"))];
    assert_eq!(Db::from_rows(folder_text, 5).err(), Some(StoreError::StorageFailure));
    assert!(Db::from_rows(Vec::new(), 1).is_ok());
}

#[test]
fn reloading_saved_nodes_keeps_them() {
    let mut db = Db::new();
    let a = db.create_folder_at(None, "a", 1).unwrap();
    let b = db.create_folder_at(Some(a), "b", 2).unwrap();
    let c = db.create_folder_at(Some(b), "c", 3).unwrap();
    let f = db.create_file_at(Some(c), "f.md", Some("deep"), 4).unwrap();
    let top = db.create_folder_at(None, "top", 5).unwrap();
    db.move_node(a, Some(top)).unwrap();
    db.delete_node(b);
    let g = db.create_file_at(Some(a), "g.md", Some("kept"), 6).unwrap();
    let saved: Vec<Node> = (1..db.next_id()).filter_map(|id| db.node(id)).collect();
    assert_eq!(saved.len(), 3);
    let reopened = Db::from_rows(saved, db.next_id()).unwrap();
    assert_eq!(listing(&reopened, None), listing(&db, None));
    assert_eq!(listing(&reopened, Some(top)), listing(&db, Some(top)));
    assert_eq!(listing(&reopened, Some(a)), listing(&db, Some(a)));
    assert_eq!(reopened.read_file(g), Some("kept".to_string()));
    assert_eq!(reopened.read_file(f), None);
    assert_eq!(reopened.next_id(), db.next_id());
}
