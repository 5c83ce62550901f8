use nisabo::archive::{JournalMode, Synchronous, TempStore};
use nisabo::database::Database;
use nisabo::models::{LinkType, NoteIdName, StoreError};

fn fresh() -> Database {
    let mut db = Database::new();
    db.configure_db().unwrap();
    db.init_tables(100).unwrap();
    db
}

fn names(tree: &[NoteIdName]) -> Vec<String> {
    tree.iter().map(|n| n.name.clone()).collect()
}

#[test]
fn new_archive_has_no_tables() {
    let mut db = Database::new();
    assert_eq!(db.insert_note("a", "b", 1), Err(StoreError::StorageFailure));
    assert_eq!(db.get_notes().err(), Some(StoreError::StorageFailure));
    assert_eq!(db.get_trash().err(), Some(StoreError::StorageFailure));
    assert_eq!(db.get_note(1).err(), Some(StoreError::StorageFailure));
    assert_eq!(db.empty_trash(), Err(StoreError::StorageFailure));
    assert_eq!(db.search("a").err(), Some(StoreError::StorageFailure));
}

#[test]
fn init_tables_seeds_one_starter_note_once() {
    let mut db = fresh();
    let notes = db.get_all_notes().unwrap();
    assert_eq!(notes.len(), 1);
    assert_eq!(notes[0].id, 1);
    assert_eq!(notes[0].name, "README");
    assert_eq!(notes[0].content.as_deref(), Some("# Welcome to nisabo"));
    assert_eq!(notes[0].created_at, 100);
    assert_eq!(notes[0].updated_at, 100);
    assert_eq!(notes[0].deleted_at, None);
    db.init_tables(200).unwrap();
    assert_eq!(db.get_all_notes().unwrap().len(), 1);
}

#[test]
fn insert_note_gives_rising_keys_and_rejects_empty_names() {
    let mut db = fresh();
    assert_eq!(db.insert_note("a", "x", 101), Ok(2));
    assert_eq!(db.add_new_note("b", 102), Ok(3));
    assert_eq!(db.insert_note("", "x", 103), Err(StoreError::ConstraintViolation));
    assert_eq!(db.add_new_note("", 103), Err(StoreError::ConstraintViolation));
    assert_eq!(db.get_note(3).unwrap().content, None);
    db.delete_note_hard(3).unwrap();
    assert_eq!(db.add_new_note("c", 104), Ok(4));
}

#[test]
fn get_note_of_missing_key_is_not_found() {
    let db = fresh();
    assert_eq!(db.get_note(77).err(), Some(StoreError::NotFound));
}

#[test]
fn updates_change_the_row_and_move_its_time_on() {
    let mut db = fresh();
    let id = db.insert_note("draft", "one", 110).unwrap();
    db.update_note_name(id, "final", 120).unwrap();
    db.update_note_content(id, "two", 115).unwrap();
    let n = db.get_note(id).unwrap();
    assert_eq!(n.name, "final");
    assert_eq!(n.content.as_deref(), Some("two"));
    assert_eq!(n.created_at, 110);
    assert_eq!(n.updated_at, 120);
    assert_eq!(db.update_note_name(99, "x", 130), Err(StoreError::NotFound));
    assert_eq!(db.update_note_content(99, "x", 130), Err(StoreError::NotFound));
    assert_eq!(db.update_note_name(id, "", 130), Err(StoreError::ConstraintViolation));
    assert_eq!(db.update_note_name(99, "", 130), Err(StoreError::NotFound));
    assert_eq!(db.get_note(id).unwrap().name, "final");
}

#[test]
fn soft_delete_then_restore_gives_the_note_back() {
    let mut db = fresh();
    let id = db.insert_note("keep", "text", 110).unwrap();
    let before = db.get_note(id).unwrap();
    db.delete_note_and_children_soft(id, 150).unwrap();
    assert_eq!(db.get_note(id).unwrap().deleted_at, Some(150));
    assert_eq!(db.get_trash().unwrap(), vec![(id, "keep".to_string())]);
    db.restore_note(id).unwrap();
    let after = db.get_note(id).unwrap();
    assert_eq!(after.deleted_at, None);
    assert_eq!(after.id, before.id);
    assert_eq!(after.name, before.name);
    assert_eq!(after.content, before.content);
    assert_eq!(after.created_at, before.created_at);
    assert_eq!(after.updated_at, before.updated_at);
    assert!(db.get_trash().unwrap().is_empty());
}

#[test]
fn soft_delete_never_stamps_before_the_last_update() {
    let mut db = fresh();
    let id = db.insert_note("n", "t", 500).unwrap();
    db.delete_note_and_children_soft(id, 10).unwrap();
    assert_eq!(db.get_note(id).unwrap().deleted_at, Some(500));
}

#[test]
fn cascade_is_one_level() {
    let mut db = fresh();
    let p = db.add_new_note("P", 110).unwrap();
    let c = db.add_new_note("C", 111).unwrap();
    let g = db.add_new_note("G", 112).unwrap();
    db.add_note_link(p, c, LinkType::Parent, 113).unwrap();
    db.add_note_link(c, g, LinkType::Parent, 114).unwrap();
    db.delete_note_and_children_soft(p, 120).unwrap();
    assert_eq!(db.get_note(p).unwrap().deleted_at, Some(120));
    assert_eq!(db.get_note(c).unwrap().deleted_at, Some(120));
    assert_eq!(db.get_note(g).unwrap().deleted_at, None);
}

#[test]
fn related_edges_do_not_cascade() {
    let mut db = fresh();
    let a = db.add_new_note("A", 110).unwrap();
    let b = db.add_new_note("B", 111).unwrap();
    db.add_note_link(a, b, LinkType::Related, 112).unwrap();
    db.delete_note_and_children_soft(a, 120).unwrap();
    assert_eq!(db.get_note(b).unwrap().deleted_at, None);
}

#[test]
fn hard_delete_removes_the_note_its_edges_and_its_history() {
    let mut db = fresh();
    let a = db.add_new_note("A", 110).unwrap();
    let b = db.add_new_note("B", 111).unwrap();
    db.add_note_link(a, b, LinkType::Parent, 112).unwrap();
    db.insert_note_diff(b, "[]", 113).unwrap();
    db.insert_note_diff(a, "[]", 114).unwrap();
    db.delete_note_hard(b).unwrap();
    assert_eq!(db.get_note(b).err(), Some(StoreError::NotFound));
    assert!(db.select_note_diff_ls(b).unwrap().is_empty());
    assert_eq!(db.select_note_diff(1).err(), Some(StoreError::NotFound));
    assert_eq!(db.select_note_diff_ls(a).unwrap().len(), 1);
    let tree = db.get_notes().unwrap();
    assert_eq!(names(&tree), vec!["A", "README"]);
    assert!(tree[0].children.is_empty());
    assert_eq!(db.add_note_link(a, b, LinkType::Parent, 115), Err(StoreError::NotFound));
    db.delete_note_hard(b).unwrap();
}

#[test]
fn empty_trash_twice_is_empty_trash_once() {
    let mut db = fresh();
    let a = db.add_new_note("A", 110).unwrap();
    let b = db.add_new_note("B", 111).unwrap();
    db.delete_note_and_children_soft(a, 120).unwrap();
    db.empty_trash().unwrap();
    let once: Vec<i64> = db.get_all_notes().unwrap().iter().map(|n| n.id).collect();
    assert_eq!(once, vec![1, b]);
    assert!(db.get_trash().unwrap().is_empty());
    db.empty_trash().unwrap();
    let twice: Vec<i64> = db.get_all_notes().unwrap().iter().map(|n| n.id).collect();
    assert_eq!(twice, once);
    assert_eq!(db.get_note(a).err(), Some(StoreError::NotFound));
}

#[test]
fn duplicate_edge_is_a_constraint_violation() {
    let mut db = fresh();
    let a = db.add_new_note("A", 110).unwrap();
    let b = db.add_new_note("B", 111).unwrap();
    db.add_note_link(a, b, LinkType::Parent, 112).unwrap();
    assert_eq!(
        db.add_note_link(a, b, LinkType::Parent, 113),
        Err(StoreError::ConstraintViolation)
    );
    db.add_note_link(a, b, LinkType::Related, 113).unwrap();
    db.add_note_link(b, a, LinkType::Parent, 114).unwrap();
    assert_eq!(db.add_note_link(a, 99, LinkType::Parent, 115), Err(StoreError::NotFound));
    assert_eq!(db.add_note_link(99, a, LinkType::Parent, 115), Err(StoreError::NotFound));
}

#[test]
fn tree_lists_latest_update_first_and_nests_children() {
    let mut db = fresh();
    let a = db.add_new_note("A", 110).unwrap();
    let b = db.add_new_note("B", 120).unwrap();
    let c = db.add_new_note("C", 130).unwrap();
    db.add_note_link(a, c, LinkType::Parent, 131).unwrap();
    let tree = db.get_notes().unwrap();
    assert_eq!(names(&tree), vec!["B", "A", "README"]);
    assert_eq!(tree[1].id, a);
    assert!(!tree[1].has_parent);
    assert_eq!(names(&tree[1].children), vec!["C"]);
    assert!(tree[1].children[0].has_parent);
    assert_eq!(tree[0].id, b);
}

#[test]
fn child_of_a_note_in_the_trash_stays_at_the_top_level() {
    let mut db = fresh();
    let a = db.add_new_note("A", 110).unwrap();
    let c = db.add_new_note("C", 120).unwrap();
    db.add_note_link(a, c, LinkType::Parent, 121).unwrap();
    db.delete_note_and_children_soft(a, 130).unwrap();
    db.restore_note(c).unwrap();
    let tree = db.get_notes().unwrap();
    assert_eq!(names(&tree), vec!["C", "README"]);
    assert!(!tree[0].has_parent);
}

#[test]
fn notes_updated_at_the_same_time_keep_the_order_of_the_table() {
    let mut db = fresh();
    db.add_new_note("A", 100).unwrap();
    db.add_new_note("B", 100).unwrap();
    assert_eq!(names(&db.get_notes().unwrap()), vec!["README", "A", "B"]);
}

#[test]
fn versions_count_up_per_note() {
    let mut db = fresh();
    let a = db.add_new_note("A", 110).unwrap();
    let b = db.add_new_note("B", 111).unwrap();
    db.insert_note_diff(a, "[1]", 120).unwrap();
    db.insert_note_diff(b, "[2]", 121).unwrap();
    db.insert_note_diff(a, "[3]", 122).unwrap();
    db.insert_note_diff(a, "[4]", 123).unwrap();
    db.insert_note_diff(b, "[5]", 124).unwrap();
    let of_a: Vec<(i64, i64)> =
        db.select_note_diff_ls(a).unwrap().iter().map(|d| (d.id, d.version)).collect();
    assert_eq!(of_a, vec![(1, 1), (3, 2), (4, 3)]);
    let of_b: Vec<(i64, i64)> =
        db.select_note_diff_ls(b).unwrap().iter().map(|d| (d.id, d.version)).collect();
    assert_eq!(of_b, vec![(2, 1), (5, 2)]);
    assert!(db.select_note_diff_ls(a).unwrap().iter().all(|d| d.diff.is_empty()));
    let full = db.select_note_diff(3).unwrap();
    assert_eq!((full.note_id, full.version, full.diff.as_str(), full.changed_at), (a, 2, "[3]", 122));
    assert_eq!(db.insert_note_diff(99, "[]", 125), Err(StoreError::NotFound));
}

#[test]
fn readme_scenario_records_version_one() {
    let mut db = fresh();
    let before = db.get_note(1).unwrap().content.unwrap();
    let after = "# Welcome\nExtra line";
    db.update_note_content(1, "# Welcome", 101).unwrap();
    db.update_note_content(1, after, 102).unwrap();
    db.record_change(1, "# Welcome", after, 102).unwrap();
    let versions = db.select_note_diff_ls(1).unwrap();
    assert_eq!(versions.len(), 1);
    assert_eq!(versions[0].version, 1);
    let payload = db.select_note_diff(versions[0].id).unwrap().diff;
    assert_eq!(payload, "[{\"op\":\"+\",\"value\":\"Extra line\\n\",\"index\":1}]");
    assert_eq!(before, "# Welcome to nisabo");
    assert_eq!(db.record_change(42, "a", "b", 103), Err(StoreError::NotFound));
}

#[test]
fn search_follows_inserts_updates_and_deletes() {
    let mut db = fresh();
    let id = db.insert_note("Shopping List", "milk and eggs", 110).unwrap();
    let hits = db.search("Shopping List").unwrap();
    assert_eq!(hits.len(), 1);
    assert_eq!(hits[0].id, id);
    assert_eq!(hits[0].name, "Shopping List");
    assert_eq!(hits[0].content.as_deref(), Some("milk and eggs"));
    assert_eq!((hits[0].created_at, hits[0].updated_at, hits[0].deleted_at), (0, 0, None));
    db.update_note_name(id, "Groceries", 111).unwrap();
    assert!(db.search("Shopping List").unwrap().is_empty());
    assert_eq!(db.search("Groceries").unwrap()[0].id, id);
    db.update_note_content(id, "bread", 112).unwrap();
    assert!(db.search("milk").unwrap().is_empty());
    assert_eq!(db.search("BREAD").unwrap()[0].id, id);
    db.delete_note_and_children_soft(id, 113).unwrap();
    assert!(db.search("Groceries").unwrap().is_empty());
    db.restore_note(id).unwrap();
    assert_eq!(db.search("groceries").unwrap().len(), 1);
    db.delete_note_hard(id).unwrap();
    assert!(db.search("Groceries").unwrap().is_empty());
}

#[test]
fn search_ranks_names_before_contents() {
    let mut db = fresh();
    let a = db.insert_note("alpha", "mentions beta", 110).unwrap();
    let b = db.insert_note("beta", "nothing", 111).unwrap();
    let ids: Vec<i64> = db.search("beta").unwrap().iter().map(|n| n.id).collect();
    assert_eq!(ids, vec![b, a]);
}

#[test]
fn search_with_an_empty_query_finds_every_live_note() {
    let mut db = fresh();
    let a = db.add_new_note("A", 110).unwrap();
    db.add_new_note("B", 111).unwrap();
    db.delete_note_and_children_soft(a, 112).unwrap();
    let ids: Vec<i64> = db.search("").unwrap().iter().map(|n| n.id).collect();
    assert_eq!(ids, vec![1, 3]);
}

#[test]
fn transaction_that_succeeds_is_kept() {
    let mut db = fresh();
    let r = db.with_transaction(|mut d| {
        let made = d.add_new_note("inside", 110);
        (d, made)
    });
    assert_eq!(r, Ok(2));
    assert_eq!(db.get_note(2).unwrap().name, "inside");
}

#[test]
fn transaction_that_fails_leaves_nothing_behind() {
    let mut db = fresh();
    let r: Result<i64, StoreError> = db.with_transaction(|mut d| {
        let first = d.add_new_note("inside", 110);
        if first.is_err() {
            return (d, first);
        }
        let second = d.add_new_note("", 111);
        (d, second)
    });
    assert_eq!(r, Err(StoreError::ConstraintViolation));
    assert_eq!(db.get_note(2).err(), Some(StoreError::NotFound));
    assert_eq!(db.get_all_notes().unwrap().len(), 1);
    assert_eq!(db.add_new_note("after", 112), Ok(2));
}

#[test]
fn snapshot_is_a_copy_of_its_own() {
    let mut db = fresh();
    let copy = db.snapshot();
    db.update_note_name(1, "changed", 110).unwrap();
    assert_eq!(copy.get_note(1).unwrap().name, "README");
    assert_eq!(copy.search("readme").unwrap().len(), 1);
    assert_eq!(db.search("readme").unwrap().len(), 0);
}

#[test]
fn configure_db_asks_for_the_durable_settings() {
    let mut db = Database::new();
    let before = db.pragmas();
    assert_eq!(before.journal_mode, JournalMode::Delete);
    assert_eq!(before.synchronous, Synchronous::Full);
    assert!(!before.foreign_keys);
    db.configure_db().unwrap();
    let after = db.pragmas();
    assert_eq!(after.journal_mode, JournalMode::Wal);
    assert_eq!(after.synchronous, Synchronous::Normal);
    assert_eq!(after.cache_size, 10000);
    assert_eq!(after.temp_store, TempStore::Memory);
    assert!(!after.case_sensitive_like);
    assert!(after.foreign_keys);
}

#[test]
fn update_of_a_note_in_the_trash_is_allowed() {
    let mut db = fresh();
    let id = db.add_new_note("n", 110).unwrap();
    db.delete_note_and_children_soft(id, 120).unwrap();
    db.update_note_content(id, "late", 130).unwrap();
    let n = db.get_note(id).unwrap();
    assert_eq!((n.updated_at, n.deleted_at), (130, Some(120)));
}

#[test]
fn search_ranked_gives_the_live_notes_of_the_hits_in_their_order() {
    let mut db = fresh();
    let a = db.insert_note("alpha", "one", 110).unwrap();
    let b = db.insert_note("beta", "two", 111).unwrap();
    let c = db.add_new_note("gamma", 112).unwrap();
    db.delete_note_and_children_soft(b, 113).unwrap();
    let found = db.search_ranked(&vec![c, 99, b, a, c]).unwrap();
    let ids: Vec<i64> = found.iter().map(|n| n.id).collect();
    assert_eq!(ids, vec![c, a, c]);
    assert_eq!(found[1].name, "alpha");
    assert_eq!(found[1].content.as_deref(), Some("one"));
    assert_eq!(found[0].content, None);
    assert_eq!((found[1].created_at, found[1].updated_at, found[1].deleted_at), (0, 0, None));
    db.update_note_name(a, "omega", 114).unwrap();
    db.delete_note_hard(c).unwrap();
    let found = db.search_ranked(&vec![c, a]).unwrap();
    assert_eq!(found.len(), 1);
    assert_eq!(found[0].name, "omega");
    assert!(db.search_ranked(&Vec::new()).unwrap().is_empty());
    assert_eq!(Database::new().search_ranked(&vec![1]).err(), Some(StoreError::StorageFailure));
}
