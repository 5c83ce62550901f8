use nisabo::database::{Database, Tables};
use nisabo::integrity::{check_diffs, check_links, check_notes};
use nisabo::models::{LinkType, Note, NoteDiff, NoteIdName, NoteLink, StoreError};

fn note(id: i64, name: &str, at: i64) -> Note {
    Note {
        id,
        name: name.to_string(),
        content: Some(format!("content of {name}")),
        created_at: at,
        updated_at: at,
        deleted_at: None,
    }
}

fn link(id: i64, source: i64, target: i64, kind: LinkType) -> NoteLink {
    NoteLink {
        id,
        source_note_id: source,
        target_note_id: target,
        link_type: kind,
        created_at: 5,
        updated_at: 5,
        deleted_at: None,
    }
}

fn diff(id: i64, note_id: i64, version: i64) -> NoteDiff {
    NoteDiff { id, note_id, version, diff: "[]".to_string(), changed_at: 9 }
}

fn good() -> Tables {
    Tables {
        notes: vec![note(1, "a", 10), note(3, "b", 20), note(4, "c", 30)],
        links: vec![link(2, 1, 3, LinkType::Parent), link(5, 1, 3, LinkType::Related)],
        diffs: vec![diff(1, 3, 1), diff(2, 1, 1), diff(6, 3, 2)],
        last_note_id: 7,
        last_link_id: 5,
        last_diff_id: 6,
    }
}

#[test]
fn open_takes_rows_that_keep_the_rules() {
    let mut db = Database::open(good()).unwrap();
    assert!(db.is_ready());
    assert_eq!(db.get_note(3).unwrap().name, "b");
    assert_eq!(db.search("CONTENT OF C").unwrap()[0].id, 4);
    let tree = db.get_notes().unwrap();
    assert_eq!(tree.iter().map(|n| n.id).collect::<Vec<_>>(), vec![4, 1]);
    assert_eq!(tree[1].children[0].id, 3);
    assert_eq!(db.add_new_note("next", 40), Ok(8));
    db.insert_note_diff(3, "[]", 41).unwrap();
    let versions: Vec<i64> =
        db.select_note_diff_ls(3).unwrap().iter().map(|d| d.version).collect();
    assert_eq!(versions, vec![1, 2, 3]);
    assert_eq!(db.select_note_diff(7).unwrap().note_id, 3);
}

#[test]
fn tables_give_back_what_open_took() {
    let db = Database::open(good()).unwrap();
    let out = db.tables();
    let expected = good();
    assert_eq!(out.notes.len(), 3);
    for (a, b) in out.notes.iter().zip(expected.notes.iter()) {
        assert_eq!((a.id, &a.name, &a.content), (b.id, &b.name, &b.content));
        assert_eq!((a.created_at, a.updated_at, a.deleted_at), (b.created_at, b.updated_at, b.deleted_at));
    }
    assert_eq!(out.links.len(), 2);
    assert_eq!((out.links[1].id, out.links[1].link_type), (5, LinkType::Related));
    assert_eq!(out.diffs.len(), 3);
    assert_eq!((out.diffs[2].id, out.diffs[2].version, out.diffs[2].diff.as_str()), (6, 2, "[]"));
    assert_eq!((out.last_note_id, out.last_link_id, out.last_diff_id), (7, 5, 6));
    assert!(Database::open(out).is_ok());
}

fn refused(change: impl FnOnce(&mut Tables)) {
    let mut t = good();
    change(&mut t);
    assert_eq!(Database::open(t).err(), Some(StoreError::StorageFailure));
}

#[test]
fn open_refuses_rows_that_break_a_rule() {
    refused(|t| t.notes[1].name = String::new());
    refused(|t| t.notes[1].id = 1);
    refused(|t| t.notes[0].id = 0);
    refused(|t| t.last_note_id = 3);
    refused(|t| t.last_note_id = -1);
    refused(|t| t.notes[2].updated_at = 29);
    refused(|t| t.notes[2].deleted_at = Some(29));
    refused(|t| t.links[0].target_note_id = 2);
    refused(|t| t.links[0].source_note_id = 9);
    refused(|t| t.links[1].link_type = LinkType::Parent);
    refused(|t| t.links[1].id = 2);
    refused(|t| t.last_link_id = 4);
    refused(|t| t.diffs[0].note_id = 2);
    refused(|t| t.diffs[2].version = 3);
    refused(|t| t.diffs[1].version = 0);
    refused(|t| t.diffs[2].id = 2);
    refused(|t| t.last_diff_id = 5);
}

#[test]
fn open_takes_an_archive_without_rows() {
    let empty = Tables {
        notes: Vec::new(),
        links: Vec::new(),
        diffs: Vec::new(),
        last_note_id: 0,
        last_link_id: 0,
        last_diff_id: 0,
    };
    let mut db = Database::open(empty).unwrap();
    assert!(db.get_all_notes().unwrap().is_empty());
    db.init_tables(5).unwrap();
    assert!(db.get_all_notes().unwrap().is_empty());
    assert_eq!(db.add_new_note("first", 6), Ok(1));
}

#[test]
fn checks_of_single_tables() {
    let t = good();
    assert!(check_notes(&t.notes, 7));
    assert!(!check_notes(&t.notes, 3));
    assert!(check_links(&t.links, &t.notes, 5));
    assert!(!check_links(&t.links, &t.notes[..1].iter().map(|n| n.clone()).collect(), 5));
    assert!(check_diffs(&t.diffs, &t.notes, 6));
    assert!(!check_diffs(&vec![diff(1, 3, 2)], &t.notes, 6));
    assert!(check_notes(&Vec::new(), 0));
}

#[test]
fn a_soft_deleted_row_may_come_from_a_file() {
    let mut t = good();
    t.notes[0].deleted_at = Some(10);
    let db = Database::open(t).unwrap();
    assert_eq!(db.get_trash().unwrap(), vec![(1, "a".to_string())]);
}

#[test]
fn duplicate_copies_the_whole_tree() {
    let tree = NoteIdName {
        id: 1,
        name: "root".to_string(),
        children: vec![NoteIdName {
            id: 2,
            name: "child".to_string(),
            children: vec![NoteIdName {
                id: 3,
                name: "leaf".to_string(),
                children: Vec::new(),
                has_parent: true,
            }],
            has_parent: true,
        }],
        has_parent: false,
    };
    let copy = tree.duplicate();
    assert_eq!((copy.id, copy.name.as_str(), copy.has_parent), (1, "root", false));
    assert_eq!(copy.children.len(), 1);
    assert_eq!(copy.children[0].name, "child");
    assert!(copy.children[0].has_parent);
    assert_eq!(copy.children[0].children[0].id, 3);
}

#[test]
fn without_orphans_drops_rows_of_notes_that_are_not_there() {
    let mut t = good();
    t.links.push(link(6, 1, 9, LinkType::Parent));
    t.links.push(link(7, 9, 4, LinkType::Related));
    t.links.push(link(8, 4, 1, LinkType::Parent));
    t.diffs.push(diff(7, 9, 1));
    t.diffs.push(diff(8, 1, 2));
    t.last_link_id = 8;
    t.last_diff_id = 8;
    let cleaned = t.without_orphans();
    assert_eq!(cleaned.notes.len(), 3);
    assert_eq!(cleaned.links.iter().map(|l| l.id).collect::<Vec<_>>(), vec![2, 5, 8]);
    assert_eq!(cleaned.diffs.iter().map(|d| d.id).collect::<Vec<_>>(), vec![1, 2, 6, 8]);
    assert_eq!((cleaned.last_note_id, cleaned.last_link_id, cleaned.last_diff_id), (7, 8, 8));
    assert!(Database::open(cleaned).is_ok());
    let same = good().without_orphans();
    assert_eq!((same.links.len(), same.diffs.len()), (2, 3));
}
