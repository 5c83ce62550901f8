//! The archive: notes, the edges between them, and the history of their
//! contents, with the index that the search reads.
//!
//! A [`Database`] holds the tables in memory. Every operation either
//! takes place as a whole or fails and leaves the archive as it was.
//! What an operation does is stated over [`Archive`], the tables as
//! mathematical values.

use vstd::prelude::*;
use crate::archive::{
    content_hits, counts_up, diff_position, ends, engine_defaults, has_link, has_note,
    history_of, id_and_name, latest_version, leaf, lemma_latest_is_count,
    lemma_purged_valid, live_rows, name_hits, note_position, parent_edges, purge_rule,
    rank_position, ranked, row_ok, stamp, starter_name, summary, trash_rows, trashed,
    versions_of, without_payload, Archive, JournalMode, Pragmas, Synchronous, TempStore,
};
use crate::diff::{create_diff, diff_json, line_changes, script, serialize, terminated};
use crate::forest::{build_forest, edge_views};
use crate::integrity::{
    check_diffs, check_links, check_notes, kept_diffs, kept_links, key_exists, link_exists,
    same_kind,
};
use crate::models::{
    history_views, link_views, note_views, text_view, tree_views, LinkType, Note, NoteDiff,
    NoteDiffView, NoteIdName, NoteLink, NoteLinkIds, NoteTree, NoteView, StoreError, Timestamp,
};
use crate::search::{
    contains, entry_of, entry_views, fold, folded, in_step, lemma_step_kept, IndexEntry,
};
use crate::tables::{lemma_filter_none, lemma_filter_step};

verus! {

/// The archive.
pub struct Database {
    ready: bool,
    notes: Vec<Note>,
    links: Vec<NoteLink>,
    diffs: Vec<NoteDiff>,
    index: Vec<IndexEntry>,
    last_note_id: i64,
    last_link_id: i64,
    last_diff_id: i64,
    pragmas: Pragmas,
}

/// The rows of the three tables and the last key that each table handed
/// out, as a file holds them.
pub struct Tables {
    pub notes: Vec<Note>,
    pub links: Vec<NoteLink>,
    pub diffs: Vec<NoteDiff>,
    pub last_note_id: i64,
    pub last_link_id: i64,
    pub last_diff_id: i64,
}

impl View for Tables {
    type V = Archive;

    open spec fn view(&self) -> Archive {
        Archive {
            ready: true,
            notes: note_views(self.notes@),
            links: link_views(self.links@),
            diffs: history_views(self.diffs@),
            last_note_id: self.last_note_id as int,
            last_link_id: self.last_link_id as int,
            last_diff_id: self.last_diff_id as int,
            pragmas: engine_defaults(),
        }
    }
}

impl Tables {
    /// The tables without the edges that start or end at a note that is
    /// not there, and without the history rows of such a note. The notes
    /// and the last keys stay as they are.
    pub fn without_orphans(self) -> (r: Tables)
        ensures
            r@ == self@.cut_to(self@.notes),
    {
        let links = kept_links(&self.links, &self.notes);
        let diffs = kept_diffs(&self.diffs, &self.notes);
        Tables {
            notes: self.notes,
            links,
            diffs,
            last_note_id: self.last_note_id,
            last_link_id: self.last_link_id,
            last_diff_id: self.last_diff_id,
        }
    }
}

impl View for Database {
    type V = Archive;

    closed spec fn view(&self) -> Archive {
        Archive {
            ready: self.ready,
            notes: note_views(self.notes@),
            links: link_views(self.links@),
            diffs: history_views(self.diffs@),
            last_note_id: self.last_note_id as int,
            last_link_id: self.last_link_id as int,
            last_diff_id: self.last_diff_id as int,
            pragmas: self.pragmas,
        }
    }
}

/// Two tables of notes with the same keys in the same places hold the
/// same keys.
pub proof fn lemma_same_keys(before: Seq<NoteView>, after: Seq<NoteView>)
    requires
        before.len() == after.len(),
        forall|i: int| 0 <= i < before.len() ==> (#[trigger] before[i]).id == after[i].id,
    ensures
        forall|id: int| has_note(before, id) == has_note(after, id),
{
    assert forall|id: int| has_note(before, id) == has_note(after, id) by {
        if has_note(before, id) {
            let i = choose|i: int| 0 <= i < before.len() && #[trigger] before[i].id == id;
            assert(after[i].id == id);
        }
        if has_note(after, id) {
            let i = choose|i: int| 0 <= i < after.len() && #[trigger] after[i].id == id;
            assert(before[i].id == id);
        }
    }
}

/// `note_position` is the least index that holds the key.
pub proof fn lemma_note_position(notes: Seq<NoteView>, id: int, i: int)
    requires
        0 <= i <= notes.len(),
        forall|j: int| 0 <= j < i ==> (#[trigger] notes[j]).id != id,
        i < notes.len() ==> notes[i].id == id,
    ensures
        note_position(notes, id) == i,
    decreases notes.len(),
{
    if notes.len() == 0 || notes[0].id == id {
    } else {
        let rest = notes.drop_first();
        assert forall|j: int| 0 <= j < i - 1 implies (#[trigger] rest[j]).id != id by {
            assert(rest[j] == notes[j + 1]);
        }
        lemma_note_position(rest, id, i - 1);
    }
}

impl Database {
    /// Whether the archive keeps the rules of the data model, and its
    /// index has one row for each note, with the note's name and content.
    pub closed spec fn wf(&self) -> bool {
        &&& self@.valid()
        &&& in_step(entry_views(self.index@), self@.notes)
    }

    /// What `wf` says of the archive: the rules of the data model hold.
    pub proof fn lemma_valid(&self)
        requires
            self.wf(),
        ensures
            self@.valid(),
    {
    }

    proof fn lemma_shape(&self)
        requires
            self.wf(),
        ensures
            self.index@.len() == self.notes@.len(),
            self@.notes.len() == self.notes@.len(),
            forall|j: int|
                0 <= j < self.notes@.len() ==> (#[trigger] entry_views(self.index@)[j])
                    == entry_of(self@.notes[j]),
            forall|i: int, j: int|
                0 <= i < self.notes@.len() && 0 <= j < self.notes@.len() && i != j ==> (
                #[trigger] self@.notes[i]).id != (#[trigger] self@.notes[j]).id,
    {
        let views = self@.notes;
        assert(entry_views(self.index@).len() == views.map_values(
            |n: NoteView| entry_of(n),
        ).len());
        assert forall|i: int, j: int|
            0 <= i < self.notes@.len() && 0 <= j < self.notes@.len() && i != j implies (
            #[trigger] views[i]).id != (#[trigger] views[j]).id by {
            if i < j {
                assert(views[i].id < views[j].id);
            } else {
                assert(views[j].id < views[i].id);
            }
        }
    }

    /// An archive without tables, on a connection that nobody has
    /// configured.
    pub fn new() -> (r: Database)
        ensures
            r.wf(),
            r@ == Archive::empty(),
    {
        let r = Database {
            ready: false,
            notes: Vec::new(),
            links: Vec::new(),
            diffs: Vec::new(),
            index: Vec::new(),
            last_note_id: 0,
            last_link_id: 0,
            last_diff_id: 0,
            pragmas: Pragmas {
                journal_mode: JournalMode::Delete,
                synchronous: Synchronous::Full,
                cache_size: -2000,
                temp_store: TempStore::Default,
                case_sensitive_like: false,
                foreign_keys: false,
            },
        };
        proof {
            assert(r@.notes =~= Seq::<NoteView>::empty());
            assert(r@.links =~= Archive::empty().links);
            assert(r@.diffs =~= Archive::empty().diffs);
            assert(entry_views(r.index@) =~= r@.notes.map_values(|n: NoteView| entry_of(n)));
            assert forall|note_id: int|
                crate::archive::counts_up(
                    #[trigger] crate::archive::versions_of(r@.diffs, note_id),
                ) by {}
        }
        r
    }

    /// The archive that a file holds, on a connection that nobody has
    /// configured. This fails where the rows do not keep the rules of the
    /// data model.
    #[verifier::rlimit(40)]
    pub fn open(tables: Tables) -> (r: Result<Database, StoreError>)
        ensures
            r is Ok <==> tables@.valid(),
            r matches Ok(db) ==> db.wf() && db@ == tables@,
            r matches Err(e) ==> e == StoreError::StorageFailure,
    {
        if tables.last_note_id < 0 || tables.last_link_id < 0 || tables.last_diff_id < 0 {
            return Err(StoreError::StorageFailure);
        }
        if !check_notes(&tables.notes, tables.last_note_id) || !check_links(
            &tables.links,
            &tables.notes,
            tables.last_link_id,
        ) || !check_diffs(&tables.diffs, &tables.notes, tables.last_diff_id) {
            return Err(StoreError::StorageFailure);
        }
        let ghost views = note_views(tables.notes@);
        let mut index: Vec<IndexEntry> = Vec::new();
        let mut i: usize = 0;
        proof {
            assert(entry_views(index@) =~= views.take(0).map_values(|n: NoteView| entry_of(n)));
        }
        while i < tables.notes.len()
            invariant
                i <= tables.notes.len(),
                views == note_views(tables.notes@),
                entry_views(index@) == views.take(i as int).map_values(|n: NoteView| entry_of(n)),
            decreases tables.notes.len() - i,
        {
            let n = &tables.notes[i];
            let entry = IndexEntry {
                rowid: n.id,
                name: fold(n.name.as_str()),
                content: match &n.content {
                    Some(c) => Some(fold(c.as_str())),
                    None => None,
                },
            };
            proof {
                assert(entry@ == entry_of(views[i as int]));
            }
            let ghost before = index@;
            index.push(entry);
            proof {
                assert(entry_views(index@) =~= entry_views(before).push(entry@));
                assert(entry_views(index@) =~= views.take(i + 1).map_values(
                    |n: NoteView| entry_of(n),
                ));
            }
            i += 1;
        }
        proof {
            assert(views.take(tables.notes.len() as int) =~= views);
        }
        Ok(
            Database {
                ready: true,
                notes: tables.notes,
                links: tables.links,
                diffs: tables.diffs,
                index,
                last_note_id: tables.last_note_id,
                last_link_id: tables.last_link_id,
                last_diff_id: tables.last_diff_id,
                pragmas: Pragmas {
                    journal_mode: JournalMode::Delete,
                    synchronous: Synchronous::Full,
                    cache_size: -2000,
                    temp_store: TempStore::Default,
                    case_sensitive_like: false,
                    foreign_keys: false,
                },
            },
        )
    }

    /// Whether the tables exist.
    pub fn is_ready(&self) -> (r: bool)
        ensures
            r == self@.ready,
    {
        self.ready
    }

    /// A copy of the rows of the three tables, with the last key that
    /// each table handed out, for a file to hold.
    pub fn tables(&self) -> (r: Tables)
        requires
            self.wf(),
        ensures
            r@.notes == self@.notes,
            r@.links == self@.links,
            r@.diffs == self@.diffs,
            r@.last_note_id == self@.last_note_id,
            r@.last_link_id == self@.last_link_id,
            r@.last_diff_id == self@.last_diff_id,
    {
        let copy = self.snapshot();
        Tables {
            notes: copy.notes,
            links: copy.links,
            diffs: copy.diffs,
            last_note_id: copy.last_note_id,
            last_link_id: copy.last_link_id,
            last_diff_id: copy.last_diff_id,
        }
    }

    /// The settings of the connection.
    pub fn pragmas(&self) -> (r: Pragmas)
        ensures
            r == self@.pragmas,
    {
        self.pragmas
    }

    /// Sets the connection up as the archive asks for it; the tables stay
    /// as they are.
    pub fn configure_db(&mut self) -> (r: Result<(), StoreError>)
        requires
            old(self).wf(),
        ensures
            final(self).wf(),
            r is Ok,
            final(self)@ == old(self)@.configured(),
    {
        self.pragmas = Pragmas {
            journal_mode: JournalMode::Wal,
            synchronous: Synchronous::Normal,
            cache_size: 10000,
            temp_store: TempStore::Memory,
            case_sensitive_like: false,
            foreign_keys: true,
        };
        Ok(())
    }

    fn find_note(&self, id: i64) -> (r: usize)
        ensures
            r <= self.notes.len(),
            r as int == note_position(self@.notes, id as int),
            r < self.notes.len() <==> has_note(self@.notes, id as int),
            r < self.notes.len() ==> self.notes@[r as int].id == id,
    {
        let mut i: usize = 0;
        while i < self.notes.len() && self.notes[i].id != id
            invariant
                i <= self.notes.len(),
                forall|j: int| 0 <= j < i ==> self.notes@[j].id != id,
            decreases self.notes.len() - i,
        {
            i += 1;
        }
        proof {
            let views = self@.notes;
            assert forall|j: int| 0 <= j < i implies (#[trigger] views[j]).id != id by {
                assert(views[j] == self.notes@[j]@);
            }
            lemma_note_position(views, id as int, i as int);
            if i < self.notes.len() {
                assert(views[i as int].id == id);
            } else {
                assert(!has_note(views, id as int));
            }
        }
        i
    }

    fn insert_row(&mut self, name: &str, content: Option<&str>, now: Timestamp) -> (r: Result<
        i64,
        StoreError,
    >)
        requires
            old(self).wf(),
        ensures
            final(self).wf(),
            r is Ok <==> old(self)@.insert_error(name@) is None,
            r matches Ok(id) ==> id == old(self)@.last_note_id + 1,
            r is Ok ==> final(self)@ == old(self)@.insert(
                name@,
                match content {
                    Some(c) => Some(c@),
                    None => None,
                },
                now as int,
            ),
            r matches Err(e) ==> old(self)@.insert_error(name@) == Some(e),
            r is Err ==> final(self)@ == old(self)@,
    {
        if !self.ready {
            return Err(StoreError::StorageFailure);
        }
        if name.unicode_len() == 0 {
            return Err(StoreError::ConstraintViolation);
        }
        if self.last_note_id >= i64::MAX {
            return Err(StoreError::StorageFailure);
        }
        let id = self.last_note_id + 1;
        let ghost before = self@;
        let ghost old_index = entry_views(self.index@);
        let text = match content {
            Some(c) => Some(c.to_owned()),
            None => None,
        };
        let folded_content = match content {
            Some(c) => Some(fold(c)),
            None => None,
        };
        let note = Note {
            id,
            name: name.to_owned(),
            content: text,
            created_at: now,
            updated_at: now,
            deleted_at: None,
        };
        let entry = IndexEntry { rowid: id, name: fold(name), content: folded_content };
        proof {
            assert(entry@ == entry_of(note@));
        }
        self.notes.push(note);
        self.index.push(entry);
        self.last_note_id = id;
        proof {
            let after = self@;
            let goal = before.insert(name@, text_view(note.content), now as int);
            assert(after.notes =~= goal.notes);
            assert(after.links == before.links);
            assert(after.diffs == before.diffs);
            assert(after == goal);
            assert(entry_views(self.index@) =~= old_index.push(entry@));
            assert(entry_views(self.index@) =~= after.notes.map_values(
                |n: NoteView| entry_of(n),
            ));
            assert forall|x: int| has_note(before.notes, x) implies has_note(after.notes, x) by {
                let i = choose|i: int|
                    0 <= i < before.notes.len() && #[trigger] before.notes[i].id == x;
                assert(after.notes[i].id == x);
            }
            assert(after.valid());
        }
        Ok(id)
    }

    /// Adds a note with the name `name` and the content `content`, created
    /// at `now`, and gives its key. This fails without tables, with an
    /// empty name, and when no key is left.
    pub fn insert_note(&mut self, name: &str, content: &str, now: Timestamp) -> (r: Result<
        i64,
        StoreError,
    >)
        requires
            old(self).wf(),
        ensures
            final(self).wf(),
            r is Ok <==> old(self)@.insert_error(name@) is None,
            r matches Ok(id) ==> id == old(self)@.last_note_id + 1,
            r is Ok ==> final(self)@ == old(self)@.insert(name@, Some(content@), now as int),
            r matches Err(e) ==> old(self)@.insert_error(name@) == Some(e),
            r is Err ==> final(self)@ == old(self)@,
    {
        self.insert_row(name, Some(content), now)
    }

    /// Adds a note with the name `name` and no content yet, created at
    /// `now`, and gives its key. This fails without tables, with an empty
    /// name, and when no key is left.
    pub fn add_new_note(&mut self, name: &str, now: Timestamp) -> (r: Result<i64, StoreError>)
        requires
            old(self).wf(),
        ensures
            final(self).wf(),
            r is Ok <==> old(self)@.insert_error(name@) is None,
            r matches Ok(id) ==> id == old(self)@.last_note_id + 1,
            r is Ok ==> final(self)@ == old(self)@.insert(name@, None, now as int),
            r matches Err(e) ==> old(self)@.insert_error(name@) == Some(e),
            r is Err ==> final(self)@ == old(self)@,
    {
        self.insert_row(name, None, now)
    }

    /// Creates the tables if they are not there, and with them the starter
    /// note, created at `now`. An archive that has its tables stays as it
    /// is.
    pub fn init_tables(&mut self, now: Timestamp) -> (r: Result<(), StoreError>)
        requires
            old(self).wf(),
        ensures
            final(self).wf(),
            r is Ok,
            final(self)@ == old(self)@.initialized(now as int),
    {
        if self.ready {
            return Ok(());
        }
        self.ready = true;
        proof {
            reveal_strlit("README");
            assert(starter_name().len() == 6);
        }
        let seeded = self.insert_row("README", Some("# Welcome to nisabo"), now);
        Ok(())
    }

    /// The note `id`, whether it is in the trash or not.
    pub fn get_note(&self, id: i64) -> (r: Result<Note, StoreError>)
        requires
            self.wf(),
        ensures
            r is Ok <==> self@.update_error(id as int) is None,
            r matches Ok(n) ==> n@ == self@.note(id as int),
            r matches Err(e) ==> self@.update_error(id as int) == Some(e),
    {
        if !self.ready {
            return Err(StoreError::StorageFailure);
        }
        let i = self.find_note(id);
        if i >= self.notes.len() {
            return Err(StoreError::NotFound);
        }
        Ok(self.notes[i].clone())
    }

    /// Gives the note `id` the name `new_name` and moves its time of update
    /// on to `now`. This fails without tables, where the note does not
    /// exist, and, for a note that exists, with an empty name.
    pub fn update_note_name(&mut self, id: i64, new_name: &str, now: Timestamp) -> (r: Result<
        (),
        StoreError,
    >)
        requires
            old(self).wf(),
        ensures
            final(self).wf(),
            r is Ok <==> old(self)@.rename_error(id as int, new_name@) is None,
            r is Ok ==> final(self)@ == old(self)@.renamed(id as int, new_name@, now as int),
            r matches Err(e) ==> old(self)@.rename_error(id as int, new_name@) == Some(e),
            r is Err ==> final(self)@ == old(self)@,
    {
        if !self.ready {
            return Err(StoreError::StorageFailure);
        }
        let i = self.find_note(id);
        if i >= self.notes.len() {
            return Err(StoreError::NotFound);
        }
        if new_name.unicode_len() == 0 {
            return Err(StoreError::ConstraintViolation);
        }
        let ghost before = self@;
        let ghost old_index = entry_views(self.index@);
        proof {
            self.lemma_shape();
        }
        let t = later(now, self.notes[i].updated_at);
        self.notes[i].name = new_name.to_owned();
        self.notes[i].updated_at = t;
        self.index[i].name = fold(new_name);
        proof {
            let after = self@;
            let goal = before.renamed(id as int, new_name@, now as int);
            assert forall|j: int| 0 <= j < before.notes.len() implies after.notes[j]
                == goal.notes[j] by {
                if j != i {
                    assert(before.notes[i as int].id == id);
                    assert(before.notes[j].id != before.notes[i as int].id);
                }
            }
            assert(after.notes =~= goal.notes);
            assert(after == goal);
            lemma_rows_updated(before, after.notes);
            lemma_step_kept(old_index, entry_views(self.index@), before.notes, after.notes);
        }
        Ok(())
    }

    /// Gives the note `id` the content `new_content` and moves its time of
    /// update on to `now`. This fails without tables and where the note
    /// does not exist.
    pub fn update_note_content(&mut self, id: i64, new_content: &str, now: Timestamp) -> (r:
        Result<(), StoreError>)
        requires
            old(self).wf(),
        ensures
            final(self).wf(),
            r is Ok <==> old(self)@.update_error(id as int) is None,
            r is Ok ==> final(self)@ == old(self)@.rewritten(id as int, new_content@, now as int),
            r matches Err(e) ==> old(self)@.update_error(id as int) == Some(e),
            r is Err ==> final(self)@ == old(self)@,
    {
        if !self.ready {
            return Err(StoreError::StorageFailure);
        }
        let i = self.find_note(id);
        if i >= self.notes.len() {
            return Err(StoreError::NotFound);
        }
        let ghost before = self@;
        let ghost old_index = entry_views(self.index@);
        proof {
            self.lemma_shape();
        }
        let t = later(now, self.notes[i].updated_at);
        self.notes[i].content = Some(new_content.to_owned());
        self.notes[i].updated_at = t;
        self.index[i].content = Some(fold(new_content));
        proof {
            let after = self@;
            let goal = before.rewritten(id as int, new_content@, now as int);
            assert forall|j: int| 0 <= j < before.notes.len() implies after.notes[j]
                == goal.notes[j] by {
                if j != i {
                    assert(before.notes[i as int].id == id);
                    assert(before.notes[j].id != before.notes[i as int].id);
                }
            }
            assert(after.notes =~= goal.notes);
            assert(after == goal);
            lemma_rows_updated(before, after.notes);
            lemma_step_kept(old_index, entry_views(self.index@), before.notes, after.notes);
        }
        Ok(())
    }

    /// Puts the note `id` in the trash, and with it the notes filed
    /// directly under it: each is in the trash since `now`, or since its
    /// last update if that was later. Notes filed under those stay where
    /// they are, and so do the edges. Where no note has the key `id`,
    /// nothing changes. This fails only without tables.
    pub fn delete_note_and_children_soft(&mut self, id: i64, now: Timestamp) -> (r: Result<
        (),
        StoreError,
    >)
        requires
            old(self).wf(),
        ensures
            final(self).wf(),
            r is Ok <==> old(self)@.ready,
            r is Ok ==> final(self)@ == old(self)@.soft_deleted(id as int, now as int),
            r matches Err(e) ==> e == StoreError::StorageFailure && final(self)@ == old(self)@,
    {
        if !self.ready {
            return Err(StoreError::StorageFailure);
        }
        let ghost before = self@;
        let ghost old_index = entry_views(self.index@);
        proof {
            self.lemma_shape();
        }
        trash_marked(&mut self.notes, &self.links, id, now);
        proof {
            let after = self@;
            let goal = before.soft_deleted(id as int, now as int);
            assert(after.notes =~= goal.notes);
            assert(after == goal);
            lemma_rows_updated(before, after.notes);
            lemma_step_kept(old_index, entry_views(self.index@), before.notes, after.notes);
        }
        Ok(())
    }

    /// Takes the note `id` out of the trash. The notes filed under it and
    /// the edges stay as they are. Where no note has the key `id`, nothing
    /// changes. This fails only without tables.
    pub fn restore_note(&mut self, id: i64) -> (r: Result<(), StoreError>)
        requires
            old(self).wf(),
        ensures
            final(self).wf(),
            r is Ok <==> old(self)@.ready,
            r is Ok ==> final(self)@ == old(self)@.restored(id as int),
            r matches Err(e) ==> e == StoreError::StorageFailure && final(self)@ == old(self)@,
    {
        if !self.ready {
            return Err(StoreError::StorageFailure);
        }
        let ghost before = self@;
        let ghost old_index = entry_views(self.index@);
        proof {
            self.lemma_shape();
        }
        let i = self.find_note(id);
        if i < self.notes.len() {
            self.notes[i].deleted_at = None;
        }
        proof {
            let after = self@;
            let goal = before.restored(id as int);
            assert forall|j: int| 0 <= j < before.notes.len() implies after.notes[j]
                == goal.notes[j] by {
                if j != i {
                    if i < before.notes.len() {
                        assert(before.notes[i as int].id == id);
                        assert(before.notes[j].id != before.notes[i as int].id);
                    } else {
                        assert(before.notes[j].id != id);
                    }
                }
            }
            assert(after.notes =~= goal.notes);
            assert(after == goal);
            lemma_rows_updated(before, after.notes);
            lemma_step_kept(old_index, entry_views(self.index@), before.notes, after.notes);
        }
        Ok(())
    }

    /// The key and the name of each note in the trash, in the order of the
    /// table. This fails only without tables.
    pub fn get_trash(&self) -> (r: Result<Vec<(i64, String)>, StoreError>)
        requires
            self.wf(),
        ensures
            r is Ok <==> self@.ready,
            r matches Ok(v) ==> pair_views(v@) == self@.trash(),
            r matches Err(e) ==> e == StoreError::StorageFailure,
    {
        if !self.ready {
            return Err(StoreError::StorageFailure);
        }
        let ghost views = self@.notes;
        let mut out: Vec<(i64, String)> = Vec::new();
        let mut i: usize = 0;
        proof {
            lemma_filter_none(views.take(0), trash_rows());
            assert(pair_views(out@) =~= views.take(0).filter(trash_rows()).map_values(
                id_and_name(),
            ));
        }
        while i < self.notes.len()
            invariant
                i <= self.notes.len(),
                views == note_views(self.notes@),
                pair_views(out@) == views.take(i as int).filter(trash_rows()).map_values(
                    id_and_name(),
                ),
            decreases self.notes.len() - i,
        {
            proof {
                lemma_filter_step(views, i as int, trash_rows());
            }
            let ghost before = out@;
            if self.notes[i].deleted_at.is_some() {
                out.push((self.notes[i].id, self.notes[i].name.clone()));
                proof {
                    assert(pair_views(out@) =~= pair_views(before).push(
                        id_and_name()(views[i as int]),
                    ));
                    assert(views.take(i as int).filter(trash_rows()).push(
                        views[i as int],
                    ).map_values(id_and_name()) =~= pair_views(before).push(
                        id_and_name()(views[i as int]),
                    ));
                }
            }
            i += 1;
        }
        proof {
            assert(views.take(self.notes.len() as int) =~= views);
        }
        Ok(out)
    }

    /// The notes that are not in the trash, in the order of the table.
    /// This fails only without tables.
    pub fn get_all_notes(&self) -> (r: Result<Vec<Note>, StoreError>)
        requires
            self.wf(),
        ensures
            r is Ok <==> self@.ready,
            r matches Ok(v) ==> note_views(v@) == self@.live_notes(),
            r matches Err(e) ==> e == StoreError::StorageFailure,
    {
        if !self.ready {
            return Err(StoreError::StorageFailure);
        }
        let ghost views = self@.notes;
        let mut out: Vec<Note> = Vec::new();
        let mut i: usize = 0;
        proof {
            lemma_filter_none(views.take(0), live_rows());
            assert(note_views(out@) =~= views.take(0).filter(live_rows()));
        }
        while i < self.notes.len()
            invariant
                i <= self.notes.len(),
                views == note_views(self.notes@),
                note_views(out@) == views.take(i as int).filter(live_rows()),
            decreases self.notes.len() - i,
        {
            proof {
                lemma_filter_step(views, i as int, live_rows());
            }
            let ghost before = out@;
            if self.notes[i].deleted_at.is_none() {
                out.push(self.notes[i].clone());
                proof {
                    assert(note_views(out@) =~= note_views(before).push(views[i as int]));
                }
            }
            i += 1;
        }
        proof {
            assert(views.take(self.notes.len() as int) =~= views);
        }
        Ok(out)
    }

    #[verifier::rlimit(40)]
    fn purge(&mut self, only: Option<i64>)
        requires
            old(self).wf(),
        ensures
            final(self).wf(),
            final(self)@ == old(self)@.purged(
                purge_rule(
                    match only {
                        Some(id) => Some(id as int),
                        None => None,
                    },
                ),
            ),
    {
        let ghost before = self@;
        let ghost rule = purge_rule(
            match only {
                Some(id) => Some(id as int),
                None => None,
            },
        );
        let ghost views = before.notes;
        let mut notes: Vec<Note> = Vec::new();
        let mut index: Vec<IndexEntry> = Vec::new();
        let mut i: usize = 0;
        proof {
            lemma_filter_none(views.take(0), rule);
            assert(note_views(notes@) =~= views.take(0).filter(rule));
            assert(entry_views(index@) =~= note_views(notes@).map_values(
                |n: NoteView| entry_of(n),
            ));
        }
        while i < self.notes.len()
            invariant
                i <= self.notes.len(),
                views == note_views(self.notes@),
                rule == purge_rule(
                    match only {
                        Some(id) => Some(id as int),
                        None => None,
                    },
                ),
                note_views(notes@) == views.take(i as int).filter(rule),
                entry_views(index@) == note_views(notes@).map_values(|n: NoteView| entry_of(n)),
            decreases self.notes.len() - i,
        {
            proof {
                lemma_filter_step(views, i as int, rule);
            }
            let n = &self.notes[i];
            let keep = match only {
                Some(id) => n.id != id,
                None => n.deleted_at.is_none(),
            };
            assert(keep == rule(views[i as int]));
            if keep {
                let ghost old_notes = notes@;
                let ghost old_index = index@;
                let entry = IndexEntry {
                    rowid: n.id,
                    name: fold(n.name.as_str()),
                    content: match &n.content {
                        Some(c) => Some(fold(c.as_str())),
                        None => None,
                    },
                };
                proof {
                    assert(entry@ == entry_of(n@));
                }
                notes.push(n.clone());
                index.push(entry);
                proof {
                    assert(note_views(notes@) =~= note_views(old_notes).push(views[i as int]));
                    assert(entry_views(index@) =~= entry_views(old_index).push(entry@));
                    assert(entry_views(index@) =~= note_views(notes@).map_values(
                        |n: NoteView| entry_of(n),
                    ));
                }
            }
            i += 1;
        }
        proof {
            assert(views.take(self.notes.len() as int) =~= views);
        }
        let links = kept_links(&self.links, &notes);
        let diffs = kept_diffs(&self.diffs, &notes);
        self.notes = notes;
        self.index = index;
        self.links = links;
        self.diffs = diffs;
        proof {
            assert(self@ == before.purged(rule));
            lemma_purged_valid(before, rule);
        }
    }

    /// Removes the note `id` for good, and with it the edges that start or
    /// end at it and its history. Where no note has the key `id`, nothing
    /// changes. This fails only without tables.
    pub fn delete_note_hard(&mut self, id: i64) -> (r: Result<(), StoreError>)
        requires
            old(self).wf(),
        ensures
            final(self).wf(),
            r is Ok <==> old(self)@.ready,
            r is Ok ==> final(self)@ == old(self)@.hard_deleted(id as int),
            r matches Err(e) ==> e == StoreError::StorageFailure && final(self)@ == old(self)@,
    {
        if !self.ready {
            return Err(StoreError::StorageFailure);
        }
        self.purge(Some(id));
        Ok(())
    }

    /// Removes every note in the trash for good, with its edges and its
    /// history. This fails only without tables.
    pub fn empty_trash(&mut self) -> (r: Result<(), StoreError>)
        requires
            old(self).wf(),
        ensures
            final(self).wf(),
            r is Ok <==> old(self)@.ready,
            r is Ok ==> final(self)@ == old(self)@.trash_emptied(),
            r matches Err(e) ==> e == StoreError::StorageFailure && final(self)@ == old(self)@,
    {
        if !self.ready {
            return Err(StoreError::StorageFailure);
        }
        self.purge(None);
        Ok(())
    }

    /// Adds an edge of the kind `link_type` from the note `source_note_id`
    /// to the note `target_note_id`, created at `now`. This fails without
    /// tables, where one of the two notes does not exist, where the edge
    /// exists already, and when no key is left.
    #[verifier::rlimit(40)]
    pub fn add_note_link(
        &mut self,
        source_note_id: i64,
        target_note_id: i64,
        link_type: LinkType,
        now: Timestamp,
    ) -> (r: Result<(), StoreError>)
        requires
            old(self).wf(),
        ensures
            final(self).wf(),
            r is Ok <==> old(self)@.link_error(
                source_note_id as int,
                target_note_id as int,
                link_type,
            ) is None,
            r is Ok ==> final(self)@ == old(self)@.linked(
                source_note_id as int,
                target_note_id as int,
                link_type,
                now as int,
            ),
            r matches Err(e) ==> old(self)@.link_error(
                source_note_id as int,
                target_note_id as int,
                link_type,
            ) == Some(e),
            r is Err ==> final(self)@ == old(self)@,
    {
        if !self.ready {
            return Err(StoreError::StorageFailure);
        }
        if !key_exists(&self.notes, source_note_id) || !key_exists(&self.notes, target_note_id) {
            return Err(StoreError::NotFound);
        }
        if link_exists(&self.links, source_note_id, target_note_id, link_type) {
            return Err(StoreError::ConstraintViolation);
        }
        if self.last_link_id >= i64::MAX {
            return Err(StoreError::StorageFailure);
        }
        let ghost before = self@;
        let id = self.last_link_id + 1;
        let link = NoteLink {
            id,
            source_note_id,
            target_note_id,
            link_type,
            created_at: now,
            updated_at: now,
            deleted_at: None,
        };
        self.links.push(link);
        self.last_link_id = id;
        proof {
            let after = self@;
            let goal = before.linked(
                source_note_id as int,
                target_note_id as int,
                link_type,
                now as int,
            );
            assert(after.links =~= goal.links);
            assert(after == goal);
            assert forall|i: int, j: int| 0 <= i < j < after.links.len() implies {
                let a = #[trigger] after.links[i];
                let b = #[trigger] after.links[j];
                &&& a.id < b.id
                &&& !(a.source_note_id == b.source_note_id && a.target_note_id
                    == b.target_note_id && a.link_type == b.link_type)
            } by {
                if j == before.links.len() {
                    assert(after.links[i] == before.links[i]);
                    assert(1 <= before.links[i].id <= before.last_link_id);
                }
            }
            assert(after.valid());
        }
        Ok(())
    }

    /// Records the change-set `diff`, made at `now`, as the next version
    /// of the note `note_id`: one more than its highest version so far, or
    /// 1 where it has none. This fails without tables, where the note does
    /// not exist, and when no key or no version number is left.
    #[verifier::rlimit(40)]
    pub fn insert_note_diff(&mut self, note_id: i64, diff: &str, now: Timestamp) -> (r: Result<
        (),
        StoreError,
    >)
        requires
            old(self).wf(),
        ensures
            final(self).wf(),
            r is Ok <==> old(self)@.record_error(note_id as int) is None,
            r is Ok ==> final(self)@ == old(self)@.recorded(note_id as int, diff@, now as int),
            r matches Err(e) ==> old(self)@.record_error(note_id as int) == Some(e),
            r is Err ==> final(self)@ == old(self)@,
    {
        if !self.ready {
            return Err(StoreError::StorageFailure);
        }
        if !key_exists(&self.notes, note_id) {
            return Err(StoreError::NotFound);
        }
        let latest = self.select_latest_note_diff_version(note_id);
        if self.last_diff_id >= i64::MAX || latest >= i64::MAX {
            return Err(StoreError::StorageFailure);
        }
        let ghost before = self@;
        let id = self.last_diff_id + 1;
        let row = NoteDiff {
            id,
            note_id,
            version: latest + 1,
            diff: diff.to_owned(),
            changed_at: now,
        };
        self.diffs.push(row);
        self.last_diff_id = id;
        proof {
            let after = self@;
            let goal = before.recorded(note_id as int, diff@, now as int);
            assert(after.diffs =~= goal.diffs);
            assert(after == goal);
            assert(after.diffs.drop_last() =~= before.diffs);
            assert forall|i: int, j: int| 0 <= i < j < after.diffs.len() implies (
            #[trigger] after.diffs[i]).id < (#[trigger] after.diffs[j]).id by {
                if j == before.diffs.len() {
                    assert(after.diffs[i] == before.diffs[i]);
                    assert(1 <= before.diffs[i].id <= before.last_diff_id);
                }
            }
            assert forall|n: int| counts_up(#[trigger] versions_of(after.diffs, n)) by {
                assert(counts_up(versions_of(before.diffs, n)));
                if n == note_id {
                    lemma_latest_is_count(before.diffs, n);
                }
            }
            assert(after.valid());
        }
        Ok(())
    }

    fn select_latest_note_diff_version(&self, note_id: i64) -> (r: i64)
        requires
            self.wf(),
        ensures
            r as int == latest_version(self@.diffs, note_id as int),
            0 <= r,
    {
        let ghost rows = self@.diffs;
        let mut latest: i64 = 0;
        let mut i: usize = 0;
        while i < self.diffs.len()
            invariant
                i <= self.diffs.len(),
                rows == history_views(self.diffs@),
                0 <= latest,
                latest as int == latest_version(rows.take(i as int), note_id as int),
            decreases self.diffs.len() - i,
        {
            proof {
                assert(rows.take(i + 1).drop_last() =~= rows.take(i as int));
                assert(rows.take(i + 1).last() == rows[i as int]);
            }
            let d = &self.diffs[i];
            if d.note_id == note_id && d.version > latest {
                latest = d.version;
            }
            i += 1;
        }
        proof {
            assert(rows.take(self.diffs.len() as int) =~= rows);
        }
        latest
    }

    /// The history of the note `note_id` in the order of its versions,
    /// each row without its change-set. This fails only without tables.
    pub fn select_note_diff_ls(&self, note_id: i64) -> (r: Result<Vec<NoteDiff>, StoreError>)
        requires
            self.wf(),
        ensures
            r is Ok <==> self@.ready,
            r matches Ok(v) ==> history_views(v@) == self@.history(note_id as int),
            r matches Err(e) ==> e == StoreError::StorageFailure,
    {
        if !self.ready {
            return Err(StoreError::StorageFailure);
        }
        let ghost rows = self@.diffs;
        let ghost rule = history_of(note_id as int);
        let mut out: Vec<NoteDiff> = Vec::new();
        let mut i: usize = 0;
        proof {
            lemma_filter_none(rows.take(0), rule);
            assert(history_views(out@) =~= rows.take(0).filter(rule).map_values(
                without_payload(),
            ));
        }
        while i < self.diffs.len()
            invariant
                i <= self.diffs.len(),
                rows == history_views(self.diffs@),
                rule == history_of(note_id as int),
                history_views(out@) == rows.take(i as int).filter(rule).map_values(
                    without_payload(),
                ),
            decreases self.diffs.len() - i,
        {
            proof {
                lemma_filter_step(rows, i as int, rule);
            }
            let d = &self.diffs[i];
            if d.note_id == note_id {
                let ghost before = out@;
                let row = NoteDiff {
                    id: d.id,
                    note_id: d.note_id,
                    version: d.version,
                    diff: String::new(),
                    changed_at: d.changed_at,
                };
                proof {
                    assert(row@.diff =~= Seq::<char>::empty());
                    assert(row@ == without_payload()(rows[i as int]));
                }
                out.push(row);
                proof {
                    assert(history_views(out@) =~= history_views(before).push(
                        without_payload()(rows[i as int]),
                    ));
                    assert(rows.take(i as int).filter(rule).push(rows[i as int]).map_values(
                        without_payload(),
                    ) =~= history_views(before).push(without_payload()(rows[i as int])));
                }
            }
            i += 1;
        }
        proof {
            assert(rows.take(self.diffs.len() as int) =~= rows);
        }
        Ok(out)
    }

    /// The history row `id`, with its change-set. This fails without
    /// tables and where the row does not exist.
    pub fn select_note_diff(&self, id: i64) -> (r: Result<NoteDiff, StoreError>)
        requires
            self.wf(),
        ensures
            r is Ok <==> self@.diff_error(id as int) is None,
            r matches Ok(d) ==> d@ == self@.diff(id as int),
            r matches Err(e) ==> self@.diff_error(id as int) == Some(e),
    {
        if !self.ready {
            return Err(StoreError::StorageFailure);
        }
        let ghost rows = self@.diffs;
        let mut i: usize = 0;
        while i < self.diffs.len() && self.diffs[i].id != id
            invariant
                i <= self.diffs.len(),
                forall|j: int| 0 <= j < i ==> self.diffs@[j].id != id,
            decreases self.diffs.len() - i,
        {
            i += 1;
        }
        proof {
            assert forall|j: int| 0 <= j < i implies (#[trigger] rows[j]).id != id by {
                assert(rows[j] == self.diffs@[j]@);
            }
            lemma_diff_position(rows, id as int, i as int);
            if i < self.diffs.len() {
                assert(rows[i as int].id == id);
            }
        }
        if i >= self.diffs.len() {
            return Err(StoreError::NotFound);
        }
        Ok(self.diffs[i].clone())
    }

    /// The tree of the notes that are not in the trash. This fails only
    /// without tables.
    #[verifier::rlimit(40)]
    pub fn get_notes(&self) -> (r: Result<Vec<NoteIdName>, StoreError>)
        requires
            self.wf(),
        ensures
            r is Ok <==> self@.ready,
            r matches Ok(v) ==> tree_views(v@) == self@.tree(),
            r matches Err(e) ==> e == StoreError::StorageFailure,
    {
        if !self.ready {
            return Err(StoreError::StorageFailure);
        }
        let ghost views = self@.notes;
        let mut sorted: Vec<NoteIdName> = Vec::new();
        let mut times: Vec<Timestamp> = Vec::new();
        let mut i: usize = 0;
        proof {
            assert(tree_views(sorted@) =~= ranked(views.take(0)).map_values(leaf()));
        }
        while i < self.notes.len()
            invariant
                i <= self.notes.len(),
                views == note_views(self.notes@),
                tree_views(sorted@) == ranked(views.take(i as int)).map_values(leaf()),
                times@.len() == ranked(views.take(i as int)).len(),
                sorted@.len() == times@.len(),
                forall|j: int|
                    0 <= j < times@.len() ==> #[trigger] times@[j] == ranked(
                        views.take(i as int),
                    )[j].updated_at,
            decreases self.notes.len() - i,
        {
            let ghost done = ranked(views.take(i as int));
            proof {
                assert(views.take(i + 1).drop_last() =~= views.take(i as int));
                assert(views.take(i + 1).last() == views[i as int]);
            }
            let n = &self.notes[i];
            if n.deleted_at.is_none() {
                let p = rank(&times, n.updated_at);
                proof {
                    assert forall|j: int| 0 <= j < p implies (#[trigger] done[j]).updated_at
                        >= n.updated_at by {
                        assert(times@[j] == done[j].updated_at);
                    }
                    if p < times.len() {
                        assert(times@[p as int] == done[p as int].updated_at);
                    }
                    lemma_rank_position(done, n.updated_at as int, p as int);
                }
                let ghost old_sorted = sorted@;
                let item = NoteIdName {
                    id: n.id,
                    name: n.name.clone(),
                    children: Vec::new(),
                    has_parent: false,
                };
                proof {
                    assert(item@.children =~= Seq::<NoteTree>::empty());
                    assert(item@ == leaf()(views[i as int]));
                }
                sorted.insert(p, item);
                times.insert(p, n.updated_at);
                proof {
                    assert(tree_views(sorted@) =~= tree_views(old_sorted).insert(p as int, item@));
                    assert(done.insert(p as int, views[i as int]).map_values(leaf())
                        =~= tree_views(old_sorted).insert(p as int, item@));
                }
            }
            i += 1;
        }
        proof {
            assert(views.take(self.notes.len() as int) =~= views);
        }
        let ghost rows = self@.links;
        let mut edges: Vec<NoteLinkIds> = Vec::new();
        let mut k: usize = 0;
        proof {
            lemma_filter_none(rows.take(0), parent_edges());
            assert(edge_views(edges@) =~= rows.take(0).filter(parent_edges()).map_values(ends()));
        }
        while k < self.links.len()
            invariant
                k <= self.links.len(),
                rows == link_views(self.links@),
                edge_views(edges@) == rows.take(k as int).filter(parent_edges()).map_values(
                    ends(),
                ),
            decreases self.links.len() - k,
        {
            proof {
                lemma_filter_step(rows, k as int, parent_edges());
            }
            let l = &self.links[k];
            if same_kind(l.link_type, LinkType::Parent) {
                let ghost before = edges@;
                edges.push(
                    NoteLinkIds {
                        source_note_id: l.source_note_id,
                        target_note_id: l.target_note_id,
                    },
                );
                proof {
                    assert(edge_views(edges@) =~= edge_views(before).push(ends()(rows[k as int])));
                    assert(rows.take(k as int).filter(parent_edges()).push(
                        rows[k as int],
                    ).map_values(ends()) =~= edge_views(before).push(ends()(rows[k as int])));
                }
            }
            k += 1;
        }
        proof {
            assert(rows.take(self.links.len() as int) =~= rows);
        }
        Ok(build_forest(sorted, &edges))
    }

    /// The live notes that match `query`: first those whose name matches,
    /// then those of which only the content matches, both in the order of
    /// the table. A text matches where the query stands somewhere in it,
    /// capitals aside. Each note comes with its key, its name and its
    /// content, and without its times. This fails only without tables.
    ///
    /// The query is plain text. It is not read in the query language of a
    /// full-text engine: it has no operators, no phrases in quotes, no
    /// prefixes and no column filters, and a blank in it is a blank to be
    /// found. The order is the one given above, not a score of relevance.
    /// Where a full-text engine holds the index, its hits go through
    /// [`Database::search_ranked`].
    pub fn search(&self, query: &str) -> (r: Result<Vec<Note>, StoreError>)
        requires
            self.wf(),
        ensures
            r is Ok <==> self@.ready,
            r matches Ok(v) ==> note_views(v@) == self@.search(query@),
            r matches Err(e) ==> e == StoreError::StorageFailure,
    {
        if !self.ready {
            return Err(StoreError::StorageFailure);
        }
        let needle = fold(query);
        let mut out: Vec<Note> = Vec::new();
        self.collect_hits(&needle, true, &mut out, Ghost(query@));
        let ghost first = note_views(out@);
        self.collect_hits(&needle, false, &mut out, Ghost(query@));
        proof {
            assert(note_views(out@) =~= first + self@.notes.filter(
                content_hits(query@),
            ).map_values(summary()));
        }
        Ok(out)
    }

    #[verifier::rlimit(40)]
    /// The notes that the hits `hits` of a full-text engine name: for each
    /// key, in the order of the hits, which is the engine's order of
    /// relevance, the note with that key, if it is there and not in the
    /// trash. Each note comes with its key, its name and its content, and
    /// without its times. This fails only without tables.
    pub fn search_ranked(&self, hits: &Vec<i64>) -> (r: Result<Vec<Note>, StoreError>)
        requires
            self.wf(),
        ensures
            r is Ok <==> self@.ready,
            r matches Ok(v) ==> note_views(v@) == self@.ranked_hits(key_views(hits@)),
            r matches Err(e) ==> e == StoreError::StorageFailure,
    {
        if !self.ready {
            return Err(StoreError::StorageFailure);
        }
        let ghost keys = key_views(hits@);
        let mut out: Vec<Note> = Vec::new();
        let mut k: usize = 0;
        proof {
            assert(note_views(out@) =~= self@.ranked_hits(keys.take(0)));
        }
        while k < hits.len()
            invariant
                k <= hits.len(),
                keys == key_views(hits@),
                note_views(out@) == self@.ranked_hits(keys.take(k as int)),
            decreases hits.len() - k,
        {
            proof {
                assert(keys.take(k + 1).drop_last() =~= keys.take(k as int));
                assert(keys.take(k + 1).last() == hits@[k as int] as int);
            }
            let i = self.find_note(hits[k]);
            if i < self.notes.len() && self.notes[i].deleted_at.is_none() {
                let n = &self.notes[i];
                let ghost before = out@;
                let found = Note {
                    id: n.id,
                    name: n.name.clone(),
                    content: match &n.content {
                        Some(c) => Some(c.clone()),
                        None => None,
                    },
                    created_at: 0,
                    updated_at: 0,
                    deleted_at: None,
                };
                proof {
                    assert(found@ == summary()(self@.note(hits@[k as int] as int)));
                }
                out.push(found);
                proof {
                    assert(note_views(out@) =~= note_views(before).push(found@));
                }
            }
            k += 1;
        }
        proof {
            assert(keys.take(hits.len() as int) =~= keys);
        }
        Ok(out)
    }

    fn collect_hits(
        &self,
        needle: &Vec<char>,
        by_name: bool,
        out: &mut Vec<Note>,
        Ghost(query): Ghost<Seq<char>>,
    )
        requires
            self.wf(),
            needle@ == folded(query),
        ensures
            note_views(final(out)@) == note_views(old(out)@) + self@.notes.filter(
                if by_name {
                    name_hits(query)
                } else {
                    content_hits(query)
                },
            ).map_values(summary()),
    {
        let ghost views = self@.notes;
        let ghost rule = if by_name {
            name_hits(query)
        } else {
            content_hits(query)
        };
        let ghost start = note_views(out@);
        let mut i: usize = 0;
        proof {
            self.lemma_shape();
            lemma_filter_none(views.take(0), rule);
            assert(note_views(out@) =~= start + views.take(0).filter(rule).map_values(summary()));
        }
        while i < self.notes.len()
            invariant
                i <= self.notes.len(),
                self.index@.len() == self.notes@.len(),
                views == note_views(self.notes@),
                forall|j: int|
                    0 <= j < self.notes@.len() ==> (#[trigger] entry_views(self.index@)[j])
                        == entry_of(views[j]),
                needle@ == folded(query),
                rule == if by_name {
                    name_hits(query)
                } else {
                    content_hits(query)
                },
                note_views(out@) == start + views.take(i as int).filter(rule).map_values(
                    summary(),
                ),
            decreases self.notes.len() - i,
        {
            proof {
                lemma_filter_step(views, i as int, rule);
                assert(entry_views(self.index@)[i as int] == entry_of(views[i as int]));
                assert(entry_views(self.index@)[i as int] == self.index@[i as int]@);
            }
            let n = &self.notes[i];
            let e = &self.index[i];
            let in_name = contains(&e.name, needle);
            let in_content = match &e.content {
                Some(c) => contains(c, needle),
                None => false,
            };
            let hit = n.deleted_at.is_none() && if by_name {
                in_name
            } else {
                !in_name && in_content
            };
            assert(hit == rule(views[i as int]));
            if hit {
                let ghost before = out@;
                let found = Note {
                    id: n.id,
                    name: n.name.clone(),
                    content: match &n.content {
                        Some(c) => Some(c.clone()),
                        None => None,
                    },
                    created_at: 0,
                    updated_at: 0,
                    deleted_at: None,
                };
                proof {
                    assert(found@ == summary()(views[i as int]));
                }
                out.push(found);
                proof {
                    assert(note_views(out@) =~= note_views(before).push(found@));
                    assert(start + views.take(i as int).filter(rule).push(
                        views[i as int],
                    ).map_values(summary()) =~= note_views(before).push(found@));
                }
            }
            i += 1;
        }
        proof {
            assert(views.take(self.notes.len() as int) =~= views);
        }
    }

    /// Compares the content `before` of the note `note_id` with its
    /// content `after` and records the change-set, made at `now`, as the
    /// next version of the note. This fails exactly where
    /// [`Database::insert_note_diff`] does.
    pub fn record_change(&mut self, note_id: i64, before: &str, after: &str, now: Timestamp) -> (r:
        Result<(), StoreError>)
        requires
            old(self).wf(),
        ensures
            final(self).wf(),
            r is Ok <==> old(self)@.record_error(note_id as int) is None,
            r is Ok ==> final(self)@ == old(self)@.recorded(
                note_id as int,
                diff_json(script(line_changes(terminated(before@), terminated(after@)), 0)),
                now as int,
            ),
            r matches Err(e) ==> old(self)@.record_error(note_id as int) == Some(e),
            r is Err ==> final(self)@ == old(self)@,
    {
        if !self.ready {
            return Err(StoreError::StorageFailure);
        }
        if !key_exists(&self.notes, note_id) {
            return Err(StoreError::NotFound);
        }
        let latest = self.select_latest_note_diff_version(note_id);
        if self.last_diff_id >= i64::MAX || latest >= i64::MAX {
            return Err(StoreError::StorageFailure);
        }
        let json = match serialize(create_diff(before, after)) {
            Ok(j) => j,
            Err(e) => {
                return Err(e);
            },
        };
        self.insert_note_diff(note_id, json.as_str(), now)
    }

    /// A copy of the archive.
    #[verifier::rlimit(40)]
    pub fn snapshot(&self) -> (r: Database)
        requires
            self.wf(),
        ensures
            r.wf(),
            r@ == self@,
    {
        let mut notes: Vec<Note> = Vec::new();
        let mut index: Vec<IndexEntry> = Vec::new();
        let mut i: usize = 0;
        proof {
            self.lemma_shape();
        }
        while i < self.notes.len()
            invariant
                i <= self.notes.len(),
                self.index@.len() == self.notes@.len(),
                notes@ == self.notes@.take(i as int),
                entry_views(index@) == entry_views(self.index@).take(i as int),
            decreases self.notes.len() - i,
        {
            notes.push(self.notes[i].clone());
            let e = &self.index[i];
            let copy = IndexEntry {
                rowid: e.rowid,
                name: copy_chars(&e.name),
                content: match &e.content {
                    Some(c) => Some(copy_chars(c)),
                    None => None,
                },
            };
            proof {
                assert(copy@ == e@);
            }
            let ghost before = index@;
            index.push(copy);
            proof {
                assert(notes@ =~= self.notes@.take(i + 1));
                assert(entry_views(index@) =~= entry_views(before).push(copy@));
                assert(entry_views(index@) =~= entry_views(self.index@).take(i + 1));
            }
            i += 1;
        }
        let mut links: Vec<NoteLink> = Vec::new();
        let mut k: usize = 0;
        while k < self.links.len()
            invariant
                k <= self.links.len(),
                links@ == self.links@.take(k as int),
            decreases self.links.len() - k,
        {
            links.push(self.links[k]);
            proof {
                assert(links@ =~= self.links@.take(k + 1));
            }
            k += 1;
        }
        let mut diffs: Vec<NoteDiff> = Vec::new();
        let mut m: usize = 0;
        while m < self.diffs.len()
            invariant
                m <= self.diffs.len(),
                diffs@ == self.diffs@.take(m as int),
            decreases self.diffs.len() - m,
        {
            diffs.push(self.diffs[m].clone());
            proof {
                assert(diffs@ =~= self.diffs@.take(m + 1));
            }
            m += 1;
        }
        proof {
            assert(self.notes@.take(self.notes.len() as int) =~= self.notes@);
            assert(entry_views(self.index@).take(self.notes.len() as int) =~= entry_views(
                self.index@,
            ));
            assert(self.links@.take(self.links.len() as int) =~= self.links@);
            assert(self.diffs@.take(self.diffs.len() as int) =~= self.diffs@);
        }
        Database {
            ready: self.ready,
            notes,
            links,
            diffs,
            index,
            last_note_id: self.last_note_id,
            last_link_id: self.last_link_id,
            last_diff_id: self.last_diff_id,
            pragmas: self.pragmas,
        }
    }

    /// Runs `work` on the archive as one unit: where `work` succeeds, the
    /// archive is what `work` made of it; where `work` fails, the archive
    /// is what it was before, whatever `work` had done by then.
    pub fn with_transaction<T, F: FnOnce(Database) -> (Database, Result<T, StoreError>)>(
        &mut self,
        work: F,
    ) -> (r: Result<T, StoreError>)
        requires
            old(self).wf(),
            work.requires((*old(self),)),
            forall|out: (Database, Result<T, StoreError>)|
                work.ensures((*old(self),), out) ==> out.0.wf(),
        ensures
            final(self).wf(),
            r is Ok ==> work.ensures((*old(self),), (*final(self), r)),
            r is Err ==> final(self)@ == old(self)@ && exists|d: Database| #[trigger]
                work.ensures((*old(self),), (d, r)),
    {
        let mut current = self.snapshot();
        core::mem::swap(self, &mut current);
        let (next, outcome) = work(current);
        match outcome {
            Ok(t) => {
                *self = next;
                Ok(t)
            },
            Err(e) => Err(e),
        }
    }
}

/// The keys of a list of hits, in order.
pub open spec fn key_views(hits: Seq<i64>) -> Seq<int> {
    hits.map_values(|h: i64| h as int)
}

/// The views of a list of keys and names, in order.
pub open spec fn pair_views(v: Seq<(i64, String)>) -> Seq<(int, Seq<char>)> {
    v.map_values(|p: (i64, String)| (p.0 as int, p.1@))
}

/// `diff_position` is the least index that holds the key.
pub proof fn lemma_diff_position(diffs: Seq<NoteDiffView>, id: int, i: int)
    requires
        0 <= i <= diffs.len(),
        forall|j: int| 0 <= j < i ==> (#[trigger] diffs[j]).id != id,
        i < diffs.len() ==> diffs[i].id == id,
    ensures
        diff_position(diffs, id) == i,
    decreases diffs.len(),
{
    if diffs.len() == 0 || diffs[0].id == id {
    } else {
        let rest = diffs.drop_first();
        assert forall|j: int| 0 <= j < i - 1 implies (#[trigger] rest[j]).id != id by {
            assert(rest[j] == diffs[j + 1]);
        }
        lemma_diff_position(rest, id, i - 1);
    }
}

/// `rank_position` is the least index whose note was updated before `t`.
pub proof fn lemma_rank_position(sorted: Seq<NoteView>, t: int, p: int)
    requires
        0 <= p <= sorted.len(),
        forall|j: int| 0 <= j < p ==> (#[trigger] sorted[j]).updated_at >= t,
        p < sorted.len() ==> sorted[p].updated_at < t,
    ensures
        rank_position(sorted, t) == p,
    decreases sorted.len(),
{
    if sorted.len() == 0 || sorted[0].updated_at < t {
    } else {
        let rest = sorted.drop_first();
        assert forall|j: int| 0 <= j < p - 1 implies (#[trigger] rest[j]).updated_at >= t by {
            assert(rest[j] == sorted[j + 1]);
        }
        lemma_rank_position(rest, t, p - 1);
    }
}

fn rank(times: &Vec<Timestamp>, t: Timestamp) -> (p: usize)
    ensures
        p <= times.len(),
        forall|j: int| 0 <= j < p ==> times@[j] >= t,
        p < times.len() ==> times@[p as int] < t,
{
    let mut p: usize = 0;
    while p < times.len() && times[p] >= t
        invariant
            p <= times.len(),
            forall|j: int| 0 <= j < p ==> times@[j] >= t,
        decreases times.len() - p,
    {
        p += 1;
    }
    p
}

fn copy_chars(v: &Vec<char>) -> (r: Vec<char>)
    ensures
        r@ == v@,
{
    let mut out: Vec<char> = Vec::new();
    let mut i: usize = 0;
    while i < v.len()
        invariant
            i <= v.len(),
            out@ == v@.take(i as int),
        decreases v.len() - i,
    {
        out.push(v[i]);
        proof {
            assert(out@ =~= v@.take(i + 1));
        }
        i += 1;
    }
    proof {
        assert(v@.take(v.len() as int) =~= v@);
    }
    out
}

fn trash_marked(notes: &mut Vec<Note>, links: &Vec<NoteLink>, id: i64, now: Timestamp)
    ensures
        final(notes)@.len() == old(notes)@.len(),
        forall|j: int|
            0 <= j < old(notes)@.len() ==> (#[trigger] final(notes)@[j])@ == if old(notes)@[j].id
                == id || has_link(
                link_views(links@),
                id as int,
                old(notes)@[j].id as int,
                LinkType::Parent,
            ) {
                trashed(old(notes)@[j]@, now as int)
            } else {
                old(notes)@[j]@
            },
{
    let mut i: usize = 0;
    while i < notes.len()
        invariant
            i <= notes.len(),
            notes@.len() == old(notes)@.len(),
            forall|j: int| i <= j < notes@.len() ==> notes@[j] == old(notes)@[j],
            forall|j: int|
                0 <= j < i ==> (#[trigger] notes@[j])@ == if old(notes)@[j].id == id || has_link(
                    link_views(links@),
                    id as int,
                    old(notes)@[j].id as int,
                    LinkType::Parent,
                ) {
                    trashed(old(notes)@[j]@, now as int)
                } else {
                    old(notes)@[j]@
                },
        decreases notes.len() - i,
    {
        let key = notes[i].id;
        if key == id || link_exists(links, id, key, LinkType::Parent) {
            let t = later(now, notes[i].updated_at);
            notes[i].deleted_at = Some(t);
        }
        i += 1;
    }
}

fn later(now: Timestamp, floor: Timestamp) -> (r: Timestamp)
    ensures
        r as int == stamp(now as int, floor as int),
{
    if now >= floor {
        now
    } else {
        floor
    }
}

/// An archive whose notes change row by row, each keeping its key and the
/// rules for a row, keeps the rules of the data model.
pub proof fn lemma_rows_updated(before: Archive, notes: Seq<NoteView>)
    requires
        before.valid(),
        notes.len() == before.notes.len(),
        forall|i: int|
            0 <= i < notes.len() ==> (#[trigger] notes[i]).id == before.notes[i].id && row_ok(
                notes[i],
            ),
    ensures
        (Archive { notes, ..before }).valid(),
{
    let after = Archive { notes, ..before };
    assert forall|i: int| 0 <= i < before.notes.len() implies (#[trigger] before.notes[i]).id
        == notes[i].id by {
        assert(notes[i].id == before.notes[i].id);
    }
    lemma_same_keys(before.notes, notes);
    assert forall|i: int, j: int| 0 <= i < j < notes.len() implies (#[trigger] notes[i]).id < (
    #[trigger] notes[j]).id by {
        assert(before.notes[i].id < before.notes[j].id);
    }
    assert forall|i: int| 0 <= i < notes.len() implies 1 <= (#[trigger] notes[i]).id
        <= after.last_note_id by {
        assert(1 <= before.notes[i].id <= before.last_note_id);
    }
}

} // verus!
