//! The tables of the archive as mathematical values, and what each
//! operation makes of them.
//!
//! An [`Archive`] holds the rows of the three tables in the order in
//! which they were inserted, the last key that each table handed out, and
//! the settings of the connection. The operations are functions from one
//! archive to the next; [`crate::database::Database`] carries them out.

use vstd::prelude::*;
use crate::forest::forest;
use crate::models::{LinkType, NoteDiffView, NoteLinkView, NoteTree, NoteView, StoreError};
use crate::search::text_matches;

verus! {

/// How the storage engine keeps its journal.
#[derive(Debug, Clone, Copy, PartialEq, Eq, Structural)]
pub enum JournalMode {
    Delete,
    Wal,
}

/// How often the storage engine waits for the disk.
#[derive(Debug, Clone, Copy, PartialEq, Eq, Structural)]
pub enum Synchronous {
    Normal,
    Full,
}

/// Where the storage engine keeps temporary tables.
#[derive(Debug, Clone, Copy, PartialEq, Eq, Structural)]
pub enum TempStore {
    Default,
    Memory,
}

/// The settings of a connection. The program that keeps the archive in a
/// file applies them to its storage engine.
#[derive(Debug, Clone, Copy, PartialEq, Eq, Structural)]
pub struct Pragmas {
    pub journal_mode: JournalMode,
    pub synchronous: Synchronous,
    pub cache_size: i64,
    pub temp_store: TempStore,
    pub case_sensitive_like: bool,
    pub foreign_keys: bool,
}

/// The settings of a connection that nobody has configured.
pub open spec fn engine_defaults() -> Pragmas {
    Pragmas {
        journal_mode: JournalMode::Delete,
        synchronous: Synchronous::Full,
        cache_size: -2000i64,
        temp_store: TempStore::Default,
        case_sensitive_like: false,
        foreign_keys: false,
    }
}

/// The settings that the archive asks for: a write-ahead log that
/// survives a crash of the process, without a wait for the disk at every
/// commit, and with the edges and the history bound to their notes.
pub open spec fn durable_settings() -> Pragmas {
    Pragmas {
        journal_mode: JournalMode::Wal,
        synchronous: Synchronous::Normal,
        cache_size: 10000i64,
        temp_store: TempStore::Memory,
        case_sensitive_like: false,
        foreign_keys: true,
    }
}

/// The name of the note that a new archive starts with.
pub open spec fn starter_name() -> Seq<char> {
    "README"@
}

/// The content of the note that a new archive starts with.
pub open spec fn starter_content() -> Seq<char> {
    "# Welcome to nisabo"@
}

/// The later of the time `now` and the time `floor`: no stamp goes back
/// behind one that the row has already.
pub open spec fn stamp(now: int, floor: int) -> int {
    if now >= floor {
        now
    } else {
        floor
    }
}

/// Whether a row of `notes` has the key `id`.
pub open spec fn has_note(notes: Seq<NoteView>, id: int) -> bool {
    exists|i: int| 0 <= i < notes.len() && #[trigger] notes[i].id == id
}

/// The first position in `notes` of a row with the key `id`, or the
/// length of `notes` where no row has it.
pub open spec fn note_position(notes: Seq<NoteView>, id: int) -> int
    decreases notes.len(),
{
    if notes.len() == 0 || notes[0].id == id {
        0
    } else {
        1 + note_position(notes.drop_first(), id)
    }
}

/// The first position in `diffs` of a row with the key `id`, or the
/// length of `diffs` where no row has it.
pub open spec fn diff_position(diffs: Seq<NoteDiffView>, id: int) -> int
    decreases diffs.len(),
{
    if diffs.len() == 0 || diffs[0].id == id {
        0
    } else {
        1 + diff_position(diffs.drop_first(), id)
    }
}

/// Whether `links` holds an edge of the kind `kind` from `source` to
/// `target`.
pub open spec fn has_link(
    links: Seq<NoteLinkView>,
    source: int,
    target: int,
    kind: LinkType,
) -> bool {
    exists|k: int|
        0 <= k < links.len() && (#[trigger] links[k]).source_note_id == source
            && links[k].target_note_id == target && links[k].link_type == kind
}

/// The versions of the note `note_id` in `diffs`, in the order in which
/// they were recorded.
pub open spec fn versions_of(diffs: Seq<NoteDiffView>, note_id: int) -> Seq<int>
    decreases diffs.len(),
{
    if diffs.len() == 0 {
        Seq::empty()
    } else {
        let before = versions_of(diffs.drop_last(), note_id);
        if diffs.last().note_id == note_id {
            before.push(diffs.last().version)
        } else {
            before
        }
    }
}

/// The highest version of the note `note_id` in `diffs`, or 0 where it
/// has none.
pub open spec fn latest_version(diffs: Seq<NoteDiffView>, note_id: int) -> int
    decreases diffs.len(),
{
    if diffs.len() == 0 {
        0
    } else {
        let before = latest_version(diffs.drop_last(), note_id);
        if diffs.last().note_id == note_id && diffs.last().version > before {
            diffs.last().version
        } else {
            before
        }
    }
}

/// Whether `s` counts up from 1: 1, 2, 3, and so on.
pub open spec fn counts_up(s: Seq<int>) -> bool {
    forall|k: int| 0 <= k < s.len() ==> #[trigger] s[k] == k + 1
}

/// The notes other than the note `id`.
pub open spec fn other_than(id: int) -> spec_fn(NoteView) -> bool {
    |n: NoteView| n.id != id
}

/// The notes that are not in the trash.
pub open spec fn live_rows() -> spec_fn(NoteView) -> bool {
    |n: NoteView| n.live()
}

/// The notes that are in the trash.
pub open spec fn trash_rows() -> spec_fn(NoteView) -> bool {
    |n: NoteView| !n.live()
}

/// The edges that join two notes of `notes`.
pub open spec fn joins(notes: Seq<NoteView>) -> spec_fn(NoteLinkView) -> bool {
    |l: NoteLinkView| has_note(notes, l.source_note_id) && has_note(notes, l.target_note_id)
}

/// The history rows of the notes of `notes`.
pub open spec fn belongs(notes: Seq<NoteView>) -> spec_fn(NoteDiffView) -> bool {
    |d: NoteDiffView| has_note(notes, d.note_id)
}

/// The history rows of the note `note_id`.
pub open spec fn history_of(note_id: int) -> spec_fn(NoteDiffView) -> bool {
    |d: NoteDiffView| d.note_id == note_id
}

/// The place of a note that was last updated at `t` in the list `sorted`
/// of notes, latest update first: behind every note that was updated at `t`
/// or later.
pub open spec fn rank_position(sorted: Seq<NoteView>, t: int) -> int
    decreases sorted.len(),
{
    if sorted.len() == 0 || sorted[0].updated_at < t {
        0
    } else {
        1 + rank_position(sorted.drop_first(), t)
    }
}

/// The notes of `notes` that are not in the trash, latest update first;
/// of two notes that were updated at the same time the one that stands
/// first in the table comes first.
pub open spec fn ranked(notes: Seq<NoteView>) -> Seq<NoteView>
    decreases notes.len(),
{
    if notes.len() == 0 {
        Seq::empty()
    } else {
        let before = ranked(notes.drop_last());
        if notes.last().live() {
            before.insert(rank_position(before, notes.last().updated_at), notes.last())
        } else {
            before
        }
    }
}

/// A note as a tree of its own: nothing is filed under it, and it is
/// filed under nothing.
pub open spec fn leaf() -> spec_fn(NoteView) -> NoteTree {
    |n: NoteView| NoteTree { id: n.id, name: n.name, children: Seq::empty(), has_parent: false }
}

/// The edges that file one note under another.
pub open spec fn parent_edges() -> spec_fn(NoteLinkView) -> bool {
    |l: NoteLinkView| l.link_type == LinkType::Parent
}

/// The source and the target of an edge.
pub open spec fn ends() -> spec_fn(NoteLinkView) -> (int, int) {
    |l: NoteLinkView| (l.source_note_id, l.target_note_id)
}

/// The live notes whose name matches `query`.
pub open spec fn name_hits(query: Seq<char>) -> spec_fn(NoteView) -> bool {
    |n: NoteView| n.live() && text_matches(n.name, query)
}

/// The live notes whose content matches `query`, and whose name does not.
pub open spec fn content_hits(query: Seq<char>) -> spec_fn(NoteView) -> bool {
    |n: NoteView|
        n.live() && !text_matches(n.name, query) && (n.content matches Some(c) && text_matches(
            c,
            query,
        ))
}

/// A note as a search gives it: its key, its name and its content, and
/// no times.
pub open spec fn summary() -> spec_fn(NoteView) -> NoteView {
    |n: NoteView| NoteView { created_at: 0, updated_at: 0, deleted_at: None, ..n }
}

/// A history row without its change-set.
pub open spec fn without_payload() -> spec_fn(NoteDiffView) -> NoteDiffView {
    |d: NoteDiffView| NoteDiffView { diff: Seq::empty(), ..d }
}

/// Whether a row of `diffs` has the key `id`.
pub open spec fn has_diff(diffs: Seq<NoteDiffView>, id: int) -> bool {
    exists|i: int| 0 <= i < diffs.len() && #[trigger] diffs[i].id == id
}

/// What is kept when the note `only` is removed for good, or, where
/// `only` names no note, when the trash is emptied.
pub open spec fn purge_rule(only: Option<int>) -> spec_fn(NoteView) -> bool {
    match only {
        Some(id) => other_than(id),
        None => live_rows(),
    }
}

/// The key and the name of a note.
pub open spec fn id_and_name() -> spec_fn(NoteView) -> (int, Seq<char>) {
    |n: NoteView| (n.id, n.name)
}

/// The note `n` in the trash since `now`, or since its last update if
/// that was later.
pub open spec fn trashed(n: NoteView, now: int) -> NoteView {
    NoteView { deleted_at: Some(stamp(now, n.updated_at)), ..n }
}

/// The note `n` out of the trash.
pub open spec fn restored(n: NoteView) -> NoteView {
    NoteView { deleted_at: None, ..n }
}

/// The rows of the three tables, the last key that each table handed out
/// and the settings of the connection.
pub struct Archive {
    /// Whether the tables exist.
    pub ready: bool,
    pub notes: Seq<NoteView>,
    pub links: Seq<NoteLinkView>,
    pub diffs: Seq<NoteDiffView>,
    pub last_note_id: int,
    pub last_link_id: int,
    pub last_diff_id: int,
    pub pragmas: Pragmas,
}

/// Whether the row `n` keeps the rules for a row of its own: it has a
/// name, it was not updated before it was created, and it was not put in
/// the trash before it was created.
pub open spec fn row_ok(n: NoteView) -> bool {
    &&& n.name.len() > 0
    &&& i64::MIN <= n.created_at <= n.updated_at <= i64::MAX
    &&& n.deleted_at matches Some(t) ==> n.created_at <= t <= i64::MAX
}

/// The rules for the table of notes: each key lies between 1 and the
/// last key that the table handed out, the keys rise, and each row keeps
/// the rules for a row.
pub open spec fn notes_ok(notes: Seq<NoteView>, last: int) -> bool {
    &&& forall|i: int|
        0 <= i < notes.len() ==> {
            let n = #[trigger] notes[i];
            &&& 1 <= n.id <= last
            &&& row_ok(n)
        }
    &&& forall|i: int, j: int|
        0 <= i < j < notes.len() ==> (#[trigger] notes[i]).id < (#[trigger] notes[j]).id
}

/// The rules for the table of edges: each key lies between 1 and the
/// last key that the table handed out, the keys rise, each edge joins two
/// notes of `notes`, and no two edges of one kind join the same two notes
/// in the same direction.
pub open spec fn links_ok(links: Seq<NoteLinkView>, notes: Seq<NoteView>, last: int) -> bool {
    &&& forall|i: int|
        0 <= i < links.len() ==> {
            let l = #[trigger] links[i];
            &&& 1 <= l.id <= last
            &&& has_note(notes, l.source_note_id)
            &&& has_note(notes, l.target_note_id)
        }
    &&& forall|i: int, j: int|
        0 <= i < j < links.len() ==> {
            let a = #[trigger] links[i];
            let b = #[trigger] links[j];
            &&& a.id < b.id
            &&& !(a.source_note_id == b.source_note_id && a.target_note_id == b.target_note_id
                && a.link_type == b.link_type)
        }
}

/// The rules for the history: each key lies between 1 and the last key
/// that the table handed out, the keys rise, each row belongs to a note of
/// `notes`, and the versions of each note count up from 1 in the order of
/// the table.
pub open spec fn diffs_ok(diffs: Seq<NoteDiffView>, notes: Seq<NoteView>, last: int) -> bool {
    &&& forall|i: int|
        0 <= i < diffs.len() ==> {
            let d = #[trigger] diffs[i];
            &&& 1 <= d.id <= last
            &&& has_note(notes, d.note_id)
        }
    &&& forall|i: int, j: int|
        0 <= i < j < diffs.len() ==> (#[trigger] diffs[i]).id < (#[trigger] diffs[j]).id
    &&& forall|note_id: int| counts_up(#[trigger] versions_of(diffs, note_id))
}

impl Archive {
    /// An archive without tables.
    pub open spec fn empty() -> Archive {
        Archive {
            ready: false,
            notes: Seq::empty(),
            links: Seq::empty(),
            diffs: Seq::empty(),
            last_note_id: 0,
            last_link_id: 0,
            last_diff_id: 0,
            pragmas: engine_defaults(),
        }
    }

    /// The row of the note `id`.
    pub open spec fn note(self, id: int) -> NoteView
        recommends
            has_note(self.notes, id),
    {
        self.notes[note_position(self.notes, id)]
    }

    /// Whether the note `child` is filed directly under the note `parent`.
    pub open spec fn is_child(self, parent: int, child: int) -> bool {
        has_link(self.links, parent, child, LinkType::Parent)
    }

    /// The rules of the data model.
    ///
    /// Keys are handed out in rising order and never twice. A note has a
    /// name, was not updated before it was created, and was not put in the
    /// trash before it was created. An edge joins two notes that exist, and
    /// no two edges of one kind join the same two notes in the same
    /// direction. A history row belongs to a note that exists, and the
    /// versions of each note count up from 1 in the order in which they
    /// were recorded. Without tables there are no rows.
    pub open spec fn valid(self) -> bool {
        &&& 0 <= self.last_note_id <= i64::MAX
        &&& 0 <= self.last_link_id <= i64::MAX
        &&& 0 <= self.last_diff_id <= i64::MAX
        &&& !self.ready ==> {
            &&& self.notes.len() == 0
            &&& self.links.len() == 0
            &&& self.diffs.len() == 0
            &&& self.last_note_id == 0
            &&& self.last_link_id == 0
            &&& self.last_diff_id == 0
        }
        &&& notes_ok(self.notes, self.last_note_id)
        &&& links_ok(self.links, self.notes, self.last_link_id)
        &&& diffs_ok(self.diffs, self.notes, self.last_diff_id)
    }

    /// The notes that are not in the trash, in the order of the table.
    pub open spec fn live_notes(self) -> Seq<NoteView> {
        self.notes.filter(live_rows())
    }

    /// The key and the name of each note in the trash, in the order of
    /// the table.
    pub open spec fn trash(self) -> Seq<(int, Seq<char>)> {
        self.notes.filter(trash_rows()).map_values(id_and_name())
    }

    /// The tree of the notes that are not in the trash: the notes, latest
    /// update first, filed under one another as the `parent` edges say,
    /// the edges taken in the order of the table.
    pub open spec fn tree(self) -> Seq<NoteTree> {
        forest(
            ranked(self.notes).map_values(leaf()),
            self.links.filter(parent_edges()).map_values(ends()),
        )
    }

    /// What a search for `query` finds: the live notes whose name matches,
    /// then the live notes of which only the content matches, both in the
    /// order of the table.
    pub open spec fn search(self, query: Seq<char>) -> Seq<NoteView> {
        self.notes.filter(name_hits(query)).map_values(summary()) + self.notes.filter(
            content_hits(query),
        ).map_values(summary())
    }

    /// The notes that the hits `hits` of a full-text engine name, as a
    /// search gives them: for each hit, in the order of the hits, the note
    /// with that key, if it is there and not in the trash.
    pub open spec fn ranked_hits(self, hits: Seq<int>) -> Seq<NoteView>
        decreases hits.len(),
    {
        if hits.len() == 0 {
            Seq::empty()
        } else {
            let before = self.ranked_hits(hits.drop_last());
            let id = hits.last();
            if has_note(self.notes, id) && self.note(id).live() {
                before.push(summary()(self.note(id)))
            } else {
                before
            }
        }
    }

    /// The history of the note `note_id`, in the order in which it was
    /// recorded, each row without its change-set.
    pub open spec fn history(self, note_id: int) -> Seq<NoteDiffView> {
        self.diffs.filter(history_of(note_id)).map_values(without_payload())
    }

    /// The history row `id`.
    pub open spec fn diff(self, id: int) -> NoteDiffView
        recommends
            has_diff(self.diffs, id),
    {
        self.diffs[diff_position(self.diffs, id)]
    }

    /// Why the history row `id` cannot be read, if it cannot.
    pub open spec fn diff_error(self, id: int) -> Option<StoreError> {
        if !self.ready {
            Some(StoreError::StorageFailure)
        } else if !has_diff(self.diffs, id) {
            Some(StoreError::NotFound)
        } else {
            None
        }
    }

    /// The archive with the settings that it asks for.
    pub open spec fn configured(self) -> Archive {
        Archive { pragmas: durable_settings(), ..self }
    }

    /// The archive with a new note at the end of its table.
    pub open spec fn insert(
        self,
        name: Seq<char>,
        content: Option<Seq<char>>,
        now: int,
    ) -> Archive {
        Archive {
            notes: self.notes.push(
                NoteView {
                    id: self.last_note_id + 1,
                    name,
                    content,
                    created_at: now,
                    updated_at: now,
                    deleted_at: None,
                },
            ),
            last_note_id: self.last_note_id + 1,
            ..self
        }
    }

    /// Why a note with the name `name` cannot be inserted, if it cannot.
    pub open spec fn insert_error(self, name: Seq<char>) -> Option<StoreError> {
        if !self.ready {
            Some(StoreError::StorageFailure)
        } else if name.len() == 0 {
            Some(StoreError::ConstraintViolation)
        } else if self.last_note_id >= i64::MAX {
            Some(StoreError::StorageFailure)
        } else {
            None
        }
    }

    /// The archive with its tables: a new one gets them, and the starter
    /// note with them; one that has them stays as it is.
    pub open spec fn initialized(self, now: int) -> Archive {
        if self.ready {
            self
        } else {
            Archive { ready: true, ..self }.insert(starter_name(), Some(starter_content()), now)
        }
    }

    /// The archive with the note `id` under the name `name`.
    pub open spec fn renamed(self, id: int, name: Seq<char>, now: int) -> Archive {
        Archive {
            notes: self.notes.map_values(
                |n: NoteView|
                    if n.id == id {
                        NoteView { name, updated_at: stamp(now, n.updated_at), ..n }
                    } else {
                        n
                    },
            ),
            ..self
        }
    }

    /// The archive with the content `content` in the note `id`.
    pub open spec fn rewritten(self, id: int, content: Seq<char>, now: int) -> Archive {
        Archive {
            notes: self.notes.map_values(
                |n: NoteView|
                    if n.id == id {
                        NoteView {
                            content: Some(content),
                            updated_at: stamp(now, n.updated_at),
                            ..n
                        }
                    } else {
                        n
                    },
            ),
            ..self
        }
    }

    /// Why the note `id` cannot be updated, if it cannot.
    pub open spec fn update_error(self, id: int) -> Option<StoreError> {
        if !self.ready {
            Some(StoreError::StorageFailure)
        } else if !has_note(self.notes, id) {
            Some(StoreError::NotFound)
        } else {
            None
        }
    }

    /// Why the note `id` cannot get the name `name`, if it cannot.
    pub open spec fn rename_error(self, id: int, name: Seq<char>) -> Option<StoreError> {
        if !self.ready {
            Some(StoreError::StorageFailure)
        } else if !has_note(self.notes, id) {
            Some(StoreError::NotFound)
        } else if name.len() == 0 {
            Some(StoreError::ConstraintViolation)
        } else {
            None
        }
    }

    /// The archive with the note `id` and the notes filed directly under
    /// it in the trash. The edges stay as they are.
    pub open spec fn soft_deleted(self, id: int, now: int) -> Archive {
        Archive {
            notes: self.notes.map_values(
                |n: NoteView|
                    if n.id == id || self.is_child(id, n.id) {
                        trashed(n, now)
                    } else {
                        n
                    },
            ),
            ..self
        }
    }

    /// The archive with the note `id` out of the trash.
    pub open spec fn restored(self, id: int) -> Archive {
        Archive {
            notes: self.notes.map_values(
                |n: NoteView|
                    if n.id == id {
                        restored(n)
                    } else {
                        n
                    },
            ),
            ..self
        }
    }

    /// The archive with the notes `notes` alone, and with the edges and
    /// the history rows that belong to them.
    pub open spec fn cut_to(self, notes: Seq<NoteView>) -> Archive {
        Archive {
            notes,
            links: self.links.filter(joins(notes)),
            diffs: self.diffs.filter(belongs(notes)),
            ..self
        }
    }

    /// The archive with the notes that `keep` selects, and with the edges
    /// and the history rows that belong to them.
    pub open spec fn purged(self, keep: spec_fn(NoteView) -> bool) -> Archive {
        self.cut_to(self.notes.filter(keep))
    }

    /// The archive without the note `id`, its edges and its history.
    pub open spec fn hard_deleted(self, id: int) -> Archive {
        self.purged(other_than(id))
    }

    /// The archive without the notes in the trash, their edges and their
    /// history.
    pub open spec fn trash_emptied(self) -> Archive {
        self.purged(live_rows())
    }

    /// The archive with a new edge at the end of its table.
    pub open spec fn linked(self, source: int, target: int, kind: LinkType, now: int) -> Archive {
        Archive {
            links: self.links.push(
                NoteLinkView {
                    id: self.last_link_id + 1,
                    source_note_id: source,
                    target_note_id: target,
                    link_type: kind,
                    created_at: now,
                    updated_at: now,
                    deleted_at: None,
                },
            ),
            last_link_id: self.last_link_id + 1,
            ..self
        }
    }

    /// Why an edge of the kind `kind` from `source` to `target` cannot be
    /// added, if it cannot.
    pub open spec fn link_error(self, source: int, target: int, kind: LinkType) -> Option<
        StoreError,
    > {
        if !self.ready {
            Some(StoreError::StorageFailure)
        } else if !has_note(self.notes, source) || !has_note(self.notes, target) {
            Some(StoreError::NotFound)
        } else if has_link(self.links, source, target, kind) {
            Some(StoreError::ConstraintViolation)
        } else if self.last_link_id >= i64::MAX {
            Some(StoreError::StorageFailure)
        } else {
            None
        }
    }

    /// The archive with the change-set `payload` as the next version of
    /// the note `note_id`: one more than its highest version so far, or 1
    /// where it has none.
    pub open spec fn recorded(self, note_id: int, payload: Seq<char>, now: int) -> Archive {
        Archive {
            diffs: self.diffs.push(
                NoteDiffView {
                    id: self.last_diff_id + 1,
                    note_id,
                    version: latest_version(self.diffs, note_id) + 1,
                    diff: payload,
                    changed_at: now,
                },
            ),
            last_diff_id: self.last_diff_id + 1,
            ..self
        }
    }

    /// Why a version of the note `note_id` cannot be recorded, if it
    /// cannot.
    pub open spec fn record_error(self, note_id: int) -> Option<StoreError> {
        if !self.ready {
            Some(StoreError::StorageFailure)
        } else if !has_note(self.notes, note_id) {
            Some(StoreError::NotFound)
        } else if self.last_diff_id >= i64::MAX || latest_version(self.diffs, note_id)
            >= i64::MAX {
            Some(StoreError::StorageFailure)
        } else {
            None
        }
    }
}

/// The versions of a note are the versions of the same note in a longer
/// table, as far as they go.
pub proof fn lemma_versions_prefix(diffs: Seq<NoteDiffView>, note_id: int)
    requires
        diffs.len() > 0,
    ensures
        versions_of(diffs.drop_last(), note_id).len() <= versions_of(diffs, note_id).len(),
        forall|k: int|
            0 <= k < versions_of(diffs.drop_last(), note_id).len() ==> versions_of(
                diffs.drop_last(),
                note_id,
            )[k] == versions_of(diffs, note_id)[k],
{
}

/// Where the versions of a note count up from 1, its highest version is
/// the number of its versions.
pub proof fn lemma_latest_is_count(diffs: Seq<NoteDiffView>, note_id: int)
    requires
        counts_up(versions_of(diffs, note_id)),
    ensures
        latest_version(diffs, note_id) == versions_of(diffs, note_id).len(),
    decreases diffs.len(),
{
    if diffs.len() > 0 {
        let front = diffs.drop_last();
        lemma_versions_prefix(diffs, note_id);
        assert(counts_up(versions_of(front, note_id))) by {
            assert forall|k: int| 0 <= k < versions_of(front, note_id).len() implies #[trigger]
                versions_of(front, note_id)[k] == k + 1 by {
                assert(versions_of(diffs, note_id)[k] == k + 1);
            }
        }
        lemma_latest_is_count(front, note_id);
        if diffs.last().note_id == note_id {
            let all = versions_of(diffs, note_id);
            assert(all[all.len() - 1] == all.len());
        }
    }
}

/// The history rows that belong to the notes `notes` hold all the
/// versions of a note of `notes`, and no version of any other note.
pub proof fn lemma_versions_cut(diffs: Seq<NoteDiffView>, notes: Seq<NoteView>, note_id: int)
    ensures
        versions_of(diffs.filter(belongs(notes)), note_id) == if has_note(notes, note_id) {
            versions_of(diffs, note_id)
        } else {
            Seq::<int>::empty()
        },
    decreases diffs.len(),
{
    reveal(Seq::filter);
    if diffs.len() > 0 {
        let front = diffs.drop_last();
        lemma_versions_cut(front, notes, note_id);
        let kept = front.filter(belongs(notes));
        if belongs(notes)(diffs.last()) {
            assert(kept.push(diffs.last()).drop_last() =~= kept);
        }
    }
}

/// An archive that is cut down to some of its notes keeps the rules of
/// the data model.
#[verifier::rlimit(40)]
pub proof fn lemma_purged_valid(a: Archive, keep: spec_fn(NoteView) -> bool)
    requires
        a.valid(),
    ensures
        a.purged(keep).valid(),
{
    let after = a.purged(keep);
    let notes = after.notes;
    crate::tables::lemma_filter_rows(a.notes, keep);
    crate::tables::lemma_filter_pairs(a.notes, keep, |x: NoteView, y: NoteView| x.id < y.id);
    assert forall|i: int| 0 <= i < notes.len() implies {
        let n = #[trigger] notes[i];
        &&& 1 <= n.id <= after.last_note_id
        &&& row_ok(n)
    } by {
        assert(a.notes.contains(notes[i]));
        let k = choose|k: int| 0 <= k < a.notes.len() && a.notes[k] == notes[i];
        assert(row_ok(a.notes[k]));
    }
    let lp = joins(notes);
    crate::tables::lemma_filter_rows(a.links, lp);
    crate::tables::lemma_filter_pairs(
        a.links,
        lp,
        |x: NoteLinkView, y: NoteLinkView|
            x.id < y.id && !(x.source_note_id == y.source_note_id && x.target_note_id
                == y.target_note_id && x.link_type == y.link_type),
    );
    assert forall|i: int| 0 <= i < after.links.len() implies {
        let l = #[trigger] after.links[i];
        &&& 1 <= l.id <= after.last_link_id
        &&& has_note(after.notes, l.source_note_id)
        &&& has_note(after.notes, l.target_note_id)
    } by {
        assert(lp(after.links[i]));
        assert(a.links.contains(after.links[i]));
        let k = choose|k: int| 0 <= k < a.links.len() && a.links[k] == after.links[i];
        assert(1 <= a.links[k].id <= a.last_link_id);
    }
    let dp = belongs(notes);
    crate::tables::lemma_filter_rows(a.diffs, dp);
    crate::tables::lemma_filter_pairs(
        a.diffs,
        dp,
        |x: NoteDiffView, y: NoteDiffView| x.id < y.id,
    );
    assert forall|i: int| 0 <= i < after.diffs.len() implies {
        let d = #[trigger] after.diffs[i];
        &&& 1 <= d.id <= after.last_diff_id
        &&& has_note(after.notes, d.note_id)
    } by {
        assert(dp(after.diffs[i]));
        assert(a.diffs.contains(after.diffs[i]));
        let k = choose|k: int| 0 <= k < a.diffs.len() && a.diffs[k] == after.diffs[i];
        assert(1 <= a.diffs[k].id <= a.last_diff_id);
    }
    assert forall|note_id: int| counts_up(#[trigger] versions_of(after.diffs, note_id)) by {
        lemma_versions_cut(a.diffs, notes, note_id);
        assert(counts_up(versions_of(a.diffs, note_id)));
    }
    if !a.ready {
        crate::tables::lemma_filter_none(a.notes, keep);
        crate::tables::lemma_filter_none(a.links, lp);
        crate::tables::lemma_filter_none(a.diffs, dp);
    }
}

} // verus!
