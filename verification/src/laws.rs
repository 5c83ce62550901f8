//! What holds of the archive whatever it holds: the laws that the
//! operations keep between them.

use vstd::prelude::*;
use crate::archive::{
    belongs, content_hits, counts_up, has_note, history_of, id_and_name,
    joins, lemma_latest_is_count, live_rows, name_hits, note_position,
    other_than, rank_position, ranked, summary, trash_rows, versions_of, without_payload,
    Archive,
};
use crate::diff::{
    all_put_in, earlier_lines, later_lines, put_in, script, undo, undo_all, undo_from, ChangeTag,
    DiffView, LineChangeView,
};
use crate::models::{NoteDiffView, NoteView, StoreError};
use crate::text::split_lines;
use crate::search::{folded, occurs_at, text_matches};
use crate::tables::{lemma_filter_all, lemma_filter_rows};

verus! {

/// The place of a key in a table: where the table holds the key, its
/// place is within the table and holds the key, and no earlier place
/// does; where the table does not hold it, its place is the end.
pub proof fn lemma_place(notes: Seq<NoteView>, id: int)
    ensures
        0 <= note_position(notes, id) <= notes.len(),
        has_note(notes, id) <==> note_position(notes, id) < notes.len(),
        note_position(notes, id) < notes.len() ==> notes[note_position(notes, id)].id == id,
        forall|j: int| 0 <= j < note_position(notes, id) ==> (#[trigger] notes[j]).id != id,
    decreases notes.len(),
{
    if notes.len() == 0 || notes[0].id == id {
        if notes.len() > 0 {
            assert(notes[0].id == id);
        }
    } else {
        let rest = notes.drop_first();
        lemma_place(rest, id);
        assert forall|j: int| 0 <= j < note_position(notes, id) implies (#[trigger] notes[j]).id
            != id by {
            if j > 0 {
                assert(rest[j - 1] == notes[j]);
            }
        }
        if has_note(notes, id) {
            let i = choose|i: int| 0 <= i < notes.len() && #[trigger] notes[i].id == id;
            assert(rest[i - 1].id == id);
        }
        if note_position(rest, id) < rest.len() {
            assert(notes[note_position(rest, id) + 1] == rest[note_position(rest, id)]);
        }
    }
}

/// Two tables with the same keys in the same places give each key the
/// same place.
pub proof fn lemma_place_kept(before: Seq<NoteView>, after: Seq<NoteView>, id: int)
    requires
        before.len() == after.len(),
        forall|i: int| 0 <= i < before.len() ==> (#[trigger] before[i]).id == after[i].id,
    ensures
        note_position(before, id) == note_position(after, id),
    decreases before.len(),
{
    if before.len() > 0 {
        assert(before[0].id == after[0].id);
        if before[0].id != id {
            let b = before.drop_first();
            let a = after.drop_first();
            assert forall|i: int| 0 <= i < b.len() implies (#[trigger] b[i]).id == a[i].id by {
                assert(b[i] == before[i + 1]);
                assert(before[i + 1].id == after[i + 1].id);
            }
            lemma_place_kept(b, a, id);
        }
    }
}

/// A live note that is put in the trash and taken out again is as it
/// was, with every field as before, and the trash does not list it.
#[verifier::rlimit(40)]
pub proof fn law_soft_delete_then_restore(a: Archive, id: int, now: int)
    requires
        a.valid(),
        has_note(a.notes, id),
        a.note(id).live(),
    ensures
        has_note(a.soft_deleted(id, now).notes, id),
        !a.soft_deleted(id, now).note(id).live(),
        has_note(a.soft_deleted(id, now).restored(id).notes, id),
        a.soft_deleted(id, now).restored(id).note(id) == a.note(id),
        forall|k: int|
            0 <= k < a.soft_deleted(id, now).restored(id).trash().len() ==> (
            #[trigger] a.soft_deleted(id, now).restored(id).trash()[k]).0 != id,
{
    let b = a.soft_deleted(id, now);
    let c = b.restored(id);
    let i = note_position(a.notes, id);
    lemma_place(a.notes, id);
    assert forall|j: int| 0 <= j < a.notes.len() implies (#[trigger] a.notes[j]).id
        == b.notes[j].id by {}
    assert forall|j: int| 0 <= j < b.notes.len() implies (#[trigger] b.notes[j]).id
        == c.notes[j].id by {}
    lemma_place_kept(a.notes, b.notes, id);
    lemma_place_kept(b.notes, c.notes, id);
    assert(b.notes[i].id == id);
    assert(c.notes[i].id == id);
    let rows = c.notes.filter(trash_rows());
    lemma_filter_rows(c.notes, trash_rows());
    assert forall|k: int| 0 <= k < c.trash().len() implies (#[trigger] c.trash()[k]).0 != id by {
        let n = rows[k];
        assert(c.trash()[k] == id_and_name()(n));
        assert(trash_rows()(n));
        assert(c.notes.contains(n));
        let j = choose|j: int| 0 <= j < c.notes.len() && c.notes[j] == n;
        if n.id == id {
            assert(a.notes[j].id == id);
            if j < i {
                assert(a.notes[j].id < a.notes[i].id);
            } else if i < j {
                assert(a.notes[i].id < a.notes[j].id);
            }
        }
    }
}

/// A note that was just put in the trash is in the trash since a time
/// that is neither before `now` nor before its last update; its other
/// fields are as before.
pub proof fn law_trash_stamp(a: Archive, id: int, now: int)
    requires
        a.valid(),
    ensures
        a.soft_deleted(id, now).notes.len() == a.notes.len(),
        forall|i: int|
            0 <= i < a.notes.len() && (a.notes[i].id == id || a.is_child(id, a.notes[i].id)) ==> {
                let n = #[trigger] a.soft_deleted(id, now).notes[i];
                &&& n.deleted_at matches Some(t)
                &&& t >= now
                &&& t >= n.updated_at
                &&& n == NoteView { deleted_at: n.deleted_at, ..a.notes[i] }
            },
        forall|i: int|
            0 <= i < a.notes.len() && !(a.notes[i].id == id || a.is_child(id, a.notes[i].id))
                ==> #[trigger] a.soft_deleted(id, now).notes[i] == a.notes[i],
{
}

/// Putting a note in the trash takes the notes filed directly under it
/// along, and no note filed under those: a note that is neither the note
/// itself nor filed directly under it stays exactly as it is. The edges
/// stay as they are.
pub proof fn law_cascade_is_one_level(
    a: Archive,
    parent: int,
    child: int,
    grandchild: int,
    now: int,
)
    requires
        a.valid(),
        has_note(a.notes, parent),
        has_note(a.notes, child),
        has_note(a.notes, grandchild),
        a.is_child(parent, child),
        a.is_child(child, grandchild),
        !a.is_child(parent, grandchild),
        grandchild != parent,
    ensures
        !a.soft_deleted(parent, now).note(parent).live(),
        !a.soft_deleted(parent, now).note(child).live(),
        a.soft_deleted(parent, now).note(grandchild) == a.note(grandchild),
        a.soft_deleted(parent, now).links == a.links,
{
    let b = a.soft_deleted(parent, now);
    assert forall|j: int| 0 <= j < a.notes.len() implies (#[trigger] a.notes[j]).id
        == b.notes[j].id by {}
    lemma_place(a.notes, parent);
    lemma_place(a.notes, child);
    lemma_place(a.notes, grandchild);
    lemma_place_kept(a.notes, b.notes, parent);
    lemma_place_kept(a.notes, b.notes, child);
    lemma_place_kept(a.notes, b.notes, grandchild);
}

/// Removing a note for good removes its row, every edge that starts or
/// ends at it and every row of its history; reading the note then fails
/// with `NotFound`. Every other note stays as it is.
#[verifier::rlimit(40)]
pub proof fn law_hard_delete_cascades(a: Archive, id: int)
    requires
        a.valid(),
    ensures
        !has_note(a.hard_deleted(id).notes, id),
        a.ready ==> a.hard_deleted(id).update_error(id) == Some(StoreError::NotFound),
        forall|k: int|
            0 <= k < a.hard_deleted(id).links.len() ==> (#[trigger] a.hard_deleted(
                id,
            ).links[k]).source_note_id != id && a.hard_deleted(id).links[k].target_note_id != id,
        forall|k: int|
            0 <= k < a.hard_deleted(id).diffs.len() ==> (#[trigger] a.hard_deleted(
                id,
            ).diffs[k]).note_id != id,
        forall|other: int|
            other != id && has_note(a.notes, other) ==> has_note(
                a.hard_deleted(id).notes,
                other,
            ) && #[trigger] a.hard_deleted(id).note(other) == a.note(other),
{
    let b = a.hard_deleted(id);
    lemma_filter_rows(a.notes, other_than(id));
    lemma_filter_rows(a.links, joins(b.notes));
    lemma_filter_rows(a.diffs, belongs(b.notes));
    if has_note(b.notes, id) {
        let i = choose|i: int| 0 <= i < b.notes.len() && #[trigger] b.notes[i].id == id;
        assert(other_than(id)(b.notes[i]));
    }
    assert forall|k: int| 0 <= k < b.links.len() implies (#[trigger] b.links[k]).source_note_id
        != id && b.links[k].target_note_id != id by {
        assert(joins(b.notes)(b.links[k]));
    }
    assert forall|k: int| 0 <= k < b.diffs.len() implies (#[trigger] b.diffs[k]).note_id
        != id by {
        assert(belongs(b.notes)(b.diffs[k]));
    }
    crate::archive::lemma_purged_valid(a, other_than(id));
    assert forall|other: int| other != id && has_note(a.notes, other) implies has_note(
        b.notes,
        other,
    ) && #[trigger] b.note(other) == a.note(other) by {
        lemma_place(a.notes, other);
        let i = note_position(a.notes, other);
        assert(other_than(id)(a.notes[i]));
        assert(b.notes.contains(a.notes[i]));
        let j = choose|j: int| 0 <= j < b.notes.len() && b.notes[j] == a.notes[i];
        assert(b.notes[j].id == other);
        lemma_place(b.notes, other);
        let p = note_position(b.notes, other);
        if p < j {
            assert(b.notes[p].id < b.notes[j].id);
        }
    }
}

/// The history of a note holds the versions of the note, in the order
/// in which they were recorded.
pub proof fn lemma_history_versions(diffs: Seq<NoteDiffView>, note_id: int)
    ensures
        diffs.filter(history_of(note_id)).len() == versions_of(diffs, note_id).len(),
        forall|k: int|
            0 <= k < versions_of(diffs, note_id).len() ==> (#[trigger] diffs.filter(
                history_of(note_id),
            )[k]).version == versions_of(diffs, note_id)[k],
    decreases diffs.len(),
{
    reveal(Seq::filter);
    if diffs.len() > 0 {
        lemma_history_versions(diffs.drop_last(), note_id);
    }
}

/// The versions of a note count up from 1 in the order in which they
/// were recorded, whatever was recorded for other notes in between: the
/// k-th row of its history has the version k. Recording one more gives it
/// the next number, and leaves the history of every other note as it is.
#[verifier::rlimit(40)]
pub proof fn law_versions_count_up(a: Archive, note_id: int, payload: Seq<char>, now: int)
    requires
        a.valid(),
    ensures
        forall|k: int|
            0 <= k < a.history(note_id).len() ==> (#[trigger] a.history(note_id)[k]).version == k
                + 1,
        a.recorded(note_id, payload, now).history(note_id).len() == a.history(note_id).len() + 1,
        a.recorded(note_id, payload, now).history(note_id).last().version == a.history(
            note_id,
        ).len() + 1,
        forall|k: int|
            0 <= k < a.history(note_id).len() ==> #[trigger] a.recorded(
                note_id,
                payload,
                now,
            ).history(note_id)[k] == a.history(note_id)[k],
        forall|other: int|
            other != note_id ==> #[trigger] a.recorded(note_id, payload, now).history(other)
                == a.history(other),
{
    let b = a.recorded(note_id, payload, now);
    let row = b.diffs.last();
    lemma_history_versions(a.diffs, note_id);
    assert(counts_up(versions_of(a.diffs, note_id)));
    lemma_latest_is_count(a.diffs, note_id);
    assert forall|k: int| 0 <= k < a.history(note_id).len() implies (#[trigger] a.history(
        note_id,
    )[k]).version == k + 1 by {
        assert(a.history(note_id)[k] == without_payload()(
            a.diffs.filter(history_of(note_id))[k],
        ));
        assert(versions_of(a.diffs, note_id)[k] == k + 1);
    }
    a.diffs.lemma_filter_push(row, history_of(note_id));
    assert(b.history(note_id) =~= a.history(note_id).push(without_payload()(row)));
    assert forall|other: int| other != note_id implies #[trigger] b.history(other) == a.history(
        other,
    ) by {
        a.diffs.lemma_filter_push(row, history_of(other));
    }
}

/// Every text matches itself.
pub proof fn lemma_matches_itself(text: Seq<char>)
    ensures
        text_matches(text, text),
{
    let f = folded(text);
    assert(f.subrange(0, f.len() as int) =~= f);
    assert(occurs_at(f, f, 0));
}

/// A selected row of a table is among the summaries of the selected
/// rows.
proof fn lemma_hit_listed(notes: Seq<NoteView>, rule: spec_fn(NoteView) -> bool, i: int)
    requires
        0 <= i < notes.len(),
        rule(notes[i]),
    ensures
        notes.filter(rule).map_values(summary()).contains(summary()(notes[i])),
{
    lemma_filter_rows(notes, rule);
    let rows = notes.filter(rule);
    assert(rows.contains(notes[i]));
    let k = choose|k: int| 0 <= k < rows.len() && rows[k] == notes[i];
    assert(rows.map_values(summary())[k] == summary()(notes[i]));
}

/// The summaries of the selected rows of a table are summaries of rows
/// of the table that are selected.
proof fn lemma_listed_hit(notes: Seq<NoteView>, rule: spec_fn(NoteView) -> bool, k: int) -> (i:
    int)
    requires
        0 <= k < notes.filter(rule).len(),
    ensures
        0 <= i < notes.len(),
        rule(notes[i]),
        notes.filter(rule).map_values(summary())[k] == summary()(notes[i]),
{
    lemma_filter_rows(notes, rule);
    let rows = notes.filter(rule);
    assert(notes.contains(rows[k]));
    choose|i: int| 0 <= i < notes.len() && notes[i] == rows[k]
}

/// Whether the note `n` is live and its name or its content matches
/// `query`.
pub open spec fn is_match(n: NoteView, query: Seq<char>) -> bool {
    n.live() && (text_matches(n.name, query) || (n.content matches Some(c) && text_matches(
        c,
        query,
    )))
}

/// Whether `hit` is the summary of a note of `notes` that matches
/// `query`.
pub open spec fn found_among(notes: Seq<NoteView>, query: Seq<char>, hit: NoteView) -> bool {
    exists|i: int|
        0 <= i < notes.len() && is_match(#[trigger] notes[i], query) && hit == summary()(notes[i])
}

/// What a search finds are live notes of the table that match, each with
/// its key, its name and its content; and it finds every live note whose
/// name or content matches.
pub proof fn law_search_reads_the_table(a: Archive, query: Seq<char>)
    ensures
        forall|k: int|
            0 <= k < a.search(query).len() ==> found_among(
                a.notes,
                query,
                #[trigger] a.search(query)[k],
            ),
        forall|i: int|
            0 <= i < a.notes.len() && is_match(a.notes[i], query) ==> a.search(query).contains(
                summary()(#[trigger] a.notes[i]),
            ),
{
    let first = a.notes.filter(name_hits(query)).map_values(summary());
    let second = a.notes.filter(content_hits(query)).map_values(summary());
    assert forall|k: int| 0 <= k < a.search(query).len() implies found_among(
        a.notes,
        query,
        #[trigger] a.search(query)[k],
    ) by {
        if k < first.len() {
            let i = lemma_listed_hit(a.notes, name_hits(query), k);
            assert(a.search(query)[k] == first[k]);
            assert(name_hits(query)(a.notes[i]));
            assert(is_match(a.notes[i], query));
        } else {
            let i = lemma_listed_hit(a.notes, content_hits(query), k - first.len());
            assert(a.search(query)[k] == second[k - first.len()]);
            assert(content_hits(query)(a.notes[i]));
            assert(is_match(a.notes[i], query));
        }
    }
    assert forall|i: int|
        0 <= i < a.notes.len() && is_match(a.notes[i], query) implies a.search(query).contains(
        summary()(#[trigger] a.notes[i]),
    ) by {
        if name_hits(query)(a.notes[i]) {
            lemma_hit_listed(a.notes, name_hits(query), i);
            let k = choose|k: int| 0 <= k < first.len() && first[k] == summary()(a.notes[i]);
            assert(a.search(query)[k] == first[k]);
        } else {
            assert(content_hits(query)(a.notes[i]));
            lemma_hit_listed(a.notes, content_hits(query), i);
            let k = choose|k: int| 0 <= k < second.len() && second[k] == summary()(a.notes[i]);
            assert(a.search(query)[first.len() + k] == second[k]);
        }
    }
}

/// A search for the name of a note that was just inserted finds the
/// note.
pub proof fn law_search_finds_inserted(
    a: Archive,
    name: Seq<char>,
    content: Option<Seq<char>>,
    now: int,
)
    requires
        a.valid(),
        a.insert_error(name) is None,
    ensures
        exists|k: int|
            0 <= k < a.insert(name, content, now).search(name).len() && (#[trigger] a.insert(
                name,
                content,
                now,
            ).search(name)[k]).id == a.last_note_id + 1 && a.insert(name, content, now).search(
                name,
            )[k].name == name,
{
    let b = a.insert(name, content, now);
    let i = a.notes.len() as int;
    lemma_matches_itself(name);
    assert(is_match(b.notes[i], name));
    law_search_reads_the_table(b, name);
    assert(b.search(name).contains(summary()(b.notes[i])));
    let k = choose|k: int| 0 <= k < b.search(name).len() && b.search(name)[k] == summary()(
        b.notes[i],
    );
    assert(b.search(name)[k].id == a.last_note_id + 1);
}

/// A search for the new name of a live note finds the note under that
/// name, and a search for its new content finds it with that content.
pub proof fn law_search_finds_updated(a: Archive, id: int, text: Seq<char>, now: int)
    requires
        a.valid(),
        has_note(a.notes, id),
        a.note(id).live(),
    ensures
        exists|k: int|
            0 <= k < a.renamed(id, text, now).search(text).len() && (#[trigger] a.renamed(
                id,
                text,
                now,
            ).search(text)[k]).id == id && a.renamed(id, text, now).search(text)[k].name == text,
        exists|k: int|
            0 <= k < a.rewritten(id, text, now).search(text).len() && (#[trigger] a.rewritten(
                id,
                text,
                now,
            ).search(text)[k]).id == id && a.rewritten(id, text, now).search(text)[k].content
                == Some(text),
{
    lemma_place(a.notes, id);
    let i = note_position(a.notes, id);
    lemma_matches_itself(text);
    let b = a.renamed(id, text, now);
    assert(is_match(b.notes[i], text));
    law_search_reads_the_table(b, text);
    assert(b.search(text).contains(summary()(b.notes[i])));
    let k = choose|k: int| 0 <= k < b.search(text).len() && b.search(text)[k] == summary()(
        b.notes[i],
    );
    assert(b.search(text)[k].id == id);
    let c = a.rewritten(id, text, now);
    assert(c.notes[i].content == Some(text));
    assert(is_match(c.notes[i], text));
    law_search_reads_the_table(c, text);
    assert(c.search(text).contains(summary()(c.notes[i])));
    let m = choose|m: int| 0 <= m < c.search(text).len() && c.search(text)[m] == summary()(
        c.notes[i],
    );
    assert(c.search(text)[m].id == id);
}

/// Whatever hits a full-text engine hands in, what comes of them are
/// notes of the table that are not in the trash, each named by one of the
/// hits, and each with the key, the name and the content that the table
/// holds for it now: a note that was put in the trash or removed for good
/// is not among them, and a note that was changed shows its new text.
pub proof fn law_ranked_hits_show_the_table(a: Archive, hits: Seq<int>)
    ensures
        forall|k: int|
            0 <= k < a.ranked_hits(hits).len() ==> {
                let n = #[trigger] a.ranked_hits(hits)[k];
                &&& hits.contains(n.id)
                &&& has_note(a.notes, n.id)
                &&& a.note(n.id).live()
                &&& n == summary()(a.note(n.id))
            },
        forall|i: int|
            0 <= i < hits.len() && has_note(a.notes, hits[i]) && a.note(hits[i]).live()
                ==> a.ranked_hits(hits).contains(summary()(a.note(#[trigger] hits[i]))),
    decreases hits.len(),
{
    if hits.len() > 0 {
        let front = hits.drop_last();
        let id = hits.last();
        law_ranked_hits_show_the_table(a, front);
        let before = a.ranked_hits(front);
        let all = a.ranked_hits(hits);
        lemma_place(a.notes, id);
        assert forall|k: int| 0 <= k < all.len() implies {
            let n = #[trigger] all[k];
            &&& hits.contains(n.id)
            &&& has_note(a.notes, n.id)
            &&& a.note(n.id).live()
            &&& n == summary()(a.note(n.id))
        } by {
            if k < before.len() {
                assert(all[k] == before[k]);
                assert(front.contains(before[k].id));
                let j = choose|j: int| 0 <= j < front.len() && front[j] == before[k].id;
                assert(hits[j] == front[j]);
            } else {
                assert(all[k] == summary()(a.note(id)));
                assert(a.note(id).id == id);
                assert(hits[hits.len() - 1] == id);
            }
        }
        assert forall|i: int|
            0 <= i < hits.len() && has_note(a.notes, hits[i]) && a.note(
                hits[i],
            ).live() implies all.contains(summary()(a.note(#[trigger] hits[i]))) by {
            if i < front.len() {
                assert(front[i] == hits[i]);
                assert(before.contains(summary()(a.note(front[i]))));
                let k = choose|k: int|
                    0 <= k < before.len() && before[k] == summary()(a.note(front[i]));
                assert(all[k] == before[k]);
            } else {
                assert(all[all.len() - 1] == summary()(a.note(id)));
            }
        }
    }
}

/// No search finds a note that is in the trash or was removed for good.
pub proof fn law_search_misses_deleted(a: Archive, id: int, now: int, query: Seq<char>)
    requires
        a.valid(),
    ensures
        forall|k: int|
            0 <= k < a.soft_deleted(id, now).search(query).len() ==> (#[trigger] a.soft_deleted(
                id,
                now,
            ).search(query)[k]).id != id,
        forall|k: int|
            0 <= k < a.hard_deleted(id).search(query).len() ==> (#[trigger] a.hard_deleted(
                id,
            ).search(query)[k]).id != id,
{
    let b = a.soft_deleted(id, now);
    law_search_reads_the_table(b, query);
    assert forall|k: int| 0 <= k < b.search(query).len() implies (#[trigger] b.search(
        query,
    )[k]).id != id by {
        assert(found_among(b.notes, query, b.search(query)[k]));
        let i = choose|i: int|
            0 <= i < b.notes.len() && is_match(#[trigger] b.notes[i], query) && b.search(
                query,
            )[k] == summary()(b.notes[i]);
        assert(b.notes[i].id != id);
    }
    let c = a.hard_deleted(id);
    law_search_reads_the_table(c, query);
    lemma_filter_rows(a.notes, other_than(id));
    assert forall|k: int| 0 <= k < c.search(query).len() implies (#[trigger] c.search(
        query,
    )[k]).id != id by {
        assert(found_among(c.notes, query, c.search(query)[k]));
        let i = choose|i: int|
            0 <= i < c.notes.len() && is_match(#[trigger] c.notes[i], query) && c.search(
                query,
            )[k] == summary()(c.notes[i]);
        assert(other_than(id)(c.notes[i]));
    }
}

/// Emptying the trash a second time changes nothing.
pub proof fn law_empty_trash_is_idempotent(a: Archive)
    ensures
        a.trash_emptied().trash_emptied() == a.trash_emptied(),
        a.trash_emptied().trash() == Seq::<(int, Seq<char>)>::empty(),
{
    let b = a.trash_emptied();
    lemma_filter_rows(a.notes, live_rows());
    lemma_filter_all(b.notes, live_rows());
    lemma_filter_rows(a.links, joins(b.notes));
    lemma_filter_all(b.links, joins(b.notes));
    lemma_filter_rows(a.diffs, belongs(b.notes));
    lemma_filter_all(b.diffs, belongs(b.notes));
    let rest = b.notes.filter(trash_rows());
    lemma_filter_rows(b.notes, trash_rows());
    if rest.len() > 0 {
        assert(trash_rows()(rest[0]));
        assert(b.notes.contains(rest[0]));
        let j = choose|j: int| 0 <= j < b.notes.len() && b.notes[j] == rest[0];
        assert(live_rows()(b.notes[j]));
    }
    assert(b.trash() =~= Seq::<(int, Seq<char>)>::empty());
}

/// Whether the notes of `s` stand latest update first, and of two notes
/// that were updated at the same time the one with the lower key first.
pub open spec fn latest_first(s: Seq<NoteView>) -> bool {
    forall|i: int, j: int|
        0 <= i < j < s.len() ==> (#[trigger] s[i]).updated_at > (#[trigger] s[j]).updated_at || (
        s[i].updated_at == s[j].updated_at && s[i].id < s[j].id)
}

/// The place that `rank_position` gives: every note before it was
/// updated at `t` or later, and the note at it, if there is one, before
/// `t`.
pub proof fn lemma_rank_place(sorted: Seq<NoteView>, t: int)
    ensures
        0 <= rank_position(sorted, t) <= sorted.len(),
        forall|j: int| 0 <= j < rank_position(sorted, t) ==> (#[trigger] sorted[j]).updated_at >= t,
        rank_position(sorted, t) < sorted.len() ==> sorted[rank_position(sorted, t)].updated_at
            < t,
    decreases sorted.len(),
{
    if sorted.len() == 0 || sorted[0].updated_at < t {
    } else {
        let rest = sorted.drop_first();
        lemma_rank_place(rest, t);
        assert forall|j: int| 0 <= j < rank_position(sorted, t) implies (
        #[trigger] sorted[j]).updated_at >= t by {
            if j > 0 {
                assert(rest[j - 1] == sorted[j]);
            }
        }
        if rank_position(rest, t) < rest.len() {
            assert(sorted[rank_position(rest, t) + 1] == rest[rank_position(rest, t)]);
        }
    }
}

/// The list of notes that the tree is built from holds each live note of
/// the table once and no other note, latest update first; of two notes
/// that were updated at the same time the one with the lower key comes
/// first.
#[verifier::rlimit(40)]
pub proof fn law_listing_is_ranked(notes: Seq<NoteView>)
    requires
        forall|i: int, j: int|
            0 <= i < j < notes.len() ==> (#[trigger] notes[i]).id < (#[trigger] notes[j]).id,
    ensures
        latest_first(ranked(notes)),
        forall|k: int|
            0 <= k < ranked(notes).len() ==> (#[trigger] ranked(notes)[k]).live() && notes.contains(
                ranked(notes)[k],
            ),
        forall|i: int|
            0 <= i < notes.len() && notes[i].live() ==> ranked(notes).contains(
                #[trigger] notes[i],
            ),
    decreases notes.len(),
{
    if notes.len() > 0 {
        let front = notes.drop_last();
        let last = notes.last();
        assert forall|i: int, j: int| 0 <= i < j < front.len() implies (#[trigger] front[i]).id < (
        #[trigger] front[j]).id by {
            assert(front[i] == notes[i] && front[j] == notes[j]);
        }
        law_listing_is_ranked(front);
        let before = ranked(front);
        let all = ranked(notes);
        assert forall|k: int| 0 <= k < before.len() implies notes.contains(#[trigger] before[k])
            && before[k].id < last.id by {
            assert(front.contains(before[k]));
            let i = choose|i: int| 0 <= i < front.len() && front[i] == before[k];
            assert(notes[i] == front[i]);
            assert(notes[i].id < notes[notes.len() - 1].id);
        }
        if last.live() {
            let p = rank_position(before, last.updated_at);
            lemma_rank_place(before, last.updated_at);
            assert(all == before.insert(p, last));
            assert forall|i: int, j: int| 0 <= i < j < all.len() implies (
            #[trigger] all[i]).updated_at > (#[trigger] all[j]).updated_at || (all[i].updated_at
                == all[j].updated_at && all[i].id < all[j].id) by {
                if j < p {
                    assert(all[i] == before[i] && all[j] == before[j]);
                } else if j == p {
                    assert(all[i] == before[i]);
                    assert(before[i].updated_at >= last.updated_at);
                    assert(before[i].id < last.id);
                } else if i < p {
                    assert(all[i] == before[i] && all[j] == before[j - 1]);
                } else if i == p {
                    assert(all[j] == before[j - 1]);
                    if j - 1 > p {
                        assert(before[p].updated_at > before[j - 1].updated_at || (
                        before[p].updated_at == before[j - 1].updated_at && before[p].id
                            < before[j - 1].id));
                    }
                } else {
                    assert(all[i] == before[i - 1] && all[j] == before[j - 1]);
                }
            }
            assert forall|k: int| 0 <= k < all.len() implies (#[trigger] all[k]).live()
                && notes.contains(all[k]) by {
                if k < p {
                    assert(all[k] == before[k]);
                } else if k == p {
                    assert(notes[notes.len() - 1] == last);
                } else {
                    assert(all[k] == before[k - 1]);
                }
            }
            assert forall|i: int| 0 <= i < notes.len() && notes[i].live() implies all.contains(
                #[trigger] notes[i],
            ) by {
                if i < front.len() {
                    assert(front[i] == notes[i]);
                    assert(before.contains(front[i]));
                    let k = choose|k: int| 0 <= k < before.len() && before[k] == front[i];
                    if k < p {
                        assert(all[k] == before[k]);
                    } else {
                        assert(all[k + 1] == before[k]);
                    }
                } else {
                    assert(all[p] == last);
                }
            }
        } else {
            assert forall|i: int| 0 <= i < notes.len() && notes[i].live() implies all.contains(
                #[trigger] notes[i],
            ) by {
                assert(front[i] == notes[i]);
            }
        }
    }
}

/// The lines that a list of entries put in are those of its first entry
/// and those of the entries behind it.
pub proof fn lemma_put_in_first(d: DiffView, w: Seq<DiffView>)
    ensures
        all_put_in(seq![d] + w) == put_in(d) + all_put_in(w),
    decreases w.len(),
{
    let all = seq![d] + w;
    if w.len() == 0 {
        assert(all.drop_last() =~= Seq::<DiffView>::empty());
        assert(all.last() == d);
        assert(all_put_in(all.drop_last()) == 0);
    } else {
        assert(all.drop_last() =~= seq![d] + w.drop_last());
        assert(all.last() == w.last());
        lemma_put_in_first(d, w.drop_last());
    }
}

/// Undoing a list of entries is undoing the entries behind its first
/// entry, in front of which the lines of the first entry still stand, and
/// then undoing the first entry.
pub proof fn lemma_undo_first(lines: Seq<Seq<char>>, d: DiffView, w: Seq<DiffView>, ahead: nat)
    ensures
        undo_from(lines, seq![d] + w, ahead) == undo(
            undo_from(lines, w, ahead + put_in(d)),
            d,
            d.index + ahead,
        ),
    decreases w.len(),
{
    let all = seq![d] + w;
    if w.len() == 0 {
        assert(all.drop_last() =~= Seq::<DiffView>::empty());
        assert(all.last() == d);
        assert(all_put_in(all.drop_last()) == 0);
        assert(undo_from(lines, all, ahead) == undo_from(
            undo(lines, d, d.index + ahead),
            all.drop_last(),
            ahead,
        ));
    } else {
        let x = w.last();
        let short = w.drop_last();
        assert(all.drop_last() =~= seq![d] + short);
        assert(all.last() == x);
        lemma_put_in_first(d, short);
        let next = undo(lines, x, x.index + ahead + put_in(d) + all_put_in(short));
        assert(undo_from(lines, all, ahead) == undo_from(next, seq![d] + short, ahead));
        lemma_undo_first(next, d, short, ahead);
        assert(undo_from(lines, w, ahead + put_in(d)) == undo_from(
            next,
            short,
            ahead + put_in(d),
        ));
    }
}

/// Undoing the change-set of a comparison over the lines of its later
/// text, behind `head`, gives the lines of its earlier text, behind
/// `head`: `head` holds the `at` unchanged lines and the `ahead` lines put
/// in that come before the comparison.
pub proof fn lemma_replay(
    head: Seq<Seq<char>>,
    changes: Seq<LineChangeView>,
    at: nat,
    ahead: nat,
)
    requires
        head.len() == at + ahead,
        at + earlier_lines(changes).len() <= usize::MAX,
    ensures
        undo_from(head + later_lines(changes), script(changes, at), ahead) == head
            + earlier_lines(changes),
    decreases changes.len(),
{
    reveal_strlit("+");
    reveal_strlit("-");
    assert("+"@ != "-"@) by {
        assert("+"@[0] == '+');
        assert("-"@[0] == '-');
    }
    if changes.len() == 0 {
        assert(head + later_lines(changes) =~= head);
        assert(head + earlier_lines(changes) =~= head);
    } else {
        let c = changes[0];
        let rest = changes.drop_first();
        let these = split_lines(c.text);
        let n = these.len();
        match c.tag {
            ChangeTag::Equal => {
                lemma_replay(head + these, rest, at + n, ahead);
                assert(head + later_lines(changes) =~= (head + these) + later_lines(rest));
                assert(head + earlier_lines(changes) =~= (head + these) + earlier_lines(rest));
            },
            ChangeTag::Delete => {
                let d = DiffView { op: "-"@, value: c.text, index: at };
                let now = head + later_lines(rest);
                assert(head + later_lines(changes) =~= now);
                assert(script(changes, at) =~= seq![d] + script(rest, at));
                lemma_undo_first(now, d, script(rest, at), ahead);
                lemma_replay(head, rest, at, ahead);
                let back = head + earlier_lines(rest);
                assert(undo(back, d, at + ahead) =~= (head + these) + earlier_lines(rest)) by {
                    assert(back.take((at + ahead) as int) =~= head);
                    assert(back.skip((at + ahead) as int) =~= earlier_lines(rest));
                }
                assert(head + earlier_lines(changes) =~= (head + these) + earlier_lines(rest));
            },
            ChangeTag::Insert => {
                let d = DiffView { op: "+"@, value: c.text, index: at };
                let now = head + later_lines(changes);
                assert(now =~= (head + these) + later_lines(rest));
                assert(script(changes, at) =~= seq![d] + script(rest, at));
                lemma_undo_first(now, d, script(rest, at), ahead);
                lemma_replay(head + these, rest, at, ahead + n);
                let back = (head + these) + earlier_lines(rest);
                assert(undo(back, d, at + ahead) =~= head + earlier_lines(rest)) by {
                    assert(back.take((at + ahead) as int) =~= head);
                    assert(back.skip((at + ahead + n) as int) =~= earlier_lines(rest));
                }
            },
        }
    }
}

/// Undoing the change-set of a comparison over the lines of its later
/// text gives the lines of its earlier text, whatever the comparison
/// holds, as long as the earlier text has no more lines than a line number
/// can count.
pub proof fn law_replay_gives_the_earlier_lines(changes: Seq<LineChangeView>)
    requires
        earlier_lines(changes).len() <= usize::MAX,
    ensures
        undo_all(later_lines(changes), script(changes, 0)) == earlier_lines(changes),
{
    lemma_replay(Seq::empty(), changes, 0, 0);
    assert(Seq::<Seq<char>>::empty() + later_lines(changes) =~= later_lines(changes));
    assert(Seq::<Seq<char>>::empty() + earlier_lines(changes) =~= earlier_lines(changes));
}

} // verus!
