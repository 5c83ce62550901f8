//! Checks of the rules of the data model on rows that come from
//! outside, and the look-ups that the archive shares with them.

use vstd::prelude::*;
use crate::archive::{
    belongs, counts_up, diffs_ok, has_link, has_note, joins, latest_version,
    lemma_latest_is_count, lemma_versions_prefix, links_ok, notes_ok, row_ok, versions_of,
};
use crate::models::{
    history_views, link_views, note_views, LinkType, Note, NoteDiff, NoteDiffView, NoteLink,
};
use crate::tables::{lemma_filter_none, lemma_filter_step};

verus! {

/// Whether a row of `notes` has the key `id`.
pub fn key_exists(notes: &Vec<Note>, id: i64) -> (r: bool)
    ensures
        r == has_note(note_views(notes@), id as int),
{
    let mut i: usize = 0;
    while i < notes.len()
        invariant
            i <= notes.len(),
            forall|j: int| 0 <= j < i ==> (#[trigger] notes@[j]).id != id,
        decreases notes.len() - i,
    {
        if notes[i].id == id {
            proof {
                assert(note_views(notes@)[i as int].id == id);
            }
            return true;
        }
        i += 1;
    }
    proof {
        let views = note_views(notes@);
        assert forall|j: int| 0 <= j < views.len() implies (#[trigger] views[j]).id != id by {
            assert(views[j] == notes@[j]@);
        }
    }
    false
}

/// Whether `links` holds an edge of the kind `kind` from `source` to
/// `target`.
pub fn link_exists(links: &Vec<NoteLink>, source: i64, target: i64, kind: LinkType) -> (r: bool)
    ensures
        r == has_link(link_views(links@), source as int, target as int, kind),
{
    let mut k: usize = 0;
    while k < links.len()
        invariant
            k <= links.len(),
            forall|j: int|
                0 <= j < k ==> !((#[trigger] links@[j]).source_note_id == source
                    && links@[j].target_note_id == target && links@[j].link_type == kind),
        decreases links.len() - k,
    {
        let l = &links[k];
        if l.source_note_id == source && l.target_note_id == target && same_kind(
            l.link_type,
            kind,
        ) {
            proof {
                assert(link_views(links@)[k as int] == links@[k as int]@);
            }
            return true;
        }
        k += 1;
    }
    proof {
        let views = link_views(links@);
        assert forall|j: int| 0 <= j < views.len() implies !((#[trigger] views[j]).source_note_id
            == source && views[j].target_note_id == target && views[j].link_type == kind) by {
            assert(views[j] == links@[j]@);
        }
    }
    false
}

/// Whether `a` and `b` are the same kind of edge.
pub fn same_kind(a: LinkType, b: LinkType) -> (r: bool)
    ensures
        r == (a == b),
{
    match (a, b) {
        (LinkType::Related, LinkType::Related) => true,
        (LinkType::Parent, LinkType::Parent) => true,
        _ => false,
    }
}

/// Whether the rows `notes` keep the rules for the table of notes, given
/// the last key `last` that the table handed out.
#[verifier::rlimit(40)]
pub fn check_notes(notes: &Vec<Note>, last: i64) -> (r: bool)
    ensures
        r == notes_ok(note_views(notes@), last as int),
{
    let ghost views = note_views(notes@);
    let mut i: usize = 0;
    while i < notes.len()
        invariant
            i <= notes.len(),
            views == note_views(notes@),
            notes_ok(views.take(i as int), last as int),
        decreases notes.len() - i,
    {
        let n = &notes[i];
        proof {
            assert(views[i as int] == n@);
        }
        let row = 1 <= n.id && n.id <= last && !n.name.as_str().is_empty() && n.created_at
            <= n.updated_at && match n.deleted_at {
            Some(t) => n.created_at <= t,
            None => true,
        };
        if !row {
            proof {
                assert(!(1 <= views[i as int].id <= last && row_ok(views[i as int])));
            }
            return false;
        }
        if i > 0 && notes[i - 1].id >= n.id {
            proof {
                assert(views[i - 1] == notes@[i - 1]@);
                assert(!(views[i - 1].id < views[i as int].id));
            }
            return false;
        }
        proof {
            let shorter = views.take(i as int);
            let longer = views.take(i + 1);
            assert forall|k: int| 0 <= k < longer.len() implies {
                let n = #[trigger] longer[k];
                &&& 1 <= n.id <= last
                &&& row_ok(n)
            } by {
                if k < i {
                    assert(longer[k] == shorter[k]);
                }
            }
            assert forall|a: int, b: int| 0 <= a < b < longer.len() implies (
            #[trigger] longer[a]).id < (#[trigger] longer[b]).id by {
                if b < i {
                    assert(longer[a] == shorter[a] && longer[b] == shorter[b]);
                } else if a < i - 1 {
                    assert(longer[a] == shorter[a] && shorter[i - 1] == views[i - 1]);
                    assert(shorter[a].id < shorter[i - 1].id);
                    assert(views[i - 1] == notes@[i - 1]@);
                } else {
                    assert(views[i - 1] == notes@[i - 1]@);
                }
            }
        }
        i += 1;
    }
    proof {
        assert(views.take(notes.len() as int) =~= views);
    }
    true
}

fn repeats(links: &Vec<NoteLink>, i: usize) -> (r: bool)
    requires
        i < links.len(),
    ensures
        r == exists|j: int|
            0 <= j < i && (#[trigger] links@[j]).source_note_id == links@[i as int].source_note_id
                && links@[j].target_note_id == links@[i as int].target_note_id
                && links@[j].link_type == links@[i as int].link_type,
{
    let l = &links[i];
    let mut j: usize = 0;
    while j < i
        invariant
            j <= i < links.len(),
            *l == links@[i as int],
            forall|k: int|
                0 <= k < j ==> !((#[trigger] links@[k]).source_note_id == l.source_note_id
                    && links@[k].target_note_id == l.target_note_id && links@[k].link_type
                    == l.link_type),
        decreases i - j,
    {
        let e = &links[j];
        if e.source_note_id == l.source_note_id && e.target_note_id == l.target_note_id
            && same_kind(e.link_type, l.link_type) {
            return true;
        }
        j += 1;
    }
    false
}

/// Whether the rows `links` keep the rules for the table of edges, given
/// the notes `notes` and the last key `last` that the table handed out.
#[verifier::rlimit(40)]
pub fn check_links(links: &Vec<NoteLink>, notes: &Vec<Note>, last: i64) -> (r: bool)
    ensures
        r == links_ok(link_views(links@), note_views(notes@), last as int),
{
    let ghost views = link_views(links@);
    let ghost rows = note_views(notes@);
    let mut i: usize = 0;
    while i < links.len()
        invariant
            i <= links.len(),
            views == link_views(links@),
            rows == note_views(notes@),
            links_ok(views.take(i as int), rows, last as int),
        decreases links.len() - i,
    {
        let l = &links[i];
        proof {
            assert(views[i as int] == l@);
        }
        let row = 1 <= l.id && l.id <= last && key_exists(notes, l.source_note_id)
            && key_exists(notes, l.target_note_id);
        if !row {
            proof {
                let v = views[i as int];
                assert(!(1 <= v.id <= last && has_note(rows, v.source_note_id) && has_note(
                    rows,
                    v.target_note_id,
                )));
            }
            return false;
        }
        if i > 0 && links[i - 1].id >= l.id {
            proof {
                assert(views[i - 1] == links@[i - 1]@);
                assert(!(views[i - 1].id < views[i as int].id));
            }
            return false;
        }
        if repeats(links, i) {
            proof {
                let j = choose|j: int|
                    0 <= j < i && (#[trigger] links@[j]).source_note_id
                        == links@[i as int].source_note_id && links@[j].target_note_id
                        == links@[i as int].target_note_id && links@[j].link_type
                        == links@[i as int].link_type;
                assert(views[j] == links@[j]@);
                let a = views[j];
                let b = views[i as int];
                assert(a.source_note_id == b.source_note_id && a.target_note_id
                    == b.target_note_id && a.link_type == b.link_type);
            }
            return false;
        }
        proof {
            let shorter = views.take(i as int);
            let longer = views.take(i + 1);
            assert forall|k: int| 0 <= k < longer.len() implies {
                let l = #[trigger] longer[k];
                &&& 1 <= l.id <= last
                &&& has_note(rows, l.source_note_id)
                &&& has_note(rows, l.target_note_id)
            } by {
                if k < i {
                    assert(longer[k] == shorter[k]);
                }
            }
            assert forall|a: int, b: int| 0 <= a < b < longer.len() implies {
                let x = #[trigger] longer[a];
                let y = #[trigger] longer[b];
                &&& x.id < y.id
                &&& !(x.source_note_id == y.source_note_id && x.target_note_id
                    == y.target_note_id && x.link_type == y.link_type)
            } by {
                if b < i {
                    assert(longer[a] == shorter[a] && longer[b] == shorter[b]);
                } else {
                    assert(longer[a] == views[a] && views[a] == links@[a]@);
                    assert(views[i - 1] == links@[i - 1]@);
                    if a < i - 1 {
                        assert(shorter[a] == views[a] && shorter[i - 1] == views[i - 1]);
                        assert(shorter[a].id < shorter[i - 1].id);
                    }
                }
            }
        }
        i += 1;
    }
    proof {
        assert(views.take(links.len() as int) =~= views);
    }
    true
}

/// Whether each row of `diffs` has the version that follows the highest
/// version of its note among the rows before it.
pub open spec fn versions_checked(diffs: Seq<NoteDiffView>) -> bool {
    forall|i: int|
        0 <= i < diffs.len() ==> (#[trigger] diffs[i]).version == latest_version(
            diffs.take(i),
            diffs[i].note_id,
        ) + 1
}

/// The versions of a note among the first `k` rows are the first of its
/// versions among all the rows.
pub proof fn lemma_versions_take(diffs: Seq<NoteDiffView>, k: int, note_id: int)
    requires
        0 <= k <= diffs.len(),
    ensures
        versions_of(diffs.take(k), note_id).len() <= versions_of(diffs, note_id).len(),
        forall|j: int|
            0 <= j < versions_of(diffs.take(k), note_id).len() ==> versions_of(
                diffs.take(k),
                note_id,
            )[j] == versions_of(diffs, note_id)[j],
    decreases diffs.len() - k,
{
    if k == diffs.len() {
        assert(diffs.take(k) =~= diffs);
    } else {
        let front = diffs.drop_last();
        assert(front.take(k) =~= diffs.take(k));
        lemma_versions_take(front, k, note_id);
        lemma_versions_prefix(diffs, note_id);
    }
}

/// Where each row has the version that follows the highest version of
/// its note so far, the versions of each note count up from 1 among the
/// first `k` rows.
pub proof fn lemma_checked_counts(diffs: Seq<NoteDiffView>, k: int)
    requires
        versions_checked(diffs),
        0 <= k <= diffs.len(),
    ensures
        forall|note_id: int| counts_up(#[trigger] versions_of(diffs.take(k), note_id)),
    decreases k,
{
    if k > 0 {
        lemma_checked_counts(diffs, k - 1);
        let shorter = diffs.take(k - 1);
        let longer = diffs.take(k);
        assert(longer.drop_last() =~= shorter);
        assert(longer.last() == diffs[k - 1]);
        assert forall|note_id: int| counts_up(#[trigger] versions_of(longer, note_id)) by {
            assert(counts_up(versions_of(shorter, note_id)));
            if diffs[k - 1].note_id == note_id {
                lemma_latest_is_count(shorter, note_id);
            }
        }
    }
}

/// The versions of each note count up from 1 in the order of the table
/// exactly where each row has the version that follows the highest version
/// of its note among the rows before it.
#[verifier::rlimit(40)]
pub proof fn lemma_versions_checked(diffs: Seq<NoteDiffView>)
    ensures
        versions_checked(diffs) <==> forall|note_id: int|
            counts_up(#[trigger] versions_of(diffs, note_id)),
{
    if versions_checked(diffs) {
        lemma_checked_counts(diffs, diffs.len() as int);
        assert(diffs.take(diffs.len() as int) =~= diffs);
    }
    if forall|note_id: int| counts_up(#[trigger] versions_of(diffs, note_id)) {
        assert forall|i: int| 0 <= i < diffs.len() implies (#[trigger] diffs[i]).version
            == latest_version(diffs.take(i), diffs[i].note_id) + 1 by {
            let n = diffs[i].note_id;
            let shorter = diffs.take(i);
            let longer = diffs.take(i + 1);
            assert(longer.drop_last() =~= shorter);
            assert(longer.last() == diffs[i]);
            assert(counts_up(versions_of(diffs, n)));
            lemma_versions_take(diffs, i, n);
            lemma_versions_take(diffs, i + 1, n);
            let some = versions_of(longer, n);
            assert(some[some.len() - 1] == diffs[i].version);
            assert(versions_of(diffs, n)[some.len() - 1] == some.len());
            assert(counts_up(versions_of(shorter, n))) by {
                assert forall|j: int| 0 <= j < versions_of(shorter, n).len() implies #[trigger]
                    versions_of(shorter, n)[j] == j + 1 by {
                    assert(versions_of(diffs, n)[j] == j + 1);
                }
            }
            lemma_latest_is_count(shorter, n);
        }
    }
}

fn latest_before(diffs: &Vec<NoteDiff>, i: usize, note_id: i64) -> (r: i64)
    requires
        i <= diffs.len(),
    ensures
        r as int == latest_version(history_views(diffs@).take(i as int), note_id as int),
{
    let ghost rows = history_views(diffs@).take(i as int);
    let mut latest: i64 = 0;
    let mut j: usize = 0;
    while j < i
        invariant
            j <= i <= diffs.len(),
            rows == history_views(diffs@).take(i as int),
            latest as int == latest_version(rows.take(j as int), note_id as int),
        decreases i - j,
    {
        proof {
            assert(rows.take(j + 1).drop_last() =~= rows.take(j as int));
            assert(rows.take(j + 1).last() == diffs@[j as int]@);
        }
        let d = &diffs[j];
        if d.note_id == note_id && d.version > latest {
            latest = d.version;
        }
        j += 1;
    }
    proof {
        assert(rows.take(i as int) =~= rows);
    }
    latest
}

/// Whether the rows `diffs` keep the rules for the history, given the
/// notes `notes` and the last key `last` that the table handed out.
#[verifier::rlimit(40)]
pub fn check_diffs(diffs: &Vec<NoteDiff>, notes: &Vec<Note>, last: i64) -> (r: bool)
    ensures
        r == diffs_ok(history_views(diffs@), note_views(notes@), last as int),
{
    let ghost views = history_views(diffs@);
    let ghost rows = note_views(notes@);
    let mut i: usize = 0;
    while i < diffs.len()
        invariant
            i <= diffs.len(),
            views == history_views(diffs@),
            rows == note_views(notes@),
            forall|k: int|
                0 <= k < i ==> {
                    let d = #[trigger] views[k];
                    &&& 1 <= d.id <= last
                    &&& has_note(rows, d.note_id)
                },
            forall|a: int, b: int|
                0 <= a < b < i ==> (#[trigger] views[a]).id < (#[trigger] views[b]).id,
            forall|k: int|
                0 <= k < i ==> (#[trigger] views[k]).version == latest_version(
                    views.take(k),
                    views[k].note_id,
                ) + 1,
        decreases diffs.len() - i,
    {
        let d = &diffs[i];
        proof {
            assert(views[i as int] == d@);
        }
        let row = 1 <= d.id && d.id <= last && key_exists(notes, d.note_id);
        if !row {
            proof {
                let v = views[i as int];
                assert(!(1 <= v.id <= last && has_note(rows, v.note_id)));
            }
            return false;
        }
        if i > 0 && diffs[i - 1].id >= d.id {
            proof {
                assert(views[i - 1] == diffs@[i - 1]@);
                assert(!(views[i - 1].id < views[i as int].id));
            }
            return false;
        }
        let latest = latest_before(diffs, i, d.note_id);
        if latest >= i64::MAX || d.version != latest + 1 {
            proof {
                assert(!(views[i as int].version == latest_version(
                    views.take(i as int),
                    views[i as int].note_id,
                ) + 1));
                assert(!versions_checked(views));
                lemma_versions_checked(views);
            }
            return false;
        }
        proof {
            assert forall|a: int, b: int| 0 <= a < b < i + 1 implies (#[trigger] views[a]).id < (
            #[trigger] views[b]).id by {
                if b == i {
                    assert(views[i - 1] == diffs@[i - 1]@);
                    if a < i - 1 {
                        assert(views[a].id < views[i - 1].id);
                    }
                }
            }
        }
        i += 1;
    }
    proof {
        assert(versions_checked(views));
        lemma_versions_checked(views);
    }
    true
}

/// The edges of `links` that join two notes of `notes`, in order.
pub fn kept_links(links: &Vec<NoteLink>, notes: &Vec<Note>) -> (r: Vec<NoteLink>)
    ensures
        link_views(r@) == link_views(links@).filter(joins(note_views(notes@))),
{
    let ghost rows = link_views(links@);
    let ghost rule = joins(note_views(notes@));
    let mut out: Vec<NoteLink> = Vec::new();
    let mut k: usize = 0;
    proof {
        lemma_filter_none(rows.take(0), rule);
        assert(link_views(out@) =~= rows.take(0).filter(rule));
    }
    while k < links.len()
        invariant
            k <= links.len(),
            rows == link_views(links@),
            rule == joins(note_views(notes@)),
            link_views(out@) == rows.take(k as int).filter(rule),
        decreases links.len() - k,
    {
        proof {
            lemma_filter_step(rows, k as int, rule);
        }
        let l = links[k];
        if key_exists(notes, l.source_note_id) && key_exists(notes, l.target_note_id) {
            let ghost before = out@;
            out.push(l);
            proof {
                assert(link_views(out@) =~= link_views(before).push(rows[k as int]));
            }
        }
        k += 1;
    }
    proof {
        assert(rows.take(links.len() as int) =~= rows);
    }
    out
}

/// The history rows of `diffs` that belong to a note of `notes`, in
/// order.
pub fn kept_diffs(diffs: &Vec<NoteDiff>, notes: &Vec<Note>) -> (r: Vec<NoteDiff>)
    ensures
        history_views(r@) == history_views(diffs@).filter(belongs(note_views(notes@))),
{
    let ghost rows = history_views(diffs@);
    let ghost rule = belongs(note_views(notes@));
    let mut out: Vec<NoteDiff> = Vec::new();
    let mut m: usize = 0;
    proof {
        lemma_filter_none(rows.take(0), rule);
        assert(history_views(out@) =~= rows.take(0).filter(rule));
    }
    while m < diffs.len()
        invariant
            m <= diffs.len(),
            rows == history_views(diffs@),
            rule == belongs(note_views(notes@)),
            history_views(out@) == rows.take(m as int).filter(rule),
        decreases diffs.len() - m,
    {
        proof {
            lemma_filter_step(rows, m as int, rule);
        }
        if key_exists(notes, diffs[m].note_id) {
            let ghost before = out@;
            out.push(diffs[m].clone());
            proof {
                assert(history_views(out@) =~= history_views(before).push(rows[m as int]));
            }
        }
        m += 1;
    }
    proof {
        assert(rows.take(diffs.len() as int) =~= rows);
    }
    out
}

} // verus!
