//! The full-text index: for each note its key, its name and its content,
//! both in lower case, so that a search finds a text wherever it stands
//! and however it is capitalised.

use vstd::prelude::*;
use crate::models::NoteView;
use crate::text::chars_of;

verus! {

/// The letter `c` in lower case, if it is one of `A` to `Z`; any other
/// character as it is.
pub open spec fn fold_char(c: char) -> char {
    if 'A' <= c && c <= 'Z' {
        ((c as u8) + 32) as char
    } else {
        c
    }
}

/// The text `s` with its letters `A` to `Z` in lower case.
pub open spec fn folded(s: Seq<char>) -> Seq<char> {
    s.map_values(|c: char| fold_char(c))
}

/// Whether `needle` stands in `hay` at the position `k`.
pub open spec fn occurs_at(hay: Seq<char>, needle: Seq<char>, k: int) -> bool {
    0 <= k && k + needle.len() <= hay.len() && hay.subrange(k, k + needle.len()) == needle
}

/// Whether `needle` stands somewhere in `hay`.
pub open spec fn contains_text(hay: Seq<char>, needle: Seq<char>) -> bool {
    exists|k: int| occurs_at(hay, needle, k)
}

/// Whether the text `text` matches the query `query`: the query stands
/// somewhere in the text, capitals aside.
pub open spec fn text_matches(text: Seq<char>, query: Seq<char>) -> bool {
    contains_text(folded(text), folded(query))
}

/// One row of the index.
#[derive(Debug)]
pub struct IndexEntry {
    pub rowid: i64,
    pub name: Vec<char>,
    pub content: Option<Vec<char>>,
}

/// What an [`IndexEntry`] holds, as mathematical values.
pub struct IndexEntryView {
    pub rowid: int,
    pub name: Seq<char>,
    pub content: Option<Seq<char>>,
}

impl View for IndexEntry {
    type V = IndexEntryView;

    open spec fn view(&self) -> IndexEntryView {
        IndexEntryView {
            rowid: self.rowid as int,
            name: self.name@,
            content: match self.content {
                Some(c) => Some(c@),
                None => None,
            },
        }
    }
}

/// The row of the index for the note `n`.
pub open spec fn entry_of(n: NoteView) -> IndexEntryView {
    IndexEntryView {
        rowid: n.id,
        name: folded(n.name),
        content: match n.content {
            Some(c) => Some(folded(c)),
            None => None,
        },
    }
}

/// The views of a list of index rows, in order.
pub open spec fn entry_views(s: Seq<IndexEntry>) -> Seq<IndexEntryView> {
    s.map_values(|e: IndexEntry| e@)
}

/// Whether the index `index` has one row for each note of `notes`, in
/// the same order, with the note's key, name and content.
pub open spec fn in_step(index: Seq<IndexEntryView>, notes: Seq<NoteView>) -> bool {
    index == notes.map_values(|n: NoteView| entry_of(n))
}

/// An index that was in step with the notes is in step with them again
/// where each of its rows either is the row of its note by now, or stayed
/// as it was while the key, the name and the content of its note did.
pub proof fn lemma_step_kept(
    old_index: Seq<IndexEntryView>,
    new_index: Seq<IndexEntryView>,
    before: Seq<NoteView>,
    after: Seq<NoteView>,
)
    requires
        in_step(old_index, before),
        before.len() == after.len(),
        new_index.len() == after.len(),
        forall|j: int|
            0 <= j < after.len() ==> #[trigger] new_index[j] == entry_of(after[j]) || (new_index[j]
                == old_index[j] && entry_of(after[j]) == entry_of(before[j])),
    ensures
        in_step(new_index, after),
{
    assert forall|j: int| 0 <= j < after.len() implies new_index[j] == entry_of(after[j]) by {
        assert(old_index[j] == entry_of(before[j]));
    }
    assert(new_index =~= after.map_values(|n: NoteView| entry_of(n)));
}

fn fold_one(c: char) -> (r: char)
    ensures
        r == fold_char(c),
{
    if 'A' <= c && c <= 'Z' {
        ((c as u8) + 32) as char
    } else {
        c
    }
}

/// The text `s` with its letters `A` to `Z` in lower case.
pub fn fold(s: &str) -> (r: Vec<char>)
    ensures
        r@ == folded(s@),
{
    let chars = chars_of(s);
    let mut out: Vec<char> = Vec::new();
    let mut i: usize = 0;
    while i < chars.len()
        invariant
            i <= chars.len(),
            chars@ == s@,
            out@ == folded(chars@.take(i as int)),
        decreases chars.len() - i,
    {
        out.push(fold_one(chars[i]));
        proof {
            assert(out@ =~= folded(chars@.take(i + 1)));
        }
        i += 1;
    }
    proof {
        assert(chars@.take(chars.len() as int) =~= chars@);
    }
    out
}

fn matches_at(hay: &Vec<char>, needle: &Vec<char>, k: usize) -> (r: bool)
    requires
        k + needle.len() <= hay.len(),
    ensures
        r == occurs_at(hay@, needle@, k as int),
{
    let mut j: usize = 0;
    while j < needle.len()
        invariant
            j <= needle.len(),
            k + needle.len() <= hay.len(),
            forall|t: int| 0 <= t < j ==> hay@[k + t] == needle@[t],
        decreases needle.len() - j,
    {
        if hay[k + j] != needle[j] {
            proof {
                assert(hay@.subrange(k as int, k + needle.len())[j as int] == hay@[k + j]);
            }
            return false;
        }
        j += 1;
    }
    proof {
        assert(hay@.subrange(k as int, k + needle.len()) =~= needle@);
    }
    true
}

/// Whether `needle` stands somewhere in `hay`.
pub fn contains(hay: &Vec<char>, needle: &Vec<char>) -> (r: bool)
    ensures
        r == contains_text(hay@, needle@),
{
    if needle.len() > hay.len() {
        return false;
    }
    let last = hay.len() - needle.len();
    let mut k: usize = 0;
    while k < last
        invariant
            k <= last,
            last == hay.len() - needle.len(),
            needle.len() <= hay.len(),
            forall|t: int| 0 <= t < k ==> !occurs_at(hay@, needle@, t),
        decreases last - k,
    {
        if matches_at(hay, needle, k) {
            return true;
        }
        k += 1;
    }
    matches_at(hay, needle, last)
}

} // verus!
