//! The rows of the archive and the values that its operations hand out.

use vstd::prelude::*;

verus! {

/// Seconds since the Unix epoch, in UTC.
pub type Timestamp = i64;

/// Why an operation of the archive did not take place.
#[derive(Debug, Clone, Copy, PartialEq, Eq, Structural)]
pub enum StoreError {
    /// The operation names a row that does not exist.
    NotFound,
    /// A required field is empty, or a link exists already.
    ConstraintViolation,
    /// The tables do not exist, or no key is left for a new row.
    StorageFailure,
    /// A change-set could not be encoded or decoded.
    SerializationFailure,
}

impl StoreError {
    /// What the error says.
    pub open spec fn text(self) -> Seq<char> {
        match self {
            StoreError::NotFound => "not found"@,
            StoreError::ConstraintViolation => "constraint violated"@,
            StoreError::StorageFailure => "storage failure"@,
            StoreError::SerializationFailure => "serialization failed"@,
        }
    }

    /// What the error says.
    pub fn to_string(&self) -> (r: String)
        ensures
            r@ == self.text(),
    {
        match self {
            StoreError::NotFound => "not found".to_owned(),
            StoreError::ConstraintViolation => "constraint violated".to_owned(),
            StoreError::StorageFailure => "storage failure".to_owned(),
            StoreError::SerializationFailure => "serialization failed".to_owned(),
        }
    }
}

/// One archived document.
#[derive(Debug)]
pub struct Note {
    pub id: i64,
    pub name: String,
    pub content: Option<String>,
    pub created_at: Timestamp,
    pub updated_at: Timestamp,
    pub deleted_at: Option<Timestamp>,
}

/// What a [`Note`] holds, as mathematical values.
pub struct NoteView {
    pub id: int,
    pub name: Seq<char>,
    pub content: Option<Seq<char>>,
    pub created_at: int,
    pub updated_at: int,
    pub deleted_at: Option<int>,
}

/// The text of `s`, if there is one.
pub open spec fn text_view(s: Option<String>) -> Option<Seq<char>> {
    match s {
        Some(t) => Some(t@),
        None => None,
    }
}

/// The time `t` as a number, if there is one.
pub open spec fn time_view(t: Option<Timestamp>) -> Option<int> {
    match t {
        Some(x) => Some(x as int),
        None => None,
    }
}

impl View for Note {
    type V = NoteView;

    open spec fn view(&self) -> NoteView {
        NoteView {
            id: self.id as int,
            name: self.name@,
            content: text_view(self.content),
            created_at: self.created_at as int,
            updated_at: self.updated_at as int,
            deleted_at: time_view(self.deleted_at),
        }
    }
}

impl NoteView {
    /// A note is live while it is not in the trash.
    pub open spec fn live(self) -> bool {
        self.deleted_at is None
    }
}

impl Clone for Note {
    fn clone(&self) -> (r: Self)
        ensures
            r == *self,
    {
        Note {
            id: self.id,
            name: self.name.clone(),
            content: match &self.content {
                Some(c) => Some(c.clone()),
                None => None,
            },
            created_at: self.created_at,
            updated_at: self.updated_at,
            deleted_at: self.deleted_at,
        }
    }
}

/// A note as the tree of notes shows it: its key, its name and the notes
/// filed under it.
#[derive(Debug)]
pub struct NoteIdName {
    pub id: i64,
    pub name: String,
    pub children: Vec<NoteIdName>,
    pub has_parent: bool,
}

/// What a [`NoteIdName`] holds, as mathematical values.
pub struct NoteTree {
    pub id: int,
    pub name: Seq<char>,
    pub children: Seq<NoteTree>,
    pub has_parent: bool,
}

impl View for NoteIdName {
    type V = NoteTree;

    open spec fn view(&self) -> NoteTree
        decreases self, 0nat,
    {
        NoteTree {
            id: self.id as int,
            name: self.name@,
            children: first_views(self.children@, self.children@.len()),
            has_parent: self.has_parent,
        }
    }
}

/// The views of the first `k` trees of `s`, in order.
pub open spec fn first_views(s: Seq<NoteIdName>, k: nat) -> Seq<NoteTree>
    decreases s, k,
{
    if k == 0 || k > s.len() {
        Seq::empty()
    } else {
        first_views(s, (k - 1) as nat).push(s[k - 1]@)
    }
}

/// The views of a list of trees, in order.
pub open spec fn tree_views(s: Seq<NoteIdName>) -> Seq<NoteTree> {
    s.map_values(|n: NoteIdName| n@)
}

/// `first_views` takes the view of each tree, one by one.
pub proof fn lemma_first_views(s: Seq<NoteIdName>, k: nat)
    requires
        k <= s.len(),
    ensures
        first_views(s, k) == tree_views(s.take(k as int)),
    decreases k,
{
    if k == 0 {
        assert(first_views(s, k) =~= tree_views(s.take(k as int)));
    } else {
        lemma_first_views(s, (k - 1) as nat);
        let shorter = tree_views(s.take(k - 1));
        let longer = tree_views(s.take(k as int));
        assert(first_views(s, k) == shorter.push(s[k - 1]@));
        assert(longer.len() == k);
        assert forall|i: int| 0 <= i < k implies longer[i] == shorter.push(s[k - 1]@)[i] by {
            assert(s.take(k as int)[i] == s[i]);
            if i < k - 1 {
                assert(s.take(k - 1)[i] == s[i]);
            }
        }
        assert(first_views(s, k) =~= longer);
    }
}

/// The children of a tree's view are the views of its children.
pub proof fn lemma_children_views(n: NoteIdName)
    ensures
        n@.children == tree_views(n.children@),
{
    lemma_first_views(n.children@, n.children@.len());
    assert(n.children@.take(n.children@.len() as int) =~= n.children@);
}

impl NoteIdName {
    /// A copy of the tree.
    pub fn duplicate(&self) -> (r: NoteIdName)
        ensures
            r@ == self@,
        decreases self,
    {
        let mut children: Vec<NoteIdName> = Vec::new();
        let mut i: usize = 0;
        proof {
            assert(tree_views(children@) =~= tree_views(self.children@.take(0)));
        }
        while i < self.children.len()
            invariant
                i <= self.children.len(),
                tree_views(children@) == tree_views(self.children@.take(i as int)),
            decreases self.children.len() - i,
        {
            let ghost before = children@;
            let child = self.children[i].duplicate();
            children.push(child);
            proof {
                assert(tree_views(children@) =~= tree_views(before).push(child@));
                assert(tree_views(children@) =~= tree_views(self.children@.take(i + 1)));
            }
            i += 1;
        }
        let r = NoteIdName {
            id: self.id,
            name: self.name.clone(),
            children,
            has_parent: self.has_parent,
        };
        proof {
            assert(self.children@.take(self.children.len() as int) =~= self.children@);
            lemma_children_views(r);
            lemma_children_views(*self);
        }
        r
    }
}

/// The kind of a directed edge between two notes.
#[derive(Debug, Clone, Copy, PartialEq, Eq, Structural)]
pub enum LinkType {
    Related,
    Parent,
}

/// The two ends of an edge: `target_note_id` is filed under
/// `source_note_id`.
#[derive(Debug, Clone, Copy, PartialEq, Eq, Structural)]
pub struct NoteLinkIds {
    pub source_note_id: i64,
    pub target_note_id: i64,
}

impl LinkType {
    /// The word that stands for this kind of edge.
    pub open spec fn text(self) -> Seq<char> {
        match self {
            LinkType::Related => "related"@,
            LinkType::Parent => "parent"@,
        }
    }

    /// The word that stands for this kind of edge.
    pub fn to_string(&self) -> (r: String)
        ensures
            r@ == self.text(),
    {
        match self {
            LinkType::Related => "related".to_owned(),
            LinkType::Parent => "parent".to_owned(),
        }
    }

    /// The kind of edge that the word `s` stands for.
    pub fn from_str(s: &str) -> (r: Result<LinkType, ()>)
        ensures
            s@ == LinkType::Related.text() ==> r == Ok::<LinkType, ()>(LinkType::Related),
            s@ == LinkType::Parent.text() ==> r == Ok::<LinkType, ()>(LinkType::Parent),
            s@ != LinkType::Related.text() && s@ != LinkType::Parent.text() ==> r is Err,
    {
        proof {
            reveal_strlit("related");
            reveal_strlit("parent");
            assert("related"@.len() == 7);
            assert("parent"@.len() == 6);
        }
        if crate::text::same_text(s, "related") {
            Ok(LinkType::Related)
        } else if crate::text::same_text(s, "parent") {
            Ok(LinkType::Parent)
        } else {
            Err(())
        }
    }
}

/// One row of the table of edges.
#[derive(Debug, Clone, Copy)]
pub struct NoteLink {
    pub id: i64,
    pub source_note_id: i64,
    pub target_note_id: i64,
    pub link_type: LinkType,
    pub created_at: Timestamp,
    pub updated_at: Timestamp,
    pub deleted_at: Option<Timestamp>,
}

/// What a [`NoteLink`] holds, as mathematical values.
pub struct NoteLinkView {
    pub id: int,
    pub source_note_id: int,
    pub target_note_id: int,
    pub link_type: LinkType,
    pub created_at: int,
    pub updated_at: int,
    pub deleted_at: Option<int>,
}

impl View for NoteLink {
    type V = NoteLinkView;

    open spec fn view(&self) -> NoteLinkView {
        NoteLinkView {
            id: self.id as int,
            source_note_id: self.source_note_id as int,
            target_note_id: self.target_note_id as int,
            link_type: self.link_type,
            created_at: self.created_at as int,
            updated_at: self.updated_at as int,
            deleted_at: time_view(self.deleted_at),
        }
    }
}

/// One row of the history: the change-set that made version `version` of
/// the content of the note `note_id`.
#[derive(Debug)]
pub struct NoteDiff {
    pub id: i64,
    pub note_id: i64,
    pub version: i64,
    pub diff: String,
    pub changed_at: Timestamp,
}

/// What a [`NoteDiff`] holds, as mathematical values.
pub struct NoteDiffView {
    pub id: int,
    pub note_id: int,
    pub version: int,
    pub diff: Seq<char>,
    pub changed_at: int,
}

impl View for NoteDiff {
    type V = NoteDiffView;

    open spec fn view(&self) -> NoteDiffView {
        NoteDiffView {
            id: self.id as int,
            note_id: self.note_id as int,
            version: self.version as int,
            diff: self.diff@,
            changed_at: self.changed_at as int,
        }
    }
}

impl Clone for NoteDiff {
    fn clone(&self) -> (r: Self)
        ensures
            r == *self,
    {
        NoteDiff {
            id: self.id,
            note_id: self.note_id,
            version: self.version,
            diff: self.diff.clone(),
            changed_at: self.changed_at,
        }
    }
}

/// The views of a list of notes, in order.
pub open spec fn note_views(s: Seq<Note>) -> Seq<NoteView> {
    s.map_values(|n: Note| n@)
}

/// The views of a list of edges, in order.
pub open spec fn link_views(s: Seq<NoteLink>) -> Seq<NoteLinkView> {
    s.map_values(|l: NoteLink| l@)
}

/// The views of a list of history rows, in order.
pub open spec fn history_views(s: Seq<NoteDiff>) -> Seq<NoteDiffView> {
    s.map_values(|d: NoteDiff| d@)
}

} // verus!
