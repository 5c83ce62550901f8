//! The tree of notes, rebuilt from the flat list of notes and the flat
//! list of `parent` edges.
//!
//! The edges are taken one by one, in the order of the table. An edge
//! moves its target from the top level under its source, provided that
//! both stand at the top level at that moment; otherwise it changes
//! nothing, and the target stays where it is.

use vstd::prelude::*;
use crate::models::{lemma_children_views, tree_views, NoteIdName, NoteLinkIds, NoteTree};

verus! {

/// The first position in `top` of a tree with the key `id`, or the
/// length of `top` where no tree has it.
pub open spec fn position(top: Seq<NoteTree>, id: int) -> int
    decreases top.len(),
{
    if top.len() == 0 || top[0].id == id {
        0
    } else {
        1 + position(top.drop_first(), id)
    }
}

/// What one edge does to the top level.
pub open spec fn attach(top: Seq<NoteTree>, parent: int, child: int) -> Seq<NoteTree> {
    let c = position(top, child);
    let p = position(top, parent);
    if c < top.len() && p < top.len() && c != p {
        let moved = NoteTree { has_parent: true, ..top[c] };
        let grown = NoteTree { children: top[p].children.push(moved), ..top[p] };
        top.update(p, grown).remove(c)
    } else {
        top
    }
}

/// The ends of a list of edges, in order: of each its source and its
/// target.
pub open spec fn edge_views(links: Seq<NoteLinkIds>) -> Seq<(int, int)> {
    links.map_values(|l: NoteLinkIds| (l.source_note_id as int, l.target_note_id as int))
}

/// What the edges `edges`, each given by its source and its target and
/// taken from the first to the last, do to the top level.
pub open spec fn forest(top: Seq<NoteTree>, edges: Seq<(int, int)>) -> Seq<NoteTree>
    decreases edges.len(),
{
    if edges.len() == 0 {
        top
    } else {
        forest(attach(top, edges[0].0, edges[0].1), edges.drop_first())
    }
}

/// `position` is the least index that holds the key.
pub proof fn lemma_position(top: Seq<NoteTree>, id: int, i: int)
    requires
        0 <= i <= top.len(),
        forall|j: int| 0 <= j < i ==> top[j].id != id,
        i < top.len() ==> top[i].id == id,
    ensures
        position(top, id) == i,
    decreases top.len(),
{
    if top.len() == 0 || top[0].id == id {
    } else {
        let rest = top.drop_first();
        assert forall|j: int| 0 <= j < i - 1 implies rest[j].id != id by {
            assert(rest[j] == top[j + 1]);
        }
        lemma_position(rest, id, i - 1);
    }
}

/// `position` stays within the list, and what it finds has the key.
pub proof fn lemma_position_found(top: Seq<NoteTree>, id: int)
    ensures
        0 <= position(top, id) <= top.len(),
        position(top, id) < top.len() ==> top[position(top, id)].id == id,
        forall|j: int| 0 <= j < position(top, id) ==> top[j].id != id,
    decreases top.len(),
{
    if top.len() == 0 || top[0].id == id {
    } else {
        let rest = top.drop_first();
        lemma_position_found(rest, id);
        assert forall|j: int| 0 <= j < position(top, id) implies top[j].id != id by {
            if j > 0 {
                assert(rest[j - 1] == top[j]);
            }
        }
    }
}

fn find_tree(top: &Vec<NoteIdName>, id: i64) -> (r: usize)
    ensures
        r as int == position(tree_views(top@), id as int),
        r <= top.len(),
{
    let mut i: usize = 0;
    while i < top.len() && top[i].id != id
        invariant
            i <= top.len(),
            forall|j: int| 0 <= j < i ==> top@[j].id != id,
        decreases top.len() - i,
    {
        i += 1;
    }
    proof {
        lemma_position(tree_views(top@), id as int, i as int);
    }
    i
}

/// Files the notes of `notes` under one another as the edges `links` say.
#[verifier::rlimit(40)]
pub fn build_forest(notes: Vec<NoteIdName>, links: &Vec<NoteLinkIds>) -> (r: Vec<NoteIdName>)
    ensures
        tree_views(r@) == forest(tree_views(notes@), edge_views(links@)),
{
    let mut top = notes;
    let mut k: usize = 0;
    proof {
        assert(edge_views(links@).skip(0) =~= edge_views(links@));
    }
    while k < links.len()
        invariant
            k <= links.len(),
            forest(tree_views(top@), edge_views(links@).skip(k as int)) == forest(
                tree_views(notes@),
                edge_views(links@),
            ),
        decreases links.len() - k,
    {
        let link = links[k];
        let ghost before = tree_views(top@);
        let ghost rest = edge_views(links@).skip(k as int);
        proof {
            assert(rest[0] == (link.source_note_id as int, link.target_note_id as int));
            assert(rest.drop_first() =~= edge_views(links@).skip(k as int + 1));
        }
        let c = find_tree(&top, link.target_note_id);
        let p = find_tree(&top, link.source_note_id);
        if c < top.len() && p < top.len() && c != p {
            let ghost old_top = top@;
            let mut child = top.remove(c);
            child.has_parent = true;
            let q = if p > c {
                p - 1
            } else {
                p
            };
            let mut parent = top.remove(q);
            let ghost old_parent = parent;
            parent.children.push(child);
            proof {
                assert(old_parent == old_top[p as int]);
                lemma_children_views(parent);
                lemma_children_views(old_parent);
                assert(tree_views(parent.children@) =~= tree_views(old_parent.children@).push(
                    child@,
                ));
                assert(parent@.children =~= old_parent@.children.push(child@));
                assert(child@ == NoteTree { has_parent: true, ..old_top[c as int]@ });
            }
            top.insert(q, parent);
            proof {
                assert(tree_views(top@) =~= attach(
                    before,
                    link.source_note_id as int,
                    link.target_note_id as int,
                ));
            }
        }
        k += 1;
    }
    proof {
        assert(edge_views(links@).skip(links.len() as int) =~= Seq::<(int, int)>::empty());
    }
    top
}

/// The number of notes in the tree `t`: the note itself and the notes of
/// the trees filed under it.
pub open spec fn tree_size(t: NoteTree) -> nat
    decreases t, 0nat,
{
    1 + forest_size(t.children, t.children.len())
}

/// The number of notes in the first `k` trees of `s`.
pub open spec fn forest_size(s: Seq<NoteTree>, k: nat) -> nat
    decreases s, k,
{
    if k == 0 || k > s.len() {
        0
    } else {
        forest_size(s, (k - 1) as nat) + tree_size(s[k - 1])
    }
}

/// The number of notes in the trees of `s`.
pub open spec fn total_size(s: Seq<NoteTree>) -> nat {
    forest_size(s, s.len())
}

proof fn lemma_size_same(a: Seq<NoteTree>, b: Seq<NoteTree>, k: nat)
    requires
        k <= a.len(),
        k <= b.len(),
        forall|i: int| 0 <= i < k ==> a[i] == b[i],
    ensures
        forest_size(a, k) == forest_size(b, k),
    decreases k,
{
    if k > 0 {
        lemma_size_same(a, b, (k - 1) as nat);
    }
}

proof fn lemma_size_push(s: Seq<NoteTree>, t: NoteTree)
    ensures
        total_size(s.push(t)) == total_size(s) + tree_size(t),
{
    lemma_size_same(s.push(t), s, s.len());
}

proof fn lemma_size_remove(s: Seq<NoteTree>, i: int, k: nat)
    requires
        0 <= i < s.len(),
        i < k <= s.len(),
    ensures
        forest_size(s.remove(i), (k - 1) as nat) + tree_size(s[i]) == forest_size(s, k),
    decreases k,
{
    let r = s.remove(i);
    if k == i + 1 {
        lemma_size_same(r, s, i as nat);
    } else {
        lemma_size_remove(s, i, (k - 1) as nat);
        assert(r[k - 2] == s[k - 1]);
    }
}

proof fn lemma_size_update(s: Seq<NoteTree>, i: int, t: NoteTree, k: nat)
    requires
        0 <= i < s.len(),
        i < k <= s.len(),
    ensures
        forest_size(s.update(i, t), k) + tree_size(s[i]) == forest_size(s, k) + tree_size(t),
    decreases k,
{
    let u = s.update(i, t);
    if k == i + 1 {
        lemma_size_same(u, s, i as nat);
    } else {
        lemma_size_update(s, i, t, (k - 1) as nat);
        assert(u[k - 1] == s[k - 1]);
    }
}

/// No edge loses a note: the tree that the edges make holds as many
/// notes as the list that it was made from.
pub proof fn law_forest_keeps_every_note(top: Seq<NoteTree>, edges: Seq<(int, int)>)
    ensures
        total_size(forest(top, edges)) == total_size(top),
    decreases edges.len(),
{
    if edges.len() > 0 {
        let parent = edges[0].0;
        let child = edges[0].1;
        let c = position(top, child);
        let p = position(top, parent);
        lemma_position_found(top, child);
        lemma_position_found(top, parent);
        let next = attach(top, parent, child);
        if c < top.len() && p < top.len() && c != p {
            let moved = NoteTree { has_parent: true, ..top[c] };
            let grown = NoteTree { children: top[p].children.push(moved), ..top[p] };
            lemma_size_push(top[p].children, moved);
            assert(tree_size(moved) == tree_size(top[c]));
            assert(tree_size(grown) == tree_size(top[p]) + tree_size(top[c]));
            let mid = top.update(p, grown);
            lemma_size_update(top, p, grown, top.len());
            lemma_size_remove(mid, c, mid.len());
            assert(mid[c] == top[c]);
            assert(total_size(next) == total_size(top));
        }
        law_forest_keeps_every_note(next, edges.drop_first());
    }
}

} // verus!
