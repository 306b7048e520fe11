//! Properties of the store that relate several operations.
use vstd::prelude::*;

use crate::node::{meta_of, NodeKind, NodeView, StoreError};
use crate::tree::{
    children, content_of, create_error, get, has_id, ids_increase, in_subtree, index_of,
    is_child_of, is_file, is_folder, lemma_filter_sub, lemma_get_at, lemma_push_wf, mime_for,
    lemma_reach_within_len, move_error, moved, reaches_root, rows_valid,
    new_node, outside, parent_of, pruned, tree_wf, written,
};

verus! {

/// Every entry of a listing is a node of the table with that parent.
pub proof fn lemma_children_from_table(s: Seq<NodeView>, p: Option<i64>, j: int)
    requires
        ids_increase(s),
        0 <= j < children(s, p).len(),
    ensures
        exists|i: int|
            0 <= i < s.len() && s[i].parent_id == p && children(s, p)[j] == meta_of(#[trigger] s[i]),
{
    let pred = |n: NodeView| is_child_of(n, p);
    lemma_filter_sub(s, pred);
    let f = s.filter(pred);
    assert(s.contains(f[j]));
}

/// A create hands out the next id, which no node has and which is above every
/// id in the table; the table it leaves is well formed with the next id one
/// higher. As the other operations keep the next id, the ids that a run of
/// creates returns increase, so they are pairwise distinct and never reused.
pub proof fn law_create_fresh_id(
    s: Seq<NodeView>,
    next: i64,
    parent: Option<i64>,
    name: Seq<char>,
    kind: NodeKind,
    content: Option<Seq<char>>,
    now: i64,
)
    requires
        tree_wf(s, next),
        create_error(s, next, parent, name) is None,
        kind == NodeKind::Folder ==> content is None,
    ensures
        !has_id(s, next),
        forall|i: int| 0 <= i < s.len() ==> s[i].id < next,
        has_id(s.push(new_node(next, parent, name, kind, mime_for(kind), content, now)), next),
        tree_wf(s.push(new_node(next, parent, name, kind, mime_for(kind), content, now)), (next + 1) as i64),
{
    let n = new_node(next, parent, name, kind, mime_for(kind), content, now);
    lemma_push_wf(s, next, n);
    lemma_get_at(s.push(n), s.len() as int);
}

/// Reading a file after writing `c` to it gives `c`.
pub proof fn law_write_then_read(s: Seq<NodeView>, next: i64, id: i64, c: Seq<char>, now: i64)
    requires
        tree_wf(s, next),
        is_file(s, id),
    ensures
        content_of(written(s, id, c, now), id) == Some(c),
{
    let t = written(s, id, c, now);
    let i = index_of(s, id);
    lemma_get_at(s, i);
    assert(ids_increase(t));
    assert(t[i].id == id);
    lemma_get_at(t, i);
}

/// Deleting a folder removes every node of its subtree: none of them can be
/// found or read, and no listing shows them.
pub proof fn law_delete_cascades(s: Seq<NodeView>, next: i64, f: i64, x: i64, p: Option<i64>)
    requires
        tree_wf(s, next),
        in_subtree(s, x, f),
    ensures
        !has_id(pruned(s, f), x),
        content_of(pruned(s, f), x) is None,
        forall|j: int| 0 <= j < children(pruned(s, f), p).len() ==> (#[trigger] children(pruned(s, f), p)[j]).id != x,
{
    let pred = |n: NodeView| outside(s, f, n);
    let t = pruned(s, f);
    lemma_filter_sub(s, pred);
    if has_id(t, x) {
        let j = index_of(t, x);
        assert(s.contains(t[j]));
        assert(pred(t[j]));
    }
    assert forall|j: int| 0 <= j < children(t, p).len() implies (#[trigger] children(t, p)[j]).id != x by {
        lemma_children_from_table(t, p, j);
        let i = choose|i: int| 0 <= i < t.len() && t[i].parent_id == p && children(t, p)[j] == meta_of(#[trigger] t[i]);
        assert(s.contains(t[i]));
        assert(pred(t[i]));
    }
}

/// Moving a node under a folder of its own subtree is refused as a cycle.
pub proof fn law_move_into_own_subtree(s: Seq<NodeView>, next: i64, x: i64, p: i64)
    requires
        tree_wf(s, next),
        has_id(s, x),
        is_folder(s, p),
        in_subtree(s, p, x),
    ensures
        move_error(s, x, Some(p)) == Some(StoreError::CycleDetected),
{
}

/// A move takes the node out of its old parent's listing and puts it, with its
/// name and kind, into the new parent's listing, in one step.
pub proof fn law_move_relists(s: Seq<NodeView>, next: i64, x: i64, np: Option<i64>)
    requires
        tree_wf(s, next),
        move_error(s, x, np) is None,
        parent_of(s, x) != np,
    ensures
        forall|j: int|
            0 <= j < children(moved(s, x, np), parent_of(s, x)).len() ==> (#[trigger] children(
                moved(s, x, np),
                parent_of(s, x),
            )[j]).id != x,
        children(moved(s, x, np), np).contains(meta_of(get(moved(s, x, np), x))),
        get(moved(s, x, np), x).name == get(s, x).name,
        get(moved(s, x, np), x).kind == get(s, x).kind,
{
    let t = moved(s, x, np);
    let op = parent_of(s, x);
    let ix = index_of(s, x);
    lemma_get_at(s, ix);
    assert(ids_increase(t));
    assert(t[ix].id == x);
    lemma_get_at(t, ix);
    assert forall|j: int| 0 <= j < children(t, op).len() implies (#[trigger] children(t, op)[j]).id != x by {
        lemma_children_from_table(t, op, j);
        let i = choose|i: int| 0 <= i < t.len() && t[i].parent_id == op && children(t, op)[j] == meta_of(#[trigger] t[i]);
        if t[i].id == x {
            lemma_get_at(t, i);
        }
    }
    let pred = |n: NodeView| is_child_of(n, np);
    lemma_filter_sub(t, pred);
    let f = t.filter(pred);
    assert(f.contains(t[ix]));
    let j = choose|j: int| 0 <= j < f.len() && f[j] == t[ix];
    assert(children(t, np)[j] == meta_of(t[ix]));
}

/// Every well-formed table passes the check that loading stored rows makes, so
/// reopening a store that was saved whole loads every node back, unchanged.
pub proof fn law_saved_table_loads(s: Seq<NodeView>, next: i64)
    requires
        tree_wf(s, next),
    ensures
        rows_valid(s, next),
{
    assert forall|i: int| 0 <= i < s.len() implies reaches_root(s, (#[trigger] s[i]).id, s.len()) by {
        let k = choose|k: nat| reaches_root(s, s[i].id, k);
        lemma_reach_within_len(s, s[i].id, k);
    }
}

} // verus!
