//! The mathematical model of the node table: lookups, ancestry, well-formedness,
//! what each operation makes of the table, and the lemmas behind them.
use vstd::prelude::*;

use vstd::set_lib::{lemma_int_range, lemma_len_subset, lemma_map_size, set_int_range};

use crate::node::{meta_of, NodeKind, NodeMetaView, NodeView, StoreError};

verus! {

/// The id handed to the first node of a fresh store.
pub const FIRST_ID: i64 = 1;

/// Whether some node of the table has the id.
pub open spec fn has_id(s: Seq<NodeView>, id: i64) -> bool {
    exists|i: int| 0 <= i < s.len() && s[i].id == id
}

/// The position of the node with the id.
pub open spec fn index_of(s: Seq<NodeView>, id: i64) -> int {
    choose|i: int| 0 <= i < s.len() && s[i].id == id
}

/// The node with the id (meaningful where `has_id(s, id)`).
pub open spec fn get(s: Seq<NodeView>, id: i64) -> NodeView {
    s[index_of(s, id)]
}

/// The parent of the node with the id, `None` for a root node or a missing id.
pub open spec fn parent_of(s: Seq<NodeView>, id: i64) -> Option<i64> {
    if has_id(s, id) {
        get(s, id).parent_id
    } else {
        None
    }
}

/// Whether the id names a file.
pub open spec fn is_file(s: Seq<NodeView>, id: i64) -> bool {
    has_id(s, id) && get(s, id).kind == NodeKind::File
}

/// Whether the id names a folder.
pub open spec fn is_folder(s: Seq<NodeView>, id: i64) -> bool {
    has_id(s, id) && get(s, id).kind == NodeKind::Folder
}

/// What reading the node gives: the content of a file, nothing for a folder
/// or a missing id.
pub open spec fn content_of(s: Seq<NodeView>, id: i64) -> Option<Seq<char>> {
    if is_file(s, id) {
        get(s, id).content
    } else {
        None
    }
}

/// Following parent links from `x` reaches the top of the tree within `k` steps,
/// through existing nodes only.
pub open spec fn reaches_root(s: Seq<NodeView>, x: i64, k: nat) -> bool
    decreases k,
{
    has_id(s, x) && match parent_of(s, x) {
        None => true,
        Some(p) => k > 0 && reaches_root(s, p, (k - 1) as nat),
    }
}

/// `a` is `x` or one of its first `k` ancestors.
pub open spec fn within(s: Seq<NodeView>, x: i64, a: i64, k: nat) -> bool
    decreases k,
{
    x == a || (k > 0 && match parent_of(s, x) {
        Some(p) => within(s, p, a, (k - 1) as nat),
        None => false,
    })
}

/// `x` lies in the subtree of `a`: it is `a` or a descendant of it.
pub open spec fn in_subtree(s: Seq<NodeView>, x: i64, a: i64) -> bool {
    exists|k: nat| within(s, x, a, k)
}

/// The shape of a table that holds a tree: ids increase along the table and
/// stay below the next id, each parent is an existing folder, only files hold
/// content, and names are not empty.
pub open spec fn tree_shape(s: Seq<NodeView>, next: i64) -> bool {
    &&& FIRST_ID <= next
    &&& forall|i: int, j: int| 0 <= i < j < s.len() ==> s[i].id < s[j].id
    &&& forall|i: int| 0 <= i < s.len() ==> FIRST_ID <= #[trigger] s[i].id < next
    &&& forall|i: int| 0 <= i < s.len() ==> (#[trigger] s[i]).name.len() > 0
    &&& forall|i: int|
        0 <= i < s.len() && (#[trigger] s[i]).kind == NodeKind::Folder ==> s[i].content is None
    &&& forall|i: int|
        0 <= i < s.len() && (#[trigger] s[i]).parent_id is Some ==> is_folder(
            s,
            s[i].parent_id->0,
        )
}

/// The table is a well-formed tree: it has the shape of one, and from every
/// node the parent links reach the top.
pub open spec fn tree_wf(s: Seq<NodeView>, next: i64) -> bool {
    &&& tree_shape(s, next)
    &&& forall|i: int| 0 <= i < s.len() ==> exists|k: nat| reaches_root(s, (#[trigger] s[i]).id, k)
}

/// Stored rows that a store can take: they have the shape of a tree, and from
/// every node the top is reached in at most as many steps as there are rows.
pub open spec fn rows_valid(s: Seq<NodeView>, next: i64) -> bool {
    &&& tree_shape(s, next)
    &&& forall|i: int| 0 <= i < s.len() ==> reaches_root(s, (#[trigger] s[i]).id, s.len())
}

/// A new node as `create` makes it.
pub open spec fn new_node(
    id: i64,
    parent_id: Option<i64>,
    name: Seq<char>,
    kind: NodeKind,
    mime: Seq<char>,
    content: Option<Seq<char>>,
    now: i64,
) -> NodeView {
    NodeView { id, parent_id, name, kind, mime, content, created_at: now, updated_at: now }
}

/// Why a node cannot go under `parent`, if it cannot.
pub open spec fn parent_error(s: Seq<NodeView>, parent: Option<i64>) -> Option<StoreError> {
    match parent {
        None => None,
        Some(p) => if !has_id(s, p) {
            Some(StoreError::NotFound)
        } else if !is_folder(s, p) {
            Some(StoreError::ReferentialIntegrity)
        } else {
            None
        },
    }
}

/// Why a node named `name` cannot be created under `parent`, if it cannot.
pub open spec fn create_error(
    s: Seq<NodeView>,
    next: i64,
    parent: Option<i64>,
    name: Seq<char>,
) -> Option<StoreError> {
    if name.len() == 0 {
        Some(StoreError::EmptyName)
    } else if next == i64::MAX {
        Some(StoreError::StorageFailure)
    } else {
        parent_error(s, parent)
    }
}

/// In a table with increasing ids, the node at a position is the one its id finds.
pub proof fn lemma_get_at(s: Seq<NodeView>, i: int)
    requires
        forall|a: int, b: int| 0 <= a < b < s.len() ==> s[a].id < s[b].id,
        0 <= i < s.len(),
    ensures
        has_id(s, s[i].id),
        index_of(s, s[i].id) == i,
        get(s, s[i].id) == s[i],
{
    let j = index_of(s, s[i].id);
    assert(0 <= j < s.len() && s[j].id == s[i].id);
}

/// The mime type a new node of the kind gets.
pub open spec fn mime_for(kind: NodeKind) -> Seq<char> {
    match kind {
        NodeKind::File => "text/markdown"@,
        NodeKind::Folder => Seq::<char>::empty(),
    }
}

/// Ids increase along the table.
pub open spec fn ids_increase(s: Seq<NodeView>) -> bool {
    forall|i: int, j: int| 0 <= i < j < s.len() ==> s[i].id < s[j].id
}

/// One step up: for `x` other than `a`, `x` lies under `a` exactly when its parent does.
pub proof fn lemma_subtree_step(s: Seq<NodeView>, x: i64, a: i64, p: i64)
    requires
        x != a,
        parent_of(s, x) == Some(p),
    ensures
        in_subtree(s, x, a) == in_subtree(s, p, a),
{
    if in_subtree(s, x, a) {
        let k = choose|k: nat| within(s, x, a, k);
        assert(within(s, p, a, (k - 1) as nat));
    }
    if in_subtree(s, p, a) {
        let k = choose|k: nat| within(s, p, a, k);
        assert(within(s, x, a, k + 1));
    }
}

/// A root node other than `a` does not lie under `a`.
pub proof fn lemma_subtree_top(s: Seq<NodeView>, x: i64, a: i64)
    requires
        x != a,
        parent_of(s, x) is None,
    ensures
        !in_subtree(s, x, a),
{
    assert forall|k: nat| !within(s, x, a, k) by {}
}

/// More steps allowed never hurt.
pub proof fn lemma_reach_more(s: Seq<NodeView>, x: i64, k: nat, m: nat)
    requires
        reaches_root(s, x, k),
        k <= m,
    ensures
        reaches_root(s, x, m),
    decreases k,
{
    if let Some(p) = parent_of(s, x) {
        lemma_reach_more(s, p, (k - 1) as nat, (m - 1) as nat);
    }
}

/// Appending a node with a larger id keeps every existing node where it was.
pub proof fn lemma_push_get(s: Seq<NodeView>, n: NodeView, id: i64)
    requires
        ids_increase(s),
        forall|i: int| 0 <= i < s.len() ==> #[trigger] s[i].id < n.id,
        has_id(s, id),
    ensures
        ids_increase(s.push(n)),
        has_id(s.push(n), id),
        get(s.push(n), id) == get(s, id),
{
    let t = s.push(n);
    let i = index_of(s, id);
    assert(t[i] == s[i]);
    lemma_get_at(t, i);
}

/// Appending a node with a larger id keeps every path to the top.
pub proof fn lemma_push_reach(s: Seq<NodeView>, n: NodeView, x: i64, k: nat)
    requires
        ids_increase(s),
        forall|i: int| 0 <= i < s.len() ==> #[trigger] s[i].id < n.id,
        reaches_root(s, x, k),
    ensures
        reaches_root(s.push(n), x, k),
    decreases k,
{
    lemma_push_get(s, n, x);
    if let Some(p) = parent_of(s, x) {
        lemma_push_reach(s, n, p, (k - 1) as nat);
    }
}

/// Appending a fresh node under an existing folder keeps the tree well formed.
pub proof fn lemma_push_wf(s: Seq<NodeView>, next: i64, n: NodeView)
    requires
        tree_wf(s, next),
        n.id == next,
        next < i64::MAX,
        n.name.len() > 0,
        n.kind == NodeKind::Folder ==> n.content is None,
        parent_error(s, n.parent_id) is None,
    ensures
        tree_wf(s.push(n), (next + 1) as i64),
        get(s.push(n), n.id) == n,
{
    let t = s.push(n);
    assert(forall|i: int| 0 <= i < s.len() ==> #[trigger] s[i].id < n.id);
    lemma_get_at(t, s.len() as int);
    assert forall|i: int|
        0 <= i < t.len() && (#[trigger] t[i]).parent_id is Some implies is_folder(
            t,
            t[i].parent_id->0,
        ) by {
        lemma_push_get(s, n, t[i].parent_id->0);
    }
    assert forall|i: int| 0 <= i < t.len() implies exists|k: nat| reaches_root(t, (#[trigger] t[i]).id, k) by {
        if i < s.len() {
            assert(t[i] == s[i]);
            let k = choose|k: nat| reaches_root(s, s[i].id, k);
            lemma_push_reach(s, n, s[i].id, k);
        } else {
            if let Some(p) = n.parent_id {
                let j = index_of(s, p);
                lemma_get_at(s, j);
                let k = choose|k: nat| reaches_root(s, s[j].id, k);
                lemma_push_reach(s, n, p, k);
                assert(reaches_root(t, n.id, k + 1));
            } else {
                assert(reaches_root(t, n.id, 0));
            }
        }
    }
}

/// The table after a write of `c` to the file `id` at time `now`.
pub open spec fn written(s: Seq<NodeView>, id: i64, c: Seq<char>, now: i64) -> Seq<NodeView> {
    let n = get(s, id);
    s.update(
        index_of(s, id),
        NodeView {
            id: n.id,
            parent_id: n.parent_id,
            name: n.name,
            kind: n.kind,
            mime: n.mime,
            content: Some(c),
            created_at: n.created_at,
            updated_at: now,
        },
    )
}

/// The node's parent is `p`.
pub open spec fn is_child_of(n: NodeView, p: Option<i64>) -> bool {
    n.parent_id == p
}

/// The listing of the children of `p` (of the top for `None`), in table order.
pub open spec fn children(s: Seq<NodeView>, p: Option<i64>) -> Seq<NodeMetaView> {
    s.filter(|n: NodeView| is_child_of(n, p)).map_values(|n: NodeView| meta_of(n))
}

/// Two tables with the same ids and parent links at each position.
pub open spec fn same_links(s: Seq<NodeView>, t: Seq<NodeView>) -> bool {
    &&& s.len() == t.len()
    &&& forall|i: int|
        0 <= i < s.len() ==> (#[trigger] t[i]).id == s[i].id && t[i].parent_id == s[i].parent_id
}

/// Tables with the same links have the same paths to the top.
pub proof fn lemma_same_links_reach(s: Seq<NodeView>, t: Seq<NodeView>, x: i64, k: nat)
    requires
        ids_increase(s),
        same_links(s, t),
        reaches_root(s, x, k),
    ensures
        reaches_root(t, x, k),
        index_of(t, x) == index_of(s, x),
    decreases k,
{
    let j = index_of(s, x);
    assert(t[j].id == s[j].id);
    assert(ids_increase(t));
    lemma_get_at(t, j);
    if let Some(p) = parent_of(s, x) {
        lemma_same_links_reach(s, t, p, (k - 1) as nat);
    }
}

/// A table with the same links, kinds and names as a well-formed one, whose
/// folders hold no content, is well formed.
pub proof fn lemma_same_links_wf(s: Seq<NodeView>, t: Seq<NodeView>, next: i64)
    requires
        tree_wf(s, next),
        same_links(s, t),
        forall|i: int|
            0 <= i < s.len() ==> (#[trigger] t[i]).kind == s[i].kind && t[i].name == s[i].name,
        forall|i: int|
            0 <= i < t.len() && (#[trigger] t[i]).kind == NodeKind::Folder ==> t[i].content is None,
    ensures
        tree_wf(t, next),
{
    assert(ids_increase(t));
    assert forall|i: int|
        0 <= i < t.len() && (#[trigger] t[i]).parent_id is Some implies is_folder(
            t,
            t[i].parent_id->0,
        ) by {
        assert(s[i].parent_id is Some);
        let j = index_of(s, s[i].parent_id->0);
        assert(t[j].id == s[j].id);
        lemma_get_at(t, j);
    }
    assert forall|i: int| 0 <= i < t.len() implies exists|k: nat| reaches_root(t, (#[trigger] t[i]).id, k) by {
        assert(t[i].id == s[i].id);
        let k = choose|k: nat| reaches_root(s, s[i].id, k);
        lemma_same_links_reach(s, t, s[i].id, k);
    }
}

/// Keeps the node: it does not lie in the subtree of `a`.
pub open spec fn outside(s: Seq<NodeView>, a: i64, n: NodeView) -> bool {
    !in_subtree(s, n.id, a)
}

/// The table after the subtree of `a` is removed.
pub open spec fn pruned(s: Seq<NodeView>, a: i64) -> Seq<NodeView> {
    s.filter(|n: NodeView| outside(s, a, n))
}

/// Filtering keeps ids increasing, keeps only nodes of the table that pass, and
/// keeps each of them.
pub proof fn lemma_filter_sub(s: Seq<NodeView>, pred: spec_fn(NodeView) -> bool)
    requires
        ids_increase(s),
    ensures
        ids_increase(s.filter(pred)),
        forall|j: int|
            0 <= j < s.filter(pred).len() ==> pred(#[trigger] s.filter(pred)[j]) && s.contains(
                s.filter(pred)[j],
            ),
        forall|i: int| 0 <= i < s.len() && pred(#[trigger] s[i]) ==> s.filter(pred).contains(s[i]),
    decreases s.len(),
{
    reveal(Seq::filter);
    if s.len() > 0 {
        let r = s.drop_last();
        let last = s.last();
        assert(ids_increase(r));
        lemma_filter_sub(r, pred);
        let f = r.filter(pred);
        assert forall|j: int| 0 <= j < f.len() implies (#[trigger] f[j]).id < last.id && s.contains(f[j]) by {
            assert(r.contains(f[j]));
            let i = choose|i: int| 0 <= i < r.len() && r[i] == f[j];
            assert(s[i] == f[j]);
        }
        if pred(last) {
            let t = f.push(last);
            assert(s.filter(pred) == t);
            assert forall|j: int| 0 <= j < t.len() implies pred(#[trigger] t[j]) && s.contains(t[j]) by {
                if j < f.len() {
                    assert(t[j] == f[j]);
                } else {
                    assert(s[s.len() - 1] == t[j]);
                }
            }
            assert forall|i: int| 0 <= i < s.len() && pred(#[trigger] s[i]) implies t.contains(s[i]) by {
                if i < s.len() - 1 {
                    assert(r[i] == s[i]);
                    assert(f.contains(r[i]));
                    let j = choose|j: int| 0 <= j < f.len() && f[j] == r[i];
                    assert(t[j] == s[i]);
                } else {
                    assert(t[t.len() - 1] == s[i]);
                }
            }
        } else {
            assert(s.filter(pred) == f);
            assert forall|i: int| 0 <= i < s.len() && pred(#[trigger] s[i]) implies f.contains(s[i]) by {
                if i < s.len() - 1 {
                    assert(r[i] == s[i]);
                }
            }
        }
    }
}

/// A node that passes the filter is found in the filtered table as it was.
pub proof fn lemma_filter_keeps(s: Seq<NodeView>, pred: spec_fn(NodeView) -> bool, x: i64)
    requires
        ids_increase(s),
        has_id(s, x),
        pred(get(s, x)),
    ensures
        has_id(s.filter(pred), x),
        get(s.filter(pred), x) == get(s, x),
{
    lemma_filter_sub(s, pred);
    let t = s.filter(pred);
    let i = index_of(s, x);
    assert(t.contains(s[i]));
    let j = choose|j: int| 0 <= j < t.len() && t[j] == s[i];
    lemma_get_at(t, j);
}

/// The parent of a node outside the subtree of `a` is outside it too.
pub proof fn lemma_parent_outside(s: Seq<NodeView>, a: i64, x: i64, p: i64)
    requires
        !in_subtree(s, x, a),
        parent_of(s, x) == Some(p),
    ensures
        !in_subtree(s, p, a),
{
    assert(within(s, x, x, 0));
    if x != a {
        lemma_subtree_step(s, x, a, p);
    } else {
        assert(within(s, x, a, 0));
    }
}

/// Removing a subtree keeps the paths to the top of the nodes that stay.
pub proof fn lemma_prune_reach(s: Seq<NodeView>, a: i64, x: i64, k: nat)
    requires
        ids_increase(s),
        reaches_root(s, x, k),
        !in_subtree(s, x, a),
    ensures
        reaches_root(pruned(s, a), x, k),
    decreases k,
{
    let pred = |n: NodeView| outside(s, a, n);
    lemma_filter_keeps(s, pred, x);
    if let Some(p) = parent_of(s, x) {
        lemma_parent_outside(s, a, x, p);
        lemma_prune_reach(s, a, p, (k - 1) as nat);
    }
}

/// Removing a subtree keeps the tree well formed.
pub proof fn lemma_prune_wf(s: Seq<NodeView>, next: i64, a: i64)
    requires
        tree_wf(s, next),
    ensures
        tree_wf(pruned(s, a), next),
{
    let pred = |n: NodeView| outside(s, a, n);
    let t = pruned(s, a);
    lemma_filter_sub(s, pred);
    assert forall|j: int| 0 <= j < t.len() implies exists|i: int| 0 <= i < s.len() && s[i] == #[trigger] t[j] by {
        assert(s.contains(t[j]));
    }
    assert forall|j: int|
        0 <= j < t.len() && (#[trigger] t[j]).parent_id is Some implies is_folder(
            t,
            t[j].parent_id->0,
        ) by {
        let i = choose|i: int| 0 <= i < s.len() && s[i] == t[j];
        let p = s[i].parent_id->0;
        lemma_get_at(s, i);
        lemma_parent_outside(s, a, s[i].id, p);
        lemma_filter_keeps(s, pred, p);
    }
    assert forall|j: int| 0 <= j < t.len() implies exists|k: nat| reaches_root(t, (#[trigger] t[j]).id, k) by {
        let i = choose|i: int| 0 <= i < s.len() && s[i] == t[j];
        let k = choose|k: nat| reaches_root(s, s[i].id, k);
        lemma_prune_reach(s, a, s[i].id, k);
    }
}

/// Why `id` cannot move under `new_parent`, if it cannot.
pub open spec fn move_error(s: Seq<NodeView>, id: i64, new_parent: Option<i64>) -> Option<StoreError> {
    if !has_id(s, id) {
        Some(StoreError::NotFound)
    } else if parent_error(s, new_parent) is Some {
        parent_error(s, new_parent)
    } else if new_parent is Some && in_subtree(s, new_parent->0, id) {
        Some(StoreError::CycleDetected)
    } else {
        None
    }
}

/// The table after `id` moves under `new_parent`.
pub open spec fn moved(s: Seq<NodeView>, id: i64, new_parent: Option<i64>) -> Seq<NodeView> {
    let n = get(s, id);
    s.update(
        index_of(s, id),
        NodeView {
            id: n.id,
            parent_id: new_parent,
            name: n.name,
            kind: n.kind,
            mime: n.mime,
            content: n.content,
            created_at: n.created_at,
            updated_at: n.updated_at,
        },
    )
}

/// After a move, every node is found where it was, and only the moved one has
/// a new parent.
pub proof fn lemma_moved_get(s: Seq<NodeView>, x: i64, np: Option<i64>, y: i64)
    requires
        ids_increase(s),
        has_id(s, x),
        has_id(s, y),
    ensures
        ids_increase(moved(s, x, np)),
        has_id(moved(s, x, np), y),
        index_of(moved(s, x, np), y) == index_of(s, y),
        y != x ==> get(moved(s, x, np), y) == get(s, y),
        y == x ==> get(moved(s, x, np), y).parent_id == np,
        get(moved(s, x, np), y).kind == get(s, y).kind,
{
    let t = moved(s, x, np);
    lemma_get_at(s, index_of(s, x));
    let j = index_of(s, y);
    lemma_get_at(s, j);
    assert(ids_increase(t));
    assert(t[j].id == s[j].id);
    lemma_get_at(t, j);
}

/// A move keeps the paths to the top of the nodes outside the moved subtree.
pub proof fn lemma_move_reach_out(s: Seq<NodeView>, x: i64, np: Option<i64>, y: i64, k: nat)
    requires
        ids_increase(s),
        has_id(s, x),
        reaches_root(s, y, k),
        !in_subtree(s, y, x),
    ensures
        reaches_root(moved(s, x, np), y, k),
    decreases k,
{
    assert(within(s, y, y, 0));
    lemma_moved_get(s, x, np, y);
    if let Some(p) = parent_of(s, y) {
        lemma_parent_outside(s, x, y, p);
        lemma_move_reach_out(s, x, np, p, (k - 1) as nat);
    }
}

/// A move gives each node of the moved subtree a path to the top through the
/// new parent.
pub proof fn lemma_move_reach_in(s: Seq<NodeView>, x: i64, np: Option<i64>, y: i64, j: nat, kp: nat)
    requires
        ids_increase(s),
        has_id(s, x),
        has_id(s, y),
        within(s, y, x, j),
        np is Some ==> reaches_root(moved(s, x, np), np->0, kp),
        forall|i: int| 0 <= i < s.len() && (#[trigger] s[i]).parent_id is Some ==> has_id(s, s[i].parent_id->0),
    ensures
        reaches_root(moved(s, x, np), y, j + 1 + kp),
    decreases j,
{
    let t = moved(s, x, np);
    lemma_moved_get(s, x, np, y);
    if y == x {
        match np {
            None => {
                assert(reaches_root(t, y, 0));
                lemma_reach_more(t, y, 0, j + 1 + kp);
            },
            Some(p) => {
                assert(reaches_root(t, y, kp + 1));
                lemma_reach_more(t, y, kp + 1, j + 1 + kp);
            },
        }
    } else {
        let q = parent_of(s, y)->0;
        let i = index_of(s, y);
        assert(s[i].parent_id is Some);
        lemma_move_reach_in(s, x, np, q, (j - 1) as nat, kp);
    }
}

/// A move that `move_error` allows keeps the tree well formed.
pub proof fn lemma_move_wf(s: Seq<NodeView>, next: i64, x: i64, np: Option<i64>)
    requires
        tree_wf(s, next),
        move_error(s, x, np) is None,
    ensures
        tree_wf(moved(s, x, np), next),
{
    let t = moved(s, x, np);
    let ix = index_of(s, x);
    lemma_get_at(s, ix);
    assert(forall|i: int| 0 <= i < s.len() && i != ix ==> t[i] == s[i]);
    assert forall|i: int|
        0 <= i < t.len() && (#[trigger] t[i]).parent_id is Some implies is_folder(
            t,
            t[i].parent_id->0,
        ) by {
        let p = t[i].parent_id->0;
        if i != ix {
            assert(is_folder(s, p));
        }
        lemma_moved_get(s, x, np, p);
    }
    let kp: nat = match np {
        Some(p) => {
            let jp = index_of(s, p);
            lemma_get_at(s, jp);
            choose|k: nat| reaches_root(s, s[jp].id, k)
        },
        None => 0,
    };
    if let Some(p) = np {
        let jp = index_of(s, p);
        lemma_get_at(s, jp);
        assert(exists|k: nat| reaches_root(s, s[jp].id, k));
        lemma_move_reach_out(s, x, np, p, kp);
    }
    assert forall|i: int| 0 <= i < t.len() implies exists|k: nat| reaches_root(t, (#[trigger] t[i]).id, k) by {
        let y = s[i].id;
        assert(t[i].id == y);
        lemma_get_at(s, i);
        if in_subtree(s, y, x) {
            let j = choose|j: nat| within(s, y, x, j);
            lemma_move_reach_in(s, x, np, y, j, kp);
        } else {
            let k = choose|k: nat| reaches_root(s, s[i].id, k);
            lemma_move_reach_out(s, x, np, y, k);
        }
    }
}

/// How many parent links lead from `x` to the top, following at most `k`.
pub open spec fn hops(s: Seq<NodeView>, x: i64, k: nat) -> nat
    decreases k,
{
    match parent_of(s, x) {
        Some(p) => if k > 0 {
            1 + hops(s, p, (k - 1) as nat)
        } else {
            0
        },
        None => 0,
    }
}

/// The node `i` parent links above `x`.
pub open spec fn ancestor(s: Seq<NodeView>, x: i64, i: nat) -> i64
    decreases i,
{
    if i == 0 {
        x
    } else {
        match parent_of(s, x) {
            Some(p) => ancestor(s, p, (i - 1) as nat),
            None => x,
        }
    }
}

/// The number of links to the top does not depend on the steps allowed, and
/// that many steps suffice.
pub proof fn lemma_hops_fuel(s: Seq<NodeView>, x: i64, k1: nat, k2: nat)
    requires
        reaches_root(s, x, k1),
        reaches_root(s, x, k2),
    ensures
        hops(s, x, k1) == hops(s, x, k2),
        hops(s, x, k1) <= k1,
        reaches_root(s, x, hops(s, x, k1)),
    decreases k1,
{
    if let Some(p) = parent_of(s, x) {
        lemma_hops_fuel(s, p, (k1 - 1) as nat, (k2 - 1) as nat);
    }
}

/// Each node on the way from `x` to the top reaches it in that many fewer links.
pub proof fn lemma_ancestor_hops(s: Seq<NodeView>, x: i64, k: nat, i: nat)
    requires
        reaches_root(s, x, k),
        i <= hops(s, x, k),
    ensures
        i <= k,
        reaches_root(s, ancestor(s, x, i), (k - i) as nat),
        hops(s, ancestor(s, x, i), (k - i) as nat) == hops(s, x, k) - i,
    decreases i,
{
    lemma_hops_fuel(s, x, k, k);
    if i > 0 {
        let p = parent_of(s, x)->0;
        lemma_ancestor_hops(s, p, (k - 1) as nat, (i - 1) as nat);
    }
}

/// In a table with increasing ids, a node that reaches the top does so in
/// fewer links than there are nodes: the nodes on the way are all different.
pub proof fn lemma_reach_within_len(s: Seq<NodeView>, x: i64, k: nat)
    requires
        ids_increase(s),
        reaches_root(s, x, k),
    ensures
        reaches_root(s, x, s.len()),
{
    lemma_hops_fuel(s, x, k, k);
    let h = hops(s, x, k);
    let f = |i: int| index_of(s, ancestor(s, x, i as nat));
    let dom = set_int_range(0, h as int + 1);
    lemma_int_range(0, h as int + 1);
    assert forall|i: int| dom.contains(i) implies 0 <= #[trigger] f(i) < s.len() && s[f(i)].id == ancestor(
        s,
        x,
        i as nat,
    ) by {
        lemma_ancestor_hops(s, x, k, i as nat);
    }
    assert forall|i: int, j: int| dom.contains(i) && dom.contains(j) && #[trigger] f(i) == #[trigger] f(j) implies i == j by {
        lemma_ancestor_hops(s, x, k, i as nat);
        lemma_ancestor_hops(s, x, k, j as nat);
        let y = ancestor(s, x, i as nat);
        assert(y == ancestor(s, x, j as nat));
        lemma_hops_fuel(s, y, (k - i) as nat, (k - j) as nat);
    }
    let img = dom.map(f);
    lemma_map_size(dom, img, f);
    let all = set_int_range(0, s.len() as int);
    lemma_int_range(0, s.len() as int);
    assert forall|y: int| img.contains(y) implies all.contains(y) by {
        let i = choose|i: int| dom.contains(i) && f(i) == y;
    }
    lemma_len_subset(img, all);
    lemma_reach_more(s, x, h, s.len());
}

} // verus!
