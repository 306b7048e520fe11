//! The node table and its operations.
use vstd::prelude::*;

use crate::clock::now_millis;
use crate::node::{node_views, copy_opt, meta_of, opt_view, str_opt_view, Node, NodeKind, NodeMeta, NodeView, StoreError};
use crate::tree::{
    content_of, create_error, get, has_id, ids_increase, in_subtree, index_of, is_file, is_folder,
    lemma_get_at, lemma_push_wf, lemma_subtree_step, lemma_subtree_top, mime_for, new_node,
    reaches_root, tree_wf, within, written, children, is_child_of,
    lemma_same_links_wf, outside, pruned, lemma_prune_wf, move_error, moved, lemma_move_wf, rows_valid, tree_shape, FIRST_ID,
};

verus! {

/// The node table of a markdown editor: folders and files in a tree.
pub struct Db {
    nodes: Vec<Node>,
    next_id: i64,
}

impl Db {
    /// The nodes, in the order in which they were created.
    pub closed spec fn nodes(&self) -> Seq<NodeView> {
        node_views(self.nodes@)
    }

    /// The id that the next node created will get.
    pub closed spec fn next(&self) -> i64 {
        self.next_id
    }

    pub open spec fn wf(&self) -> bool {
        tree_wf(self.nodes(), self.next())
    }

    /// An empty store.
    pub fn new() -> (r: Db)
        ensures
            r.wf(),
            r.nodes() == Seq::<NodeView>::empty(),
            r.next() == FIRST_ID,
    {
        let r = Db { nodes: Vec::new(), next_id: FIRST_ID };
        assert(r.nodes() =~= Seq::<NodeView>::empty());
        r
    }

    /// The position of the node with the id, if there is one.
    fn find_index(&self, id: i64) -> (r: Option<usize>)
        requires
            ids_increase(self.nodes()),
        ensures
            match r {
                Some(i) => i < self.nodes().len() && self.nodes()[i as int].id == id
                    && index_of(self.nodes(), id) == i && has_id(self.nodes(), id),
                None => !has_id(self.nodes(), id),
            },
    {
        let ghost s = self.nodes();
        let mut i: usize = 0;
        while i < self.nodes.len()
            invariant
                s == self.nodes(),
                ids_increase(s),
                i <= self.nodes.len(),
                forall|j: int| 0 <= j < i ==> s[j].id != id,
            decreases self.nodes.len() - i,
        {
            assert(s[i as int] == self.nodes@[i as int]@);
            if self.nodes[i].id == id {
                proof {
                    lemma_get_at(s, i as int);
                }
                return Some(i);
            }
            i = i + 1;
        }
        None
    }

    /// The text of a file; `None` for a folder, a file without content, or a
    /// missing id.
    pub fn read_file(&self, id: i64) -> (r: Option<String>)
        requires
            self.wf(),
        ensures
            crate::node::opt_view(r) == content_of(self.nodes(), id),
    {
        match self.find_index(id) {
            Some(i) => {
                assert(self.nodes()[i as int] == self.nodes@[i as int]@);
                if self.nodes[i].kind == NodeKind::File {
                    copy_opt(&self.nodes[i].content)
                } else {
                    None
                }
            },
            None => None,
        }
    }
    /// Whether `x` lies in the subtree of `a` (is `a` or a descendant of it),
    /// found by walking up from `x`.
    pub fn in_subtree_of(&self, x: i64, a: i64) -> (r: bool)
        requires
            self.wf(),
        ensures
            r == in_subtree(self.nodes(), x, a),
    {
        let ghost s = self.nodes();
        proof {
            if has_id(s, x) {
                let i = index_of(s, x);
                assert(exists|k: nat| reaches_root(s, s[i].id, k));
            }
        }
        let ghost mut k: nat = choose|k: nat| reaches_root(s, x, k);
        let mut cur = x;
        loop
            invariant
                s == self.nodes(),
                self.wf(),
                has_id(s, cur) ==> reaches_root(s, cur, k),
                in_subtree(s, x, a) == in_subtree(s, cur, a),
            decreases k,
        {
            if cur == a {
                assert(within(s, cur, a, 0));
                return true;
            }
            let i = match self.find_index(cur) {
                Some(i) => i,
                None => {
                    proof {
                        lemma_subtree_top(s, cur, a);
                    }
                    return false;
                },
            };
            assert(s[i as int] == self.nodes@[i as int]@);
            match self.nodes[i].parent_id {
                None => {
                    proof {
                        lemma_subtree_top(s, cur, a);
                    }
                    return false;
                },
                Some(p) => {
                    proof {
                        lemma_subtree_step(s, cur, a, p);
                        k = (k - 1) as nat;
                    }
                    cur = p;
                },
            }
        }
    }

    /// Adds a node of the kind under `parent_id`, stamped with `now`.
    fn create_at(
        &mut self,
        parent_id: Option<i64>,
        name: &str,
        kind: NodeKind,
        content: Option<String>,
        now: i64,
    ) -> (r: Result<i64, StoreError>)
        requires
            old(self).wf(),
            kind == NodeKind::Folder ==> content is None,
        ensures
            final(self).wf(),
            match r {
                Ok(id) => create_error(old(self).nodes(), old(self).next(), parent_id, name@) is None
                    && id == old(self).next() && final(self).next() == id + 1
                    && final(self).nodes() == old(self).nodes().push(
                    new_node(id, parent_id, name@, kind, mime_for(kind), opt_view(content), now),
                ),
                Err(e) => create_error(old(self).nodes(), old(self).next(), parent_id, name@)
                    == Some(e) && final(self).nodes() == old(self).nodes() && final(self).next()
                    == old(self).next(),
            },
    {
        if name.is_empty() {
            return Err(StoreError::EmptyName);
        }
        if self.next_id == i64::MAX {
            return Err(StoreError::StorageFailure);
        }
        if let Some(p) = parent_id {
            match self.find_index(p) {
                None => {
                    return Err(StoreError::NotFound);
                },
                Some(i) => {
                    assert(self.nodes()[i as int] == self.nodes@[i as int]@);
                    if self.nodes[i].kind != NodeKind::Folder {
                        return Err(StoreError::ReferentialIntegrity);
                    }
                },
            }
        }
        let id = self.next_id;
        let mime = match kind {
            NodeKind::File => "text/markdown".to_owned(),
            NodeKind::Folder => String::new(),
        };
        proof {
            reveal_strlit("text/markdown");
        }
        let node = Node {
            id,
            parent_id,
            name: name.to_owned(),
            kind,
            mime,
            content,
            created_at: now,
            updated_at: now,
        };
        let ghost s = self.nodes();
        proof {
            lemma_push_wf(s, id, node@);
        }
        self.nodes.push(node);
        self.next_id = id + 1;
        assert(self.nodes() =~= s.push(node@));
        Ok(id)
    }

    /// Adds a file named `name` under `parent_id` (at the top for `None`),
    /// stamped with `now`, and returns its id.
    pub fn create_file_at(&mut self, parent_id: Option<i64>, name: &str, content: Option<&str>, now: i64) -> (r: Result<i64, StoreError>)
        requires
            old(self).wf(),
        ensures
            final(self).wf(),
            match r {
                Ok(id) => create_error(old(self).nodes(), old(self).next(), parent_id, name@) is None
                    && id == old(self).next() && final(self).next() == id + 1
                    && final(self).nodes() == old(self).nodes().push(
                    new_node(id, parent_id, name@, NodeKind::File, mime_for(NodeKind::File), str_opt_view(content), now),
                ),
                Err(e) => create_error(old(self).nodes(), old(self).next(), parent_id, name@)
                    == Some(e) && final(self).nodes() == old(self).nodes() && final(self).next()
                    == old(self).next(),
            },
    {
        let owned = match content {
            Some(c) => Some(c.to_owned()),
            None => None,
        };
        self.create_at(parent_id, name, NodeKind::File, owned, now)
    }

    /// Adds an empty folder named `name` under `parent_id` (at the top for
    /// `None`), stamped with `now`, and returns its id.
    pub fn create_folder_at(&mut self, parent_id: Option<i64>, name: &str, now: i64) -> (r: Result<i64, StoreError>)
        requires
            old(self).wf(),
        ensures
            final(self).wf(),
            match r {
                Ok(id) => create_error(old(self).nodes(), old(self).next(), parent_id, name@) is None
                    && id == old(self).next() && final(self).next() == id + 1
                    && final(self).nodes() == old(self).nodes().push(
                    new_node(id, parent_id, name@, NodeKind::Folder, mime_for(NodeKind::Folder), None, now),
                ),
                Err(e) => create_error(old(self).nodes(), old(self).next(), parent_id, name@)
                    == Some(e) && final(self).nodes() == old(self).nodes() && final(self).next()
                    == old(self).next(),
            },
    {
        self.create_at(parent_id, name, NodeKind::Folder, None, now)
    }
    /// Replaces the content of the file `id` and stamps it with `now`.
    /// Fails with `NotFound` where `id` names no file.
    pub fn write_file_at(&mut self, id: i64, content: &str, now: i64) -> (r: Result<(), StoreError>)
        requires
            old(self).wf(),
        ensures
            final(self).wf(),
            final(self).next() == old(self).next(),
            is_file(old(self).nodes(), id) ==> r is Ok && final(self).nodes() == written(
                old(self).nodes(),
                id,
                content@,
                now,
            ),
            !is_file(old(self).nodes(), id) ==> r == Err::<(), StoreError>(StoreError::NotFound)
                && final(self).nodes() == old(self).nodes(),
    {
        let i = match self.find_index(id) {
            Some(i) => i,
            None => {
                return Err(StoreError::NotFound);
            },
        };
        let ghost s = self.nodes();
        assert(s[i as int] == self.nodes@[i as int]@);
        if self.nodes[i].kind != NodeKind::File {
            return Err(StoreError::NotFound);
        }
        let old_node = &self.nodes[i];
        let node = Node {
            id: old_node.id,
            parent_id: old_node.parent_id,
            name: old_node.name.clone(),
            kind: old_node.kind,
            mime: old_node.mime.clone(),
            content: Some(content.to_owned()),
            created_at: old_node.created_at,
            updated_at: now,
        };
        self.nodes.set(i, node);
        assert(self.nodes() =~= written(s, id, content@, now));
        proof {
            lemma_same_links_wf(s, self.nodes(), self.next());
        }
        Ok(())
    }

    /// The id, name and kind of each child of `parent_id` (of each top-level
    /// node for `None`), in the order in which they were created.
    pub fn list_tree(&self, parent_id: Option<i64>) -> (r: Vec<NodeMeta>)
        requires
            self.wf(),
        ensures
            r@.map_values(|m: NodeMeta| m@) == children(self.nodes(), parent_id),
    {
        let ghost s = self.nodes();
        let ghost pred = |n: NodeView| is_child_of(n, parent_id);
        let mut out: Vec<NodeMeta> = Vec::new();
        let mut i: usize = 0;
        while i < self.nodes.len()
            invariant
                s == self.nodes(),
                i <= s.len(),
                pred == (|n: NodeView| is_child_of(n, parent_id)),
                out@.map_values(|m: NodeMeta| m@) == s.subrange(0, i as int).filter(pred).map_values(
                    |n: NodeView| meta_of(n),
                ),
            decreases self.nodes.len() - i,
        {
            let ghost before = out@.map_values(|m: NodeMeta| m@);
            let n = &self.nodes[i];
            assert(s[i as int] == n@);
            proof {
                reveal(Seq::filter);
                assert(s.subrange(0, i + 1).drop_last() =~= s.subrange(0, i as int));
                assert(s.subrange(0, i + 1).last() == s[i as int]);
            }
            if n.parent_id == parent_id {
                out.push(NodeMeta { id: n.id, name: n.name.clone(), kind: n.kind });
                assert(out@.map_values(|m: NodeMeta| m@) =~= before.push(meta_of(s[i as int])));
                assert(s.subrange(0, i + 1).filter(pred) == s.subrange(0, i as int).filter(pred).push(s[i as int]));
                assert(s.subrange(0, i + 1).filter(pred).map_values(|n: NodeView| meta_of(n)) =~=
                    s.subrange(0, i as int).filter(pred).map_values(|n: NodeView| meta_of(n)).push(meta_of(s[i as int])));
            } else {
                assert(s.subrange(0, i + 1).filter(pred) == s.subrange(0, i as int).filter(pred));
            }
            i = i + 1;
        }
        assert(s.subrange(0, s.len() as int) =~= s);
        out
    }
    /// Removes the node `id` and its whole subtree; a missing id changes nothing.
    pub fn delete_node(&mut self, id: i64)
        requires
            old(self).wf(),
        ensures
            final(self).wf(),
            final(self).next() == old(self).next(),
            final(self).nodes() == pruned(old(self).nodes(), id),
    {
        let ghost s = self.nodes();
        let ghost pred = |n: NodeView| outside(s, id, n);
        let mut out: Vec<Node> = Vec::new();
        let mut i: usize = 0;
        while i < self.nodes.len()
            invariant
                s == self.nodes(),
                self.wf(),
                i <= s.len(),
                pred == (|n: NodeView| outside(s, id, n)),
                out@.map_values(|n: Node| n@) == s.subrange(0, i as int).filter(pred),
            decreases self.nodes.len() - i,
        {
            let ghost before = out@.map_values(|n: Node| n@);
            assert(s[i as int] == self.nodes@[i as int]@);
            proof {
                reveal(Seq::filter);
                assert(s.subrange(0, i + 1).drop_last() =~= s.subrange(0, i as int));
                assert(s.subrange(0, i + 1).last() == s[i as int]);
                lemma_get_at(s, i as int);
            }
            if !self.in_subtree_of(self.nodes[i].id, id) {
                out.push(self.nodes[i].duplicate());
                assert(out@.map_values(|n: Node| n@) =~= before.push(s[i as int]));
            }
            i = i + 1;
        }
        assert(s.subrange(0, s.len() as int) =~= s);
        proof {
            lemma_prune_wf(s, self.next_id, id);
        }
        self.nodes = out;
    }
    /// Moves the node `id` under `new_parent` (to the top for `None`).
    /// Fails with `NotFound` for a missing node or parent,
    /// `ReferentialIntegrity` for a parent that is a file, and `CycleDetected`
    /// for a parent inside the node's own subtree; a failed move changes nothing.
    pub fn move_node(&mut self, id: i64, new_parent: Option<i64>) -> (r: Result<(), StoreError>)
        requires
            old(self).wf(),
        ensures
            final(self).wf(),
            final(self).next() == old(self).next(),
            match r {
                Ok(()) => move_error(old(self).nodes(), id, new_parent) is None
                    && final(self).nodes() == moved(old(self).nodes(), id, new_parent),
                Err(e) => move_error(old(self).nodes(), id, new_parent) == Some(e)
                    && final(self).nodes() == old(self).nodes(),
            },
    {
        let ghost s = self.nodes();
        let i = match self.find_index(id) {
            Some(i) => i,
            None => {
                return Err(StoreError::NotFound);
            },
        };
        assert(s[i as int] == self.nodes@[i as int]@);
        if let Some(p) = new_parent {
            match self.find_index(p) {
                None => {
                    return Err(StoreError::NotFound);
                },
                Some(j) => {
                    assert(s[j as int] == self.nodes@[j as int]@);
                    if self.nodes[j].kind != NodeKind::Folder {
                        return Err(StoreError::ReferentialIntegrity);
                    }
                },
            }
            if self.in_subtree_of(p, id) {
                return Err(StoreError::CycleDetected);
            }
        }
        let mut node = self.nodes[i].duplicate();
        node.parent_id = new_parent;
        self.nodes.set(i, node);
        assert(self.nodes() =~= moved(s, id, new_parent));
        proof {
            lemma_move_wf(s, self.next_id, id, new_parent);
        }
        Ok(())
    }
    /// Replaces the content of the file `id`, stamped with the current time.
    /// Fails with `NotFound` where `id` names no file.
    pub fn write_file(&mut self, id: i64, content: &str) -> (r: Result<(), StoreError>)
        requires
            old(self).wf(),
        ensures
            final(self).wf(),
            final(self).next() == old(self).next(),
            is_file(old(self).nodes(), id) ==> r is Ok && exists|now: i64|
                final(self).nodes() == written(old(self).nodes(), id, content@, now),
            !is_file(old(self).nodes(), id) ==> r == Err::<(), StoreError>(StoreError::NotFound)
                && final(self).nodes() == old(self).nodes(),
    {
        let now = now_millis();
        self.write_file_at(id, content, now)
    }

    /// Adds a file under `parent_id`, stamped with the current time, and
    /// returns its id.
    pub fn create_file(&mut self, parent_id: Option<i64>, name: &str, content: Option<&str>) -> (r: Result<i64, StoreError>)
        requires
            old(self).wf(),
        ensures
            final(self).wf(),
            match r {
                Ok(id) => create_error(old(self).nodes(), old(self).next(), parent_id, name@) is None
                    && id == old(self).next() && final(self).next() == id + 1
                    && exists|now: i64| final(self).nodes() == old(self).nodes().push(
                    new_node(id, parent_id, name@, NodeKind::File, mime_for(NodeKind::File), str_opt_view(content), now),
                ),
                Err(e) => create_error(old(self).nodes(), old(self).next(), parent_id, name@)
                    == Some(e) && final(self).nodes() == old(self).nodes() && final(self).next()
                    == old(self).next(),
            },
    {
        let now = now_millis();
        self.create_file_at(parent_id, name, content, now)
    }

    /// Adds an empty folder under `parent_id`, stamped with the current time,
    /// and returns its id.
    pub fn create_folder(&mut self, parent_id: Option<i64>, name: &str) -> (r: Result<i64, StoreError>)
        requires
            old(self).wf(),
        ensures
            final(self).wf(),
            match r {
                Ok(id) => create_error(old(self).nodes(), old(self).next(), parent_id, name@) is None
                    && id == old(self).next() && final(self).next() == id + 1
                    && exists|now: i64| final(self).nodes() == old(self).nodes().push(
                    new_node(id, parent_id, name@, NodeKind::Folder, mime_for(NodeKind::Folder), None, now),
                ),
                Err(e) => create_error(old(self).nodes(), old(self).next(), parent_id, name@)
                    == Some(e) && final(self).nodes() == old(self).nodes() && final(self).next()
                    == old(self).next(),
            },
    {
        let now = now_millis();
        self.create_folder_at(parent_id, name, now)
    }

    /// Whether the parent links lead from `x` to the top within `k` steps.
    fn reaches_top_within(&self, x: i64, k: usize) -> (r: bool)
        requires
            ids_increase(self.nodes()),
        ensures
            r == reaches_root(self.nodes(), x, k as nat),
    {
        let ghost s = self.nodes();
        let mut cur = x;
        let mut left = k;
        loop
            invariant
                s == self.nodes(),
                ids_increase(s),
                reaches_root(s, x, k as nat) == reaches_root(s, cur, left as nat),
            decreases left,
        {
            let i = match self.find_index(cur) {
                Some(i) => i,
                None => {
                    return false;
                },
            };
            assert(s[i as int] == self.nodes@[i as int]@);
            match self.nodes[i].parent_id {
                None => {
                    return true;
                },
                Some(p) => {
                    if left == 0 {
                        return false;
                    }
                    cur = p;
                    left = left - 1;
                },
            }
        }
    }

    /// A store holding stored rows, in the order given, with `next_id` as the
    /// next id to hand out. Fails with `StorageFailure` where the rows do not
    /// form a tree that a store can hold.
    pub fn from_rows(rows: Vec<Node>, next_id: i64) -> (r: Result<Db, StoreError>)
        ensures
            match r {
                Ok(db) => rows_valid(node_views(rows@), next_id) && db.wf()
                    && db.nodes() == node_views(rows@) && db.next() == next_id,
                Err(e) => !rows_valid(node_views(rows@), next_id) && e
                    == StoreError::StorageFailure,
            },
    {
        let ghost rv = node_views(rows@);
        let db = Db { nodes: rows, next_id };
        let ghost s = db.nodes();
        assert(s == rv);

        if next_id < FIRST_ID {
            return Err(StoreError::StorageFailure);
        }
        let n = db.nodes.len();
        let mut i: usize = 0;
        while i < n
            invariant
                s == db.nodes(),
                s == rv,
                rv == node_views(rows@),
                n == s.len(),
                i <= n,
                FIRST_ID <= next_id == db.next(),
                forall|a: int, b: int| 0 <= a < b < i ==> s[a].id < s[b].id,
                forall|a: int| 0 <= a < i ==> FIRST_ID <= #[trigger] s[a].id < next_id,
                forall|a: int| 0 <= a < i ==> (#[trigger] s[a]).name.len() > 0,
                forall|a: int|
                    0 <= a < i && (#[trigger] s[a]).kind == NodeKind::Folder ==> s[a].content is None,
            decreases n - i,
        {
            let node = &db.nodes[i];
            assert(s[i as int] == node@);
            if i > 0 {
                assert(s[i - 1] == db.nodes@[i - 1]@);
                if db.nodes[i - 1].id >= node.id {
                    assert(!ids_increase(s));
                    return Err(StoreError::StorageFailure);
                }
            }
            if node.id < FIRST_ID || node.id >= next_id || node.name.as_str().is_empty() {
                assert(!(FIRST_ID <= s[i as int].id < next_id) || s[i as int].name.len() == 0);
                return Err(StoreError::StorageFailure);
            }
            if node.kind == NodeKind::Folder && node.content.is_some() {
                return Err(StoreError::StorageFailure);
            }
            i = i + 1;
        }
        assert(ids_increase(s));
        let mut i: usize = 0;
        while i < n
            invariant
                s == db.nodes(),
                s == rv,
                rv == node_views(rows@),
                n == s.len(),
                i <= n,
                ids_increase(s),
                forall|a: int|
                    0 <= a < i && (#[trigger] s[a]).parent_id is Some ==> is_folder(s, s[a].parent_id->0),
            decreases n - i,
        {
            assert(s[i as int] == db.nodes@[i as int]@);
            if let Some(p) = db.nodes[i].parent_id {
                match db.find_index(p) {
                    None => {
                        assert(s[i as int].parent_id is Some);
                        return Err(StoreError::StorageFailure);
                    },
                    Some(j) => {
                        assert(s[j as int] == db.nodes@[j as int]@);
                        if db.nodes[j].kind != NodeKind::Folder {
                            assert(s[i as int].parent_id is Some);
                            return Err(StoreError::StorageFailure);
                        }
                    },
                }
            }
            i = i + 1;
        }
        assert(tree_shape(s, next_id));
        let mut i: usize = 0;
        while i < n
            invariant
                s == db.nodes(),
                s == rv,
                rv == node_views(rows@),
                n == s.len(),
                i <= n,
                tree_shape(s, next_id),
                forall|a: int| 0 <= a < i ==> reaches_root(s, (#[trigger] s[a]).id, n as nat),
            decreases n - i,
        {
            assert(s[i as int] == db.nodes@[i as int]@);
            if !db.reaches_top_within(db.nodes[i].id, n) {
                assert(!reaches_root(s, s[i as int].id, s.len()));
                return Err(StoreError::StorageFailure);
            }
            i = i + 1;
        }
        assert forall|a: int| 0 <= a < s.len() implies exists|k: nat| reaches_root(s, (#[trigger] s[a]).id, k) by {
            assert(reaches_root(s, s[a].id, n as nat));
        }
        Ok(db)
    }
    /// A copy of the node `id`, if there is one.
    pub fn node(&self, id: i64) -> (r: Option<Node>)
        requires
            self.wf(),
        ensures
            match r {
                Some(n) => has_id(self.nodes(), id) && n@ == get(self.nodes(), id),
                None => !has_id(self.nodes(), id),
            },
    {
        match self.find_index(id) {
            Some(i) => {
                assert(self.nodes()[i as int] == self.nodes@[i as int]@);
                Some(self.nodes[i].duplicate())
            },
            None => None,
        }
    }

    /// The id that the next node created will get.
    pub fn next_id(&self) -> (r: i64)
        ensures
            r == self.next(),
    {
        self.next_id
    }
}

} // verus!
