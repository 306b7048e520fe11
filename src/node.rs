//! Nodes, their kinds, listing entries, and the errors of the store.
use vstd::prelude::*;

verus! {

/// What a node is: a folder, which holds other nodes, or a file, which holds text.
#[derive(Clone, Copy, Debug, PartialEq, Eq, Structural)]
pub enum NodeKind {
    Folder,
    File,
}

/// Why an operation on the store was refused.
#[derive(Clone, Copy, Debug, PartialEq, Eq, Structural)]
pub enum StoreError {
    /// A node that the operation needs does not exist, or is not of the kind it needs.
    NotFound,
    /// The parent named is not a folder.
    ReferentialIntegrity,
    /// The move would make a node its own ancestor.
    CycleDetected,
    /// A node's name must not be empty.
    EmptyName,
    /// The store cannot take the change (no id is left to hand out, or the
    /// rows given to it are not a well-formed tree).
    StorageFailure,
}

/// The mathematical value of a node.
pub struct NodeView {
    pub id: i64,
    pub parent_id: Option<i64>,
    pub name: Seq<char>,
    pub kind: NodeKind,
    pub mime: Seq<char>,
    pub content: Option<Seq<char>>,
    pub created_at: i64,
    pub updated_at: i64,
}

/// One row of the node table.
#[derive(Debug)]
pub struct Node {
    pub id: i64,
    pub parent_id: Option<i64>,
    pub name: String,
    pub kind: NodeKind,
    pub mime: String,
    pub content: Option<String>,
    pub created_at: i64,
    pub updated_at: i64,
}

/// The value of an optional string.
pub open spec fn opt_view(o: Option<String>) -> Option<Seq<char>> {
    match o {
        Some(s) => Some(s@),
        None => None,
    }
}

/// The value of an optional string slice.
pub open spec fn str_opt_view(o: Option<&str>) -> Option<Seq<char>> {
    match o {
        Some(s) => Some(s@),
        None => None,
    }
}

/// Copies an optional string, keeping its value.
pub fn copy_opt(o: &Option<String>) -> (r: Option<String>)
    ensures
        opt_view(r) == opt_view(*o),
{
    match o {
        Some(s) => Some(s.clone()),
        None => None,
    }
}

impl View for Node {
    type V = NodeView;

    open spec fn view(&self) -> NodeView {
        NodeView {
            id: self.id,
            parent_id: self.parent_id,
            name: self.name@,
            kind: self.kind,
            mime: self.mime@,
            content: opt_view(self.content),
            created_at: self.created_at,
            updated_at: self.updated_at,
        }
    }
}

impl Node {
    /// A copy of the node with the same value.
    pub fn duplicate(&self) -> (r: Node)
        ensures
            r@ == self@,
    {
        Node {
            id: self.id,
            parent_id: self.parent_id,
            name: self.name.clone(),
            kind: self.kind,
            mime: self.mime.clone(),
            content: copy_opt(&self.content),
            created_at: self.created_at,
            updated_at: self.updated_at,
        }
    }
}

/// The values of a sequence of nodes.
pub open spec fn node_views(v: Seq<Node>) -> Seq<NodeView> {
    v.map_values(|n: Node| n@)
}

/// What a listing shows of a node: its id, name and kind.
#[derive(Debug)]
pub struct NodeMeta {
    pub id: i64,
    pub name: String,
    pub kind: NodeKind,
}

/// The value of a listing entry.
pub struct NodeMetaView {
    pub id: i64,
    pub name: Seq<char>,
    pub kind: NodeKind,
}

impl View for NodeMeta {
    type V = NodeMetaView;

    open spec fn view(&self) -> NodeMetaView {
        NodeMetaView { id: self.id, name: self.name@, kind: self.kind }
    }
}

/// The listing entry of a node.
pub open spec fn meta_of(n: NodeView) -> NodeMetaView {
    NodeMetaView { id: n.id, name: n.name, kind: n.kind }
}

} // verus!
