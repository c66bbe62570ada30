//! The typed, identified vertex of the document graph.
//!
//! A node carries a process-unique identifier, a type tag, an ordered list of
//! child identifiers (document reading order) and a type-specific data
//! variant. Identifiers are plain `u64` values; whoever creates nodes is
//! responsible for keeping them unique, and the tree operations state their
//! uniqueness needs explicitly.

use vstd::prelude::*;

verus! {

/// The closed set of node types held by a tree.
///
/// `Sentinel` is used only transiently while parsing, to mean "consumed
/// input, no semantic node produced"; a settled tree never stores one.
#[derive(Clone, Copy, Debug, PartialEq, Eq, Structural)]
pub enum NodeType {
    Directory,
    Document,
    Paragraph,
    Header,
    ListItem,
    List,
    Sentinel,
}

/// Whether a list is numbered.
#[derive(Clone, Copy, Debug, PartialEq, Eq, Structural)]
pub enum ListType {
    Unordered,
    Ordered,
}

/// The type-specific payload of a node.
#[derive(Debug, PartialEq)]
pub enum NodeData {
    Empty,
    HeaderData { text: String, level: u8 },
    DirectoryData { path: String },
    DocumentData { path: String, loaded: bool },
    ParagraphData { text: String },
    ListData { list_type: ListType },
    ListItemData { list_type: ListType, text: String, indent: usize },
}

/// A vertex of the graph: identifier, type, ordered children, payload.
#[derive(Debug, PartialEq)]
pub struct Node {
    pub id: u64,
    pub node_type: NodeType,
    pub children: Vec<u64>,
    pub data: NodeData,
}

/// The stable lowercase label of each node type, used by type-filter
/// queries. The match is exhaustive: a new node type cannot be added
/// without extending it.
pub open spec fn type_token(t: NodeType) -> Seq<char> {
    match t {
        NodeType::Directory => "directory"@,
        NodeType::Document => "document"@,
        NodeType::Paragraph => "paragraph"@,
        NodeType::Header => "header"@,
        NodeType::ListItem => "list_item"@,
        NodeType::List => "list"@,
        NodeType::Sentinel => "none"@,
    }
}

/// True of a document placeholder: a node whose payload says its content
/// has not yet been fetched from the external parser.
pub open spec fn is_unloaded_document(n: Node) -> bool {
    match n.data {
        NodeData::DocumentData { path: _, loaded } => !loaded,
        _ => false,
    }
}

/// True of a loaded document: a node whose payload says its content has
/// been folded in.
pub open spec fn is_loaded_document(n: Node) -> bool {
    match n.data {
        NodeData::DocumentData { path: _, loaded } => loaded,
        _ => false,
    }
}

/// True of a node carrying a document payload, loaded or not.
pub open spec fn has_document_payload(n: Node) -> bool {
    match n.data {
        NodeData::DocumentData { .. } => true,
        _ => false,
    }
}

/// The filesystem path carried by a directory or document payload, and the
/// empty sequence for every other payload.
pub open spec fn data_path(d: NodeData) -> Seq<char> {
    match d {
        NodeData::DirectoryData { path } => path@,
        NodeData::DocumentData { path, loaded: _ } => path@,
        _ => Seq::<char>::empty(),
    }
}

impl Clone for NodeData {
    /// A deep copy that is equal to the original.
    fn clone(&self) -> (res: Self)
        ensures
            res == *self,
    {
        match self {
            NodeData::Empty => NodeData::Empty,
            NodeData::HeaderData { text, level } => NodeData::HeaderData {
                text: text.clone(),
                level: *level,
            },
            NodeData::DirectoryData { path } => NodeData::DirectoryData { path: path.clone() },
            NodeData::DocumentData { path, loaded } => NodeData::DocumentData {
                path: path.clone(),
                loaded: *loaded,
            },
            NodeData::ParagraphData { text } => NodeData::ParagraphData { text: text.clone() },
            NodeData::ListData { list_type } => NodeData::ListData { list_type: *list_type },
            NodeData::ListItemData { list_type, text, indent } => NodeData::ListItemData {
                list_type: *list_type,
                text: text.clone(),
                indent: *indent,
            },
        }
    }
}

impl Node {
    /// Creates a childless node of the given type with an empty payload.
    /// The identifier is supplied by the caller, who keeps identifiers
    /// unique within the graph the node will join.
    pub fn new(id: u64, node_type: NodeType) -> (n: Node)
        ensures
            n.id == id,
            n.node_type == node_type,
            n.children@ == Seq::<u64>::empty(),
            n.data == NodeData::Empty,
    {
        Node { id, node_type, children: Vec::new(), data: NodeData::Empty }
    }

    /// Renders the node's type as its stable lowercase label.
    pub fn type_as_string(&self) -> (s: String)
        ensures
            s@ == type_token(self.node_type),
    {
        match self.node_type {
            NodeType::Directory => "directory".to_owned(),
            NodeType::Document => "document".to_owned(),
            NodeType::Paragraph => "paragraph".to_owned(),
            NodeType::Header => "header".to_owned(),
            NodeType::ListItem => "list_item".to_owned(),
            NodeType::List => "list".to_owned(),
            NodeType::Sentinel => "none".to_owned(),
        }
    }
}

/// Field-for-field agreement of two nodes: same identifier, type and
/// payload, and the same children in the same order.
pub open spec fn node_equiv(a: Node, b: Node) -> bool {
    &&& a.id == b.id
    &&& a.node_type == b.node_type
    &&& a.children@ == b.children@
    &&& a.data == b.data
}

impl Clone for Node {
    /// A deep copy that agrees with the original field for field.
    fn clone(&self) -> (res: Self)
        ensures
            node_equiv(res, *self),
    {
        let mut children: Vec<u64> = Vec::new();
        let mut i: usize = 0;
        while i < self.children.len()
            invariant
                i <= self.children.len(),
                children@ == self.children@.take(i as int),
            decreases self.children.len() - i,
        {
            children.push(self.children[i]);
            proof {
                assert(children@ =~= self.children@.take(i + 1 as int));
            }
            i = i + 1;
        }
        proof {
            assert(children@ =~= self.children@);
        }
        Node { id: self.id, node_type: self.node_type, children, data: self.data.clone() }
    }
}

} // verus!
