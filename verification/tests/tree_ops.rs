use zenkat::node::{Node, NodeData, NodeType};
use zenkat::tree::Tree;

fn dir_node(id: u64, path: &str, children: Vec<u64>) -> Node {
    Node {
        id,
        node_type: NodeType::Directory,
        children,
        data: NodeData::DirectoryData { path: path.to_string() },
    }
}

fn doc_node(id: u64, path: &str, loaded: bool, children: Vec<u64>) -> Node {
    Node {
        id,
        node_type: NodeType::Document,
        children,
        data: NodeData::DocumentData { path: path.to_string(), loaded },
    }
}

fn para_node(id: u64, text: &str) -> Node {
    Node {
        id,
        node_type: NodeType::Paragraph,
        children: vec![],
        data: NodeData::ParagraphData { text: text.to_string() },
    }
}

#[test]
fn node_new_is_childless_and_empty() {
    let n = Node::new(7, NodeType::Header);
    assert_eq!(n.id, 7);
    assert_eq!(n.node_type, NodeType::Header);
    assert!(n.children.is_empty());
    assert_eq!(n.data, NodeData::Empty);
}

#[test]
fn type_tokens_are_exhaustive_and_stable() {
    assert_eq!(Node::new(0, NodeType::Directory).type_as_string(), "directory");
    assert_eq!(Node::new(1, NodeType::Document).type_as_string(), "document");
    assert_eq!(Node::new(2, NodeType::Paragraph).type_as_string(), "paragraph");
    assert_eq!(Node::new(3, NodeType::Header).type_as_string(), "header");
    assert_eq!(Node::new(4, NodeType::ListItem).type_as_string(), "list_item");
    assert_eq!(Node::new(5, NodeType::List).type_as_string(), "list");
    assert_eq!(Node::new(6, NodeType::Sentinel).type_as_string(), "none");
}

#[test]
fn tree_new_holds_exactly_the_root() {
    let t = Tree::new(Node::new(3, NodeType::Document));
    assert_eq!(t.root_node, 3);
    assert_eq!(t.nodes.len(), 1);
    assert_eq!(t.name, "");
    assert_eq!(t.get_root_id(), 3);
    assert_eq!(t.get_root().id, 3);
}

#[test]
fn get_node_finds_present_and_reports_absent() {
    let t = Tree::new(Node::new(3, NodeType::Document));
    assert!(t.get_node(3).is_some());
    assert!(t.get_node(4).is_none());
}

#[test]
fn insert_child_under_grows_by_exactly_the_subtree() {
    // a root directory, and a subtree of a document with one paragraph
    let mut t = Tree::new(dir_node(0, "/r", vec![]));
    let mut sub = Tree::new(doc_node(10, "/r/a.md", true, vec![]));
    sub.insert_child_under(Tree::new(para_node(11, "hello")), 10);
    assert_eq!(sub.nodes.len(), 2);

    let before_children = t.get_root().children.len();
    let before_nodes = t.nodes.len();
    t.insert_child_under(sub, 0);

    // the target's children grew by exactly one, the arena by the
    // subtree's node count
    assert_eq!(t.get_root().children.len(), before_children + 1);
    assert_eq!(t.get_root().children, vec![10]);
    assert_eq!(t.nodes.len(), before_nodes + 2);
    assert!(t.get_node(10).is_some());
    assert!(t.get_node(11).is_some());
    assert!(t.is_well_formed());
}

#[test]
fn splice_at_rejects_type_mismatch_and_leaves_tree_unchanged() {
    let mut t = Tree::new(doc_node(0, "/r/a.md", false, vec![]));
    let sub = Tree::new(para_node(5, "body"));
    let snapshot = t.clone();
    let r = t.splice_at(sub, 0);
    assert_eq!(r, Err("Nodes have mismatched types."));
    assert_eq!(t, snapshot);
}

#[test]
fn splice_at_preserves_target_identity_and_replaces_content() {
    let mut t = Tree::new(dir_node(0, "/r", vec![1]));
    t.nodes.push(doc_node(1, "/r/a.md", false, vec![]));

    // parsed content: a document root holding one paragraph
    let mut sub = Tree::new(doc_node(20, "/r/a.md", true, vec![]));
    sub.insert_child_under(Tree::new(para_node(21, "text")), 20);

    let r = t.splice_at(sub, 1);
    assert_eq!(r, Ok(()));
    // the placeholder's identifier survives; the subtree root's is gone
    let target = t.get_node(1).expect("target stays");
    assert_eq!(target.children, vec![21]);
    assert_eq!(
        target.data,
        NodeData::DocumentData { path: "/r/a.md".to_string(), loaded: true }
    );
    assert!(t.get_node(20).is_none());
    assert!(t.get_node(21).is_some());
    assert_eq!(t.nodes.len(), 3);
    assert!(t.is_well_formed());
}

#[test]
fn get_node_mut_edits_in_place() {
    let mut t = Tree::new(dir_node(0, "/r", vec![]));
    match t.get_node_mut(0) {
        Some(n) => n.data = NodeData::DirectoryData { path: "/s".to_string() },
        None => panic!("root must be present"),
    }
    assert_eq!(
        t.get_root().data,
        NodeData::DirectoryData { path: "/s".to_string() }
    );
    assert!(t.get_node_mut(9).is_none());
}

#[test]
fn clone_is_a_deep_snapshot() {
    let mut t = Tree::new(dir_node(0, "/r", vec![]));
    let copy = t.clone();
    match t.get_node_mut(0) {
        Some(n) => n.children.push(99),
        None => panic!("root must be present"),
    }
    assert!(copy.get_root().children.is_empty());
    assert_eq!(copy.get_root().id, 0);
}

#[test]
fn is_well_formed_spots_dangling_children_and_duplicates() {
    let good = Tree::new(dir_node(0, "/r", vec![]));
    assert!(good.is_well_formed());

    let dangling = Tree {
        name: String::new(),
        path: String::new(),
        root_node: 0,
        nodes: vec![dir_node(0, "/r", vec![42])],
    };
    assert!(!dangling.is_well_formed());

    let duplicate = Tree {
        name: String::new(),
        path: String::new(),
        root_node: 0,
        nodes: vec![dir_node(0, "/r", vec![]), doc_node(0, "/r/a.md", false, vec![])],
    };
    assert!(!duplicate.is_well_formed());

    let rootless = Tree {
        name: String::new(),
        path: String::new(),
        root_node: 5,
        nodes: vec![dir_node(0, "/r", vec![])],
    };
    assert!(!rootless.is_well_formed());
}

#[test]
fn ids_disjoint_detects_overlap() {
    let a = Tree::new(dir_node(0, "/r", vec![]));
    let b = Tree::new(dir_node(1, "/s", vec![]));
    let c = Tree::new(dir_node(0, "/t", vec![]));
    assert!(a.ids_disjoint(&b));
    assert!(!a.ids_disjoint(&c));
}
