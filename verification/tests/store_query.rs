use zenkat::node::{Node, NodeData, NodeType};
use zenkat::store::{lod_wants_content, TreeDetail, TreeStore};
use zenkat::tree::Tree;

fn node(id: u64, node_type: NodeType, children: Vec<u64>) -> Node {
    let data = match node_type {
        NodeType::Directory => NodeData::DirectoryData { path: format!("/p{}", id) },
        NodeType::Document => {
            NodeData::DocumentData { path: format!("/p{}.md", id), loaded: false }
        },
        NodeType::Header => NodeData::HeaderData { text: format!("h{}", id), level: 1 },
        NodeType::Paragraph => NodeData::ParagraphData { text: "t".to_string() },
        _ => NodeData::Empty,
    };
    Node { id, node_type, children, data }
}

fn named_tree(name: &str, path: &str, nodes: Vec<Node>) -> Tree {
    Tree {
        name: name.to_string(),
        path: path.to_string(),
        root_node: nodes[0].id,
        nodes,
    }
}

#[test]
fn list_snapshots_every_tree_identity() {
    let mut store = TreeStore::new();
    store.load_tree(named_tree("a", "/ra", vec![node(0, NodeType::Directory, vec![])]));
    store.load_tree(named_tree("b", "/rb", vec![node(1, NodeType::Directory, vec![])]));
    assert_eq!(store.get_trees().len(), 2);
    assert_eq!(
        store.list(),
        vec![
            TreeDetail { path: "/ra".to_string(), name: "a".to_string() },
            TreeDetail { path: "/rb".to_string(), name: "b".to_string() },
        ]
    );
}

#[test]
fn find_tree_reports_unknown_names_as_not_found() {
    let mut store = TreeStore::new();
    store.load_tree(named_tree("a", "/ra", vec![node(0, NodeType::Directory, vec![])]));
    store.load_tree(named_tree("b", "/rb", vec![node(1, NodeType::Directory, vec![])]));
    assert_eq!(store.find_tree("b"), Some(1));
    assert_eq!(store.find_tree("a"), Some(0));
    assert_eq!(store.find_tree("zzz"), None);
}

#[test]
fn query_by_type_returns_exactly_the_matching_nodes() {
    // three headers among eight nodes, spread over two trees and depths
    let deep = named_tree(
        "deep",
        "/rd",
        vec![
            node(0, NodeType::Directory, vec![1]),
            node(1, NodeType::Document, vec![2, 3]),
            node(2, NodeType::Header, vec![]),
            node(3, NodeType::Paragraph, vec![4]),
            node(4, NodeType::Header, vec![]),
        ],
    );
    let shallow = named_tree(
        "shallow",
        "/rs",
        vec![
            node(10, NodeType::Directory, vec![11, 12]),
            node(11, NodeType::Header, vec![]),
            node(12, NodeType::Paragraph, vec![]),
        ],
    );
    let mut store = TreeStore::new();
    store.load_tree(deep);
    store.load_tree(shallow);

    let headers = store.query(&"header".to_string());
    let ids: Vec<u64> = headers.iter().map(|n| n.id).collect();
    assert_eq!(ids, vec![2, 4, 11]);
    assert!(headers.iter().all(|n| n.node_type == NodeType::Header));

    assert_eq!(store.query(&"list".to_string()).len(), 0);
    assert_eq!(store.query(&"directory".to_string()).len(), 2);
}

#[test]
fn all_documents_are_collected_across_trees() {
    let mut store = TreeStore::new();
    store.load_tree(named_tree(
        "a",
        "/ra",
        vec![node(0, NodeType::Directory, vec![1]), node(1, NodeType::Document, vec![])],
    ));
    store.load_tree(named_tree(
        "b",
        "/rb",
        vec![
            node(10, NodeType::Directory, vec![11, 12]),
            node(11, NodeType::Document, vec![]),
            node(12, NodeType::Document, vec![]),
        ],
    ));
    let docs = store.get_all_documents_mut();
    assert_eq!(docs, vec![(0, 1), (1, 11), (1, 12)]);
}

#[test]
fn only_block_and_full_ask_for_content() {
    assert!(!lod_wants_content("document"));
    assert!(lod_wants_content("block"));
    assert!(lod_wants_content("full"));
    assert!(!lod_wants_content(""));
    assert!(!lod_wants_content("everything"));
}

#[test]
fn snapshot_copies_the_named_tree() {
    let mut store = TreeStore::new();
    store.load_tree(named_tree("a", "/ra", vec![node(0, NodeType::Directory, vec![])]));
    let copy = store.snapshot("a").expect("known name");
    assert_eq!(copy.name, "a");
    assert_eq!(copy.nodes.len(), 1);
    // mutating the store afterwards does not show through the copy
    store.trees[0].nodes[0].children.push(9);
    assert!(copy.nodes[0].children.is_empty());
    assert!(store.snapshot("zzz").is_none());
}
