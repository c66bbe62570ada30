use zenkat::builder::{PathKind, SkeletonBuilder};
use zenkat::node::{NodeData, NodeType};
use zenkat::text::has_md_extension;

fn dir(entries: &[&str]) -> PathKind {
    PathKind::Directory {
        via_symlink: false,
        entries: entries.iter().map(|e| e.to_string()).collect(),
    }
}

#[test]
fn extension_test_accepts_only_md() {
    assert!(has_md_extension("/r/a.md"));
    assert!(has_md_extension(".md"));
    assert!(!has_md_extension("md"));
    assert!(!has_md_extension("/r/a.txt"));
    assert!(!has_md_extension("/r/amd"));
}

#[test]
fn skeleton_of_directory_with_subdirectory_and_two_documents() {
    let mut b = SkeletonBuilder::new("notes".to_string(), "/r".to_string(), false);
    assert_eq!(b.pending_path(), Some("/r".to_string()));
    b.step(dir(&["/r/sub", "/r/a.md", "/r/b.md"]));

    assert_eq!(b.pending_path(), Some("/r/sub".to_string()));
    b.step(dir(&[]));
    assert_eq!(b.pending_path(), Some("/r/a.md".to_string()));
    b.step(PathKind::File { via_symlink: false });
    assert_eq!(b.pending_path(), Some("/r/b.md".to_string()));
    b.step(PathKind::File { via_symlink: false });
    assert_eq!(b.pending_path(), None);

    let t = b.finish().expect("the root path exists");
    assert_eq!(t.name, "notes");
    assert_eq!(t.path, "/r");
    assert!(t.is_well_formed());

    let root = t.get_root();
    assert_eq!(root.node_type, NodeType::Directory);
    assert_eq!(root.data, NodeData::DirectoryData { path: "/r".to_string() });
    assert_eq!(root.children.len(), 3);

    let sub = t.get_node(root.children[0]).expect("subdirectory node");
    assert_eq!(sub.node_type, NodeType::Directory);
    assert!(sub.children.is_empty());

    let a = t.get_node(root.children[1]).expect("first document");
    assert_eq!(a.node_type, NodeType::Document);
    assert_eq!(
        a.data,
        NodeData::DocumentData { path: "/r/a.md".to_string(), loaded: false }
    );
    assert!(a.children.is_empty());

    let b_doc = t.get_node(root.children[2]).expect("second document");
    assert_eq!(
        b_doc.data,
        NodeData::DocumentData { path: "/r/b.md".to_string(), loaded: false }
    );
    assert!(b_doc.children.is_empty());
}

#[test]
fn missing_root_path_fails_the_build() {
    let mut b = SkeletonBuilder::new("gone".to_string(), "/nowhere".to_string(), false);
    b.step(PathKind::Missing);
    assert!(b.finish().is_none());
}

#[test]
fn non_document_files_are_skipped() {
    let mut b = SkeletonBuilder::new("t".to_string(), "/r".to_string(), false);
    b.step(dir(&["/r/a.txt", "/r/b.md"]));
    b.step(PathKind::File { via_symlink: false });
    b.step(PathKind::File { via_symlink: false });
    let t = b.finish().unwrap();
    // only the matching document joined the tree
    assert_eq!(t.nodes.len(), 2);
    assert_eq!(t.get_root().children.len(), 1);
}

#[test]
fn symlinks_are_skipped_unless_followed() {
    let mut skipping = SkeletonBuilder::new("t".to_string(), "/r".to_string(), false);
    skipping.step(dir(&["/r/link.md"]));
    skipping.step(PathKind::File { via_symlink: true });
    let t = skipping.finish().unwrap();
    assert_eq!(t.nodes.len(), 1);

    let mut following = SkeletonBuilder::new("t".to_string(), "/r".to_string(), true);
    following.step(dir(&["/r/link.md"]));
    following.step(PathKind::File { via_symlink: true });
    let t2 = following.finish().unwrap();
    assert_eq!(t2.nodes.len(), 2);
}

#[test]
fn a_single_document_file_can_be_the_root() {
    let mut b = SkeletonBuilder::new("one".to_string(), "/a.md".to_string(), false);
    b.step(PathKind::File { via_symlink: false });
    let t = b.finish().unwrap();
    assert_eq!(t.nodes.len(), 1);
    assert_eq!(t.get_root().node_type, NodeType::Document);
}

#[test]
fn unclassifiable_paths_are_skipped() {
    let mut b = SkeletonBuilder::new("t".to_string(), "/r".to_string(), false);
    b.step(dir(&["/r/socket"]));
    b.step(PathKind::Other);
    let t = b.finish().unwrap();
    assert_eq!(t.nodes.len(), 1);
    assert!(t.get_root().children.is_empty());
}
