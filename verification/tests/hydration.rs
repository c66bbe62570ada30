use zenkat::hydrate::{HydrateError, HydrationSession};
use zenkat::node::{Node, NodeData, NodeType};
use zenkat::tree::Tree;

fn skeleton(paths: &[&str], loaded: bool) -> Tree {
    let mut nodes = vec![Node {
        id: 0,
        node_type: NodeType::Directory,
        children: (1..=paths.len() as u64).collect(),
        data: NodeData::DirectoryData { path: "/r".to_string() },
    }];
    for (i, p) in paths.iter().enumerate() {
        nodes.push(Node {
            id: i as u64 + 1,
            node_type: NodeType::Document,
            children: vec![],
            data: NodeData::DocumentData { path: p.to_string(), loaded },
        });
    }
    Tree { name: "t".to_string(), path: "/r".to_string(), root_node: 0, nodes }
}

fn parsed(path: &str, base: u64) -> Tree {
    Tree {
        name: String::new(),
        path: String::new(),
        root_node: base,
        nodes: vec![
            Node {
                id: base,
                node_type: NodeType::Document,
                children: vec![base + 1],
                data: NodeData::DocumentData { path: path.to_string(), loaded: false },
            },
            Node {
                id: base + 1,
                node_type: NodeType::Paragraph,
                children: vec![],
                data: NodeData::ParagraphData { text: "body".to_string() },
            },
        ],
    }
}

fn unloaded_count(t: &Tree) -> usize {
    t.nodes
        .iter()
        .filter(|n| matches!(n.data, NodeData::DocumentData { loaded: false, .. }))
        .count()
}

#[test]
fn discovery_lists_every_placeholder_once() {
    let t = skeleton(&["/r/a.md", "/r/b.md"], false);
    let mut found = t.unloaded_documents();
    found.sort();
    assert_eq!(
        found,
        vec![(1, "/r/a.md".to_string()), (2, "/r/b.md".to_string())]
    );
    assert!(skeleton(&["/r/a.md"], true).unloaded_documents().is_empty());
}

#[test]
fn always_succeeding_parser_loads_every_placeholder() {
    // one, as many as there are placeholders, and twice as many
    for max in [1usize, 3, 6] {
        let mut t = skeleton(&["/r/a.md", "/r/b.md", "/r/c.md"], false);
        let mut s = HydrationSession::new(&t, max);
        assert_eq!(s.discovered, 3);
        loop {
            let mut started = Vec::new();
            while let Some(entry) = s.start_next() {
                started.push(entry);
            }
            if started.is_empty() {
                break;
            }
            // fold in completion order: here, the reverse of submission
            for (id, path) in started.into_iter().rev() {
                let doc = parsed(&path, 100 + id * 10);
                assert_eq!(s.complete_success(&mut t, doc), Ok(()));
            }
        }
        assert!(s.is_done());
        assert_eq!(s.successes, 3);
        assert!(s.failures().is_empty());
        assert_eq!(unloaded_count(&t), 0);
        // each fold brought one content node along
        assert_eq!(t.nodes.len(), 4 + 3);
        assert!(t.is_well_formed());
    }
}

#[test]
fn one_failing_path_leaves_exactly_that_placeholder_unloaded() {
    let mut t = skeleton(&["/r/a.md", "/r/b.md", "/r/c.md"], false);
    let mut s = HydrationSession::new(&t, 2);
    loop {
        let mut started = Vec::new();
        while let Some(entry) = s.start_next() {
            started.push(entry);
        }
        if started.is_empty() {
            break;
        }
        for (id, path) in started {
            if path == "/r/b.md" {
                assert!(s.complete_failure(&path, HydrateError::ParserFailed));
            } else {
                assert_eq!(s.complete_success(&mut t, parsed(&path, 100 + id * 10)), Ok(()));
            }
        }
    }
    assert!(s.is_done());
    assert_eq!(s.successes, 2);
    assert_eq!(s.failures().len(), 1);
    assert_eq!(s.failures()[0].1, "/r/b.md");
    assert_eq!(s.failures()[0].2, HydrateError::ParserFailed);
    assert_eq!(unloaded_count(&t), 1);
    let still = t.get_node(2).unwrap();
    assert_eq!(
        still.data,
        NodeData::DocumentData { path: "/r/b.md".to_string(), loaded: false }
    );
    assert!(still.children.is_empty());
}

#[test]
fn rehydrating_a_loaded_tree_does_nothing() {
    let t = skeleton(&["/r/a.md", "/r/b.md"], true);
    let snapshot = t.clone();
    let mut s = HydrationSession::new(&t, 4);
    assert_eq!(s.discovered, 0);
    assert!(s.is_done());
    assert_eq!(s.start_next(), None);
    assert_eq!(t, snapshot);
}

#[test]
fn concurrency_bound_limits_outstanding_invocations() {
    let mut t = skeleton(&["/r/a.md", "/r/b.md", "/r/c.md"], false);
    let mut s = HydrationSession::new(&t, 2);
    let first = s.start_next().expect("first slot");
    let _second = s.start_next().expect("second slot");
    assert_eq!(s.start_next(), None);
    assert_eq!(s.outstanding(), 2);
    assert_eq!(s.complete_success(&mut t, parsed(&first.1, 100)), Ok(()));
    assert!(s.start_next().is_some());
    assert_eq!(s.start_next(), None);
}

#[test]
fn malformed_output_is_rejected_without_change() {
    let mut t = skeleton(&["/r/a.md"], false);
    let mut s = HydrationSession::new(&t, 1);
    s.start_next().unwrap();
    let snapshot = t.clone();

    // a dangling child makes the output no tree at all
    let mut bad = parsed("/r/a.md", 100);
    bad.nodes[0].children.push(999);
    assert_eq!(s.complete_success(&mut t, bad), Err(HydrateError::Malformed));

    // a root that is not a document cannot graft onto a placeholder
    let mut wrong_root = parsed("/r/a.md", 100);
    wrong_root.nodes[0].node_type = NodeType::Paragraph;
    assert_eq!(
        s.complete_success(&mut t, wrong_root),
        Err(HydrateError::TypeMismatch)
    );

    // a fresh unloaded placeholder hiding among the content blocks
    let mut smuggled = parsed("/r/a.md", 100);
    smuggled.nodes[1] = Node {
        id: 101,
        node_type: NodeType::Document,
        children: vec![],
        data: NodeData::DocumentData { path: "/r/x.md".to_string(), loaded: false },
    };
    assert_eq!(s.complete_success(&mut t, smuggled), Err(HydrateError::Malformed));

    assert_eq!(t, snapshot);
    assert_eq!(s.outstanding(), 1);
}

#[test]
fn reused_identifiers_are_rejected() {
    let mut t = skeleton(&["/r/a.md"], false);
    let mut s = HydrationSession::new(&t, 1);
    s.start_next().unwrap();
    // the parsed tree reuses the directory's identifier
    let colliding = parsed("/r/a.md", 0);
    assert_eq!(
        s.complete_success(&mut t, colliding),
        Err(HydrateError::IdCollision)
    );
    assert_eq!(unloaded_count(&t), 1);
}

#[test]
fn completions_for_unknown_paths_are_rejected() {
    let mut t = skeleton(&["/r/a.md"], false);
    let mut s = HydrationSession::new(&t, 1);
    s.start_next().unwrap();
    assert_eq!(
        s.complete_success(&mut t, parsed("/other.md", 100)),
        Err(HydrateError::UnknownPath)
    );
    assert!(!s.complete_failure("/other.md", HydrateError::ParserFailed));
    assert_eq!(s.outstanding(), 1);
}

#[test]
fn a_placeholder_that_is_not_document_typed_rejects_the_graft() {
    // document data on a paragraph-typed node: tracked by discovery, but
    // grafting would change the node's type
    let mut t = skeleton(&["/r/a.md"], false);
    t.nodes[1].node_type = NodeType::Paragraph;
    let mut s = HydrationSession::new(&t, 1);
    s.start_next().unwrap();
    assert_eq!(
        s.complete_success(&mut t, parsed("/r/a.md", 100)),
        Err(HydrateError::TypeMismatch)
    );
}

#[test]
fn sequential_passes_agree_and_never_duplicate_identifiers() {
    let mut t = skeleton(&["/r/a.md", "/r/b.md"], false);
    for pass in 0..2 {
        let mut s = HydrationSession::new(&t, 2);
        if pass == 0 {
            assert_eq!(s.discovered, 2);
        } else {
            // the second pass finds a fully hydrated tree and does nothing
            assert_eq!(s.discovered, 0);
        }
        while let Some((id, path)) = s.start_next() {
            assert_eq!(s.complete_success(&mut t, parsed(&path, 100 + id * 10)), Ok(()));
        }
        assert!(s.is_done());
    }
    assert_eq!(unloaded_count(&t), 0);
    let mut ids: Vec<u64> = t.nodes.iter().map(|n| n.id).collect();
    ids.sort();
    ids.dedup();
    assert_eq!(ids.len(), t.nodes.len());
    assert!(t.is_well_formed());
}

#[test]
fn interleaved_passes_cannot_corrupt_the_node_map() {
    // two passes created from the same unhydrated tree, folding with
    // overlapping identifier ranges: the second pass's stale results are
    // rejected instead of duplicating or losing nodes
    let mut t = skeleton(&["/r/a.md", "/r/b.md"], false);
    let mut s1 = HydrationSession::new(&t, 2);
    let mut s2 = HydrationSession::new(&t, 2);
    let mut started1 = Vec::new();
    while let Some(entry) = s1.start_next() {
        started1.push(entry);
    }
    let mut started2 = Vec::new();
    while let Some(entry) = s2.start_next() {
        started2.push(entry);
    }
    for (id, path) in started1 {
        assert_eq!(s1.complete_success(&mut t, parsed(&path, 100 + id * 10)), Ok(()));
    }
    for (id, path) in started2 {
        let r = s2.complete_success(&mut t, parsed(&path, 100 + id * 10));
        assert_eq!(r, Err(HydrateError::IdCollision));
        assert!(s2.complete_failure(&path, HydrateError::IdCollision));
    }
    assert!(s1.is_done());
    assert!(s2.is_done());
    // both passes end over a fully hydrated, intact tree
    assert_eq!(unloaded_count(&t), 0);
    assert!(t.is_well_formed());
    let mut ids: Vec<u64> = t.nodes.iter().map(|n| n.id).collect();
    ids.sort();
    ids.dedup();
    assert_eq!(ids.len(), t.nodes.len());
    for doc_id in [1u64, 2] {
        assert_eq!(t.get_node(doc_id).unwrap().children.len(), 1);
    }
}
