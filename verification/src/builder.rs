//! The skeleton builder: breadth-first construction of a tree from a
//! directory hierarchy, structure only. Directory nodes are fully expanded;
//! document files become unloaded placeholders to be hydrated later; other
//! entries are skipped.
//!
//! The builder performs no filesystem I/O itself. It keeps the walk's work
//! queue and the growing arena; a driver outside the crate takes the next
//! pending path from [`SkeletonBuilder::pending_path`], looks it up on
//! disk, and reports what it found through [`SkeletonBuilder::step`].
//! Children of a directory are recorded in the enumeration order the
//! driver reports, which is the filesystem's own: deliberately not sorted,
//! a documented non-determinism of the walk.

use vstd::prelude::*;

use crate::node::{Node, NodeData, NodeType};
use crate::text::{has_md_extension, spec_has_md_extension};
use crate::tree::{seq_contains_id, seq_index_of, Tree};

verus! {

/// What the driver found at a pending path.
pub enum PathKind {
    /// The path does not exist.
    Missing,
    /// A regular file; `via_symlink` says the path itself is a symbolic
    /// link resolving to it.
    File { via_symlink: bool },
    /// A directory, with the paths of its entries in the filesystem's own
    /// enumeration order; `via_symlink` as above.
    Directory { via_symlink: bool, entries: Vec<String> },
    /// Anything else: a device, a socket, a broken link.
    Other,
}

/// Whether a reported path is skipped rather than turned into a node: a
/// missing or unclassifiable path, a symbolic link while links are not
/// followed, or a file without the indexed document extension.
pub open spec fn step_skips(kind: PathKind, follow_links: bool, path: Seq<char>) -> bool {
    match kind {
        PathKind::Missing => true,
        PathKind::Other => true,
        PathKind::File { via_symlink } => (via_symlink && !follow_links)
            || !spec_has_md_extension(path),
        PathKind::Directory { via_symlink, entries: _ } => via_symlink && !follow_links,
    }
}

/// The only shapes a skeleton holds: expanded directories and unloaded,
/// childless document placeholders.
pub open spec fn skeleton_node(n: Node) -> bool {
    ||| (n.node_type == NodeType::Directory && n.data matches NodeData::DirectoryData { .. })
    ||| (n.node_type == NodeType::Document && (n.data matches NodeData::DocumentData {
        path: _,
        loaded: false,
    }) && n.children@.len() == 0)
}

/// A breadth-first walk in progress: the arena grown so far, the designated
/// root once the walk's first path has produced a node, and the work queue
/// of paths still to visit, each with the node of the directory that
/// discovered it.
pub struct SkeletonBuilder {
    /// The logical handle the finished tree will carry.
    pub name: String,
    /// The filesystem root the walk started from.
    pub root_path: String,
    /// Whether symbolic links are followed rather than skipped.
    pub follow_links: bool,
    /// The nodes created so far, in creation order.
    pub nodes: Vec<Node>,
    /// The root node's identifier, once the walk's first path produced one.
    pub root: Option<u64>,
    /// Paths still to visit; the second component is the identifier of the
    /// directory node that discovered the path, and nothing for the walk's
    /// root path only.
    pub queue: Vec<(String, Option<u64>)>,
    /// The next identifier to mint; every node so far has a smaller one.
    pub next_id: u64,
}

impl SkeletonBuilder {
    /// The builder's well-formedness: identifiers are unique and below
    /// `next_id`, children lists resolve to nodes and never name the root,
    /// no node has two parents, every node has a skeleton shape and is
    /// reachable from the root, and every queued path's parent is an
    /// existing directory node — except the walk's root path, which has
    /// none and exists at most once, only while no root has been
    /// designated.
    /// The tree this walk would hand back as it stands (meaningful once
    /// a root has been designated).
    pub open spec fn as_tree(self) -> Tree {
        Tree {
            name: self.name,
            path: self.root_path,
            root_node: if self.root is Some {
                self.root->0
            } else {
                0
            },
            nodes: self.nodes,
        }
    }

    pub open spec fn inv(self) -> bool {
        &&& forall|i: int|
            0 <= i < self.nodes@.len() ==> (#[trigger] self.nodes@[i]).id < self.next_id
        &&& forall|i: int, j: int|
            0 <= i < j < self.nodes@.len() ==> self.nodes@[i].id != self.nodes@[j].id
        &&& forall|i: int, k: int|
            0 <= i < self.nodes@.len() && 0 <= k < self.nodes@[i].children@.len()
                ==> seq_contains_id(self.nodes@, #[trigger] self.nodes@[i].children@[k])
        &&& forall|i: int| 0 <= i < self.nodes@.len() ==> skeleton_node(#[trigger] self.nodes@[i])
        &&& (self.root is None ==> self.nodes@.len() == 0)
        &&& (self.root matches Some(rid) ==> seq_contains_id(self.nodes@, rid))
        &&& (self.root matches Some(rid) ==> forall|i: int, k: int|
            0 <= i < self.nodes@.len() && 0 <= k < self.nodes@[i].children@.len()
                ==> (#[trigger] self.nodes@[i].children@[k]) != rid)
        &&& forall|i: int, k: int, i2: int, k2: int|
            0 <= i < self.nodes@.len() && 0 <= k < self.nodes@[i].children@.len() && 0 <= i2
                < self.nodes@.len() && 0 <= k2 < self.nodes@[i2].children@.len() && (i != i2 || k
                != k2) ==> #[trigger] self.nodes@[i].children@[k]
                != #[trigger] self.nodes@[i2].children@[k2]
        &&& (self.root is Some ==> forall|i: int|
            0 <= i < self.nodes@.len() ==> crate::tree::reachable_from_root(
                self.as_tree(),
                (#[trigger] self.nodes@[i]).id,
            ))
        &&& forall|i: int|
            0 <= i < self.queue@.len() ==> ((#[trigger] self.queue@[i]).1 matches Some(pid)
                ==> seq_contains_id(self.nodes@, pid) && self.nodes@[seq_index_of(
                self.nodes@,
                pid,
            )].node_type == NodeType::Directory)
        &&& forall|i: int|
            0 <= i < self.queue@.len() && (#[trigger] self.queue@[i]).1 is None
                ==> self.root is None
        &&& forall|i: int, j: int|
            0 <= i < self.queue@.len() && 0 <= j < self.queue@.len() && i != j ==> !((
            #[trigger] self.queue@[i]).1 is None && (#[trigger] self.queue@[j]).1 is None)
    }

    /// Starts a walk: the queue holds just the root path, with no parent,
    /// and nothing has been built yet.
    pub fn new(name: String, root_path: String, follow_links: bool) -> (b: SkeletonBuilder)
        ensures
            b.inv(),
            b.name == name,
            b.root_path == root_path,
            b.follow_links == follow_links,
            b.nodes@.len() == 0,
            b.root is None,
            b.next_id == 0,
            b.queue@.len() == 1,
            b.queue@[0].0 == root_path,
            b.queue@[0].1 is None,
    {
        let first = root_path.clone();
        let mut queue: Vec<(String, Option<u64>)> = Vec::new();
        queue.push((first, None));
        SkeletonBuilder {
            name,
            root_path,
            follow_links,
            nodes: Vec::new(),
            root: None,
            queue,
            next_id: 0,
        }
    }

    /// The next path the driver should look up, or nothing when the walk
    /// is finished.
    pub fn pending_path(&self) -> (r: Option<String>)
        ensures
            match r {
                Some(p) => self.queue@.len() > 0 && p == self.queue@[0].0,
                None => self.queue@.len() == 0,
            },
    {
        if self.queue.len() == 0 {
            None
        } else {
            Some(self.queue[0].0.clone())
        }
    }

    /// Places a freshly minted node into the arena: appends it, records it
    /// as the root when it has no parent, and otherwise appends its
    /// identifier to its parent directory's children list.
    fn place(&mut self, node: Node, parent: Option<u64>)
        requires
            old(self).inv(),
            old(self).next_id < u64::MAX,
            node.id == old(self).next_id,
            node.children@.len() == 0,
            skeleton_node(node),
            parent is None ==> old(self).root is None && (forall|i: int|
                0 <= i < old(self).queue@.len() ==> (#[trigger] old(self).queue@[i]).1 is Some),
            parent matches Some(pid) ==> seq_contains_id(old(self).nodes@, pid) && old(
                self,
            ).nodes@[seq_index_of(old(self).nodes@, pid)].node_type == NodeType::Directory,
        ensures
            final(self).inv(),
            final(self).name == old(self).name,
            final(self).root_path == old(self).root_path,
            final(self).follow_links == old(self).follow_links,
            final(self).queue == old(self).queue,
            final(self).next_id == old(self).next_id + 1,
            final(self).nodes@.len() == old(self).nodes@.len() + 1,
            final(self).nodes@.last() == node,
            seq_contains_id(final(self).nodes@, node.id),
            parent is None ==> final(self).root == Some(node.id) && (forall|i: int|
                0 <= i < old(self).nodes@.len() ==> final(self).nodes@[i] == old(self).nodes@[i]),
            parent matches Some(pid) ==> final(self).root == old(self).root && ({
                let pi = seq_index_of(old(self).nodes@, pid);
                &&& final(self).nodes@[pi].children@ == old(self).nodes@[pi].children@.push(
                    node.id,
                )
                &&& final(self).nodes@[pi].id == old(self).nodes@[pi].id
                &&& final(self).nodes@[pi].node_type == old(self).nodes@[pi].node_type
                &&& final(self).nodes@[pi].data == old(self).nodes@[pi].data
                &&& forall|i: int|
                    0 <= i < old(self).nodes@.len() && i != pi ==> final(self).nodes@[i] == old(
                        self,
                    ).nodes@[i]
            }),
    {
        proof {
            if parent is Some {
                let pid = parent->0;
                crate::tree::lemma_index_of_contained(self.nodes@, pid);
            }
        }
        match parent {
            None => {
                self.root = Some(node.id);
                self.nodes.push(node);
            },
            Some(pid) => {
                let pi = match self.find_parent(pid) {
                    Some(i) => i,
                    None => vstd::pervasive::unreached(),
                };
                proof {
                    crate::tree::lemma_unique_index(self.nodes@, pid, pi as int);
                }
                let parent_node = &mut self.nodes[pi];
                parent_node.children.push(node.id);
                self.nodes.push(node);
            },
        }
        self.next_id = self.next_id + 1;
        proof {
            let pre = *old(self);
            let post = *self;
            let n_old = pre.nodes@.len() as int;
            assert(post.nodes@.last() == node);
            assert forall|i: int, k: int|
                0 <= i < post.nodes@.len() && 0 <= k < post.nodes@[i].children@.len()
                    implies seq_contains_id(
                post.nodes@,
                #[trigger] post.nodes@[i].children@[k],
            ) by {
                let c = post.nodes@[i].children@[k];
                if i < n_old {
                    if parent matches Some(pid) && i == seq_index_of(pre.nodes@, pid) && k
                        == pre.nodes@[i].children@.len() {
                        assert(c == node.id);
                        assert(post.nodes@[n_old].id == c);
                    } else {
                        assert(c == pre.nodes@[i].children@[k]);
                        assert(seq_contains_id(pre.nodes@, c));
                        let w = seq_index_of(pre.nodes@, c);
                        assert(post.nodes@[w].id == c);
                    }
                }
            }
            assert forall|id: u64| seq_contains_id(pre.nodes@, id) implies seq_contains_id(
                post.nodes@,
                id,
            ) && id != node.id by {
                let w = seq_index_of(pre.nodes@, id);
                assert(post.nodes@[w].id == id);
                assert(pre.nodes@[w].id < pre.next_id);
            }
            // the root is nobody's child
            if post.root is Some {
                let rid = post.root->0;
                assert forall|i: int, k: int|
                    0 <= i < post.nodes@.len() && 0 <= k < post.nodes@[i].children@.len()
                        implies (#[trigger] post.nodes@[i].children@[k]) != rid by {
                    let c = post.nodes@[i].children@[k];
                    if parent is None {
                        // no link was added, and the new root is fresh
                        assert(i < n_old);
                        assert(c == pre.nodes@[i].children@[k]);
                        assert(seq_contains_id(pre.nodes@, c));
                    } else {
                        assert(pre.root == post.root);
                        if i < n_old {
                            if i == seq_index_of(pre.nodes@, parent->0) && k
                                == pre.nodes@[i].children@.len() {
                                assert(c == node.id);
                                assert(seq_contains_id(pre.nodes@, rid));
                            } else {
                                assert(c == pre.nodes@[i].children@[k]);
                            }
                        }
                    }
                }
            }
            // no node gains a second parent
            assert forall|i: int, k: int, i2: int, k2: int|
                0 <= i < post.nodes@.len() && 0 <= k < post.nodes@[i].children@.len() && 0 <= i2
                    < post.nodes@.len() && 0 <= k2 < post.nodes@[i2].children@.len() && (i != i2
                    || k != k2) implies #[trigger] post.nodes@[i].children@[k]
                != #[trigger] post.nodes@[i2].children@[k2] by {
                let new1 = parent matches Some(pid) && i == seq_index_of(pre.nodes@, pid) && k
                    == pre.nodes@[i].children@.len();
                let new2 = parent matches Some(pid) && i2 == seq_index_of(pre.nodes@, pid) && k2
                    == pre.nodes@[i2].children@.len();
                if new1 && !new2 {
                    assert(post.nodes@[i].children@[k] == node.id);
                    assert(i2 < n_old);
                    assert(post.nodes@[i2].children@[k2] == pre.nodes@[i2].children@[k2]);
                    assert(seq_contains_id(pre.nodes@, pre.nodes@[i2].children@[k2]));
                } else if new2 && !new1 {
                    assert(post.nodes@[i2].children@[k2] == node.id);
                    assert(i < n_old);
                    assert(post.nodes@[i].children@[k] == pre.nodes@[i].children@[k]);
                    assert(seq_contains_id(pre.nodes@, pre.nodes@[i].children@[k]));
                } else if !new1 && !new2 {
                    assert(i < n_old && i2 < n_old);
                    assert(post.nodes@[i].children@[k] == pre.nodes@[i].children@[k]);
                    assert(post.nodes@[i2].children@[k2] == pre.nodes@[i2].children@[k2]);
                }
            }
            // every node stays reachable from the root; the new node is
            // reached through its parent
            let a = pre.as_tree();
            let b = post.as_tree();
            if parent is None {
                assert(pre.nodes@.len() == 0);
                assert(b.root_node == node.id);
                assert forall|i: int|
                    0 <= i < post.nodes@.len() implies crate::tree::reachable_from_root(
                    b,
                    (#[trigger] post.nodes@[i]).id,
                ) by {
                    assert(post.nodes@[i].id == node.id);
                    assert(crate::tree::reachable_within(b, b.root_node, node.id, 0nat));
                }
            } else {
                let pid = parent->0;
                assert(pre.root is Some);
                let rid = pre.root->0;
                assert(a.root_node == rid && b.root_node == rid);
                let pi2 = seq_index_of(pre.nodes@, pid);
                crate::tree::lemma_index_of_contained(pre.nodes@, pid);
                assert forall|id: u64| a.contains_id(id) implies b.contains_id(id) && (
                #[trigger] b.node_of(id)).children@.len() >= a.node_of(id).children@.len() && (
                forall|k: int|
                    0 <= k < a.node_of(id).children@.len() ==> b.node_of(id).children@[k]
                        == a.node_of(id).children@[k]) by {
                    let w = seq_index_of(pre.nodes@, id);
                    crate::tree::lemma_index_of_contained(pre.nodes@, id);
                    crate::tree::lemma_unique_index(pre.nodes@, id, w);
                    assert(post.nodes@[w].id == id);
                    crate::tree::lemma_unique_index(post.nodes@, id, w);
                }
                assert(a.children_closed());
                assert(a.contains_id(a.root_node));
                assert forall|i: int|
                    0 <= i < post.nodes@.len() implies crate::tree::reachable_from_root(
                    b,
                    (#[trigger] post.nodes@[i]).id,
                ) by {
                    if i < n_old {
                        let id = post.nodes@[i].id;
                        assert(id == pre.nodes@[i].id);
                        assert(crate::tree::reachable_from_root(a, pre.nodes@[i].id));
                        let fuel = choose|fuel: nat|
                            crate::tree::reachable_within(a, a.root_node, id, fuel);
                        crate::tree::lemma_reachable_monotone(a, b, a.root_node, id, fuel);
                        assert(crate::tree::reachable_within(b, b.root_node, id, fuel));
                    } else {
                        assert(post.nodes@[i].id == node.id);
                        assert(pre.nodes@[pi2].id == pid);
                        assert(crate::tree::reachable_from_root(a, pre.nodes@[pi2].id));
                        let fuel = choose|fuel: nat|
                            crate::tree::reachable_within(a, a.root_node, pid, fuel);
                        crate::tree::lemma_reachable_monotone(a, b, a.root_node, pid, fuel);
                        crate::tree::lemma_unique_index(post.nodes@, pid, pi2);
                        assert(b.node_of(pid).children@[pre.nodes@[pi2].children@.len() as int]
                            == node.id);
                        assert(b.contains_id(pid));
                        assert(crate::tree::reachable_within(b, node.id, node.id, 0nat));
                        assert(crate::tree::reachable_within(b, pid, node.id, 1nat));
                        crate::tree::lemma_reachable_trans(
                            b,
                            b.root_node,
                            pid,
                            node.id,
                            fuel,
                            1nat,
                        );
                        assert(crate::tree::reachable_within(
                            b,
                            b.root_node,
                            node.id,
                            (fuel + 1) as nat,
                        ));
                    }
                }
            }
            // queued parents still name existing directory nodes
            assert forall|i: int|
                0 <= i < post.queue@.len() implies ((#[trigger] post.queue@[i]).1 matches Some(
                pid,
            ) ==> seq_contains_id(post.nodes@, pid) && post.nodes@[seq_index_of(
                post.nodes@,
                pid,
            )].node_type == NodeType::Directory) by {
                if post.queue@[i].1 is Some {
                    let pid = post.queue@[i].1->0;
                    let w = seq_index_of(pre.nodes@, pid);
                    assert(post.nodes@[w].id == pid);
                    crate::tree::lemma_unique_index(post.nodes@, pid, w);
                    assert(post.nodes@[w].node_type == pre.nodes@[w].node_type);
                }
            }
        }
    }

    /// Processes the walk's next pending path, given what the driver found
    /// there. A missing path, an unclassifiable one, a symbolic link while
    /// links are not followed, and a file without the document extension
    /// are skipped. A matching file becomes an unloaded document
    /// placeholder; a directory becomes a directory node whose entries
    /// join the queue, in the driver's enumeration order, as its future
    /// children. Either new node is appended to its parent directory's
    /// children — or becomes the root when this was the walk's root path.
    #[verifier::rlimit(60)]
    pub fn step(&mut self, kind: PathKind)
        requires
            old(self).inv(),
            old(self).queue@.len() > 0,
            old(self).next_id < u64::MAX,
        ensures
            final(self).inv(),
            final(self).name == old(self).name,
            final(self).root_path == old(self).root_path,
            final(self).follow_links == old(self).follow_links,
            step_skips(kind, old(self).follow_links, old(self).queue@[0].0@) ==> ({
                &&& final(self).nodes == old(self).nodes
                &&& final(self).root == old(self).root
                &&& final(self).next_id == old(self).next_id
                &&& final(self).queue@ == old(self).queue@.remove(0)
            }),
            !step_skips(kind, old(self).follow_links, old(self).queue@[0].0@) ==> ({
                let path = old(self).queue@[0].0;
                let parent = old(self).queue@[0].1;
                let id = old(self).next_id;
                let pre_nodes = old(self).nodes@;
                &&& final(self).next_id == id + 1
                &&& final(self).nodes@.len() == pre_nodes.len() + 1
                &&& final(self).nodes@.last().id == id
                &&& final(self).nodes@.last().children@.len() == 0
                &&& (kind matches PathKind::File { .. } ==> final(self).nodes@.last().node_type
                    == NodeType::Document && final(self).nodes@.last().data
                    == (NodeData::DocumentData { path: path, loaded: false }))
                &&& (kind matches PathKind::Directory { .. }
                    ==> final(self).nodes@.last().node_type == NodeType::Directory
                    && final(self).nodes@.last().data == (NodeData::DirectoryData { path: path }))
                &&& (parent is None ==> final(self).root == Some(id) && (forall|i: int|
                    0 <= i < pre_nodes.len() ==> final(self).nodes@[i] == pre_nodes[i]))
                &&& (parent matches Some(pid) ==> final(self).root == old(self).root && ({
                    let pi = seq_index_of(pre_nodes, pid);
                    &&& final(self).nodes@[pi].children@ == pre_nodes[pi].children@.push(id)
                    &&& final(self).nodes@[pi].id == pre_nodes[pi].id
                    &&& final(self).nodes@[pi].node_type == pre_nodes[pi].node_type
                    &&& final(self).nodes@[pi].data == pre_nodes[pi].data
                    &&& forall|i: int|
                        0 <= i < pre_nodes.len() && i != pi ==> final(self).nodes@[i]
                            == pre_nodes[i]
                }))
                &&& (kind matches PathKind::Directory { via_symlink: _, entries }
                    ==> final(self).queue@ == old(self).queue@.remove(0) + entries@.map_values(
                    |p: String| (p, Some(id)),
                ))
                &&& (!(kind matches PathKind::Directory { .. }) ==> final(self).queue@ == old(
                    self,
                ).queue@.remove(0))
            }),
    {
        let entry = self.queue.remove(0);
        let path = entry.0;
        let parent = entry.1;
        match kind {
            PathKind::Missing => {},
            PathKind::Other => {},
            PathKind::File { via_symlink } => {
                if !(via_symlink && !self.follow_links) {
                    if has_md_extension(path.as_str()) {
                        let id = self.next_id;
                        let node = Node {
                            id,
                            node_type: NodeType::Document,
                            children: Vec::new(),
                            data: NodeData::DocumentData { path, loaded: false },
                        };
                        self.place(node, parent);
                    }
                }
            },
            PathKind::Directory { via_symlink, entries } => {
                if !(via_symlink && !self.follow_links) {
                    let id = self.next_id;
                    let node = Node {
                        id,
                        node_type: NodeType::Directory,
                        children: Vec::new(),
                        data: NodeData::DirectoryData { path },
                    };
                    self.place(node, parent);
                    proof {
                        crate::tree::lemma_unique_index(
                            self.nodes@,
                            id,
                            self.nodes@.len() - 1,
                        );
                    }
                    self.enqueue_entries(entries, id);
                }
            },
        }
    }

    /// Ends the walk: the finished tree, or nothing when the walk's root
    /// path never produced a node — a missing root path fails the whole
    /// build. The tree carries the walk's name and root path, is
    /// well-formed, gives every node a single parent, and holds only
    /// expanded directories and unloaded, childless document placeholders.
    pub fn finish(self) -> (r: Option<Tree>)
        requires
            self.inv(),
            self.queue@.len() == 0,
        ensures
            r is Some <==> self.root is Some,
            r matches Some(t) ==> ({
                &&& t.name == self.name
                &&& t.path == self.root_path
                &&& Some(t.root_node) == self.root
                &&& t.nodes@ == self.nodes@
                &&& t.wf()
                &&& t.single_parent()
                &&& forall|i: int|
                    0 <= i < t.nodes@.len() ==> skeleton_node(#[trigger] t.nodes@[i])
                &&& forall|id: u64|
                    #![trigger t.contains_id(id)]
                    t.contains_id(id) ==> crate::tree::reachable_from_root(t, id)
            }),
    {
        match self.root {
            Some(rid) => {
                let t = Tree {
                    name: self.name,
                    path: self.root_path,
                    root_node: rid,
                    nodes: self.nodes,
                };
                proof {
                    assert(t.contains_id(t.root_node));
                    assert(t == self.as_tree());
                    assert forall|id: u64| #![trigger t.contains_id(id)]
                        t.contains_id(id) implies crate::tree::reachable_from_root(t, id) by {
                        let i = seq_index_of(t.nodes@, id);
                        crate::tree::lemma_index_of_contained(t.nodes@, id);
                        assert(crate::tree::reachable_from_root(
                            self.as_tree(),
                            self.nodes@[i].id,
                        ));
                    }
                }
                Some(t)
            },
            None => None,
        }
    }

    /// Queues every entry of a freshly expanded directory, in the order
    /// given, as children-to-be of that directory's node.
    fn enqueue_entries(&mut self, entries: Vec<String>, parent_id: u64)
        requires
            old(self).inv(),
            seq_contains_id(old(self).nodes@, parent_id),
            old(self).nodes@[seq_index_of(old(self).nodes@, parent_id)].node_type
                == NodeType::Directory,
        ensures
            final(self).inv(),
            final(self).name == old(self).name,
            final(self).root_path == old(self).root_path,
            final(self).follow_links == old(self).follow_links,
            final(self).nodes == old(self).nodes,
            final(self).root == old(self).root,
            final(self).next_id == old(self).next_id,
            final(self).queue@ == old(self).queue@ + entries@.map_values(
                |p: String| (p, Some(parent_id)),
            ),
    {
        let ghost q_mid = self.queue@;
        let ghost b_mid = *self;
        let mut i: usize = 0;
        #[verifier::loop_isolation(false)]
        while i < entries.len()
            invariant
                i <= entries@.len(),
                self.inv(),
                self.name == b_mid.name,
                self.root_path == b_mid.root_path,
                self.follow_links == b_mid.follow_links,
                self.nodes == b_mid.nodes,
                self.root == b_mid.root,
                self.next_id == b_mid.next_id,
                self.queue@ == q_mid + entries@.take(i as int).map_values(
                    |p: String| (p, Some(parent_id)),
                ),
            decreases entries@.len() - i,
        {
            let p = entries[i].clone();
            self.queue.push((p, Some(parent_id)));
            proof {
                assert(self.queue@ =~= q_mid + entries@.take(i + 1).map_values(
                    |p2: String| (p2, Some(parent_id)),
                ));
            }
            i = i + 1;
        }
        proof {
            assert(entries@.take(entries@.len() as int) =~= entries@);
        }
    }

    /// The arena position of a parent identifier.
    fn find_parent(&self, pid: u64) -> (r: Option<usize>)
        ensures
            match r {
                Some(i) => i < self.nodes@.len() && self.nodes@[i as int].id == pid,
                None => !seq_contains_id(self.nodes@, pid),
            },
    {
        let mut i: usize = 0;
        while i < self.nodes.len()
            invariant
                i <= self.nodes@.len(),
                forall|j: int| 0 <= j < i ==> self.nodes@[j].id != pid,
            decreases self.nodes@.len() - i,
        {
            if self.nodes[i].id == pid {
                return Some(i);
            }
            i = i + 1;
        }
        None
    }
}

} // verus!
