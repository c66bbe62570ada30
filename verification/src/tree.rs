//! An identifier-indexed collection of nodes with a designated root, and the
//! two merge primitives of the system: attaching a subtree as a new child
//! (`insert_child_under`) and grafting a subtree onto an existing node while
//! preserving that node's identity (`splice_at`).
//!
//! Nodes live in an arena (`nodes`) in insertion order; the arena is the sole
//! ownership point of a node. Well-formedness (`wf`) asks that identifiers be
//! unique, that the root be present, that every child identifier resolve to a
//! node, and that the root never appear as a child.

use vstd::prelude::*;

use crate::node::{node_equiv, Node};

verus! {

/// Membership of an identifier in a node arena.
pub open spec fn seq_contains_id(s: Seq<Node>, id: u64) -> bool {
    exists|i: int| 0 <= i < s.len() && s[i].id == id
}

/// The position of an identifier in a node arena (meaningful only where
/// `seq_contains_id` holds).
pub open spec fn seq_index_of(s: Seq<Node>, id: u64) -> int {
    choose|i: int| 0 <= i < s.len() && s[i].id == id
}

/// A named collection of nodes with a designated root.
///
/// `name` is the logical handle used by clients; `path` is the filesystem
/// root the tree was built from (empty for synthetic trees).
#[derive(Debug, PartialEq)]
pub struct Tree {
    pub name: String,
    pub path: String,
    pub root_node: u64,
    pub nodes: Vec<Node>,
}

impl Tree {
    /// Whether some node of this tree carries the identifier.
    pub open spec fn contains_id(self, id: u64) -> bool {
        seq_contains_id(self.nodes@, id)
    }

    /// The arena position of the node carrying the identifier.
    pub open spec fn index_of(self, id: u64) -> int {
        seq_index_of(self.nodes@, id)
    }

    /// The node carrying the identifier (meaningful only where
    /// `contains_id` holds).
    pub open spec fn node_of(self, id: u64) -> Node {
        self.nodes@[self.index_of(id)]
    }

    /// No two nodes of the arena share an identifier.
    pub open spec fn ids_unique(self) -> bool {
        forall|i: int, j: int|
            0 <= i < j < self.nodes@.len() ==> self.nodes@[i].id != self.nodes@[j].id
    }

    /// Every identifier in any children list resolves to a node of the
    /// arena: no dangling references.
    pub open spec fn children_closed(self) -> bool {
        forall|i: int, k: int|
            0 <= i < self.nodes@.len() && 0 <= k < self.nodes@[i].children@.len()
                ==> self.contains_id(#[trigger] self.nodes@[i].children@[k])
    }

    /// The root is nobody's child.
    pub open spec fn root_not_child(self) -> bool {
        forall|i: int, k: int|
            0 <= i < self.nodes@.len() && 0 <= k < self.nodes@[i].children@.len()
                ==> #[trigger] self.nodes@[i].children@[k] != self.root_node
    }

    /// No identifier appears twice among the children lists: a node has at
    /// most one parent, and appears at most once under it.
    pub open spec fn single_parent(self) -> bool {
        forall|i: int, k: int, i2: int, k2: int|
            0 <= i < self.nodes@.len() && 0 <= k < self.nodes@[i].children@.len() && 0 <= i2
                < self.nodes@.len() && 0 <= k2 < self.nodes@[i2].children@.len() && (i != i2 || k
                != k2) ==> #[trigger] self.nodes@[i].children@[k]
                != #[trigger] self.nodes@[i2].children@[k2]
    }

    /// A settled tree: unique identifiers, a present root, no dangling child
    /// references, and a root that is nobody's child.
    pub open spec fn wf(self) -> bool {
        &&& self.ids_unique()
        &&& self.contains_id(self.root_node)
        &&& self.children_closed()
        &&& self.root_not_child()
    }

    /// No identifier is shared between this tree's arena and the other's.
    pub open spec fn disjoint_ids(self, other: Tree) -> bool {
        forall|id: u64| self.contains_id(id) ==> !other.contains_id(id)
    }

    /// Creates a tree containing exactly the given node as its root, with an
    /// empty name and path.
    pub fn new(root: Node) -> (t: Tree)
        ensures
            t.name@ == Seq::<char>::empty(),
            t.path@ == Seq::<char>::empty(),
            t.root_node == root.id,
            t.nodes@ == seq![root],
            root.children@.len() == 0 ==> t.wf(),
    {
        let root_id = root.id;
        let mut nodes: Vec<Node> = Vec::new();
        nodes.push(root);
        let t = Tree { name: String::new(), path: String::new(), root_node: root_id, nodes };
        proof {
            assert(t.nodes@ =~= seq![root]);
            if root.children@.len() == 0 {
                assert(t.contains_id(root.id)) by {
                    assert(t.nodes@[0].id == root.id);
                }
            }
        }
        t
    }

    /// The arena position of the node with this identifier, scanning in
    /// insertion order.
    pub fn find_index(&self, node_id: u64) -> (r: Option<usize>)
        ensures
            match r {
                Some(i) => i < self.nodes@.len() && self.nodes@[i as int].id == node_id,
                None => !self.contains_id(node_id),
            },
    {
        let mut i: usize = 0;
        while i < self.nodes.len()
            invariant
                i <= self.nodes@.len(),
                forall|j: int| 0 <= j < i ==> self.nodes@[j].id != node_id,
            decreases self.nodes@.len() - i,
        {
            if self.nodes[i].id == node_id {
                return Some(i);
            }
            i = i + 1;
        }
        None
    }

    /// Looks a node up by identifier; absence is a recoverable condition.
    pub fn get_node(&self, node_id: u64) -> (r: Option<&Node>)
        requires
            self.ids_unique(),
        ensures
            match r {
                Some(n) => self.contains_id(node_id) && *n == self.node_of(node_id),
                None => !self.contains_id(node_id),
            },
    {
        match self.find_index(node_id) {
            Some(i) => {
                proof {
                    lemma_unique_index(self.nodes@, node_id, i as int);
                }
                Some(&self.nodes[i])
            },
            None => None,
        }
    }

    /// Returns the root node; a missing root is an invariant violation, not
    /// a recoverable error, so well-formedness is demanded instead.
    pub fn get_root(&self) -> (n: &Node)
        requires
            self.wf(),
        ensures
            *n == self.node_of(self.root_node),
            n.id == self.root_node,
    {
        proof {
            lemma_index_of_contained(self.nodes@, self.root_node);
        }
        match self.get_node(self.root_node) {
            Some(n) => n,
            None => vstd::pervasive::unreached(),
        }
    }

    /// Inserts the root of the subtree as a new child of the target node and
    /// moves every node the subtree owns into this tree. The subtree is
    /// logically a new descendant; nothing already in this tree changes
    /// except the target's children list, which grows by exactly one, while
    /// the arena grows by exactly the subtree's node count.
    pub fn insert_child_under(&mut self, subtree: Tree, target_id: u64)
        requires
            old(self).wf(),
            subtree.wf(),
            old(self).disjoint_ids(subtree),
            old(self).contains_id(target_id),
        ensures
            final(self).name == old(self).name,
            final(self).path == old(self).path,
            final(self).root_node == old(self).root_node,
            final(self).nodes@.len() == old(self).nodes@.len() + subtree.nodes@.len(),
            final(self).nodes@[old(self).index_of(target_id)].id == target_id,
            final(self).nodes@[old(self).index_of(target_id)].node_type == old(self).node_of(
                target_id,
            ).node_type,
            final(self).nodes@[old(self).index_of(target_id)].data == old(self).node_of(
                target_id,
            ).data,
            final(self).nodes@[old(self).index_of(target_id)].children@ == old(self).node_of(
                target_id,
            ).children@.push(subtree.root_node),
            forall|i: int|
                0 <= i < old(self).nodes@.len() && i != old(self).index_of(target_id)
                    ==> final(self).nodes@[i] == old(self).nodes@[i],
            forall|i: int|
                0 <= i < subtree.nodes@.len()
                    ==> final(self).nodes@[old(self).nodes@.len() + i] == subtree.nodes@[i],
            forall|id: u64|
                #![trigger final(self).contains_id(id)]
                final(self).contains_id(id) <==> (old(self).contains_id(id)
                    || subtree.contains_id(id)),
            final(self).wf(),
            old(self).single_parent() && subtree.single_parent() ==> final(self).single_parent(),
            (forall|i: int|
                0 <= i < old(self).nodes@.len() ==> reachable_from_root(
                    *old(self),
                    (#[trigger] old(self).nodes@[i]).id,
                )) && (forall|i: int|
                0 <= i < subtree.nodes@.len() ==> reachable_from_root(
                    subtree,
                    (#[trigger] subtree.nodes@[i]).id,
                )) ==> forall|i: int|
                0 <= i < final(self).nodes@.len() ==> reachable_from_root(
                    *final(self),
                    (#[trigger] final(self).nodes@[i]).id,
                ),
    {
        let sub_root_id = subtree.root_node;
        let idx = match self.find_index(target_id) {
            Some(i) => i,
            None => vstd::pervasive::unreached(),
        };
        proof {
            lemma_unique_index(self.nodes@, target_id, idx as int);
        }
        let tgt = &mut self.nodes[idx];
        tgt.children.push(sub_root_id);
        let mut sub_nodes = subtree.nodes;
        self.nodes.append(&mut sub_nodes);
        proof {
            let pre = *old(self);
            let post = *self;
            let ti = idx as int;
            let pre_len = pre.nodes@.len() as int;
            assert(post.nodes@.len() == pre_len + subtree.nodes@.len());
            assert(forall|i: int|
                0 <= i < pre_len && i != ti ==> post.nodes@[i] == pre.nodes@[i]);
            assert(forall|i: int|
                0 <= i < subtree.nodes@.len() ==> post.nodes@[pre_len + i] == subtree.nodes@[i]);
            assert(post.nodes@[ti].id == target_id);
            // identifiers are untouched position for position
            assert(forall|i: int| 0 <= i < pre_len ==> post.nodes@[i].id == pre.nodes@[i].id);
            // membership afterwards is membership in either part
            assert forall|id: u64| #![trigger post.contains_id(id)]
                post.contains_id(id) <==> (pre.contains_id(id) || subtree.contains_id(id)) by {
                if pre.contains_id(id) {
                    let i = pre.index_of(id);
                    assert(post.nodes@[i].id == id);
                }
                if subtree.contains_id(id) {
                    let i = seq_index_of(subtree.nodes@, id);
                    assert(post.nodes@[pre_len + i].id == id);
                }
                if post.contains_id(id) {
                    let i = post.index_of(id);
                    assert(0 <= i < post.nodes@.len() && post.nodes@[i].id == id);
                    if i < pre_len {
                        assert(pre.nodes@[i].id == id);
                        assert(pre.contains_id(id));
                    } else {
                        assert(subtree.nodes@[i - pre_len].id == id);
                        assert(subtree.contains_id(id));
                    }
                }
            }
            // uniqueness: within each part, and across the disjoint parts
            assert forall|p: int, q: int|
                0 <= p < q < post.nodes@.len() implies post.nodes@[p].id != post.nodes@[q].id by {
                if q < pre_len {
                    assert(pre.nodes@[p].id != pre.nodes@[q].id);
                } else if p >= pre_len {
                    assert(subtree.nodes@[p - pre_len].id != subtree.nodes@[q - pre_len].id);
                } else {
                    let idp = post.nodes@[p].id;
                    assert(pre.nodes@[p].id == idp);
                    assert(pre.contains_id(idp));
                    assert(!subtree.contains_id(idp));
                    if post.nodes@[q].id == idp {
                        assert(subtree.nodes@[q - pre_len].id == idp);
                        assert(subtree.contains_id(idp));
                    }
                }
            }
            // no dangling children, and the root is still nobody's child
            assert forall|i: int, k: int|
                0 <= i < post.nodes@.len() && 0 <= k < post.nodes@[i].children@.len()
                    implies post.contains_id(#[trigger] post.nodes@[i].children@[k])
                    && post.nodes@[i].children@[k] != post.root_node by {
                let c = post.nodes@[i].children@[k];
                if i < pre_len {
                    if i == ti && k == pre.nodes@[ti].children@.len() {
                        assert(c == subtree.root_node);
                        assert(subtree.contains_id(c));
                        if c == pre.root_node {
                            assert(pre.contains_id(pre.root_node));
                        }
                    } else {
                        assert(c == pre.nodes@[i].children@[k]);
                        assert(pre.contains_id(c));
                        assert(c != pre.root_node);
                    }
                } else {
                    assert(c == subtree.nodes@[i - pre_len].children@[k]);
                    assert(subtree.contains_id(c));
                    if c == pre.root_node {
                        assert(pre.contains_id(pre.root_node));
                    }
                }
            }
            assert(post.contains_id(post.root_node));
            // a node keeps a single parent when both parts had that shape
            if pre.single_parent() && subtree.single_parent() {
                assert forall|i: int, k: int, i2: int, k2: int|
                    0 <= i < post.nodes@.len() && 0 <= k < post.nodes@[i].children@.len() && 0
                        <= i2 < post.nodes@.len() && 0 <= k2 < post.nodes@[i2].children@.len() && (
                    i != i2 || k != k2) implies #[trigger] post.nodes@[i].children@[k]
                    != #[trigger] post.nodes@[i2].children@[k2] by {
                    let v1 = post.nodes@[i].children@[k];
                    let v2 = post.nodes@[i2].children@[k2];
                    let new1 = i == ti && k == pre.nodes@[ti].children@.len();
                    let new2 = i2 == ti && k2 == pre.nodes@[ti].children@.len();
                    if new1 {
                        assert(v1 == subtree.root_node);
                    } else if i < pre_len {
                        assert(v1 == pre.nodes@[i].children@[k]);
                        assert(pre.contains_id(v1));
                    } else {
                        assert(v1 == subtree.nodes@[i - pre_len].children@[k]);
                        assert(subtree.contains_id(v1));
                    }
                    if new2 {
                        assert(v2 == subtree.root_node);
                    } else if i2 < pre_len {
                        assert(v2 == pre.nodes@[i2].children@[k2]);
                        assert(pre.contains_id(v2));
                    } else {
                        assert(v2 == subtree.nodes@[i2 - pre_len].children@[k2]);
                        assert(subtree.contains_id(v2));
                    }
                    if !new1 && !new2 && i < pre_len && i2 < pre_len {
                        // two occurrences the old tree already had
                        assert(v1 != v2);
                    } else if !new1 && !new2 && i >= pre_len && i2 >= pre_len {
                        // two occurrences inside the subtree
                        assert(v1 != v2);
                    } else if new1 && !new2 && i2 >= pre_len {
                        // the new edge against a subtree occurrence: the
                        // subtree's root is nobody's child there
                        assert(v2 != subtree.root_node);
                    } else if new2 && !new1 && i >= pre_len {
                        assert(v1 != subtree.root_node);
                    } else {
                        // one value sits in each part; the parts share no
                        // identifier
                        assert(v1 != v2) by {
                            if v1 == v2 {
                                assert(pre.contains_id(v1) && subtree.contains_id(v1));
                            }
                        }
                    }
                }
            }
            // attaching two fully reachable trees leaves every node
            // reachable: the old ones as before, the subtree's through the
            // target's new child edge
            if (forall|i: int|
                0 <= i < pre.nodes@.len() ==> reachable_from_root(
                    pre,
                    (#[trigger] pre.nodes@[i]).id,
                )) && (forall|i: int|
                0 <= i < subtree.nodes@.len() ==> reachable_from_root(
                    subtree,
                    (#[trigger] subtree.nodes@[i]).id,
                )) {
                lemma_index_of_contained(pre.nodes@, target_id);
                assert forall|id: u64| pre.contains_id(id) implies post.contains_id(id) && (
                #[trigger] post.node_of(id)).children@.len() >= pre.node_of(id).children@.len()
                    && (forall|k: int|
                    0 <= k < pre.node_of(id).children@.len() ==> post.node_of(id).children@[k]
                        == pre.node_of(id).children@[k]) by {
                    let w = seq_index_of(pre.nodes@, id);
                    lemma_index_of_contained(pre.nodes@, id);
                    lemma_unique_index(pre.nodes@, id, w);
                    assert(post.nodes@[w].id == id);
                    lemma_unique_index(post.nodes@, id, w);
                }
                assert forall|id: u64| subtree.contains_id(id) implies post.contains_id(id) && (
                #[trigger] subtree.node_of(id)) == post.node_of(id) by {
                    let w = seq_index_of(subtree.nodes@, id);
                    lemma_index_of_contained(subtree.nodes@, id);
                    lemma_unique_index(subtree.nodes@, id, w);
                    assert(post.nodes@[pre_len + w] == subtree.nodes@[w]);
                    lemma_unique_index(post.nodes@, id, pre_len + w);
                }
                assert forall|i: int|
                    0 <= i < post.nodes@.len() implies reachable_from_root(
                    post,
                    (#[trigger] post.nodes@[i]).id,
                ) by {
                    if i < pre_len {
                        let id = post.nodes@[i].id;
                        assert(id == pre.nodes@[i].id);
                        assert(reachable_from_root(pre, pre.nodes@[i].id));
                        let f = choose|f: nat| reachable_within(pre, pre.root_node, id, f);
                        lemma_reachable_monotone(pre, post, pre.root_node, id, f);
                        assert(reachable_within(post, post.root_node, id, f));
                    } else {
                        let x = post.nodes@[i].id;
                        assert(x == subtree.nodes@[i - pre_len].id);
                        assert(subtree.contains_id(x));
                        assert(reachable_from_root(subtree, subtree.nodes@[i - pre_len].id));
                        let f = choose|f: nat|
                            reachable_within(subtree, subtree.root_node, x, f);
                        lemma_index_of_contained(subtree.nodes@, subtree.root_node);
                        lemma_reachable_same_nodes(subtree, post, subtree.root_node, x, f);
                        // the target was reachable, and now reaches the
                        // subtree's root directly
                        assert(pre.nodes@[ti].id == target_id);
                        assert(reachable_from_root(pre, pre.nodes@[ti].id));
                        let fp = choose|fp: nat|
                            reachable_within(pre, pre.root_node, target_id, fp);
                        lemma_reachable_monotone(pre, post, pre.root_node, target_id, fp);
                        lemma_unique_index(post.nodes@, target_id, ti);
                        assert(post.node_of(target_id).children@[pre.nodes@[ti].children@.len() as int]
                            == subtree.root_node);
                        assert(target_id != subtree.root_node) by {
                            assert(pre.contains_id(target_id));
                        }
                        assert(reachable_within(post, subtree.root_node, subtree.root_node, 0nat));
                        assert(reachable_within(post, target_id, subtree.root_node, 1nat));
                        lemma_reachable_trans(
                            post,
                            post.root_node,
                            target_id,
                            subtree.root_node,
                            fp,
                            1nat,
                        );
                        lemma_reachable_trans(
                            post,
                            post.root_node,
                            subtree.root_node,
                            x,
                            (fp + 1) as nat,
                            f,
                        );
                        assert(reachable_within(post, post.root_node, x, (fp + 1 + f) as nat));
                    }
                }
            }
        }
    }

    /// Copies the payload and children of the subtree's root onto the target
    /// node — preserving the target's identifier and type, so every existing
    /// reference to it survives — and moves the subtree's remaining nodes
    /// into this tree. The subtree root's own identifier is discarded, never
    /// inserted. Rejected with a type-mismatch error, leaving this tree
    /// entirely unchanged, exactly when the target's type differs from the
    /// subtree root's.
    pub fn splice_at(&mut self, subtree: Tree, target_id: u64) -> (r: Result<(), &'static str>)
        requires
            old(self).wf(),
            subtree.wf(),
            old(self).disjoint_ids(subtree),
            old(self).contains_id(target_id),
        ensures
            r is Err <==> old(self).node_of(target_id).node_type != subtree.node_of(
                subtree.root_node,
            ).node_type,
            r is Err ==> *final(self) == *old(self),
            r matches Err(m) ==> m@ == "Nodes have mismatched types."@,
            r is Ok ==> final(self).name == old(self).name && final(self).path == old(self).path
                && final(self).root_node == old(self).root_node,
            r is Ok ==> final(self).nodes@.len() + 1 == old(self).nodes@.len()
                + subtree.nodes@.len(),
            r is Ok ==> final(self).nodes@[old(self).index_of(target_id)].id == target_id,
            r is Ok ==> final(self).nodes@[old(self).index_of(target_id)].node_type
                == old(self).node_of(target_id).node_type,
            r is Ok ==> final(self).nodes@[old(self).index_of(target_id)].data
                == subtree.node_of(subtree.root_node).data,
            r is Ok ==> final(self).nodes@[old(self).index_of(target_id)].children@
                == subtree.node_of(subtree.root_node).children@,
            r is Ok ==> forall|i: int|
                0 <= i < old(self).nodes@.len() && i != old(self).index_of(target_id)
                    ==> final(self).nodes@[i] == old(self).nodes@[i],
            r is Ok ==> forall|i: int|
                0 <= i < subtree.nodes@.len() - 1
                    ==> final(self).nodes@[old(self).nodes@.len() + i] == subtree.nodes@.remove(
                    subtree.index_of(subtree.root_node),
                )[i],
            r is Ok ==> forall|id: u64|
                #![trigger final(self).contains_id(id)]
                final(self).contains_id(id) <==> (old(self).contains_id(id) || (
                subtree.contains_id(id) && id != subtree.root_node)),
            r is Ok ==> final(self).wf(),
            r is Ok && old(self).single_parent() && subtree.single_parent()
                ==> final(self).single_parent(),
            r is Ok && old(self).node_of(target_id).children@.len() == 0 && (forall|i: int|
                0 <= i < old(self).nodes@.len() ==> reachable_from_root(
                    *old(self),
                    (#[trigger] old(self).nodes@[i]).id,
                )) && (forall|i: int|
                0 <= i < subtree.nodes@.len() ==> reachable_from_root(
                    subtree,
                    (#[trigger] subtree.nodes@[i]).id,
                )) ==> forall|i: int|
                0 <= i < final(self).nodes@.len() ==> reachable_from_root(
                    *final(self),
                    (#[trigger] final(self).nodes@[i]).id,
                ),
    {
        let sub_root_idx = match subtree.find_index(subtree.root_node) {
            Some(i) => i,
            None => vstd::pervasive::unreached(),
        };
        proof {
            lemma_unique_index(subtree.nodes@, subtree.root_node, sub_root_idx as int);
        }
        let idx = match self.find_index(target_id) {
            Some(i) => i,
            None => vstd::pervasive::unreached(),
        };
        proof {
            lemma_unique_index(self.nodes@, target_id, idx as int);
        }
        // the type check comes first, so a rejected graft leaves the tree
        // untouched
        if self.nodes[idx].node_type != subtree.nodes[sub_root_idx].node_type {
            return Err("Nodes have mismatched types.");
        }
        let mut sub_nodes = subtree.nodes;
        let sub_root = sub_nodes.remove(sub_root_idx);
        let tgt = &mut self.nodes[idx];
        tgt.data = sub_root.data;
        tgt.children = sub_root.children;
        self.nodes.append(&mut sub_nodes);
        proof {
            let pre = *old(self);
            let post = *self;
            let sub = subtree;
            let ti = idx as int;
            let ri = sub_root_idx as int;
            let pre_len = pre.nodes@.len() as int;
            let rest = sub.nodes@.remove(ri);
            let root_of_sub = sub.node_of(sub.root_node);
            assert(post.nodes@.len() == pre_len + rest.len());
            assert(forall|i: int|
                0 <= i < pre_len && i != ti ==> post.nodes@[i] == pre.nodes@[i]);
            assert(forall|i: int| 0 <= i < rest.len() ==> post.nodes@[pre_len + i] == rest[i]);
            assert(forall|i: int| 0 <= i < pre_len ==> post.nodes@[i].id == pre.nodes@[i].id);
            assert(post.nodes@[ti].id == target_id);
            assert(post.nodes@[ti].data == root_of_sub.data);
            assert(post.nodes@[ti].children@ == root_of_sub.children@);
            // what the removed-root remainder holds: every subtree
            // identifier but the subtree root's
            assert forall|j: int| 0 <= j < rest.len() implies rest[j] == sub.nodes@[
                if j < ri {
                    j
                } else {
                    j + 1
                }
            ] && rest[j].id != sub.root_node by {
                let lifted: int = if j < ri {
                    j
                } else {
                    j + 1
                };
                assert(rest[j] == sub.nodes@[lifted]);
                if lifted < ri {
                    assert(sub.nodes@[lifted].id != sub.nodes@[ri].id);
                } else {
                    assert(sub.nodes@[ri].id != sub.nodes@[lifted].id);
                }
            }
            assert forall|id: u64| #![trigger post.contains_id(id)]
                post.contains_id(id) <==> (pre.contains_id(id) || (sub.contains_id(id) && id
                    != sub.root_node)) by {
                if pre.contains_id(id) {
                    let i = pre.index_of(id);
                    assert(post.nodes@[i].id == id);
                }
                if sub.contains_id(id) && id != sub.root_node {
                    let i = seq_index_of(sub.nodes@, id);
                    let dropped: int = if i < ri {
                        i
                    } else {
                        i - 1
                    };
                    assert(rest[dropped].id == id);
                    assert(post.nodes@[pre_len + dropped].id == id);
                }
                if post.contains_id(id) {
                    let i = post.index_of(id);
                    if i < pre_len {
                        assert(pre.nodes@[i].id == id);
                        assert(pre.contains_id(id));
                    } else {
                        let lifted: int = if i - pre_len < ri {
                            i - pre_len
                        } else {
                            i - pre_len + 1
                        };
                        assert(sub.nodes@[lifted].id == id);
                        assert(sub.contains_id(id));
                        assert(id != sub.root_node);
                    }
                }
            }
            assert forall|p: int, q: int|
                0 <= p < q < post.nodes@.len() implies post.nodes@[p].id != post.nodes@[q].id by {
                if q < pre_len {
                    assert(pre.nodes@[p].id != pre.nodes@[q].id);
                } else if p >= pre_len {
                    let lp: int = if p - pre_len < ri {
                        p - pre_len
                    } else {
                        p - pre_len + 1
                    };
                    let lq: int = if q - pre_len < ri {
                        q - pre_len
                    } else {
                        q - pre_len + 1
                    };
                    assert(post.nodes@[p].id == sub.nodes@[lp].id);
                    assert(post.nodes@[q].id == sub.nodes@[lq].id);
                    assert(sub.nodes@[lp].id != sub.nodes@[lq].id);
                } else {
                    let idp = post.nodes@[p].id;
                    assert(pre.nodes@[p].id == idp);
                    assert(pre.contains_id(idp));
                    assert(!sub.contains_id(idp));
                    if post.nodes@[q].id == idp {
                        let lq: int = if q - pre_len < ri {
                            q - pre_len
                        } else {
                            q - pre_len + 1
                        };
                        assert(sub.nodes@[lq].id == idp);
                        assert(sub.contains_id(idp));
                    }
                }
            }
            // children stay resolvable and never point at the root
            assert forall|i: int, k: int|
                0 <= i < post.nodes@.len() && 0 <= k < post.nodes@[i].children@.len()
                    implies post.contains_id(#[trigger] post.nodes@[i].children@[k])
                    && post.nodes@[i].children@[k] != post.root_node by {
                let c = post.nodes@[i].children@[k];
                if i == ti {
                    assert(c == root_of_sub.children@[k]);
                    assert(sub.contains_id(c));
                    assert(c != sub.root_node);
                } else if i < pre_len {
                    assert(c == pre.nodes@[i].children@[k]);
                    assert(pre.contains_id(c));
                    assert(c != pre.root_node);
                } else {
                    assert(post.nodes@[i] == rest[i - pre_len]);
                    let lifted: int = if i - pre_len < ri {
                        i - pre_len
                    } else {
                        i - pre_len + 1
                    };
                    assert(c == sub.nodes@[lifted].children@[k]);
                    assert(sub.contains_id(c));
                    assert(c != sub.root_node);
                }
                if i != ti && i < pre_len {
                } else {
                    // the child names a subtree node other than its root
                    if c == pre.root_node {
                        assert(pre.contains_id(pre.root_node));
                        assert(!sub.contains_id(pre.root_node));
                    }
                }
            }
            assert(post.contains_id(post.root_node));
            if pre.single_parent() && sub.single_parent() {
                assert forall|i: int, k: int, i2: int, k2: int|
                    0 <= i < post.nodes@.len() && 0 <= k < post.nodes@[i].children@.len() && 0
                        <= i2 < post.nodes@.len() && 0 <= k2 < post.nodes@[i2].children@.len() && (
                    i != i2 || k != k2) implies #[trigger] post.nodes@[i].children@[k]
                    != #[trigger] post.nodes@[i2].children@[k2] by {
                    let v1 = post.nodes@[i].children@[k];
                    let v2 = post.nodes@[i2].children@[k2];
                    // map each occurrence to the arena it came from: a
                    // pre-tree occurrence, or a subtree occurrence
                    let in_pre1 = i < pre_len && i != ti;
                    let in_pre2 = i2 < pre_len && i2 != ti;
                    let si: int = if i == ti {
                        ri
                    } else {
                        if i - pre_len < ri {
                            i - pre_len
                        } else {
                            i - pre_len + 1
                        }
                    };
                    let si2: int = if i2 == ti {
                        ri
                    } else {
                        if i2 - pre_len < ri {
                            i2 - pre_len
                        } else {
                            i2 - pre_len + 1
                        }
                    };
                    if in_pre1 {
                        assert(v1 == pre.nodes@[i].children@[k]);
                        assert(pre.contains_id(v1));
                    } else {
                        assert(v1 == sub.nodes@[si].children@[k]);
                        assert(sub.contains_id(v1));
                    }
                    if in_pre2 {
                        assert(v2 == pre.nodes@[i2].children@[k2]);
                        assert(pre.contains_id(v2));
                    } else {
                        assert(v2 == sub.nodes@[si2].children@[k2]);
                        assert(sub.contains_id(v2));
                    }
                    if in_pre1 && in_pre2 {
                        assert(v1 != v2);
                    } else if !in_pre1 && !in_pre2 {
                        // distinct post occurrences map to distinct
                        // subtree occurrences
                        assert(si != si2 || k != k2);
                        assert(v1 != v2);
                    } else {
                        assert(v1 != v2) by {
                            if v1 == v2 {
                                assert(pre.contains_id(v1) && sub.contains_id(v1));
                            }
                        }
                    }
                }
            }
            // a graft onto a childless target keeps every node reachable
            if pre.node_of(target_id).children@.len() == 0 && (forall|i: int|
                0 <= i < pre.nodes@.len() ==> reachable_from_root(
                    pre,
                    (#[trigger] pre.nodes@[i]).id,
                )) && (forall|i: int|
                0 <= i < sub.nodes@.len() ==> reachable_from_root(
                    sub,
                    (#[trigger] sub.nodes@[i]).id,
                )) {
                lemma_graft_preserves_reachability(pre, post, sub, target_id);
            }
        }
        Ok(())
    }

    /// Looks a node up by identifier for mutation; absence is a recoverable
    /// condition.
    pub fn get_node_mut(&mut self, node_id: u64) -> (r: Option<&mut Node>)
        requires
            old(self).ids_unique(),
        ensures
            r is Some <==> old(self).contains_id(node_id),
            match r {
                Some(n) => {
                    &&& *n == old(self).node_of(node_id)
                    &&& final(self).nodes@ == old(self).nodes@.update(
                        old(self).index_of(node_id),
                        *final(n),
                    )
                    &&& final(self).name == old(self).name
                    &&& final(self).path == old(self).path
                    &&& final(self).root_node == old(self).root_node
                },
                None => *final(self) == *old(self),
            },
    {
        match self.find_index(node_id) {
            Some(i) => {
                proof {
                    lemma_unique_index(self.nodes@, node_id, i as int);
                }
                Some(&mut self.nodes[i])
            },
            None => None,
        }
    }

    /// Decides well-formedness at run time: unique identifiers, a present
    /// root, no dangling child references, and a root that is nobody's
    /// child. Used to validate a tree handed in from outside before it is
    /// merged.
    pub fn is_well_formed(&self) -> (r: bool)
        ensures
            r == self.wf(),
    {
        match self.find_index(self.root_node) {
            Some(_) => {},
            None => {
                return false;
            },
        }
        let n = self.nodes.len();
        let mut i: usize = 0;
        while i < n
            invariant
                n == self.nodes@.len(),
                i <= n,
                forall|p: int, q: int| 0 <= p < q < n && p < i ==> self.nodes@[p].id
                    != self.nodes@[q].id,
            decreases n - i,
        {
            let mut j: usize = i + 1;
            while j < n
                invariant
                    n == self.nodes@.len(),
                    i < j <= n,
                    forall|q: int| i < q < j ==> self.nodes@[i as int].id != self.nodes@[q].id,
                decreases n - j,
            {
                if self.nodes[i].id == self.nodes[j].id {
                    return false;
                }
                j = j + 1;
            }
            i = i + 1;
        }
        assert(self.ids_unique());
        let mut i: usize = 0;
        while i < n
            invariant
                n == self.nodes@.len(),
                i <= n,
                forall|p: int, k: int|
                    0 <= p < i && 0 <= k < self.nodes@[p].children@.len() ==> self.contains_id(
                        #[trigger] self.nodes@[p].children@[k],
                    ) && self.nodes@[p].children@[k] != self.root_node,
            decreases n - i,
        {
            let len = self.nodes[i].children.len();
            let mut k: usize = 0;
            while k < len
                invariant
                    n == self.nodes@.len(),
                    i < n,
                    len == self.nodes@[i as int].children@.len(),
                    k <= len,
                    forall|k2: int| 0 <= k2 < k ==> self.contains_id(
                        #[trigger] self.nodes@[i as int].children@[k2],
                    ) && self.nodes@[i as int].children@[k2] != self.root_node,
                decreases len - k,
            {
                let c = self.nodes[i].children[k];
                if c == self.root_node {
                    return false;
                }
                match self.find_index(c) {
                    Some(_) => {},
                    None => {
                        return false;
                    },
                }
                k = k + 1;
            }
            i = i + 1;
        }
        true
    }

    /// Decides at run time whether no identifier is shared with the other
    /// tree's arena.
    pub fn ids_disjoint(&self, other: &Tree) -> (r: bool)
        ensures
            r == self.disjoint_ids(*other),
    {
        let mut i: usize = 0;
        while i < self.nodes.len()
            invariant
                i <= self.nodes@.len(),
                forall|p: int| 0 <= p < i ==> !other.contains_id(#[trigger] self.nodes@[p].id),
            decreases self.nodes@.len() - i,
        {
            match other.find_index(self.nodes[i].id) {
                Some(_) => {
                    assert(self.contains_id(self.nodes@[i as int].id));
                    return false;
                },
                None => {},
            }
            i = i + 1;
        }
        assert forall|id: u64| self.contains_id(id) implies !other.contains_id(id) by {
            let p = seq_index_of(self.nodes@, id);
            assert(!other.contains_id(self.nodes@[p].id));
        }
        true
    }

    /// The root node's identifier.
    pub fn get_root_id(&self) -> (id: u64)
        requires
            self.wf(),
        ensures
            id == self.root_node,
    {
        self.get_root().id
    }
}

/// Field-for-field agreement of two trees: same name, path and root, and
/// node-for-node agreement of the arenas in order.
pub open spec fn tree_equiv(a: Tree, b: Tree) -> bool {
    &&& a.name == b.name
    &&& a.path == b.path
    &&& a.root_node == b.root_node
    &&& a.nodes@.len() == b.nodes@.len()
    &&& forall|i: int| 0 <= i < a.nodes@.len() ==> node_equiv(a.nodes@[i], b.nodes@[i])
}

impl Clone for Tree {
    /// A deep snapshot that agrees with the original node for node; readers
    /// of the copy cannot observe later mutation of the original.
    fn clone(&self) -> (res: Self)
        ensures
            tree_equiv(res, *self),
    {
        let mut nodes: Vec<Node> = Vec::new();
        let mut i: usize = 0;
        while i < self.nodes.len()
            invariant
                i <= self.nodes@.len(),
                nodes@.len() == i,
                forall|j: int| 0 <= j < i ==> node_equiv(nodes@[j], self.nodes@[j]),
            decreases self.nodes@.len() - i,
        {
            nodes.push(self.nodes[i].clone());
            i = i + 1;
        }
        Tree {
            name: self.name.clone(),
            path: self.path.clone(),
            root_node: self.root_node,
            nodes,
        }
    }
}

/// Where an identifier occurs at a position of an arena with unique
/// identifiers, that position is the one `seq_index_of` denotes.
pub proof fn lemma_unique_index(s: Seq<Node>, id: u64, i: int)
    requires
        forall|p: int, q: int| 0 <= p < q < s.len() ==> s[p].id != s[q].id,
        0 <= i < s.len(),
        s[i].id == id,
    ensures
        seq_contains_id(s, id),
        seq_index_of(s, id) == i,
{
    assert(seq_contains_id(s, id));
    let j = seq_index_of(s, id);
    assert(0 <= j < s.len() && s[j].id == id);
    if i < j {
        assert(s[i].id != s[j].id);
    } else if j < i {
        assert(s[j].id != s[i].id);
    }
}

/// Where an identifier is contained, `seq_index_of` denotes a valid
/// position holding it.
pub proof fn lemma_index_of_contained(s: Seq<Node>, id: u64)
    requires
        seq_contains_id(s, id),
    ensures
        0 <= seq_index_of(s, id) < s.len(),
        s[seq_index_of(s, id)].id == id,
{
}

/// Two trees whose arenas agree position for position on identifiers and
/// children lists — whatever their payloads — have the same identifier
/// membership and share their structural properties.
pub proof fn lemma_equal_skeleton(a: Tree, b: Tree)
    requires
        a.root_node == b.root_node,
        a.nodes@.len() == b.nodes@.len(),
        forall|i: int|
            0 <= i < a.nodes@.len() ==> (#[trigger] b.nodes@[i]).id == a.nodes@[i].id
                && b.nodes@[i].children@ == a.nodes@[i].children@,
    ensures
        forall|id: u64| #![trigger b.contains_id(id)] b.contains_id(id) <==> a.contains_id(id),
        a.wf() ==> b.wf(),
        a.single_parent() ==> b.single_parent(),
{
    assert forall|id: u64| #![trigger b.contains_id(id)]
        b.contains_id(id) <==> a.contains_id(id) by {
        if a.contains_id(id) {
            let i = a.index_of(id);
            assert(b.nodes@[i].id == id);
        }
        if b.contains_id(id) {
            let i = b.index_of(id);
            assert(a.nodes@[i].id == id);
        }
    }
    if a.wf() {
        assert forall|i: int, k: int|
            0 <= i < b.nodes@.len() && 0 <= k < b.nodes@[i].children@.len() implies b.contains_id(
            #[trigger] b.nodes@[i].children@[k],
        ) && b.nodes@[i].children@[k] != b.root_node by {
            assert(b.nodes@[i].children@[k] == a.nodes@[i].children@[k]);
            assert(a.contains_id(a.nodes@[i].children@[k]));
        }
        assert(b.contains_id(b.root_node));
    }
    if a.single_parent() {
        assert forall|i: int, k: int, i2: int, k2: int|
            0 <= i < b.nodes@.len() && 0 <= k < b.nodes@[i].children@.len() && 0 <= i2
                < b.nodes@.len() && 0 <= k2 < b.nodes@[i2].children@.len() && (i != i2 || k != k2)
            implies #[trigger] b.nodes@[i].children@[k] != #[trigger] b.nodes@[i2].children@[k2] by {
            assert(b.nodes@[i].children@[k] == a.nodes@[i].children@[k]);
            assert(b.nodes@[i2].children@[k2] == a.nodes@[i2].children@[k2]);
            assert(a.nodes@[i].children@[k] != a.nodes@[i2].children@[k2]);
        }
    }
}

/// `to` can be reached from `from` by descending through children lists for
/// at most `fuel` steps.
pub open spec fn reachable_within(t: Tree, from: u64, to: u64, fuel: nat) -> bool
    decreases fuel,
{
    from == to || (fuel > 0 && t.contains_id(from) && exists|k: int|
        0 <= k < t.node_of(from).children@.len() && reachable_within(
            t,
            #[trigger] t.node_of(from).children@[k],
            to,
            (fuel - 1) as nat,
        ))
}

/// `to` can be reached from the root by descending through children lists.
pub open spec fn reachable_from_root(t: Tree, to: u64) -> bool {
    exists|fuel: nat| reachable_within(t, t.root_node, to, fuel)
}

/// Spare fuel never hurts: a path within `fuel` steps is one within any
/// larger bound.
pub proof fn lemma_reachable_fuel_mono(t: Tree, from: u64, to: u64, fuel: nat, more: nat)
    requires
        reachable_within(t, from, to, fuel),
        fuel <= more,
    ensures
        reachable_within(t, from, to, more),
    decreases fuel,
{
    if from != to {
        let k = choose|k: int|
            0 <= k < t.node_of(from).children@.len() && reachable_within(
                t,
                t.node_of(from).children@[k],
                to,
                (fuel - 1) as nat,
            );
        lemma_reachable_fuel_mono(
            t,
            t.node_of(from).children@[k],
            to,
            (fuel - 1) as nat,
            (more - 1) as nat,
        );
    }
}

/// Reachability composes: a path to `y` followed by a path from `y`
/// reaches `z`.
pub proof fn lemma_reachable_trans(t: Tree, x: u64, y: u64, z: u64, f: nat, g: nat)
    requires
        reachable_within(t, x, y, f),
        reachable_within(t, y, z, g),
    ensures
        reachable_within(t, x, z, (f + g) as nat),
    decreases f,
{
    if x == y {
        lemma_reachable_fuel_mono(t, y, z, g, (f + g) as nat);
    } else {
        let k = choose|k: int|
            0 <= k < t.node_of(x).children@.len() && reachable_within(
                t,
                t.node_of(x).children@[k],
                y,
                (f - 1) as nat,
            );
        lemma_reachable_trans(t, t.node_of(x).children@[k], y, z, (f - 1) as nat, g);
    }
}

/// Growing a tree — appending nodes to the arena, and new entries to the
/// end of children lists — never breaks an existing reachability path.
pub proof fn lemma_reachable_monotone(a: Tree, b: Tree, from: u64, to: u64, fuel: nat)
    requires
        a.ids_unique(),
        b.ids_unique(),
        a.children_closed(),
        forall|id: u64| a.contains_id(id) ==> b.contains_id(id),
        forall|id: u64|
            a.contains_id(id) ==> (#[trigger] b.node_of(id)).children@.len() >= a.node_of(
                id,
            ).children@.len() && (forall|k: int|
                0 <= k < a.node_of(id).children@.len() ==> b.node_of(id).children@[k] == a.node_of(
                    id,
                ).children@[k]),
        a.contains_id(from),
        reachable_within(a, from, to, fuel),
    ensures
        reachable_within(b, from, to, fuel),
    decreases fuel,
{
    if from != to {
        let k = choose|k: int|
            0 <= k < a.node_of(from).children@.len() && reachable_within(
                a,
                a.node_of(from).children@[k],
                to,
                (fuel - 1) as nat,
            );
        let c = a.node_of(from).children@[k];
        let i = a.index_of(from);
        lemma_index_of_contained(a.nodes@, from);
        assert(a.contains_id(a.nodes@[i].children@[k]));
        lemma_reachable_monotone(a, b, c, to, (fuel - 1) as nat);
        assert(b.node_of(from).children@[k] == c);
    }
}

/// A path survives into another tree that holds every node of this one
/// unchanged.
pub proof fn lemma_reachable_same_nodes(sub: Tree, t: Tree, y: u64, x: u64, fuel: nat)
    requires
        sub.children_closed(),
        forall|id: u64|
            sub.contains_id(id) ==> t.contains_id(id) && (#[trigger] sub.node_of(id))
                == t.node_of(id),
        sub.contains_id(y),
        reachable_within(sub, y, x, fuel),
    ensures
        reachable_within(t, y, x, fuel),
    decreases fuel,
{
    if y != x {
        let k = choose|k: int|
            0 <= k < sub.node_of(y).children@.len() && reachable_within(
                sub,
                sub.node_of(y).children@[k],
                x,
                (fuel - 1) as nat,
            );
        let c = sub.node_of(y).children@[k];
        let i = sub.index_of(y);
        lemma_index_of_contained(sub.nodes@, y);
        assert(sub.contains_id(sub.nodes@[i].children@[k]));
        lemma_reachable_same_nodes(sub, t, c, x, (fuel - 1) as nat);
        assert(t.node_of(y).children@[k] == c);
    }
}

/// A path that starts below the root of one tree survives into another
/// tree that holds the same nodes for every identifier but the first
/// tree's root: by `root_not_child`, such a path never passes through that
/// root again.
pub proof fn lemma_reachable_below_root(sub: Tree, t: Tree, y: u64, x: u64, fuel: nat)
    requires
        sub.ids_unique(),
        sub.children_closed(),
        sub.root_not_child(),
        forall|id: u64|
            sub.contains_id(id) && id != sub.root_node ==> t.contains_id(id) && (
            #[trigger] sub.node_of(id)) == t.node_of(id),
        sub.contains_id(y),
        y != sub.root_node,
        reachable_within(sub, y, x, fuel),
    ensures
        reachable_within(t, y, x, fuel),
    decreases fuel,
{
    if y != x {
        let k = choose|k: int|
            0 <= k < sub.node_of(y).children@.len() && reachable_within(
                sub,
                sub.node_of(y).children@[k],
                x,
                (fuel - 1) as nat,
            );
        let c = sub.node_of(y).children@[k];
        let i = sub.index_of(y);
        lemma_index_of_contained(sub.nodes@, y);
        assert(sub.contains_id(sub.nodes@[i].children@[k]));
        assert(sub.nodes@[i].children@[k] != sub.root_node);
        lemma_reachable_below_root(sub, t, c, x, (fuel - 1) as nat);
        assert(t.node_of(y).children@[k] == c);
    }
}

/// A subtree grafted onto a node keeps its internal paths: whatever the
/// subtree's root reached, the graft target — which took over its children
/// — now reaches.
pub proof fn lemma_reachable_graft(sub: Tree, t: Tree, pid: u64, x: u64, fuel: nat)
    requires
        sub.wf(),
        t.contains_id(pid),
        t.node_of(pid).children@ == sub.node_of(sub.root_node).children@,
        forall|id: u64|
            sub.contains_id(id) && id != sub.root_node ==> t.contains_id(id) && (
            #[trigger] sub.node_of(id)) == t.node_of(id),
        reachable_within(sub, sub.root_node, x, fuel),
        x != sub.root_node,
    ensures
        reachable_within(t, pid, x, fuel),
{
    let k = choose|k: int|
        0 <= k < sub.node_of(sub.root_node).children@.len() && reachable_within(
            sub,
            sub.node_of(sub.root_node).children@[k],
            x,
            (fuel - 1) as nat,
        );
    let c = sub.node_of(sub.root_node).children@[k];
    let ri = sub.index_of(sub.root_node);
    lemma_index_of_contained(sub.nodes@, sub.root_node);
    assert(sub.contains_id(sub.nodes@[ri].children@[k]));
    assert(sub.nodes@[ri].children@[k] != sub.root_node);
    lemma_reachable_below_root(sub, t, c, x, (fuel - 1) as nat);
    assert(t.node_of(pid).children@[k] == c);
}

/// Grafting a subtree onto a childless node preserves total reachability:
/// where every node of the target tree and every node of the subtree was
/// reachable from its own root, every node of the grafted result is
/// reachable from the target's root. The structural premises are what
/// `splice_at` guarantees of its result.
pub proof fn lemma_graft_preserves_reachability(a: Tree, b: Tree, sub: Tree, pid: u64)
    requires
        a.wf(),
        b.ids_unique(),
        sub.wf(),
        a.contains_id(pid),
        a.node_of(pid).children@.len() == 0,
        b.root_node == a.root_node,
        b.nodes@.len() + 1 == a.nodes@.len() + sub.nodes@.len(),
        forall|i: int|
            0 <= i < a.nodes@.len() && i != a.index_of(pid) ==> b.nodes@[i] == a.nodes@[i],
        b.nodes@[a.index_of(pid)].id == pid,
        b.nodes@[a.index_of(pid)].children@ == sub.node_of(sub.root_node).children@,
        forall|i: int|
            0 <= i < sub.nodes@.len() - 1 ==> b.nodes@[a.nodes@.len() + i] == sub.nodes@.remove(
                sub.index_of(sub.root_node),
            )[i],
        forall|i: int|
            0 <= i < a.nodes@.len() ==> reachable_from_root(a, (#[trigger] a.nodes@[i]).id),
        forall|i: int|
            0 <= i < sub.nodes@.len() ==> reachable_from_root(sub, (#[trigger] sub.nodes@[i]).id),
    ensures
        forall|i: int|
            0 <= i < b.nodes@.len() ==> reachable_from_root(b, (#[trigger] b.nodes@[i]).id),
{
    let ti = a.index_of(pid);
    let ri = sub.index_of(sub.root_node);
    let pre_len = a.nodes@.len() as int;
    lemma_index_of_contained(a.nodes@, pid);
    lemma_index_of_contained(sub.nodes@, sub.root_node);
    assert(forall|i: int| 0 <= i < pre_len ==> b.nodes@[i].id == a.nodes@[i].id);
    // growing below never breaks a lookup: every old node is found at its
    // old position, with its children at least preserved
    assert forall|id: u64| a.contains_id(id) implies b.contains_id(id) && (
    #[trigger] b.node_of(id)).children@.len() >= a.node_of(id).children@.len() && (forall|k: int|
        0 <= k < a.node_of(id).children@.len() ==> b.node_of(id).children@[k] == a.node_of(
            id,
        ).children@[k]) by {
        let w = seq_index_of(a.nodes@, id);
        lemma_index_of_contained(a.nodes@, id);
        lemma_unique_index(a.nodes@, id, w);
        assert(b.nodes@[w].id == id);
        lemma_unique_index(b.nodes@, id, w);
        if w == ti {
            assert(a.node_of(id).children@.len() == 0);
        } else {
            assert(b.nodes@[w] == a.nodes@[w]);
        }
    }
    // every subtree node except its discarded root is found unchanged
    assert forall|id: u64|
        sub.contains_id(id) && id != sub.root_node implies b.contains_id(id) && (
    #[trigger] sub.node_of(id)) == b.node_of(id) by {
        let w = seq_index_of(sub.nodes@, id);
        lemma_index_of_contained(sub.nodes@, id);
        lemma_unique_index(sub.nodes@, id, w);
        let dropped: int = if w < ri {
            w
        } else {
            w - 1
        };
        assert(sub.nodes@.remove(ri)[dropped] == sub.nodes@[w]);
        assert(b.nodes@[pre_len + dropped] == sub.nodes@[w]);
        lemma_unique_index(b.nodes@, id, pre_len + dropped);
    }
    lemma_unique_index(b.nodes@, pid, ti);
    assert(b.node_of(pid).children@ == sub.node_of(sub.root_node).children@);
    assert forall|i: int|
        0 <= i < b.nodes@.len() implies reachable_from_root(b, (#[trigger] b.nodes@[i]).id) by {
        if i < pre_len {
            let id = b.nodes@[i].id;
            assert(id == a.nodes@[i].id);
            assert(reachable_from_root(a, a.nodes@[i].id));
            let fuel = choose|fuel: nat| reachable_within(a, a.root_node, id, fuel);
            lemma_reachable_monotone(a, b, a.root_node, id, fuel);
            assert(reachable_within(b, b.root_node, id, fuel));
        } else {
            let dropped = i - pre_len;
            let lifted: int = if dropped < ri {
                dropped
            } else {
                dropped + 1
            };
            assert(b.nodes@[i] == sub.nodes@.remove(ri)[dropped]);
            assert(sub.nodes@.remove(ri)[dropped] == sub.nodes@[lifted]);
            let x = sub.nodes@[lifted].id;
            assert(x != sub.root_node) by {
                if lifted < ri {
                    assert(sub.nodes@[lifted].id != sub.nodes@[ri].id);
                } else {
                    assert(sub.nodes@[ri].id != sub.nodes@[lifted].id);
                }
            }
            assert(sub.contains_id(x));
            assert(reachable_from_root(sub, sub.nodes@[lifted].id));
            let f = choose|f: nat| reachable_within(sub, sub.root_node, x, f);
            lemma_reachable_graft(sub, b, pid, x, f);
            // the placeholder itself was reachable before the graft
            assert(a.nodes@[ti].id == pid);
            assert(reachable_from_root(a, a.nodes@[ti].id));
            let fp = choose|fp: nat| reachable_within(a, a.root_node, pid, fp);
            lemma_reachable_monotone(a, b, a.root_node, pid, fp);
            lemma_reachable_trans(b, b.root_node, pid, x, fp, f);
            assert(reachable_within(b, b.root_node, x, (fp + f) as nat));
        }
    }
}

/// In a tree without dangling child references, descending through children
/// lists never leaves the arena.
pub proof fn lemma_reachable_within_contained(t: Tree, from: u64, to: u64, fuel: nat)
    requires
        t.children_closed(),
        t.contains_id(from),
        reachable_within(t, from, to, fuel),
    ensures
        t.contains_id(to),
    decreases fuel,
{
    if from != to {
        let k = choose|k: int|
            0 <= k < t.node_of(from).children@.len() && reachable_within(
                t,
                t.node_of(from).children@[k],
                to,
                (fuel - 1) as nat,
            );
        let i = t.index_of(from);
        lemma_index_of_contained(t.nodes@, from);
        assert(t.contains_id(t.nodes@[i].children@[k]));
        lemma_reachable_within_contained(t, t.node_of(from).children@[k], to, (fuel - 1) as nat);
    }
}

/// Every identifier reachable from the root of a well-formed tree exists in
/// its arena: no dangling references. The merge operations preserve
/// well-formedness, so this holds in particular after any `insert_child_under`
/// or `splice_at`.
pub proof fn lemma_reachable_in_nodes(t: Tree, to: u64)
    requires
        t.wf(),
        reachable_from_root(t, to),
    ensures
        t.contains_id(to),
{
    let fuel = choose|fuel: nat| reachable_within(t, t.root_node, to, fuel);
    lemma_reachable_within_contained(t, t.root_node, to, fuel);
}

} // verus!
