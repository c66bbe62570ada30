//! The tree store: a named collection of settled trees, with the minimal
//! query surface over it — a point-in-time listing of tree identities, a
//! lookup by name, the collection of document nodes, and a type-filter
//! query across every tree's nodes.
//!
//! The store itself takes no locks and does no I/O: the process around it
//! holds it behind a shared-access guard and decides, from the requested
//! level of detail, when to run a hydration pass before answering.

use vstd::prelude::*;

use crate::node::{node_equiv, type_token, Node, NodeType};
use crate::text::str_eq;
use crate::tree::{tree_equiv, Tree};

verus! {

/// Configuration the surrounding process hands the core: whether the walk
/// follows symbolic links, the external content parser to invoke, and the
/// bound on concurrent parser invocations (at least one).
#[derive(Clone, Debug)]
pub struct AppConfig {
    pub follow_symlinks: bool,
    pub doc_parser: String,
    pub processes: usize,
}

/// A tree's identity: its logical name and the filesystem path it indexes.
#[derive(Clone, Debug, PartialEq)]
pub struct TreeDetail {
    pub path: String,
    pub name: String,
}

/// Whether a requested level of detail asks for document content, which
/// obliges the holder to hydrate unloaded placeholders before answering;
/// any other level returns the skeleton as it stands.
pub fn lod_wants_content(lod: &str) -> (r: bool)
    ensures
        r == (lod@ == "block"@ || lod@ == "full"@),
{
    str_eq(lod, "block") || str_eq(lod, "full")
}

/// The nodes of one tree whose type token equals the query, in arena
/// order.
pub open spec fn matching_seq(t: Tree, q: Seq<char>) -> Seq<Node> {
    t.nodes@.filter(|n: Node| type_token(n.node_type) == q)
}

/// The query result across a store's trees: each tree's matching nodes, in
/// store order.
pub open spec fn store_matching(trees: Seq<Tree>, q: Seq<char>) -> Seq<Node>
    decreases trees.len(),
{
    if trees.len() == 0 {
        Seq::<Node>::empty()
    } else {
        store_matching(trees.drop_last(), q) + matching_seq(trees.last(), q)
    }
}

/// Filtering one more element extends the filtered prefix exactly when the
/// element satisfies the predicate.
pub proof fn lemma_filter_take_step(s: Seq<Node>, pred: spec_fn(Node) -> bool, j: int)
    requires
        0 <= j < s.len(),
    ensures
        s.take(j + 1).filter(pred) == (if pred(s[j]) {
            s.take(j).filter(pred).push(s[j])
        } else {
            s.take(j).filter(pred)
        }),
{
    reveal(Seq::filter);
    let t1 = s.take(j + 1);
    assert(t1.drop_last() =~= s.take(j));
    assert(t1.last() == s[j]);
}

/// A named collection of settled trees.
#[derive(Debug)]
pub struct TreeStore {
    /// The held trees, in registration order.
    pub trees: Vec<Tree>,
}

impl TreeStore {
    /// Every held tree is settled.
    pub open spec fn wf(self) -> bool {
        forall|i: int| 0 <= i < self.trees@.len() ==> (#[trigger] self.trees@[i]).wf()
    }

    /// An empty store.
    pub fn new() -> (r: TreeStore)
        ensures
            r.trees@.len() == 0,
            r.wf(),
    {
        TreeStore { trees: Vec::new() }
    }

    /// Registers a settled tree; construction failures never reach the
    /// store, so only well-formed trees are held.
    pub fn load_tree(&mut self, tree: Tree)
        requires
            old(self).wf(),
            tree.wf(),
        ensures
            final(self).trees@ == old(self).trees@.push(tree),
            final(self).wf(),
    {
        self.trees.push(tree);
    }

    /// The held trees.
    pub fn get_trees(&self) -> (r: &Vec<Tree>)
        ensures
            r@ == self.trees@,
    {
        &self.trees
    }

    /// A point-in-time snapshot of every held tree's identity.
    pub fn list(&self) -> (r: Vec<TreeDetail>)
        ensures
            r@.len() == self.trees@.len(),
            forall|i: int|
                0 <= i < r@.len() ==> (#[trigger] r@[i]).name == self.trees@[i].name && r@[i].path
                    == self.trees@[i].path,
    {
        let mut r: Vec<TreeDetail> = Vec::new();
        let mut i: usize = 0;
        while i < self.trees.len()
            invariant
                i <= self.trees@.len(),
                r@.len() == i,
                forall|j: int|
                    0 <= j < i ==> (#[trigger] r@[j]).name == self.trees@[j].name && r@[j].path
                        == self.trees@[j].path,
            decreases self.trees@.len() - i,
        {
            let t = &self.trees[i];
            r.push(TreeDetail { path: t.path.clone(), name: t.name.clone() });
            i = i + 1;
        }
        r
    }

    /// The position of the first held tree with the given name; an unknown
    /// name is reported as not found, never as an error.
    pub fn find_tree(&self, name: &str) -> (r: Option<usize>)
        ensures
            match r {
                Some(i) => i < self.trees@.len() && self.trees@[i as int].name@ == name@ && (
                forall|j: int| 0 <= j < i ==> self.trees@[j].name@ != name@),
                None => forall|j: int| 0 <= j < self.trees@.len() ==> self.trees@[j].name@ != name@,
            },
    {
        let mut i: usize = 0;
        while i < self.trees.len()
            invariant
                i <= self.trees@.len(),
                forall|j: int| 0 <= j < i ==> self.trees@[j].name@ != name@,
            decreases self.trees@.len() - i,
        {
            if str_eq(self.trees[i].name.as_str(), name) {
                return Some(i);
            }
            i = i + 1;
        }
        None
    }

    /// A deep copy of the first tree with the given name, so the caller
    /// cannot observe further mutation mid-read; an unknown name yields an
    /// empty result, not an error. The holder runs whatever hydration the
    /// requested level of detail demands before taking the snapshot.
    pub fn snapshot(&self, name: &str) -> (r: Option<Tree>)
        ensures
            r is Some <==> (exists|j: int|
                0 <= j < self.trees@.len() && (#[trigger] self.trees@[j]).name@ == name@),
            r matches Some(t) ==> (exists|j: int|
                0 <= j < self.trees@.len() && (#[trigger] self.trees@[j]).name@ == name@ && (
                forall|j2: int| 0 <= j2 < j ==> self.trees@[j2].name@ != name@) && tree_equiv(
                t,
                self.trees@[j],
            )),
    {
        match self.find_tree(name) {
            Some(i) => Some(self.trees[i].clone()),
            None => None,
        }
    }

    /// Every document node across the held trees, loaded or not, as pairs
    /// of tree position and node identifier: each listed pair names a
    /// document node, no pair repeats, and none is missed.
    pub fn get_all_documents_mut(&self) -> (r: Vec<(usize, u64)>)
        requires
            self.wf(),
        ensures
            forall|k: int|
                0 <= k < r@.len() ==> ({
                    let p = #[trigger] r@[k];
                    &&& (p.0 as int) < self.trees@.len()
                    &&& self.trees@[p.0 as int].contains_id(p.1)
                    &&& self.trees@[p.0 as int].node_of(p.1).node_type == NodeType::Document
                }),
            forall|k1: int, k2: int| 0 <= k1 < k2 < r@.len() ==> r@[k1] != r@[k2],
            forall|ti: int, j: int|
                0 <= ti < self.trees@.len() && 0 <= j < self.trees@[ti].nodes@.len() && (
                #[trigger] self.trees@[ti].nodes@[j]).node_type == NodeType::Document ==> exists|
                    k: int,
                |
                    0 <= k < r@.len() && r@[k] == (ti as usize, self.trees@[ti].nodes@[j].id),
    {
        let mut r: Vec<(usize, u64)> = Vec::new();
        let mut ti: usize = 0;
        while ti < self.trees.len()
            invariant
                self.wf(),
                ti <= self.trees@.len(),
                forall|k: int|
                    0 <= k < r@.len() ==> ({
                        let p = #[trigger] r@[k];
                        &&& (p.0 as int) < ti as int
                        &&& self.trees@[p.0 as int].contains_id(p.1)
                        &&& self.trees@[p.0 as int].node_of(p.1).node_type == NodeType::Document
                    }),
                forall|k1: int, k2: int| 0 <= k1 < k2 < r@.len() ==> r@[k1] != r@[k2],
                forall|t2: int, j: int|
                    0 <= t2 < ti && 0 <= j < self.trees@[t2].nodes@.len() && (
                    #[trigger] self.trees@[t2].nodes@[j]).node_type == NodeType::Document
                        ==> exists|k: int|
                        0 <= k < r@.len() && r@[k] == (t2 as usize, self.trees@[t2].nodes@[j].id),
            decreases self.trees@.len() - ti,
        {
            let tree = &self.trees[ti];
            let mut j: usize = 0;
            while j < tree.nodes.len()
                invariant
                    self.wf(),
                    ti < self.trees@.len(),
                    tree == &self.trees[ti as int],
                    j <= tree.nodes@.len(),
                    forall|k: int|
                        0 <= k < r@.len() ==> ({
                            let p = #[trigger] r@[k];
                            &&& (p.0 as int) <= ti as int
                            &&& self.trees@[p.0 as int].contains_id(p.1)
                            &&& self.trees@[p.0 as int].node_of(p.1).node_type
                                == NodeType::Document
                        }),
                    forall|k: int|
                        0 <= k < r@.len() && (#[trigger] r@[k]).0 == ti ==> exists|j2: int|
                            0 <= j2 < j && tree.nodes@[j2].id == r@[k].1,
                    forall|k1: int, k2: int| 0 <= k1 < k2 < r@.len() ==> r@[k1] != r@[k2],
                    forall|t2: int, j2: int|
                        0 <= t2 < ti && 0 <= j2 < self.trees@[t2].nodes@.len() && (
                        #[trigger] self.trees@[t2].nodes@[j2]).node_type == NodeType::Document
                            ==> exists|k: int|
                            0 <= k < r@.len() && r@[k] == (
                            t2 as usize,
                            self.trees@[t2].nodes@[j2].id,
                            ),
                    forall|j2: int|
                        0 <= j2 < j && (#[trigger] tree.nodes@[j2]).node_type
                            == NodeType::Document ==> exists|k: int|
                            0 <= k < r@.len() && r@[k] == (ti, tree.nodes@[j2].id),
                decreases tree.nodes@.len() - j,
            {
                let ghost r_prev = r@;
                let node = &tree.nodes[j];
                if matches!(node.node_type, NodeType::Document) {
                    proof {
                        crate::tree::lemma_unique_index(tree.nodes@, node.id, j as int);
                        assert forall|k: int| 0 <= k < r@.len() implies r@[k] != (
                            ti,
                            node.id,
                        ) by {
                            if r@[k].0 == ti {
                                let j2 = choose|j2: int|
                                    0 <= j2 < j && tree.nodes@[j2].id == r@[k].1;
                                assert(tree.nodes@[j2].id != tree.nodes@[j as int].id);
                            }
                        }
                    }
                    r.push((ti, node.id));
                }
                proof {
                    assert forall|j2: int|
                        0 <= j2 <= j && (#[trigger] tree.nodes@[j2]).node_type
                            == NodeType::Document implies exists|k: int|
                        0 <= k < r@.len() && r@[k] == (ti, tree.nodes@[j2].id) by {
                        if j2 < j {
                            let k = choose|k: int|
                                0 <= k < r_prev.len() && r_prev[k] == (ti, tree.nodes@[j2].id);
                            assert(r@[k] == (ti, tree.nodes@[j2].id));
                        } else {
                            assert(r@[r@.len() - 1] == (ti, tree.nodes@[j as int].id));
                        }
                    }
                    assert forall|t2: int, j2: int|
                        0 <= t2 < ti && 0 <= j2 < self.trees@[t2].nodes@.len() && (
                        #[trigger] self.trees@[t2].nodes@[j2]).node_type == NodeType::Document
                        implies exists|k: int|
                        0 <= k < r@.len() && r@[k] == (
                        t2 as usize,
                        self.trees@[t2].nodes@[j2].id,
                        ) by {
                        let k = choose|k: int|
                            0 <= k < r_prev.len() && r_prev[k] == (
                            t2 as usize,
                            self.trees@[t2].nodes@[j2].id,
                            );
                        assert(r@[k] == (t2 as usize, self.trees@[t2].nodes@[j2].id));
                    }
                }
                j = j + 1;
            }
            ti = ti + 1;
        }
        r
    }

    /// Runs a type-filter query across every held tree: copies of exactly
    /// the nodes whose type token equals the query, in store and arena
    /// order, whatever their depth.
    pub fn query(&self, query: &String) -> (r: Vec<Node>)
        ensures
            r@.len() == store_matching(self.trees@, query@).len(),
            forall|k: int|
                0 <= k < r@.len() ==> node_equiv(
                    #[trigger] r@[k],
                    store_matching(self.trees@, query@)[k],
                ),
    {
        let ghost q = query@;
        let ghost pred = |n: Node| type_token(n.node_type) == q;
        let mut r: Vec<Node> = Vec::new();
        let mut ti: usize = 0;
        while ti < self.trees.len()
            invariant
                ti <= self.trees@.len(),
                q == query@,
                pred == (|n: Node| type_token(n.node_type) == q),
                r@.len() == store_matching(self.trees@.take(ti as int), q).len(),
                forall|k: int|
                    0 <= k < r@.len() ==> node_equiv(
                        #[trigger] r@[k],
                        store_matching(self.trees@.take(ti as int), q)[k],
                    ),
            decreases self.trees@.len() - ti,
        {
            let ghost r_before = r@;
            let tree = &self.trees[ti];
            let mut j: usize = 0;
            while j < tree.nodes.len()
                invariant
                    ti < self.trees@.len(),
                    tree == &self.trees[ti as int],
                    j <= tree.nodes@.len(),
                    q == query@,
                    pred == (|n: Node| type_token(n.node_type) == q),
                    r@.len() == r_before.len() + tree.nodes@.take(j as int).filter(pred).len(),
                    forall|k: int|
                        0 <= k < r_before.len() ==> node_equiv(#[trigger] r@[k], r_before[k]),
                    forall|k: int|
                        r_before.len() <= k < r@.len() ==> node_equiv(
                            #[trigger] r@[k],
                            tree.nodes@.take(j as int).filter(pred)[k - r_before.len()],
                        ),
                decreases tree.nodes@.len() - j,
            {
                let node = &tree.nodes[j];
                proof {
                    lemma_filter_take_step(tree.nodes@, pred, j as int);
                }
                let token = node.type_as_string();
                if str_eq(token.as_str(), query.as_str()) {
                    r.push(node.clone());
                }
                j = j + 1;
            }
            proof {
                assert(tree.nodes@.take(tree.nodes@.len() as int) =~= tree.nodes@);
                assert(self.trees@.take(ti + 1).drop_last() =~= self.trees@.take(ti as int));
                assert(self.trees@.take(ti + 1).last() == self.trees@[ti as int]);
            }
            ti = ti + 1;
        }
        proof {
            assert(self.trees@.take(self.trees@.len() as int) =~= self.trees@);
        }
        r
    }
}

} // verus!
