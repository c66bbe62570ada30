//! The hydration engine: finds every unloaded document placeholder of a
//! tree, hands their paths out for bounded-concurrency parser invocations,
//! and folds each completed result back into the tree in completion order,
//! preserving the placeholder's identity.
//!
//! The engine itself performs no process or file I/O. A driver loop outside
//! the crate asks [`HydrationSession::start_next`] which path to parse next,
//! runs the external parser, and reports each outcome through
//! [`HydrationSession::complete_success`] or
//! [`HydrationSession::complete_failure`]. The session's invariant ties its
//! bookkeeping to the tree: every unloaded placeholder is tracked by exactly
//! one entry until it is either folded in or recorded as failed.

use vstd::prelude::*;

use crate::node::{
    data_path, has_document_payload, is_loaded_document, is_unloaded_document, Node, NodeData,
    NodeType,
};
use crate::text::str_eq;
use crate::tree::{seq_index_of, Tree};

verus! {

/// Why the hydration of one document did not complete. Each failure is
/// local to its document and leaves the placeholder unloaded, eligible for
/// a future retry.
#[derive(Clone, Copy, Debug, PartialEq, Eq, Structural)]
pub enum HydrateError {
    /// The parser process failed or produced no usable output.
    ParserFailed,
    /// The parser's output was not a well-formed tree of content blocks
    /// rooted at a document payload.
    Malformed,
    /// The root of the parser's output was not a document node, so grafting
    /// it onto the placeholder would change the placeholder's type.
    TypeMismatch,
    /// The parser's output reused an identifier already present in the
    /// tree.
    IdCollision,
    /// The completion named a path that no outstanding invocation of this
    /// pass was started for.
    UnknownPath,
}

/// A tracked placeholder: the identifier names an unloaded document node of
/// the tree whose stored path is `path`.
pub open spec fn entry_ok(t: Tree, id: u64, path: Seq<char>) -> bool {
    &&& t.contains_id(id)
    &&& is_unloaded_document(t.node_of(id))
    &&& data_path(t.node_of(id).data) == path
}

impl Tree {
    /// Collects the identifier and stored path of every unloaded document
    /// placeholder: each listed entry is such a placeholder, no two entries
    /// name the same node, and no placeholder is missed.
    pub fn unloaded_documents(&self) -> (r: Vec<(u64, String)>)
        requires
            self.ids_unique(),
        ensures
            forall|i: int|
                0 <= i < r@.len() ==> entry_ok(*self, #[trigger] r@[i].0, r@[i].1@),
            forall|p: int, q: int| 0 <= p < q < r@.len() ==> r@[p].0 != r@[q].0,
            forall|id: u64|
                self.contains_id(id) && is_unloaded_document(#[trigger] self.node_of(id))
                    ==> exists|i: int| 0 <= i < r@.len() && r@[i].0 == id,
    {
        let mut r: Vec<(u64, String)> = Vec::new();
        let mut i: usize = 0;
        while i < self.nodes.len()
            invariant
                self.ids_unique(),
                i <= self.nodes@.len(),
                forall|k: int|
                    0 <= k < r@.len() ==> entry_ok(*self, #[trigger] r@[k].0, r@[k].1@),
                forall|k: int|
                    0 <= k < r@.len() ==> exists|j: int|
                        0 <= j < i && self.nodes@[j].id == #[trigger] r@[k].0,
                forall|p: int, q: int| 0 <= p < q < r@.len() ==> r@[p].0 != r@[q].0,
                forall|j: int|
                    0 <= j < i && is_unloaded_document(#[trigger] self.nodes@[j])
                        ==> exists|k: int| 0 <= k < r@.len() && r@[k].0 == self.nodes@[j].id,
            decreases self.nodes@.len() - i,
        {
            let ghost r_prev = r@;
            let node = &self.nodes[i];
            let mut matched = false;
            match &node.data {
                NodeData::DocumentData { path, loaded } => {
                    if !*loaded {
                        proof {
                            crate::tree::lemma_unique_index(self.nodes@, node.id, i as int);
                            assert forall|k: int| 0 <= k < r@.len() implies r@[k].0
                                != node.id by {
                                let j = choose|j: int|
                                    0 <= j < i && self.nodes@[j].id == r@[k].0;
                                assert(self.nodes@[j].id != self.nodes@[i as int].id);
                            }
                        }
                        r.push((node.id, path.clone()));
                        matched = true;
                    }
                },
                _ => {},
            }
            proof {
                assert forall|j: int|
                    0 <= j <= i && is_unloaded_document(#[trigger] self.nodes@[j]) implies exists|
                    k: int,
                | 0 <= k < r@.len() && r@[k].0 == self.nodes@[j].id by {
                    if j < i {
                        let k = choose|k: int|
                            0 <= k < r_prev.len() && r_prev[k].0 == self.nodes@[j].id;
                        assert(r@[k].0 == self.nodes@[j].id);
                    } else {
                        assert(matched);
                        assert(r@[r@.len() - 1].0 == self.nodes@[i as int].id);
                    }
                }
            }
            i = i + 1;
        }
        proof {
            assert forall|id: u64|
                self.contains_id(id) && is_unloaded_document(self.node_of(id)) implies exists|
                k: int,
            | 0 <= k < r@.len() && r@[k].0 == id by {
                let j = self.index_of(id);
                assert(is_unloaded_document(self.nodes@[j]));
            }
        }
        r
    }
}

/// One hydration pass over one tree.
///
/// Created from the tree's current set of unloaded placeholders; a driver
/// then alternates `start_next` (which respects the concurrency bound) with
/// completions until `is_done`. Every discovered placeholder is attempted
/// exactly once: it ends either folded into the tree or on the failure
/// list, never both.
pub struct HydrationSession {
    /// Placeholders discovered but not yet handed out.
    pub pending: Vec<(u64, String)>,
    /// Placeholders handed out and awaiting a completion.
    pub in_flight: Vec<(u64, String)>,
    /// Placeholders whose attempt failed, with the last error per path.
    pub failed: Vec<(u64, String, HydrateError)>,
    /// How many placeholders were folded in successfully.
    pub successes: usize,
    /// How many placeholders the pass discovered at creation.
    pub discovered: usize,
    /// The bound on simultaneously outstanding parser invocations.
    pub max_concurrency: usize,
}

impl HydrationSession {
    /// Some entry of the pass tracks the identifier.
    pub open spec fn tracks(self, id: u64) -> bool {
        ||| exists|i: int| 0 <= i < self.pending@.len() && self.pending@[i].0 == id
        ||| exists|i: int| 0 <= i < self.in_flight@.len() && self.in_flight@[i].0 == id
        ||| exists|i: int| 0 <= i < self.failed@.len() && self.failed@[i].0 == id
    }

    /// No two entries, within or across the three lists, track the same
    /// identifier.
    pub open spec fn ids_distinct(self) -> bool {
        &&& forall|p: int, q: int|
            0 <= p < q < self.pending@.len() ==> self.pending@[p].0 != self.pending@[q].0
        &&& forall|p: int, q: int|
            0 <= p < q < self.in_flight@.len() ==> self.in_flight@[p].0 != self.in_flight@[q].0
        &&& forall|p: int, q: int|
            0 <= p < q < self.failed@.len() ==> self.failed@[p].0 != self.failed@[q].0
        &&& forall|p: int, q: int|
            0 <= p < self.pending@.len() && 0 <= q < self.in_flight@.len() ==> self.pending@[p].0
                != self.in_flight@[q].0
        &&& forall|p: int, q: int|
            0 <= p < self.pending@.len() && 0 <= q < self.failed@.len() ==> self.pending@[p].0
                != self.failed@[q].0
        &&& forall|p: int, q: int|
            0 <= p < self.in_flight@.len() && 0 <= q < self.failed@.len()
                ==> self.in_flight@[p].0 != self.failed@[q].0
    }

    /// Every attempt is accounted for: discovered entries are either still
    /// pending, outstanding, failed, or counted as successes.
    pub open spec fn counts_ok(self) -> bool {
        self.pending@.len() + self.in_flight@.len() + self.failed@.len() + self.successes
            == self.discovered
    }

    /// The pass's bookkeeping agrees with the tree: every entry names an
    /// unloaded placeholder with its stored path, every unloaded placeholder
    /// is tracked by exactly one entry, and no more than the configured
    /// number of invocations is outstanding.
    pub open spec fn inv(self, t: Tree) -> bool {
        &&& 1 <= self.max_concurrency
        &&& self.in_flight@.len() <= self.max_concurrency
        &&& self.counts_ok()
        &&& self.ids_distinct()
        &&& forall|i: int|
            0 <= i < self.pending@.len() ==> entry_ok(t, #[trigger] self.pending@[i].0, self.pending@[i].1@)
        &&& forall|i: int|
            0 <= i < self.in_flight@.len() ==> entry_ok(t, #[trigger] self.in_flight@[i].0, self.in_flight@[i].1@)
        &&& forall|i: int|
            0 <= i < self.failed@.len() ==> entry_ok(t, #[trigger] self.failed@[i].0, self.failed@[i].1@)
        &&& forall|id: u64|
            t.contains_id(id) && is_unloaded_document(#[trigger] t.node_of(id)) ==> self.tracks(
                id,
            )
    }

    /// Starts a pass by discovering every unloaded placeholder of the tree.
    /// Nothing is outstanding or failed yet, and with no placeholders the
    /// pass is immediately done: rehydrating a fully loaded tree hands out
    /// no parser invocations at all.
    pub fn new(tree: &Tree, max_concurrency: usize) -> (s: HydrationSession)
        requires
            tree.wf(),
            1 <= max_concurrency,
        ensures
            s.inv(*tree),
            s.in_flight@.len() == 0,
            s.failed@.len() == 0,
            s.successes == 0,
            s.discovered == s.pending@.len(),
            s.max_concurrency == max_concurrency,
            forall|i: int|
                0 <= i < s.pending@.len() ==> entry_ok(
                    *tree,
                    #[trigger] s.pending@[i].0,
                    s.pending@[i].1@,
                ),
            forall|id: u64|
                tree.contains_id(id) && is_unloaded_document(#[trigger] tree.node_of(id))
                    ==> exists|i: int|
                    0 <= i < s.pending@.len() && s.pending@[i].0 == id,
    {
        let pending = tree.unloaded_documents();
        let discovered = pending.len();
        let s = HydrationSession {
            pending,
            in_flight: Vec::new(),
            failed: Vec::new(),
            successes: 0,
            discovered,
            max_concurrency,
        };
        proof {
            assert(s.counts_ok());
            assert(s.ids_distinct());
            assert forall|id: u64|
                tree.contains_id(id) && is_unloaded_document(#[trigger] tree.node_of(id))
                    implies s.tracks(id) by {
                let i = choose|i: int| 0 <= i < s.pending@.len() && s.pending@[i].0 == id;
                assert(0 <= i < s.pending@.len() && s.pending@[i].0 == id);
            }
        }
        s
    }

    /// Whether every discovered placeholder has been attempted: nothing is
    /// pending and nothing is outstanding.
    pub fn is_done(&self) -> (r: bool)
        ensures
            r == (self.pending@.len() == 0 && self.in_flight@.len() == 0),
    {
        self.pending.is_empty() && self.in_flight.is_empty()
    }

    /// How many invocations are outstanding.
    pub fn outstanding(&self) -> (r: usize)
        ensures
            r == self.in_flight@.len(),
    {
        self.in_flight.len()
    }

    /// The recorded failures: each failed placeholder with its path and the
    /// last error seen for it.
    pub fn failures(&self) -> (r: &Vec<(u64, String, HydrateError)>)
        ensures
            r@ == self.failed@,
    {
        &self.failed
    }

    /// Hands out the next pending placeholder, provided the concurrency
    /// bound allows one more outstanding invocation. The driver runs the
    /// external parser on the returned path and later reports the outcome;
    /// the entry moves to the outstanding list meanwhile. Returns nothing,
    /// and changes nothing, when the pass is saturated or nothing is
    /// pending — in particular a pass over a fully loaded tree never hands
    /// out an invocation.
    pub fn start_next(&mut self) -> (r: Option<(u64, String)>)
        ensures
            r is Some <==> (old(self).pending@.len() > 0 && old(self).in_flight@.len() < old(
                self,
            ).max_concurrency),
            r is None ==> *final(self) == *old(self),
            r is Some ==> r == Some(old(self).pending@[0]),
            r is Some ==> final(self).pending@ == old(self).pending@.remove(0),
            r is Some ==> final(self).in_flight@ == old(self).in_flight@.push(
                old(self).pending@[0],
            ),
            final(self).failed == old(self).failed,
            final(self).successes == old(self).successes,
            final(self).discovered == old(self).discovered,
            final(self).max_concurrency == old(self).max_concurrency,
            forall|t: Tree| old(self).inv(t) ==> #[trigger] final(self).inv(t),
    {
        if self.pending.len() == 0 || self.in_flight.len() >= self.max_concurrency {
            return None;
        }
        let entry = self.pending.remove(0);
        let id = entry.0;
        let path_copy = entry.1.clone();
        self.in_flight.push((id, path_copy));
        proof {
            let pre = *old(self);
            let post = *self;
            assert(post.in_flight@.last() == pre.pending@[0]);
            assert(forall|i: int|
                0 <= i < post.pending@.len() ==> post.pending@[i] == pre.pending@[i + 1]);
            assert forall|t: Tree| pre.inv(t) implies #[trigger] post.inv(t) by {
                assert forall|idq: u64|
                    t.contains_id(idq) && is_unloaded_document(#[trigger] t.node_of(idq))
                        implies post.tracks(idq) by {
                    assert(pre.tracks(idq));
                    if exists|i: int|
                        0 <= i < pre.pending@.len() && pre.pending@[i].0 == idq {
                        let i = choose|i: int|
                            0 <= i < pre.pending@.len() && pre.pending@[i].0 == idq;
                        if i == 0 {
                            assert(post.in_flight@[post.in_flight@.len() - 1].0 == idq);
                        } else {
                            assert(post.pending@[i - 1].0 == idq);
                        }
                    } else if exists|i: int|
                        0 <= i < pre.in_flight@.len() && pre.in_flight@[i].0 == idq {
                        let i = choose|i: int|
                            0 <= i < pre.in_flight@.len() && pre.in_flight@[i].0 == idq;
                        assert(post.in_flight@[i].0 == idq);
                    } else {
                        let i = choose|i: int|
                            0 <= i < pre.failed@.len() && pre.failed@[i].0 == idq;
                        assert(post.failed@ == pre.failed@);
                        assert(post.failed@[i].0 == idq);
                    }
                }
            }
        }
        Some(entry)
    }

    /// The position of the first outstanding entry whose path matches.
    fn find_in_flight(&self, path: &str) -> (r: Option<usize>)
        ensures
            match r {
                Some(i) => i < self.in_flight@.len() && self.in_flight@[i as int].1@ == path@
                    && (forall|j: int| 0 <= j < i ==> self.in_flight@[j].1@ != path@),
                None => forall|j: int|
                    0 <= j < self.in_flight@.len() ==> self.in_flight@[j].1@ != path@,
            },
    {
        let mut i: usize = 0;
        while i < self.in_flight.len()
            invariant
                i <= self.in_flight@.len(),
                forall|j: int| 0 <= j < i ==> self.in_flight@[j].1@ != path@,
            decreases self.in_flight@.len() - i,
        {
            if str_eq(self.in_flight[i].1.as_str(), path) {
                return Some(i);
            }
            i = i + 1;
        }
        None
    }

    /// Records a failed attempt for the outstanding invocation of `path`:
    /// the entry moves from the outstanding list to the failure list with
    /// the given error, and its placeholder stays unloaded, eligible for a
    /// future retry. Returns false, changing nothing, when no outstanding
    /// invocation has that path.
    pub fn complete_failure(&mut self, path: &str, err: HydrateError) -> (r: bool)
        ensures
            r <==> exists|i: int|
                0 <= i < old(self).in_flight@.len() && (#[trigger] old(self).in_flight@[i]).1@
                    == path@,
            !r ==> *final(self) == *old(self),
            r ==> ({
                let ei = first_in_flight_with_path(*old(self), path@);
                &&& 0 <= ei < old(self).in_flight@.len()
                &&& old(self).in_flight@[ei].1@ == path@
                &&& final(self).in_flight@ == old(self).in_flight@.remove(ei)
                &&& final(self).failed@ == old(self).failed@.push(
                    (old(self).in_flight@[ei].0, old(self).in_flight@[ei].1, err),
                )
            }),
            final(self).pending == old(self).pending,
            final(self).successes == old(self).successes,
            final(self).discovered == old(self).discovered,
            final(self).max_concurrency == old(self).max_concurrency,
            forall|t: Tree| old(self).inv(t) ==> #[trigger] final(self).inv(t),
    {
        let ei = match self.find_in_flight(path) {
            Some(i) => i,
            None => {
                return false;
            },
        };
        proof {
            lemma_first_in_flight(*self, path@, ei as int);
        }
        let entry = self.in_flight.remove(ei);
        self.failed.push((entry.0, entry.1, err));
        proof {
            let pre = *old(self);
            let post = *self;
            assert(post.failed@.last().0 == pre.in_flight@[ei as int].0);
            assert(forall|i: int|
                0 <= i < post.in_flight@.len() ==> post.in_flight@[i] == pre.in_flight@[
                    if i < ei {
                        i
                    } else {
                        i + 1
                    }
                ]);
            assert forall|t: Tree| pre.inv(t) implies #[trigger] post.inv(t) by {
                assert forall|idq: u64|
                    t.contains_id(idq) && is_unloaded_document(#[trigger] t.node_of(idq))
                        implies post.tracks(idq) by {
                    assert(pre.tracks(idq));
                    if exists|i: int|
                        0 <= i < pre.in_flight@.len() && pre.in_flight@[i].0 == idq {
                        let i = choose|i: int|
                            0 <= i < pre.in_flight@.len() && pre.in_flight@[i].0 == idq;
                        if i == ei {
                            assert(post.failed@[post.failed@.len() - 1].0 == idq);
                        } else if i < ei {
                            assert(post.in_flight@[i].0 == idq);
                        } else {
                            assert(post.in_flight@[i - 1].0 == idq);
                        }
                    } else if exists|i: int|
                        0 <= i < pre.failed@.len() && pre.failed@[i].0 == idq {
                        let i = choose|i: int|
                            0 <= i < pre.failed@.len() && pre.failed@[i].0 == idq;
                        assert(post.failed@[i].0 == idq);
                    } else {
                        let i = choose|i: int|
                            0 <= i < pre.pending@.len() && pre.pending@[i].0 == idq;
                        assert(post.pending@ == pre.pending@);
                        assert(post.pending@[i].0 == idq);
                    }
                }
                assert forall|p: int, q: int|
                    0 <= p < q < post.failed@.len() implies post.failed@[p].0
                    != post.failed@[q].0 by {
                    if q == post.failed@.len() - 1 {
                        assert(post.failed@[p] == pre.failed@[p]);
                        assert(post.failed@[q].0 == pre.in_flight@[ei as int].0);
                    }
                }
            }
        }
        true
    }
}

/// The position of the first outstanding entry of the pass whose path is
/// `path` (meaningful only where such an entry exists).
pub open spec fn first_in_flight_with_path(s: HydrationSession, path: Seq<char>) -> int {
    choose|i: int|
        0 <= i < s.in_flight@.len() && s.in_flight@[i].1@ == path && (forall|j: int|
            0 <= j < i ==> s.in_flight@[j].1@ != path)
}

/// A position holding the first path match is the position
/// `first_in_flight_with_path` denotes.
pub proof fn lemma_first_in_flight(s: HydrationSession, path: Seq<char>, i: int)
    requires
        0 <= i < s.in_flight@.len(),
        s.in_flight@[i].1@ == path,
        forall|j: int| 0 <= j < i ==> s.in_flight@[j].1@ != path,
    ensures
        first_in_flight_with_path(s, path) == i,
{
    let c = first_in_flight_with_path(s, path);
    assert(0 <= c < s.in_flight@.len() && s.in_flight@[c].1@ == path && (forall|j: int|
        0 <= j < c ==> s.in_flight@[j].1@ != path));
    if c < i {
        assert(s.in_flight@[c].1@ != path);
    } else if i < c {
        assert(s.in_flight@[i].1@ != path);
    }
}

/// The outcome owed for one parsed tree handed back to the pass, decided
/// in this order: the output must be a well-formed tree, rooted at a
/// document-typed node with a document payload, carrying no fresh unloaded
/// placeholder among its content nodes, reusing no identifier of the target
/// tree; its root's path must name an outstanding invocation; and the
/// tracked placeholder itself must be a document-typed node.
pub open spec fn completion_verdict(s: HydrationSession, t: Tree, doc: Tree) -> Result<
    (),
    HydrateError,
> {
    let root = doc.node_of(doc.root_node);
    if !doc.wf() {
        Result::Err(HydrateError::Malformed)
    } else if root.node_type != NodeType::Document {
        Result::Err(HydrateError::TypeMismatch)
    } else if !has_document_payload(root) {
        Result::Err(HydrateError::Malformed)
    } else if exists|i: int|
        0 <= i < doc.nodes@.len() && (#[trigger] doc.nodes@[i]).id != doc.root_node
            && is_unloaded_document(doc.nodes@[i]) {
        Result::Err(HydrateError::Malformed)
    } else if !t.disjoint_ids(doc) {
        Result::Err(HydrateError::IdCollision)
    } else if !(exists|i: int|
        0 <= i < s.in_flight@.len() && (#[trigger] s.in_flight@[i]).1@ == data_path(root.data)) {
        Result::Err(HydrateError::UnknownPath)
    } else if t.node_of(
        s.in_flight@[first_in_flight_with_path(s, data_path(root.data))].0,
    ).node_type != NodeType::Document {
        Result::Err(HydrateError::TypeMismatch)
    } else {
        Result::Ok(())
    }
}

impl HydrationSession {
    /// Folds one successfully parsed tree back into the tree, in completion
    /// order: the outstanding placeholder named by the parsed root's path
    /// keeps its identifier — so every existing reference to it survives —
    /// takes the parsed root's children, and becomes a loaded document with
    /// its path preserved; the parsed tree's remaining nodes move in
    /// unchanged. A rejected result changes nothing and is reported by
    /// [`completion_verdict`]; the caller may then record it through
    /// [`HydrationSession::complete_failure`].
    pub fn complete_success(&mut self, tree: &mut Tree, doc: Tree) -> (r: Result<
        (),
        HydrateError,
    >)
        requires
            old(tree).wf(),
            old(self).inv(*old(tree)),
        ensures
            r == completion_verdict(*old(self), *old(tree), doc),
            r is Err ==> *final(self) == *old(self) && *final(tree) == *old(tree),
            final(tree).wf(),
            final(self).inv(*final(tree)),
            r is Ok ==> ({
                let rp = data_path(doc.node_of(doc.root_node).data);
                let ei = first_in_flight_with_path(*old(self), rp);
                let pid = old(self).in_flight@[ei].0;
                let ti = old(tree).index_of(pid);
                &&& 0 <= ei < old(self).in_flight@.len()
                &&& old(self).in_flight@[ei].1@ == rp
                &&& final(self).in_flight@ == old(self).in_flight@.remove(ei)
                &&& final(self).pending == old(self).pending
                &&& final(self).failed == old(self).failed
                &&& final(self).successes == old(self).successes + 1
                &&& final(self).discovered == old(self).discovered
                &&& final(self).max_concurrency == old(self).max_concurrency
                &&& final(tree).name == old(tree).name
                &&& final(tree).path == old(tree).path
                &&& final(tree).root_node == old(tree).root_node
                &&& final(tree).nodes@.len() + 1 == old(tree).nodes@.len() + doc.nodes@.len()
                &&& final(tree).nodes@[ti].id == pid
                &&& final(tree).nodes@[ti].node_type == NodeType::Document
                &&& final(tree).nodes@[ti].children@ == doc.node_of(doc.root_node).children@
                &&& is_loaded_document(final(tree).nodes@[ti])
                &&& data_path(final(tree).nodes@[ti].data) == rp
                &&& forall|i: int|
                    0 <= i < old(tree).nodes@.len() && i != ti
                        ==> final(tree).nodes@[i] == old(tree).nodes@[i]
                &&& forall|i: int|
                    0 <= i < doc.nodes@.len() - 1 ==> final(tree).nodes@[old(tree).nodes@.len()
                        + i] == doc.nodes@.remove(doc.index_of(doc.root_node))[i]
                &&& forall|id: u64|
                    #![trigger final(tree).contains_id(id)]
                    final(tree).contains_id(id) <==> (old(tree).contains_id(id) || (
                    doc.contains_id(id) && id != doc.root_node))
            }),
            r is Ok && old(tree).single_parent() && doc.single_parent()
                ==> final(tree).single_parent(),
            r is Ok && (forall|i: int|
                0 <= i < old(tree).nodes@.len() ==> crate::tree::reachable_from_root(
                    *old(tree),
                    (#[trigger] old(tree).nodes@[i]).id,
                )) && (forall|i: int|
                0 <= i < doc.nodes@.len() ==> crate::tree::reachable_from_root(
                    doc,
                    (#[trigger] doc.nodes@[i]).id,
                )) && old(tree).node_of(
                old(self).in_flight@[first_in_flight_with_path(
                    *old(self),
                    data_path(doc.node_of(doc.root_node).data),
                )].0,
            ).children@.len() == 0 ==> forall|i: int|
                0 <= i < final(tree).nodes@.len() ==> crate::tree::reachable_from_root(
                    *final(tree),
                    (#[trigger] final(tree).nodes@[i]).id,
                ),
    {
        if !doc.is_well_formed() {
            return Err(HydrateError::Malformed);
        }
        let doc_root_idx = match doc.find_index(doc.root_node) {
            Some(i) => i,
            None => vstd::pervasive::unreached(),
        };
        proof {
            crate::tree::lemma_unique_index(doc.nodes@, doc.root_node, doc_root_idx as int);
        }
        if !(matches!(doc.nodes[doc_root_idx].node_type, NodeType::Document)) {
            return Err(HydrateError::TypeMismatch);
        }
        let root_path: String = match &doc.nodes[doc_root_idx].data {
            NodeData::DocumentData { path, loaded: _ } => path.clone(),
            _ => {
                return Err(HydrateError::Malformed);
            },
        };
        // the content blocks must not smuggle in fresh unloaded placeholders
        let mut i: usize = 0;
        #[verifier::loop_isolation(false)]
        while i < doc.nodes.len()
            invariant
                doc.ids_unique(),
                doc_root_idx < doc.nodes@.len(),
                doc.nodes@[doc_root_idx as int].id == doc.root_node,
                i <= doc.nodes@.len(),
                forall|j: int|
                    0 <= j < i && j != doc_root_idx ==> !is_unloaded_document(
                        #[trigger] doc.nodes@[j],
                    ),
            decreases doc.nodes@.len() - i,
        {
            if i != doc_root_idx {
                let fresh_placeholder = match &doc.nodes[i].data {
                    NodeData::DocumentData { path: _, loaded } => !*loaded,
                    _ => false,
                };
                if fresh_placeholder {
                    proof {
                        assert(doc.nodes@[i as int].id != doc.root_node) by {
                            if (i as int) < (doc_root_idx as int) {
                                assert(doc.nodes@[i as int].id
                                    != doc.nodes@[doc_root_idx as int].id);
                            } else {
                                assert(doc.nodes@[doc_root_idx as int].id
                                    != doc.nodes@[i as int].id);
                            }
                        }
                    }
                    return Err(HydrateError::Malformed);
                }
            }
            i = i + 1;
        }
        proof {
            assert forall|j: int|
                0 <= j < doc.nodes@.len() && (#[trigger] doc.nodes@[j]).id != doc.root_node
                    implies !is_unloaded_document(doc.nodes@[j]) by {
                assert(j != doc_root_idx as int);
            }
        }
        if !tree.ids_disjoint(&doc) {
            return Err(HydrateError::IdCollision);
        }
        let ei = match self.find_in_flight(root_path.as_str()) {
            Some(i) => i,
            None => {
                return Err(HydrateError::UnknownPath);
            },
        };
        proof {
            lemma_first_in_flight(*self, root_path@, ei as int);
        }
        let pid = self.in_flight[ei].0;
        let tree_ti = match tree.find_index(pid) {
            Some(i) => i,
            None => vstd::pervasive::unreached(),
        };
        proof {
            crate::tree::lemma_unique_index(tree.nodes@, pid, tree_ti as int);
        }
        if !(matches!(tree.nodes[tree_ti].node_type, NodeType::Document)) {
            return Err(HydrateError::TypeMismatch);
        }
        // stamp the parsed root as the loaded document it will become, then
        // graft it onto the placeholder, which keeps its identity
        let mut doc_tree = doc;
        {
            let root_mut = &mut doc_tree.nodes[doc_root_idx];
            root_mut.data = NodeData::DocumentData { path: root_path, loaded: true };
        }
        proof {
            assert(forall|j: int|
                0 <= j < doc.nodes@.len() ==> (#[trigger] doc_tree.nodes@[j]).id
                    == doc.nodes@[j].id && doc_tree.nodes@[j].children@
                    == doc.nodes@[j].children@);
            crate::tree::lemma_equal_skeleton(doc, doc_tree);
            crate::tree::lemma_unique_index(doc_tree.nodes@, doc.root_node, doc_root_idx as int);
            assert forall|id: u64| tree.contains_id(id) implies !doc_tree.contains_id(id) by {
                assert(!doc.contains_id(id));
            }
        }
        let graft = tree.splice_at(doc_tree, pid);
        proof {
            assert(graft is Ok);
        }
        self.successes = self.successes + 1;
        let entry = self.in_flight.remove(ei);
        proof {
            let pre_s = *old(self);
            let pre_t = *old(tree);
            let post_s = *self;
            let post_t = *tree;
            let rp = data_path(doc.node_of(doc.root_node).data);
            let ti = tree_ti as int;
            let ri = doc_root_idx as int;
            let pre_len = pre_t.nodes@.len() as int;
            assert(rp == root_path@);
            assert(pre_t.index_of(pid) == ti);
            assert(doc_tree.node_of(doc.root_node).children@ == doc.node_of(
                doc.root_node,
            ).children@);
            assert(doc_tree.nodes@.remove(ri) =~= doc.nodes@.remove(ri));
            assert(doc.index_of(doc.root_node) == ri);
            assert(data_path(post_t.nodes@[ti].data) == rp);
            assert(post_t.nodes@.len() + 1 == pre_len + doc.nodes@.len());
            // the pass's bookkeeping still matches the tree
            assert(forall|i2: int|
                0 <= i2 < post_s.in_flight@.len() ==> post_s.in_flight@[i2] == pre_s.in_flight@[
                    if i2 < ei as int {
                        i2
                    } else {
                        i2 + 1
                    }
                ]);
            assert forall|id: u64|
                pre_t.contains_id(id) && id != pid implies post_t.contains_id(id)
                    && post_t.node_of(id) == pre_t.node_of(id) by {
                let oi = pre_t.index_of(id);
                assert(oi != ti);
                assert(post_t.nodes@[oi] == pre_t.nodes@[oi]);
                crate::tree::lemma_unique_index(post_t.nodes@, id, oi);
            }
            assert forall|i2: int|
                0 <= i2 < post_s.pending@.len() implies entry_ok(
                post_t,
                (#[trigger] post_s.pending@[i2]).0,
                post_s.pending@[i2].1@,
            ) by {
                assert(entry_ok(pre_t, pre_s.pending@[i2].0, pre_s.pending@[i2].1@));
                assert(pre_s.pending@[i2].0 != pre_s.in_flight@[ei as int].0);
            }
            assert forall|i2: int|
                0 <= i2 < post_s.failed@.len() implies entry_ok(
                post_t,
                (#[trigger] post_s.failed@[i2]).0,
                post_s.failed@[i2].1@,
            ) by {
                assert(entry_ok(pre_t, pre_s.failed@[i2].0, pre_s.failed@[i2].1@));
                assert(pre_s.failed@[i2].0 != pre_s.in_flight@[ei as int].0);
            }
            assert forall|i2: int|
                0 <= i2 < post_s.in_flight@.len() implies entry_ok(
                post_t,
                (#[trigger] post_s.in_flight@[i2]).0,
                post_s.in_flight@[i2].1@,
            ) by {
                let lifted: int = if i2 < ei as int {
                    i2
                } else {
                    i2 + 1
                };
                assert(entry_ok(pre_t, pre_s.in_flight@[lifted].0, pre_s.in_flight@[lifted].1@));
                assert(pre_s.in_flight@[lifted].0 != pre_s.in_flight@[ei as int].0);
            }
            // the folded placeholder is loaded now; everything else
            // unloaded is still tracked
            assert forall|id: u64|
                post_t.contains_id(id) && is_unloaded_document(#[trigger] post_t.node_of(id))
                    implies post_s.tracks(id) by {
                let j = post_t.index_of(id);
                assert(post_t.nodes@[j].id == id);
                if j == ti {
                    assert(is_loaded_document(post_t.nodes@[ti]));
                } else if j < pre_len {
                    assert(post_t.nodes@[j] == pre_t.nodes@[j]);
                    assert(pre_t.contains_id(id));
                    crate::tree::lemma_unique_index(pre_t.nodes@, id, j);
                    assert(is_unloaded_document(pre_t.node_of(id)));
                    assert(pre_s.tracks(id));
                    assert(id != pid) by {
                        if id == pid {
                            assert(pre_t.nodes@[ti].id == pid);
                        }
                    }
                    if exists|i2: int|
                        0 <= i2 < pre_s.in_flight@.len() && pre_s.in_flight@[i2].0 == id {
                        let i2 = choose|i2: int|
                            0 <= i2 < pre_s.in_flight@.len() && pre_s.in_flight@[i2].0 == id;
                        assert(i2 != ei as int);
                        if i2 < ei as int {
                            assert(post_s.in_flight@[i2].0 == id);
                        } else {
                            assert(post_s.in_flight@[i2 - 1].0 == id);
                        }
                    } else if exists|i2: int|
                        0 <= i2 < pre_s.pending@.len() && pre_s.pending@[i2].0 == id {
                        let i2 = choose|i2: int|
                            0 <= i2 < pre_s.pending@.len() && pre_s.pending@[i2].0 == id;
                        assert(post_s.pending@[i2].0 == id);
                    } else {
                        let i2 = choose|i2: int|
                            0 <= i2 < pre_s.failed@.len() && pre_s.failed@[i2].0 == id;
                        assert(post_s.failed@[i2].0 == id);
                    }
                } else {
                    // an appended content node, none of which is an
                    // unloaded placeholder
                    let k = j - pre_len;
                    assert(post_t.nodes@[j] == doc.nodes@.remove(ri)[k]);
                    let lifted: int = if k < ri {
                        k
                    } else {
                        k + 1
                    };
                    assert(doc.nodes@.remove(ri)[k] == doc.nodes@[lifted]);
                    assert(doc.nodes@[lifted].id != doc.root_node) by {
                        if lifted < ri {
                            assert(doc.nodes@[lifted].id != doc.nodes@[ri].id);
                        } else {
                            assert(doc.nodes@[ri].id != doc.nodes@[lifted].id);
                        }
                    }
                    assert(!is_unloaded_document(doc.nodes@[lifted]));
                }
            }
            assert(post_s.counts_ok());
            assert(post_s.inv(post_t));
            assert(completion_verdict(pre_s, pre_t, doc) is Ok);
            // a pass over a fully reachable tree, fed internally reachable
            // parser output, keeps every node reachable
            if (forall|i2: int|
                0 <= i2 < pre_t.nodes@.len() ==> crate::tree::reachable_from_root(
                    pre_t,
                    (#[trigger] pre_t.nodes@[i2]).id,
                )) && (forall|i2: int|
                0 <= i2 < doc.nodes@.len() ==> crate::tree::reachable_from_root(
                    doc,
                    (#[trigger] doc.nodes@[i2]).id,
                )) && pre_t.node_of(pid).children@.len() == 0 {
                crate::tree::lemma_graft_preserves_reachability(pre_t, post_t, doc, pid);
            }
        }
        Ok(())
    }
}

/// After a pass in which every attempt succeeded — nothing pending, nothing
/// outstanding, no failures recorded — not one unloaded placeholder
/// remains, whatever the concurrency bound was.
pub proof fn lemma_done_without_failures_all_loaded(s: HydrationSession, t: Tree)
    requires
        t.wf(),
        s.inv(t),
        s.pending@.len() == 0,
        s.in_flight@.len() == 0,
        s.failed@.len() == 0,
    ensures
        forall|i: int| 0 <= i < t.nodes@.len() ==> !is_unloaded_document(#[trigger] t.nodes@[i]),
{
    assert forall|i: int|
        0 <= i < t.nodes@.len() implies !is_unloaded_document(#[trigger] t.nodes@[i]) by {
        if is_unloaded_document(t.nodes@[i]) {
            let id = t.nodes@[i].id;
            crate::tree::lemma_unique_index(t.nodes@, id, i);
            assert(t.contains_id(id) && is_unloaded_document(t.node_of(id)));
            assert(s.tracks(id));
        }
    }
}

/// After a pass in which every attempt was completed, the unloaded
/// placeholders that remain are exactly the recorded failures: a parser
/// that failed for certain paths leaves exactly those placeholders
/// unloaded, and every other one loaded.
pub proof fn lemma_done_unloaded_are_failures(s: HydrationSession, t: Tree)
    requires
        t.wf(),
        s.inv(t),
        s.pending@.len() == 0,
        s.in_flight@.len() == 0,
    ensures
        forall|id: u64|
            (t.contains_id(id) && is_unloaded_document(#[trigger] t.node_of(id))) <==> exists|
                i: int,
            | 0 <= i < s.failed@.len() && (#[trigger] s.failed@[i]).0 == id,
{
    assert forall|id: u64|
        (t.contains_id(id) && is_unloaded_document(#[trigger] t.node_of(id))) <==> exists|i: int|
            0 <= i < s.failed@.len() && (#[trigger] s.failed@[i]).0 == id by {
        if t.contains_id(id) && is_unloaded_document(t.node_of(id)) {
            assert(s.tracks(id));
        }
        if exists|i: int| 0 <= i < s.failed@.len() && s.failed@[i].0 == id {
            let i = choose|i: int| 0 <= i < s.failed@.len() && s.failed@[i].0 == id;
            assert(entry_ok(t, s.failed@[i].0, s.failed@[i].1@));
        }
    }
}

/// After a pass in which every attempt was completed and exactly one
/// failure was recorded, exactly that one placeholder is still unloaded.
pub proof fn lemma_single_failure_single_unloaded(s: HydrationSession, t: Tree)
    requires
        t.wf(),
        s.inv(t),
        s.pending@.len() == 0,
        s.in_flight@.len() == 0,
        s.failed@.len() == 1,
    ensures
        forall|id: u64|
            (t.contains_id(id) && is_unloaded_document(#[trigger] t.node_of(id))) <==> id
                == s.failed@[0].0,
{
    lemma_done_unloaded_are_failures(s, t);
}

/// Rehydrating an already fully loaded tree is a no-op: the pass discovers
/// nothing, so it is done at once and never hands out a parser invocation.
pub proof fn lemma_loaded_tree_discovers_nothing(s: HydrationSession, t: Tree)
    requires
        t.wf(),
        s.inv(t),
        forall|i: int| 0 <= i < t.nodes@.len() ==> !is_unloaded_document(#[trigger] t.nodes@[i]),
    ensures
        s.pending@.len() == 0,
{
    if s.pending@.len() > 0 {
        assert(entry_ok(t, s.pending@[0].0, s.pending@[0].1@));
        let i = t.index_of(s.pending@[0].0);
        assert(is_unloaded_document(t.nodes@[i]));
    }
}

} // verus!
