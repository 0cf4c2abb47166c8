//! The graph capability interface shared by the undirected and directed
//! graph types, together with the error type every index-consuming
//! operation reports.
//!
//! A graph is modelled by the sorted sequence of its live node indices
//! (`node_seq`), the sorted out- and in-adjacency of each node (`out_seq`,
//! `in_seq`), the payload of each live node, and the index the next
//! `add_node` call will assign (`fresh_index`). Indices are assigned
//! monotonically and are never reused, even after a removal.

use vstd::prelude::*;

use crate::index_set::{seq_with, seq_without, strictly_sorted};

pub mod ungraph;
pub mod digraph;

verus! {

/// A stable integer handle identifying a node within one graph instance.
pub type NodeIndex = usize;

/// The reason an operation failed.
#[derive(Clone, Copy, PartialEq, Eq, Structural, Debug)]
pub enum GraphErrorType {
    InvalidNodeIndex(NodeIndex),
}

/// The error reported by every index-consuming graph operation that is
/// given an index which names no live node.
#[derive(Clone, Copy, PartialEq, Eq, Structural, Debug)]
pub struct GraphError {
    pub error_type: GraphErrorType,
}

impl GraphError {
    /// The error value for an invalid index, as seen by specifications.
    pub open spec fn spec_invalid_index(ind: NodeIndex) -> GraphError {
        GraphError { error_type: GraphErrorType::InvalidNodeIndex(ind) }
    }

    /// The error value for an invalid index.
    #[verifier::when_used_as_spec(spec_invalid_index)]
    pub fn invalid_index(ind: NodeIndex) -> (r: GraphError)
        ensures
            r == GraphError::spec_invalid_index(ind),
    {
        GraphError { error_type: GraphErrorType::InvalidNodeIndex(ind) }
    }
}

/// The result of a graph operation that validates its indices.
pub type GraphResult<T> = Result<T, GraphError>;

/// A node: a payload together with the index it was assigned at creation.
#[derive(Clone, Debug)]
pub struct Node<T> {
    pub data: T,
    pub index: NodeIndex,
}

/// The indices of the populated slots of a node arena, in increasing order.
pub open spec fn live_seq<T>(nodes: Seq<Option<Node<T>>>) -> Seq<usize>
    decreases nodes.len(),
{
    if nodes.len() == 0 {
        Seq::empty()
    } else {
        live_seq(nodes.drop_last()) + if nodes.last() is Some {
            seq![(nodes.len() - 1) as usize]
        } else {
            Seq::empty()
        }
    }
}

/// The length of a vector always fits in `usize`.
pub proof fn lemma_vec_len_bound<A>(v: &Vec<A>)
    ensures
        v@.len() <= usize::MAX,
{
    assert(v.len() == v@.len());
}

/// `live_seq` is sorted and holds exactly the populated slot indices.
pub proof fn lemma_live_seq<T>(nodes: Seq<Option<Node<T>>>)
    requires
        nodes.len() <= usize::MAX,
    ensures
        strictly_sorted(live_seq(nodes)),
        forall|x: usize|
            #[trigger] live_seq(nodes).contains(x) <==> x < nodes.len() && nodes[x as int]
                is Some,
        live_seq(nodes).len() <= nodes.len(),
    decreases nodes.len(),
{
    if nodes.len() > 0 {
        let pre = nodes.drop_last();
        lemma_live_seq(pre);
        let p = live_seq(pre);
        let full = live_seq(nodes);
        let e = (nodes.len() - 1) as usize;
        assert(forall|x: usize|
            #[trigger] p.contains(x) <==> x < nodes.len() - 1 && nodes[x as int] is Some);
        if nodes.last() is Some {
            assert(full =~= p.push(e));
            assert forall|x: usize| #[trigger] full.contains(x) implies (x < nodes.len()
                && nodes[x as int] is Some) by {
                let w = choose|w: int| 0 <= w < full.len() && full[w] == x;
                if w < p.len() {
                    assert(p.contains(x));
                } else {
                    assert(x == e);
                }
            }
            assert forall|x: usize| x < nodes.len() && nodes[x as int] is Some implies
                #[trigger] full.contains(x) by {
                if x < nodes.len() - 1 {
                    assert(p.contains(x));
                    let w = choose|w: int| 0 <= w < p.len() && p[w] == x;
                    assert(full[w] == x);
                } else {
                    assert(full[p.len() as int] == e);
                }
            }
            assert forall|k: int, l: int| 0 <= k < l < full.len() implies full[k] < full[l] by {
                if l < p.len() {
                    assert(p[k] < p[l]);
                } else {
                    assert(full[k] == p[k]);
                    assert(p.contains(p[k]));
                    assert(p[k] < e);
                }
            }
        } else {
            assert(full =~= p);
            assert forall|x: usize| #[trigger] full.contains(x) implies (x < nodes.len()
                && nodes[x as int] is Some) by {
                assert(p.contains(x));
            }
            assert forall|x: usize| x < nodes.len() && nodes[x as int] is Some implies
                #[trigger] full.contains(x) by {
                assert(x < nodes.len() - 1);
                assert(p.contains(x));
            }
        }
    }
}

/// The capability interface: the operation set shared by the undirected
/// and the directed graph, consumed generically by the traversal engine.
pub trait Graph<T>: Sized {
    /// The structural invariant of the representation.
    spec fn wf(&self) -> bool;

    /// The live node indices, in increasing order.
    spec fn node_seq(&self) -> Seq<usize>;

    /// The out-neighbors of node `i`, in increasing order; empty when `i`
    /// is not live.
    spec fn out_seq(&self, i: usize) -> Seq<usize>;

    /// The in-neighbors of node `i`; equal to `out_seq` for an undirected
    /// graph.
    spec fn in_seq(&self, i: usize) -> Seq<usize>;

    /// The payload of live node `i`.
    spec fn payload(&self, i: usize) -> T;

    /// The index the next `add_node` call will assign.
    spec fn fresh_index(&self) -> usize;

    /// Whether the adjacency relation distinguishes edge direction.
    spec fn directed(&self) -> bool;

    /// Facts every well-formed graph provides about its model.
    proof fn lemma_wf(&self)
        requires
            self.wf(),
        ensures
            strictly_sorted(self.node_seq()),
            forall|i: usize| strictly_sorted(#[trigger] self.out_seq(i)),
            forall|i: usize| strictly_sorted(#[trigger] self.in_seq(i)),
            forall|i: usize|
                !self.node_seq().contains(i) ==> #[trigger] self.out_seq(i)
                    == Seq::<usize>::empty(),
            forall|i: usize|
                !self.node_seq().contains(i) ==> #[trigger] self.in_seq(i)
                    == Seq::<usize>::empty(),
            forall|i: usize, j: usize|
                #[trigger] self.out_seq(i).contains(j) ==> self.node_seq().contains(i)
                    && self.node_seq().contains(j),
            forall|i: usize, j: usize|
                #![trigger self.out_seq(i).contains(j)]
                #![trigger self.in_seq(j).contains(i)]
                self.out_seq(i).contains(j) <==> self.in_seq(j).contains(i),
            !self.directed() ==> forall|i: usize| #[trigger] self.in_seq(i) == self.out_seq(i),
            forall|i: usize| #[trigger] self.node_seq().contains(i) ==> i < self.fresh_index(),
    ;

    /// Insert a new node, returning its index. The index is fresh: it has
    /// never named a node of this graph, and is larger than every index
    /// handed out before.
    fn add_node(&mut self, val: T) -> (r: NodeIndex)
        requires
            old(self).wf(),
        ensures
            final(self).wf(),
            r == old(self).fresh_index(),
            !old(self).node_seq().contains(r),
            final(self).node_seq() == old(self).node_seq().push(r),
            final(self).fresh_index() == r + 1,
            final(self).directed() == old(self).directed(),
            final(self).payload(r) == val,
            forall|k: usize|
                old(self).node_seq().contains(k) ==> #[trigger] final(self).payload(k) == old(
                    self,
                ).payload(k),
            forall|k: usize| #[trigger] final(self).out_seq(k) == old(self).out_seq(k),
            forall|k: usize| #[trigger] final(self).in_seq(k) == old(self).in_seq(k),
    ;

    /// Insert an edge from `i` to `j` (in both directions for an
    /// undirected graph), failing when either index is not live.
    /// On success the result tells whether the edge was newly created.
    fn add_edge(&mut self, i: NodeIndex, j: NodeIndex) -> (r: GraphResult<bool>)
        requires
            old(self).wf(),
        ensures
            final(self).wf(),
            !old(self).node_seq().contains(i) ==> r == Err::<bool, GraphError>(
                GraphError::invalid_index(i),
            ) && *final(self) == *old(self),
            old(self).node_seq().contains(i) && !old(self).node_seq().contains(j) ==> r
                == Err::<bool, GraphError>(GraphError::invalid_index(j)) && *final(self) == *old(
                self,
            ),
            old(self).node_seq().contains(i) && old(self).node_seq().contains(j) ==> r
                == Ok::<bool, GraphError>(!old(self).out_seq(i).contains(j)) && Self::add_edge_ok(
                *old(self),
                *final(self),
                i,
                j,
            ),
    ;

    /// Remove node `i` and every edge incident to it, failing when `i` is
    /// not live. The index `i` is never assigned again.
    fn remove_node(&mut self, i: NodeIndex) -> (r: GraphResult<()>)
        requires
            old(self).wf(),
        ensures
            final(self).wf(),
            !old(self).node_seq().contains(i) ==> r == Err::<(), GraphError>(
                GraphError::invalid_index(i),
            ) && *final(self) == *old(self),
            old(self).node_seq().contains(i) ==> r == Ok::<(), GraphError>(()) && Self::remove_node_ok(
                *old(self),
                *final(self),
                i,
            ),
    ;

    /// Remove the edge from `i` to `j` if present, failing when either
    /// index is not live. On success the result tells whether the edge
    /// had existed.
    fn remove_edge(&mut self, i: NodeIndex, j: NodeIndex) -> (r: GraphResult<bool>)
        requires
            old(self).wf(),
        ensures
            final(self).wf(),
            !old(self).node_seq().contains(i) ==> r == Err::<bool, GraphError>(
                GraphError::invalid_index(i),
            ) && *final(self) == *old(self),
            old(self).node_seq().contains(i) && !old(self).node_seq().contains(j) ==> r
                == Err::<bool, GraphError>(GraphError::invalid_index(j)) && *final(self) == *old(
                self,
            ),
            old(self).node_seq().contains(i) && old(self).node_seq().contains(j) ==> r
                == Ok::<bool, GraphError>(old(self).out_seq(i).contains(j)) && Self::remove_edge_ok(
                *old(self),
                *final(self),
                i,
                j,
            ),
    ;

    /// The out-neighbors of `i` in increasing order, failing when `i` is
    /// not live.
    fn adj(&self, i: NodeIndex) -> (r: GraphResult<Vec<NodeIndex>>)
        requires
            self.wf(),
        ensures
            self.node_seq().contains(i) ==> (r matches Ok(v) && v@ == self.out_seq(i)),
            !self.node_seq().contains(i) ==> r == Err::<Vec<NodeIndex>, GraphError>(
                GraphError::invalid_index(i),
            ),
    ;

    /// The number of live nodes.
    fn num_nodes(&self) -> (r: usize)
        requires
            self.wf(),
        ensures
            r == self.node_seq().len(),
    ;

    /// The indices of all live nodes, in increasing order.
    fn node_indices(&self) -> (r: Vec<NodeIndex>)
        requires
            self.wf(),
        ensures
            r@ == self.node_seq(),
    ;

    /// What a successful `add_edge(i, j)` changes: the nodes, payloads and
    /// fresh index stay; `j` joins the out-adjacency of `i` and `i` joins the
    /// in-adjacency of `j`; in an undirected graph the mirrored memberships
    /// are added as well; every other adjacency stays as it was.
    open spec fn add_edge_ok(pre: Self, post: Self, i: NodeIndex, j: NodeIndex) -> bool {
        &&& post.node_seq() == pre.node_seq()
        &&& post.fresh_index() == pre.fresh_index()
        &&& post.directed() == pre.directed()
        &&& forall|k: usize|
            pre.node_seq().contains(k) ==> #[trigger] post.payload(k) == pre.payload(k)
        &&& seq_with(post.out_seq(i), pre.out_seq(i), j)
        &&& seq_with(post.in_seq(j), pre.in_seq(j), i)
        &&& forall|k: usize|
            k != i && (pre.directed() || k != j) ==> #[trigger] post.out_seq(k) == pre.out_seq(k)
        &&& forall|k: usize|
            k != j && (pre.directed() || k != i) ==> #[trigger] post.in_seq(k) == pre.in_seq(k)
        &&& (!pre.directed() && i != j ==> seq_with(post.out_seq(j), pre.out_seq(j), i))
        &&& (!pre.directed() && i != j ==> seq_with(post.in_seq(i), pre.in_seq(i), j))
    }

    /// What a successful `remove_edge(i, j)` changes: the mirror image of
    /// `add_edge_ok`, taking the memberships out instead.
    open spec fn remove_edge_ok(pre: Self, post: Self, i: NodeIndex, j: NodeIndex) -> bool {
        &&& post.node_seq() == pre.node_seq()
        &&& post.fresh_index() == pre.fresh_index()
        &&& post.directed() == pre.directed()
        &&& forall|k: usize|
            pre.node_seq().contains(k) ==> #[trigger] post.payload(k) == pre.payload(k)
        &&& seq_without(post.out_seq(i), pre.out_seq(i), j)
        &&& seq_without(post.in_seq(j), pre.in_seq(j), i)
        &&& forall|k: usize|
            k != i && (pre.directed() || k != j) ==> #[trigger] post.out_seq(k) == pre.out_seq(k)
        &&& forall|k: usize|
            k != j && (pre.directed() || k != i) ==> #[trigger] post.in_seq(k) == pre.in_seq(k)
        &&& (!pre.directed() && i != j ==> seq_without(post.out_seq(j), pre.out_seq(j), i))
        &&& (!pre.directed() && i != j ==> seq_without(post.in_seq(i), pre.in_seq(i), j))
    }

    /// What a successful `remove_node(i)` changes: `i` leaves the live set,
    /// its adjacency becomes empty, and `i` leaves the adjacency of every
    /// other node; payloads and the fresh index stay.
    open spec fn remove_node_ok(pre: Self, post: Self, i: NodeIndex) -> bool {
        &&& seq_without(post.node_seq(), pre.node_seq(), i)
        &&& post.fresh_index() == pre.fresh_index()
        &&& post.directed() == pre.directed()
        &&& forall|k: usize|
            post.node_seq().contains(k) ==> #[trigger] post.payload(k) == pre.payload(k)
        &&& post.out_seq(i) == Seq::<usize>::empty()
        &&& post.in_seq(i) == Seq::<usize>::empty()
        &&& forall|k: usize| k != i ==> seq_without(#[trigger] post.out_seq(k), pre.out_seq(k), i)
        &&& forall|k: usize| k != i ==> seq_without(#[trigger] post.in_seq(k), pre.in_seq(k), i)
    }
}

/// Adding the same edge twice in a row returns `true` and then `false`
/// when the edge was absent at the start: the first call reports a new
/// edge exactly when it was absent, and because that call put `j` into
/// the out-adjacency of `i`, the second call always reports an already
/// existing edge. The hypotheses are what `add_edge` ensures on success.
pub proof fn lemma_add_edge_twice<T, G: Graph<T>>(
    g0: G,
    g1: G,
    i: NodeIndex,
    j: NodeIndex,
    r1: GraphResult<bool>,
    r2: GraphResult<bool>,
)
    requires
        g0.node_seq().contains(i),
        g0.node_seq().contains(j),
        r1 == Ok::<bool, GraphError>(!g0.out_seq(i).contains(j)),
        seq_with(g1.out_seq(i), g0.out_seq(i), j),
        r2 == Ok::<bool, GraphError>(!g1.out_seq(i).contains(j)),
    ensures
        !g0.out_seq(i).contains(j) ==> r1 == Ok::<bool, GraphError>(true),
        r2 == Ok::<bool, GraphError>(false),
{
    assert(g1.out_seq(i).contains(j));
}

/// After `remove_node(i)` succeeds, no adjacency query over any node ever
/// yields `i` again. The hypotheses are what `remove_node` ensures on
/// success.
pub proof fn lemma_removed_never_adjacent<T, G: Graph<T>>(
    pre: G,
    post: G,
    i: NodeIndex,
    k: NodeIndex,
)
    requires
        post.out_seq(i) == Seq::<usize>::empty(),
        post.in_seq(i) == Seq::<usize>::empty(),
        k != i ==> seq_without(post.out_seq(k), pre.out_seq(k), i),
        k != i ==> seq_without(post.in_seq(k), pre.in_seq(k), i),
    ensures
        !post.out_seq(k).contains(i),
        !post.in_seq(k).contains(i),
{
    if k == i {
        assert(!Seq::<usize>::empty().contains(i));
    }
}

} // verus!
