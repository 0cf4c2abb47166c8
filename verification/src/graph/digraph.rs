//! Directed graph: a node arena plus mirrored out- and in-adjacency
//! relations.

use vstd::prelude::*;
use vstd::pervasive::VecAdditionalExecFns;

use crate::graph::{
    lemma_live_seq, lemma_vec_len_bound, live_seq, Graph, GraphError, GraphResult, Node, NodeIndex,
};
use crate::index_set::{seq_with, seq_without, strictly_sorted, NodeIndexSet};

verus! {

/// Directed graph. Allows loops.
///
/// Slot `i` of the arena holds node `i` until it is removed; a removed
/// slot stays empty, so indices are never reused. The two adjacency
/// relations are consistent mirror images: `j` is an out-neighbor of `i`
/// exactly when `i` is an in-neighbor of `j`.
pub struct Digraph<T> {
    nodes: Vec<Option<Node<T>>>,
    in_adj: Vec<NodeIndexSet>,
    out_adj: Vec<NodeIndexSet>,
    num_nodes: usize,
}

impl<T> Graph<T> for Digraph<T> {
    closed spec fn wf(&self) -> bool {
        &&& self.in_adj@.len() == self.nodes@.len()
        &&& self.out_adj@.len() == self.nodes@.len()
        &&& self.num_nodes == live_seq(self.nodes@).len()
        &&& forall|i: int|
            0 <= i < self.nodes@.len() ==> ((#[trigger] self.nodes@[i]) matches Some(n) ==> n.index
                == i)
        &&& forall|i: int| 0 <= i < self.out_adj@.len() ==> (#[trigger] self.out_adj@[i]).wf()
        &&& forall|i: int| 0 <= i < self.in_adj@.len() ==> (#[trigger] self.in_adj@[i]).wf()
        &&& forall|i: int|
            0 <= i < self.nodes@.len() && self.nodes@[i] is None ==> (#[trigger] self.out_adj@[i])@
                == Seq::<usize>::empty()
        &&& forall|i: int|
            0 <= i < self.nodes@.len() && self.nodes@[i] is None ==> (#[trigger] self.in_adj@[i])@
                == Seq::<usize>::empty()
        &&& forall|i: int, j: usize|
            0 <= i < self.out_adj@.len() && (#[trigger] self.out_adj@[i]@.contains(j)) ==> j
                < self.nodes@.len() && self.nodes@[j as int] is Some
        &&& forall|i: int, j: usize|
            0 <= i < self.in_adj@.len() && (#[trigger] self.in_adj@[i]@.contains(j)) ==> j
                < self.nodes@.len() && self.nodes@[j as int] is Some
        &&& forall|i: int, j: usize|
            0 <= i < self.out_adj@.len() && (#[trigger] self.out_adj@[i]@.contains(j))
                ==> self.in_adj@[j as int]@.contains(i as usize)
        &&& forall|i: int, j: usize|
            0 <= i < self.in_adj@.len() && (#[trigger] self.in_adj@[i]@.contains(j))
                ==> self.out_adj@[j as int]@.contains(i as usize)
    }

    closed spec fn node_seq(&self) -> Seq<usize> {
        live_seq(self.nodes@)
    }

    closed spec fn out_seq(&self, i: usize) -> Seq<usize> {
        if i < self.out_adj@.len() {
            self.out_adj@[i as int]@
        } else {
            Seq::empty()
        }
    }

    closed spec fn in_seq(&self, i: usize) -> Seq<usize> {
        if i < self.in_adj@.len() {
            self.in_adj@[i as int]@
        } else {
            Seq::empty()
        }
    }

    closed spec fn payload(&self, i: usize) -> T {
        self.nodes@[i as int].unwrap().data
    }

    closed spec fn fresh_index(&self) -> usize {
        self.nodes@.len() as usize
    }

    closed spec fn directed(&self) -> bool {
        true
    }

    proof fn lemma_wf(&self) {
        lemma_vec_len_bound(&self.nodes);
        lemma_live_seq(self.nodes@);
        assert forall|i: usize| strictly_sorted(#[trigger] self.out_seq(i)) by {
            if i < self.out_adj@.len() {
                assert(self.out_adj@[i as int].wf());
            }
        }
        assert forall|i: usize| strictly_sorted(#[trigger] self.in_seq(i)) by {
            if i < self.in_adj@.len() {
                assert(self.in_adj@[i as int].wf());
            }
        }
        assert forall|i: usize| !self.node_seq().contains(i) implies #[trigger] self.out_seq(i)
            == Seq::<usize>::empty() by {
            if i < self.out_adj@.len() {
                assert(self.nodes@[i as int] is None);
            }
        }
        assert forall|i: usize| !self.node_seq().contains(i) implies #[trigger] self.in_seq(i)
            == Seq::<usize>::empty() by {
            if i < self.in_adj@.len() {
                assert(self.nodes@[i as int] is None);
            }
        }
        assert forall|i: usize, j: usize| #[trigger]
            self.out_seq(i).contains(j) implies self.node_seq().contains(i)
            && self.node_seq().contains(j) by {
            assert(i < self.out_adj@.len());
            assert(self.out_adj@[i as int]@.contains(j));
            if self.nodes@[i as int] is None {
                assert(self.out_adj@[i as int]@ == Seq::<usize>::empty());
                assert(false);
            }
        }
        assert forall|i: usize, j: usize|
            #![trigger self.out_seq(i).contains(j)]
            #![trigger self.in_seq(j).contains(i)]
            self.out_seq(i).contains(j) <==> self.in_seq(j).contains(i) by {
            if self.out_seq(i).contains(j) {
                assert(self.out_adj@[i as int]@.contains(j));
                assert(self.in_adj@[j as int]@.contains(i));
                assert(j < self.nodes@.len());
            }
            if self.in_seq(j).contains(i) {
                assert(self.in_adj@[j as int]@.contains(i));
                assert(self.out_adj@[i as int]@.contains(j));
                assert(i < self.nodes@.len());
            }
        }
    }

    fn add_node(&mut self, val: T) -> NodeIndex {
        let ind = self.nodes.len();
        proof {
            lemma_vec_len_bound(&self.nodes);
            lemma_live_seq(self.nodes@);
        }
        self.nodes.push(Some(Node { data: val, index: ind }));
        self.in_adj.push(NodeIndexSet::new());
        self.out_adj.push(NodeIndexSet::new());
        proof {
            lemma_vec_len_bound(&self.nodes);
            lemma_live_seq(self.nodes@);
            assert(self.nodes@.drop_last() =~= old(self).nodes@);
            assert(live_seq(self.nodes@) =~= live_seq(old(self).nodes@).push(ind)) by {
                assert(self.nodes@.last() is Some);
                assert(live_seq(self.nodes@) == live_seq(self.nodes@.drop_last()) + seq![ind]);
            }
            assert(self.num_nodes < usize::MAX) by {
                assert(live_seq(old(self).nodes@).len() <= old(self).nodes@.len());
                assert(self.nodes@.len() <= usize::MAX);
            }
        }
        self.num_nodes = self.num_nodes + 1;
        proof {
            assert forall|k: usize| #[trigger] self.out_seq(k) == old(self).out_seq(k) by {
                if k < old(self).out_adj@.len() {
                    assert(self.out_adj@[k as int] == old(self).out_adj@[k as int]);
                } else if k == ind {
                    assert(self.out_adj@[k as int]@ == Seq::<usize>::empty());
                }
            }
            assert forall|k: usize| #[trigger] self.in_seq(k) == old(self).in_seq(k) by {
                if k < old(self).in_adj@.len() {
                    assert(self.in_adj@[k as int] == old(self).in_adj@[k as int]);
                } else if k == ind {
                    assert(self.in_adj@[k as int]@ == Seq::<usize>::empty());
                }
            }
            assert(self.wf()) by {
                assert forall|i: int|
                    0 <= i < self.nodes@.len() implies ((#[trigger] self.nodes@[i]) matches Some(n)
                    ==> n.index == i) by {
                    if i < old(self).nodes@.len() {
                        assert(self.nodes@[i] == old(self).nodes@[i]);
                    }
                }
                assert forall|i: int, j: usize|
                    0 <= i < self.out_adj@.len() && (#[trigger] self.out_adj@[i]@.contains(
                        j,
                    )) implies j < self.nodes@.len() && self.nodes@[j as int] is Some
                    && self.in_adj@[j as int]@.contains(i as usize) by {
                    if i < old(self).out_adj@.len() {
                        assert(self.out_adj@[i] == old(self).out_adj@[i]);
                        assert(old(self).out_adj@[i]@.contains(j));
                        assert(self.in_adj@[j as int] == old(self).in_adj@[j as int]);
                    } else {
                        assert(self.out_adj@[i]@ == Seq::<usize>::empty());
                    }
                }
                assert forall|i: int, j: usize|
                    0 <= i < self.in_adj@.len() && (#[trigger] self.in_adj@[i]@.contains(
                        j,
                    )) implies j < self.nodes@.len() && self.nodes@[j as int] is Some
                    && self.out_adj@[j as int]@.contains(i as usize) by {
                    if i < old(self).in_adj@.len() {
                        assert(self.in_adj@[i] == old(self).in_adj@[i]);
                        assert(old(self).in_adj@[i]@.contains(j));
                        assert(self.out_adj@[j as int] == old(self).out_adj@[j as int]);
                    } else {
                        assert(self.in_adj@[i]@ == Seq::<usize>::empty());
                    }
                }
            }
        }
        ind
    }

    fn add_edge(&mut self, i: NodeIndex, j: NodeIndex) -> GraphResult<bool> {
        if !self.has_node(i) {
            return Err(GraphError::invalid_index(i));
        }
        if !self.has_node(j) {
            return Err(GraphError::invalid_index(j));
        }
        proof {
            lemma_vec_len_bound(&self.nodes);
            lemma_live_seq(self.nodes@);
        }
        if self.out_adj[i].contains(j) {
            return Ok(false);
        }
        let mut si = self.out_adj[i].duplicate();
        si.insert(j);
        self.out_adj.set(i, si);
        let mut sj = self.in_adj[j].duplicate();
        sj.insert(i);
        self.in_adj.set(j, sj);
        proof {
            self.lemma_add_edge_restores(*old(self), i, j);
        }
        Ok(true)
    }

    #[verifier::loop_isolation(false)]
    fn remove_node(&mut self, i: NodeIndex) -> GraphResult<()> {
        if !self.has_node(i) {
            return Err(GraphError::invalid_index(i));
        }
        proof {
            lemma_vec_len_bound(&self.nodes);
            lemma_live_seq(self.nodes@);
        }
        // take i out of the in-adjacency of every out-neighbor of i
        let outs = self.out_adj[i].duplicate();
        let ghost no = outs@;
        let mut k: usize = 0;
        while k < outs.len()
            invariant
                k <= no.len(),
                self.nodes@ == old(self).nodes@,
                self.num_nodes == old(self).num_nodes,
                self.in_adj@.len() == old(self).in_adj@.len(),
                self.out_adj@ == old(self).out_adj@,
                forall|l: int|
                    0 <= l < self.in_adj@.len() && !no.take(k as int).contains(l as usize)
                        ==> #[trigger] self.in_adj@[l] == old(self).in_adj@[l],
                forall|l: int|
                    0 <= l < self.in_adj@.len() && no.take(k as int).contains(l as usize)
                        ==> seq_without((#[trigger] self.in_adj@[l])@, old(self).in_adj@[l]@, i),
            decreases no.len() - k,
        {
            let j = outs.get(k);
            proof {
                assert(no[k as int] == j);
                assert(no.contains(j));
                assert(old(self).out_adj@[i as int]@.contains(j));
                assert(j < old(self).nodes@.len());
                crate::index_set::lemma_sorted_no_duplicates(no);
                assert(!no.take(k as int).contains(j)) by {
                    if no.take(k as int).contains(j) {
                        let w = choose|w: int| 0 <= w < k && #[trigger] no.take(k as int)[w] == j;
                        assert(no[w] == j);
                        assert(no[k as int] == j);
                    }
                }
            }
            let mut sj = self.in_adj[j].duplicate();
            sj.remove(i);
            self.in_adj.set(j, sj);
            proof {
                assert forall|l: int|
                    0 <= l < self.in_adj@.len() && no.take(k + 1).contains(l as usize)
                        implies seq_without(
                    (#[trigger] self.in_adj@[l])@,
                    old(self).in_adj@[l]@,
                    i,
                ) by {
                    assert(no.take(k + 1) =~= no.take(k as int).push(j));
                    if l != j {
                        assert(no.take(k as int).contains(l as usize)) by {
                            let w = choose|w: int|
                                0 <= w < no.take(k + 1).len() && #[trigger] no.take(k + 1)[w]
                                    == l as usize;
                            assert(w < k);
                            assert(no.take(k as int)[w] == l as usize);
                        }
                    }
                }
                assert forall|l: int|
                    0 <= l < self.in_adj@.len() && !no.take(k + 1).contains(l as usize)
                        implies #[trigger] self.in_adj@[l] == old(self).in_adj@[l] by {
                    assert(no.take(k + 1) =~= no.take(k as int).push(j));
                    assert(!no.take(k as int).contains(l as usize));
                    assert(l != j) by {
                        assert(no.take(k + 1)[k as int] == j);
                    }
                }
            }
            k = k + 1;
        }
        proof {
            assert(no.take(no.len() as int) =~= no);
        }
        // take i out of the out-adjacency of every in-neighbor of i
        let ins = self.in_adj[i].duplicate();
        let ghost ni_pre = ins@;
        proof {
            // the snapshot differs from the original in-adjacency of i only
            // by i itself (removed above when i had a self-loop)
            if no.contains(i) {
                assert(seq_without(ni_pre, old(self).in_adj@[i as int]@, i));
            } else {
                assert(self.in_adj@[i as int] == old(self).in_adj@[i as int]);
            }
        }
        let ghost mid_in = self.in_adj@;
        let mut k2: usize = 0;
        while k2 < ins.len()
            invariant
                k2 <= ni_pre.len(),
                self.nodes@ == old(self).nodes@,
                self.num_nodes == old(self).num_nodes,
                self.in_adj@ == mid_in,
                self.out_adj@.len() == old(self).out_adj@.len(),
                forall|l: int|
                    0 <= l < self.out_adj@.len() && !ni_pre.take(k2 as int).contains(l as usize)
                        ==> #[trigger] self.out_adj@[l] == old(self).out_adj@[l],
                forall|l: int|
                    0 <= l < self.out_adj@.len() && ni_pre.take(k2 as int).contains(l as usize)
                        ==> seq_without((#[trigger] self.out_adj@[l])@, old(self).out_adj@[l]@, i),
            decreases ni_pre.len() - k2,
        {
            let j = ins.get(k2);
            proof {
                assert(ni_pre[k2 as int] == j);
                assert(ni_pre.contains(j));
                assert(old(self).in_adj@[i as int]@.contains(j) || j == i);
                assert(old(self).in_adj@[i as int]@.contains(j)) by {
                    if j == i {
                        assert(ni_pre.contains(i));
                    }
                }
                assert(j < old(self).nodes@.len());
                crate::index_set::lemma_sorted_no_duplicates(ni_pre);
                assert(!ni_pre.take(k2 as int).contains(j)) by {
                    if ni_pre.take(k2 as int).contains(j) {
                        let w = choose|w: int|
                            0 <= w < k2 && #[trigger] ni_pre.take(k2 as int)[w] == j;
                        assert(ni_pre[w] == j);
                        assert(ni_pre[k2 as int] == j);
                    }
                }
            }
            let mut sj = self.out_adj[j].duplicate();
            sj.remove(i);
            self.out_adj.set(j, sj);
            proof {
                assert forall|l: int|
                    0 <= l < self.out_adj@.len() && ni_pre.take(k2 + 1).contains(l as usize)
                        implies seq_without(
                    (#[trigger] self.out_adj@[l])@,
                    old(self).out_adj@[l]@,
                    i,
                ) by {
                    assert(ni_pre.take(k2 + 1) =~= ni_pre.take(k2 as int).push(j));
                    if l != j {
                        assert(ni_pre.take(k2 as int).contains(l as usize)) by {
                            let w = choose|w: int|
                                0 <= w < ni_pre.take(k2 + 1).len() && #[trigger] ni_pre.take(
                                    k2 + 1,
                                )[w] == l as usize;
                            assert(w < k2);
                            assert(ni_pre.take(k2 as int)[w] == l as usize);
                        }
                    }
                }
                assert forall|l: int|
                    0 <= l < self.out_adj@.len() && !ni_pre.take(k2 + 1).contains(l as usize)
                        implies #[trigger] self.out_adj@[l] == old(self).out_adj@[l] by {
                    assert(ni_pre.take(k2 + 1) =~= ni_pre.take(k2 as int).push(j));
                    assert(!ni_pre.take(k2 as int).contains(l as usize));
                    assert(l != j) by {
                        assert(ni_pre.take(k2 + 1)[k2 as int] == j);
                    }
                }
            }
            k2 = k2 + 1;
        }
        proof {
            assert(ni_pre.take(ni_pre.len() as int) =~= ni_pre);
        }
        self.out_adj.set(i, NodeIndexSet::new());
        self.in_adj.set(i, NodeIndexSet::new());
        self.nodes.set(i, None);
        proof {
            lemma_vec_len_bound(&self.nodes);
            lemma_live_seq(self.nodes@);
            assert(seq_without(live_seq(self.nodes@), live_seq(old(self).nodes@), i)) by {
                assert forall|x: usize| #[trigger]
                    live_seq(self.nodes@).contains(x) <==> live_seq(old(self).nodes@).contains(x)
                        && x != i by {
                    if x < self.nodes@.len() && x != i {
                        assert(self.nodes@[x as int] == old(self).nodes@[x as int]);
                    }
                }
            }
            crate::index_set::lemma_sorted_minus_len(
                live_seq(self.nodes@),
                live_seq(old(self).nodes@),
                i,
            );
        }
        self.num_nodes = self.num_nodes - 1;
        proof {
            self.lemma_remove_node_restores(*old(self), i, no, ni_pre);
        }
        Ok(())
    }

    fn remove_edge(&mut self, i: NodeIndex, j: NodeIndex) -> GraphResult<bool> {
        if !self.has_node(i) {
            return Err(GraphError::invalid_index(i));
        }
        if !self.has_node(j) {
            return Err(GraphError::invalid_index(j));
        }
        proof {
            lemma_vec_len_bound(&self.nodes);
            lemma_live_seq(self.nodes@);
        }
        let mut si = self.out_adj[i].duplicate();
        let existed = si.remove(j);
        self.out_adj.set(i, si);
        let mut sj = self.in_adj[j].duplicate();
        sj.remove(i);
        self.in_adj.set(j, sj);
        proof {
            self.lemma_remove_edge_restores(*old(self), i, j);
        }
        Ok(existed)
    }

    fn adj(&self, i: NodeIndex) -> GraphResult<Vec<NodeIndex>> {
        if !self.has_node(i) {
            return Err(GraphError::invalid_index(i));
        }
        proof {
            lemma_vec_len_bound(&self.nodes);
            lemma_live_seq(self.nodes@);
        }
        Ok(self.out_adj[i].to_vec())
    }

    fn num_nodes(&self) -> usize {
        self.num_nodes
    }

    #[verifier::loop_isolation(false)]
    fn node_indices(&self) -> Vec<NodeIndex> {
        let mut out: Vec<usize> = Vec::new();
        let mut i: usize = 0;
        while i < self.nodes.len()
            invariant
                i <= self.nodes@.len(),
                out@ == live_seq(self.nodes@.take(i as int)),
            decreases self.nodes@.len() - i,
        {
            proof {
                assert(self.nodes@.take(i + 1).drop_last() =~= self.nodes@.take(i as int));
                assert(self.nodes@.take(i + 1).last() == self.nodes@[i as int]);
            }
            if self.nodes[i].is_some() {
                out.push(i);
                proof {
                    assert(live_seq(self.nodes@.take(i + 1)) =~= live_seq(
                        self.nodes@.take(i as int),
                    ).push(i));
                }
            } else {
                proof {
                    assert(live_seq(self.nodes@.take(i + 1)) =~= live_seq(
                        self.nodes@.take(i as int),
                    ));
                }
            }
            i = i + 1;
        }
        proof {
            assert(self.nodes@.take(self.nodes@.len() as int) =~= self.nodes@);
        }
        out
    }
}

impl<T> Digraph<T> {
    /// An empty directed graph.
    pub fn new() -> (r: Digraph<T>)
        ensures
            r.wf(),
            r.node_seq() == Seq::<usize>::empty(),
            r.fresh_index() == 0,
            r.directed(),
    {
        Digraph { nodes: Vec::new(), in_adj: Vec::new(), out_adj: Vec::new(), num_nodes: 0 }
    }

    /// True when `i` names a live node.
    fn has_node(&self, i: NodeIndex) -> (r: bool)
        requires
            self.wf(),
        ensures
            r == self.node_seq().contains(i),
    {
        proof {
            lemma_vec_len_bound(&self.nodes);
            lemma_live_seq(self.nodes@);
        }
        i < self.nodes.len() && self.nodes[i].is_some()
    }

    /// The number of out-neighbors of `ind`, failing when `ind` is not live.
    pub fn out_degree(&self, ind: NodeIndex) -> (r: GraphResult<usize>)
        requires
            self.wf(),
        ensures
            self.node_seq().contains(ind) ==> r == Ok::<usize, GraphError>(
                self.out_seq(ind).len() as usize,
            ),
            !self.node_seq().contains(ind) ==> r == Err::<usize, GraphError>(
                GraphError::invalid_index(ind),
            ),
    {
        if !self.has_node(ind) {
            Err(GraphError::invalid_index(ind))
        } else {
            proof {
                lemma_vec_len_bound(&self.nodes);
                lemma_live_seq(self.nodes@);
            }
            Ok(self.out_adj[ind].len())
        }
    }

    /// The number of in-neighbors of `ind`, failing when `ind` is not live.
    pub fn in_degree(&self, ind: NodeIndex) -> (r: GraphResult<usize>)
        requires
            self.wf(),
        ensures
            self.node_seq().contains(ind) ==> r == Ok::<usize, GraphError>(
                self.in_seq(ind).len() as usize,
            ),
            !self.node_seq().contains(ind) ==> r == Err::<usize, GraphError>(
                GraphError::invalid_index(ind),
            ),
    {
        if !self.has_node(ind) {
            Err(GraphError::invalid_index(ind))
        } else {
            proof {
                lemma_vec_len_bound(&self.nodes);
                lemma_live_seq(self.nodes@);
            }
            Ok(self.in_adj[ind].len())
        }
    }

    /// The node stored under index `i`.
    pub fn get_node(&self, i: NodeIndex) -> (r: &Node<T>)
        requires
            self.wf(),
            self.node_seq().contains(i),
        ensures
            r.index == i,
            r.data == self.payload(i),
    {
        proof {
            lemma_vec_len_bound(&self.nodes);
            lemma_live_seq(self.nodes@);
        }
        self.nodes[i].as_ref().unwrap()
    }

    /// The set of in-neighbors of `i`.
    pub fn get_in_adj(&self, i: NodeIndex) -> (r: &NodeIndexSet)
        requires
            self.wf(),
            self.node_seq().contains(i),
        ensures
            r@ == self.in_seq(i),
            r.wf(),
    {
        proof {
            lemma_vec_len_bound(&self.nodes);
            lemma_live_seq(self.nodes@);
        }
        &self.in_adj[i]
    }

    /// The set of out-neighbors of `i`.
    pub fn get_out_adj(&self, i: NodeIndex) -> (r: &NodeIndexSet)
        requires
            self.wf(),
            self.node_seq().contains(i),
        ensures
            r@ == self.out_seq(i),
            r.wf(),
    {
        proof {
            lemma_vec_len_bound(&self.nodes);
            lemma_live_seq(self.nodes@);
        }
        &self.out_adj[i]
    }

    /// True when `j` is an out-neighbor of `i`.
    pub fn is_out_adj_to(&self, i: NodeIndex, j: NodeIndex) -> (r: bool)
        requires
            self.wf(),
            self.node_seq().contains(i),
        ensures
            r == self.out_seq(i).contains(j),
    {
        self.get_out_adj(i).contains(j)
    }

    /// `j` is an out-neighbor of `i` exactly when `i` is an in-neighbor
    /// of `j`: the two relations are consistent mirror images.
    pub proof fn lemma_out_in_mirror(&self, i: NodeIndex, j: NodeIndex)
        requires
            self.wf(),
        ensures
            self.out_seq(i).contains(j) <==> self.in_seq(j).contains(i),
    {
        self.lemma_wf();
    }

    /// Everything `add_edge` must re-establish after inserting `j` into
    /// the out-set of `i` and `i` into the in-set of `j`.
    proof fn lemma_add_edge_restores(&self, pre: Digraph<T>, i: NodeIndex, j: NodeIndex)
        requires
            pre.wf(),
            pre.node_seq().contains(i),
            pre.node_seq().contains(j),
            self.nodes@ == pre.nodes@,
            self.num_nodes == pre.num_nodes,
            self.out_adj@.len() == pre.out_adj@.len(),
            self.in_adj@.len() == pre.in_adj@.len(),
            seq_with(self.out_adj@[i as int]@, pre.out_adj@[i as int]@, j),
            seq_with(self.in_adj@[j as int]@, pre.in_adj@[j as int]@, i),
            forall|l: int|
                0 <= l < self.out_adj@.len() && l != i ==> #[trigger] self.out_adj@[l]
                    == pre.out_adj@[l],
            forall|l: int|
                0 <= l < self.in_adj@.len() && l != j ==> #[trigger] self.in_adj@[l]
                    == pre.in_adj@[l],
        ensures
            self.wf(),
            Graph::<T>::add_edge_ok(pre, *self, i, j),
    {
        lemma_vec_len_bound(&pre.nodes);
        lemma_live_seq(pre.nodes@);
        assert(i < pre.nodes@.len() && j < pre.nodes@.len());
        assert(self.wf()) by {
            assert forall|l: int|
                0 <= l < self.nodes@.len() && self.nodes@[l] is None implies (
            #[trigger] self.out_adj@[l])@ == Seq::<usize>::empty() by {
                assert(l != i);
            }
            assert forall|l: int|
                0 <= l < self.nodes@.len() && self.nodes@[l] is None implies (
            #[trigger] self.in_adj@[l])@ == Seq::<usize>::empty() by {
                assert(l != j);
            }
            assert forall|l: int, m: usize|
                0 <= l < self.out_adj@.len() && (#[trigger] self.out_adj@[l]@.contains(m)) implies m
                < self.nodes@.len() && self.nodes@[m as int] is Some
                && self.in_adj@[m as int]@.contains(l as usize) by {
                if l == i && m == j {
                } else if l == i {
                    assert(pre.out_adj@[l]@.contains(m));
                    assert(pre.in_adj@[m as int]@.contains(l as usize));
                    assert(m != j || l as usize == i);
                } else {
                    assert(pre.out_adj@[l]@.contains(m));
                    assert(pre.in_adj@[m as int]@.contains(l as usize));
                }
            }
            assert forall|l: int, m: usize|
                0 <= l < self.in_adj@.len() && (#[trigger] self.in_adj@[l]@.contains(m)) implies m
                < self.nodes@.len() && self.nodes@[m as int] is Some
                && self.out_adj@[m as int]@.contains(l as usize) by {
                if l == j && m == i {
                } else if l == j {
                    assert(pre.in_adj@[l]@.contains(m));
                    assert(pre.out_adj@[m as int]@.contains(l as usize));
                } else {
                    assert(pre.in_adj@[l]@.contains(m));
                    assert(pre.out_adj@[m as int]@.contains(l as usize));
                }
            }
        }
    }

    /// Everything `remove_edge` must re-establish after removing `j` from
    /// the out-set of `i` and `i` from the in-set of `j`.
    proof fn lemma_remove_edge_restores(&self, pre: Digraph<T>, i: NodeIndex, j: NodeIndex)
        requires
            pre.wf(),
            pre.node_seq().contains(i),
            pre.node_seq().contains(j),
            self.nodes@ == pre.nodes@,
            self.num_nodes == pre.num_nodes,
            self.out_adj@.len() == pre.out_adj@.len(),
            self.in_adj@.len() == pre.in_adj@.len(),
            seq_without(self.out_adj@[i as int]@, pre.out_adj@[i as int]@, j),
            seq_without(self.in_adj@[j as int]@, pre.in_adj@[j as int]@, i),
            forall|l: int|
                0 <= l < self.out_adj@.len() && l != i ==> #[trigger] self.out_adj@[l]
                    == pre.out_adj@[l],
            forall|l: int|
                0 <= l < self.in_adj@.len() && l != j ==> #[trigger] self.in_adj@[l]
                    == pre.in_adj@[l],
        ensures
            self.wf(),
            Graph::<T>::remove_edge_ok(pre, *self, i, j),
    {
        lemma_vec_len_bound(&pre.nodes);
        lemma_live_seq(pre.nodes@);
        assert(i < pre.nodes@.len() && j < pre.nodes@.len());
        assert(self.wf()) by {
            assert forall|l: int|
                0 <= l < self.nodes@.len() && self.nodes@[l] is None implies (
            #[trigger] self.out_adj@[l])@ == Seq::<usize>::empty() by {
                assert(l != i);
            }
            assert forall|l: int|
                0 <= l < self.nodes@.len() && self.nodes@[l] is None implies (
            #[trigger] self.in_adj@[l])@ == Seq::<usize>::empty() by {
                assert(l != j);
            }
            assert forall|l: int, m: usize|
                0 <= l < self.out_adj@.len() && (#[trigger] self.out_adj@[l]@.contains(m)) implies m
                < self.nodes@.len() && self.nodes@[m as int] is Some
                && self.in_adj@[m as int]@.contains(l as usize) by {
                if l == i {
                    assert(pre.out_adj@[l]@.contains(m));
                    assert(m != j);
                    assert(pre.in_adj@[m as int]@.contains(l as usize));
                } else {
                    assert(pre.out_adj@[l]@.contains(m));
                    assert(pre.in_adj@[m as int]@.contains(l as usize));
                    if m == j {
                        assert(l as usize != i);
                    }
                }
            }
            assert forall|l: int, m: usize|
                0 <= l < self.in_adj@.len() && (#[trigger] self.in_adj@[l]@.contains(m)) implies m
                < self.nodes@.len() && self.nodes@[m as int] is Some
                && self.out_adj@[m as int]@.contains(l as usize) by {
                if l == j {
                    assert(pre.in_adj@[l]@.contains(m));
                    assert(m != i);
                    assert(pre.out_adj@[m as int]@.contains(l as usize));
                } else {
                    assert(pre.in_adj@[l]@.contains(m));
                    assert(pre.out_adj@[m as int]@.contains(l as usize));
                    if m == i {
                        assert(l as usize != j);
                    }
                }
            }
        }
    }

    /// Everything `remove_node` must re-establish after clearing the rows
    /// of `i` and taking `i` out of the rows of its neighbors: `no` is
    /// the original out-adjacency of `i`, `ni` its in-adjacency (less a
    /// self-loop, already removed by the first pass).
    proof fn lemma_remove_node_restores(
        &self,
        pre: Digraph<T>,
        i: NodeIndex,
        no: Seq<usize>,
        ni: Seq<usize>,
    )
        requires
            pre.wf(),
            pre.node_seq().contains(i),
            no == pre.out_adj@[i as int]@,
            no.contains(i) ==> seq_without(ni, pre.in_adj@[i as int]@, i),
            !no.contains(i) ==> ni == pre.in_adj@[i as int]@,
            self.nodes@ == pre.nodes@.update(i as int, None),
            self.num_nodes == live_seq(self.nodes@).len(),
            self.out_adj@.len() == pre.out_adj@.len(),
            self.in_adj@.len() == pre.in_adj@.len(),
            self.out_adj@[i as int]@ == Seq::<usize>::empty(),
            self.in_adj@[i as int]@ == Seq::<usize>::empty(),
            forall|l: int|
                0 <= l < self.in_adj@.len() && l != i && !no.contains(l as usize)
                    ==> #[trigger] self.in_adj@[l] == pre.in_adj@[l],
            forall|l: int|
                0 <= l < self.in_adj@.len() && l != i && no.contains(l as usize) ==> seq_without(
                    (#[trigger] self.in_adj@[l])@,
                    pre.in_adj@[l]@,
                    i,
                ),
            forall|l: int|
                0 <= l < self.out_adj@.len() && l != i && !ni.contains(l as usize)
                    ==> #[trigger] self.out_adj@[l] == pre.out_adj@[l],
            forall|l: int|
                0 <= l < self.out_adj@.len() && l != i && ni.contains(l as usize) ==> seq_without(
                    (#[trigger] self.out_adj@[l])@,
                    pre.out_adj@[l]@,
                    i,
                ),
        ensures
            self.wf(),
            Graph::<T>::remove_node_ok(pre, *self, i),
    {
        lemma_vec_len_bound(&pre.nodes);
        lemma_live_seq(pre.nodes@);
        lemma_live_seq(self.nodes@);
        assert(i < pre.nodes@.len());
        // rows other than those of the neighbors of i never held i
        assert forall|l: int|
            0 <= l < self.out_adj@.len() && l != i implies seq_without(
            (#[trigger] self.out_adj@[l])@,
            pre.out_adj@[l]@,
            i,
        ) by {
            if !ni.contains(l as usize) {
                assert(!pre.out_adj@[l]@.contains(i)) by {
                    if pre.out_adj@[l]@.contains(i) {
                        assert(pre.in_adj@[i as int]@.contains(l as usize));
                    }
                }
                assert(pre.out_adj@[l].wf());
            }
        }
        assert forall|l: int|
            0 <= l < self.in_adj@.len() && l != i implies seq_without(
            (#[trigger] self.in_adj@[l])@,
            pre.in_adj@[l]@,
            i,
        ) by {
            if !no.contains(l as usize) {
                assert(!pre.in_adj@[l]@.contains(i)) by {
                    if pre.in_adj@[l]@.contains(i) {
                        assert(pre.out_adj@[i as int]@.contains(l as usize));
                    }
                }
                assert(pre.in_adj@[l].wf());
            }
        }
        assert(self.wf()) by {
            assert forall|l: int|
                0 <= l < self.out_adj@.len() implies (#[trigger] self.out_adj@[l]).wf() by {
                if l != i {
                    assert(seq_without(self.out_adj@[l]@, pre.out_adj@[l]@, i));
                }
            }
            assert forall|l: int|
                0 <= l < self.in_adj@.len() implies (#[trigger] self.in_adj@[l]).wf() by {
                if l != i {
                    assert(seq_without(self.in_adj@[l]@, pre.in_adj@[l]@, i));
                }
            }
            assert forall|l: int|
                0 <= l < self.nodes@.len() && self.nodes@[l] is None implies (
            #[trigger] self.out_adj@[l])@ == Seq::<usize>::empty() by {
                if l != i {
                    assert(pre.nodes@[l] is None);
                    assert(pre.out_adj@[l]@ == Seq::<usize>::empty());
                    assert(seq_without(self.out_adj@[l]@, pre.out_adj@[l]@, i));
                    assert forall|y: usize| !(#[trigger] self.out_adj@[l]@.contains(y)) by {
                        assert(!pre.out_adj@[l]@.contains(y));
                    }
                    assert(self.out_adj@[l]@ =~= Seq::<usize>::empty()) by {
                        if self.out_adj@[l]@.len() > 0 {
                            assert(self.out_adj@[l]@.contains(self.out_adj@[l]@[0]));
                        }
                    }
                }
            }
            assert forall|l: int|
                0 <= l < self.nodes@.len() && self.nodes@[l] is None implies (
            #[trigger] self.in_adj@[l])@ == Seq::<usize>::empty() by {
                if l != i {
                    assert(pre.nodes@[l] is None);
                    assert(pre.in_adj@[l]@ == Seq::<usize>::empty());
                    assert(seq_without(self.in_adj@[l]@, pre.in_adj@[l]@, i));
                    assert forall|y: usize| !(#[trigger] self.in_adj@[l]@.contains(y)) by {
                        assert(!pre.in_adj@[l]@.contains(y));
                    }
                    assert(self.in_adj@[l]@ =~= Seq::<usize>::empty()) by {
                        if self.in_adj@[l]@.len() > 0 {
                            assert(self.in_adj@[l]@.contains(self.in_adj@[l]@[0]));
                        }
                    }
                }
            }
            assert forall|l: int, m: usize|
                0 <= l < self.out_adj@.len() && (#[trigger] self.out_adj@[l]@.contains(m)) implies m
                < self.nodes@.len() && self.nodes@[m as int] is Some
                && self.in_adj@[m as int]@.contains(l as usize) by {
                assert(l != i);
                assert(seq_without(self.out_adj@[l]@, pre.out_adj@[l]@, i));
                assert(pre.out_adj@[l]@.contains(m));
                assert(m != i);
                assert(pre.nodes@[m as int] is Some);
                assert(pre.in_adj@[m as int]@.contains(l as usize));
                assert(seq_without(self.in_adj@[m as int]@, pre.in_adj@[m as int]@, i));
            }
            assert forall|l: int, m: usize|
                0 <= l < self.in_adj@.len() && (#[trigger] self.in_adj@[l]@.contains(m)) implies m
                < self.nodes@.len() && self.nodes@[m as int] is Some
                && self.out_adj@[m as int]@.contains(l as usize) by {
                assert(l != i);
                assert(seq_without(self.in_adj@[l]@, pre.in_adj@[l]@, i));
                assert(pre.in_adj@[l]@.contains(m));
                assert(m != i);
                assert(pre.nodes@[m as int] is Some);
                assert(pre.out_adj@[m as int]@.contains(l as usize));
                assert(seq_without(self.out_adj@[m as int]@, pre.out_adj@[m as int]@, i));
            }
        }
        assert(Graph::<T>::remove_node_ok(pre, *self, i)) by {
            assert(seq_without(self.node_seq(), pre.node_seq(), i)) by {
                assert forall|x: usize| #[trigger]
                    self.node_seq().contains(x) <==> pre.node_seq().contains(x) && x != i by {
                    if x < self.nodes@.len() && x != i {
                        assert(self.nodes@[x as int] == pre.nodes@[x as int]);
                    }
                }
            }
            assert forall|k: usize| k != i implies seq_without(
                #[trigger] self.out_seq(k),
                pre.out_seq(k),
                i,
            ) by {
                if k >= self.out_adj@.len() {
                    assert(self.out_seq(k) == Seq::<usize>::empty());
                    assert(pre.out_seq(k) == Seq::<usize>::empty());
                }
            }
            assert forall|k: usize| k != i implies seq_without(
                #[trigger] self.in_seq(k),
                pre.in_seq(k),
                i,
            ) by {
                if k >= self.in_adj@.len() {
                    assert(self.in_seq(k) == Seq::<usize>::empty());
                    assert(pre.in_seq(k) == Seq::<usize>::empty());
                }
            }
            assert forall|k: usize|
                self.node_seq().contains(k) implies #[trigger] self.payload(k) == pre.payload(
                k,
            ) by {
                assert(self.nodes@[k as int] == pre.nodes@[k as int]);
            }
        }
    }
}


/// `t` holds the same nodes as `g` with every edge direction reversed
/// and each payload carried over by `clone`.
pub open spec fn is_transpose<T: Clone>(t: Digraph<T>, g: Digraph<T>) -> bool {
    &&& t.node_seq() == g.node_seq()
    &&& t.fresh_index() == g.fresh_index()
    &&& forall|i: usize| #[trigger] t.out_seq(i) == g.in_seq(i)
    &&& forall|i: usize| #[trigger] t.in_seq(i) == g.out_seq(i)
    &&& forall|i: usize|
        g.node_seq().contains(i) ==> vstd::pervasive::cloned::<T>(
            g.payload(i),
            #[trigger] t.payload(i),
        )
}

/// Transposing twice restores the graph: the same live indices, the
/// same edge set in both directions, and each payload a clone of a
/// clone of the original. For payload types whose `clone` returns its
/// input, the node payload multiset is therefore unchanged.
pub proof fn lemma_transpose_involutive<T: Clone>(g: Digraph<T>, t: Digraph<T>, u: Digraph<T>)
    requires
        is_transpose(t, g),
        is_transpose(u, t),
    ensures
        u.node_seq() == g.node_seq(),
        u.fresh_index() == g.fresh_index(),
        forall|i: usize| #[trigger] u.out_seq(i) == g.out_seq(i),
        forall|i: usize| #[trigger] u.in_seq(i) == g.in_seq(i),
        forall|i: usize|
            g.node_seq().contains(i) ==> vstd::pervasive::cloned::<T>(
                g.payload(i),
                t.payload(i),
            ) && vstd::pervasive::cloned::<T>(t.payload(i), #[trigger] u.payload(i)),
{
}

impl<T: Clone> Digraph<T> {
    /// The subgraph induced by a set of node indices: a new graph with
    /// one node per member of `nodes` (in increasing order of old index,
    /// with fresh dense indices) and exactly the edges of this graph
    /// whose both endpoints lie in `nodes`, with direction preserved.
    #[verifier::loop_isolation(false)]
    #[verifier::rlimit(100)]
    pub fn induced_subgraph(&self, nodes: &NodeIndexSet) -> (r: Digraph<T>)
        requires
            self.wf(),
            nodes.wf(),
            forall|x: usize| nodes@.contains(x) ==> self.node_seq().contains(x),
        ensures
            r.wf(),
            r.directed(),
            r.fresh_index() == nodes@.len(),
            r.node_seq().len() == nodes@.len(),
            forall|k: int| 0 <= k < nodes@.len() ==> #[trigger] r.node_seq()[k] == k as usize,
            forall|k: usize|
                k < nodes@.len() ==> vstd::pervasive::cloned::<T>(
                    self.payload(nodes@[k as int]),
                    #[trigger] r.payload(k),
                ),
            forall|p: usize, q: usize|
                p < nodes@.len() && q < nodes@.len() ==> (#[trigger] r.out_seq(p).contains(q)
                    <==> self.out_seq(nodes@[p as int]).contains(nodes@[q as int])),
    {
        proof {
            self.lemma_wf();
            crate::index_set::lemma_sorted_no_duplicates(nodes@);
        }
        let ghost ns = nodes@;
        let n = nodes.len();
        let mut sub: Digraph<T> = Digraph::new();
        proof {
            sub.lemma_wf();
            assert forall|k: usize| #[trigger] sub.out_seq(k) == Seq::<usize>::empty() by {
                if sub.node_seq().contains(k) {
                    assert(false);
                }
            }
        }
        let mut p: usize = 0;
        while p < n
            invariant
                sub.wf(),
                sub.directed(),
                p <= n,
                sub.fresh_index() == p,
                sub.node_seq().len() == p,
                forall|k: int| 0 <= k < p ==> #[trigger] sub.node_seq()[k] == k as usize,
                forall|k: usize|
                    k < p ==> vstd::pervasive::cloned::<T>(
                        self.payload(ns[k as int]),
                        #[trigger] sub.payload(k),
                    ),
                forall|k: usize| #[trigger] sub.out_seq(k) == Seq::<usize>::empty(),
            decreases n - p,
        {
            let old_i = nodes.get(p);
            proof {
                assert(ns.contains(old_i)) by {
                    assert(ns[p as int] == old_i);
                }
            }
            let val = self.get_node(old_i).data.clone();
            let ghost pre = sub;
            let ni = sub.add_node(val);
            proof {
                assert(vstd::pervasive::cloned::<T>(self.payload(ns[p as int]), val));
                assert(sub.node_seq() == pre.node_seq().push(ni));
                assert forall|k: int| 0 <= k < p + 1 implies #[trigger] sub.node_seq()[k]
                    == k as usize by {
                    if k < p {
                        assert(pre.node_seq()[k] == k as usize);
                    }
                }
                assert forall|k: usize|
                    k < p + 1 implies vstd::pervasive::cloned::<T>(
                    self.payload(ns[k as int]),
                    #[trigger] sub.payload(k),
                ) by {
                    if k < p {
                        assert(sub.payload(k) == pre.payload(k)) by {
                            assert(pre.node_seq().contains(k)) by {
                                assert(pre.node_seq()[k as int] == k);
                            }
                        }
                    }
                }
            }
            p = p + 1;
        }
        let mut p0: usize = 0;
        while p0 < n
            invariant
                sub.wf(),
                sub.directed(),
                p0 <= n,
                sub.fresh_index() == n,
                sub.node_seq().len() == n,
                forall|k: int| 0 <= k < n ==> #[trigger] sub.node_seq()[k] == k as usize,
                forall|k: usize|
                    k < n ==> vstd::pervasive::cloned::<T>(
                        self.payload(ns[k as int]),
                        #[trigger] sub.payload(k),
                    ),
                forall|p: usize, q: usize|
                    p < n && q < n ==> (#[trigger] sub.out_seq(p).contains(q) <==> self.out_seq(
                        ns[p as int],
                    ).contains(ns[q as int]) && p < p0),
            decreases n - p0,
        {
            let old_i = nodes.get(p0);
            proof {
                assert(ns.contains(old_i)) by {
                    assert(ns[p0 as int] == old_i);
                }
            }
            let neigh = self.get_out_adj(old_i).to_vec();
            let mut kk: usize = 0;
            while kk < neigh.len()
                invariant
                    kk <= neigh@.len(),
                    neigh@ == self.out_seq(ns[p0 as int]),
                    sub.wf(),
                    sub.directed(),
                    sub.fresh_index() == n,
                    sub.node_seq().len() == n,
                    forall|k: int| 0 <= k < n ==> #[trigger] sub.node_seq()[k] == k as usize,
                    forall|k: usize|
                        k < n ==> vstd::pervasive::cloned::<T>(
                            self.payload(ns[k as int]),
                            #[trigger] sub.payload(k),
                        ),
                    forall|p: usize, q: usize|
                        p < n && q < n ==> (#[trigger] sub.out_seq(p).contains(q) <==> self.out_seq(
                            ns[p as int],
                        ).contains(ns[q as int]) && (p < p0 || (p == p0 && neigh@.take(
                            kk as int,
                        ).contains(ns[q as int])))),
                decreases neigh@.len() - kk,
            {
                let j = neigh[kk];
                proof {
                    assert(neigh@.take(kk + 1) =~= neigh@.take(kk as int).push(j));
                }
                if nodes.contains(j) {
                    let qq = nodes.position_of(j);
                    proof {
                        assert(ns[qq as int] == j);
                        assert(sub.node_seq().contains(p0)) by {
                            assert(sub.node_seq()[p0 as int] == p0);
                        }
                        assert(sub.node_seq().contains(qq)) by {
                            assert(sub.node_seq()[qq as int] == qq);
                        }
                    }
                    let ghost pre = sub;
                    let _ = sub.add_edge(p0, qq);
                    proof {
                        assert(Graph::<T>::add_edge_ok(pre, sub, p0, qq));
                        assert forall|k: int| 0 <= k < n implies #[trigger] sub.node_seq()[k]
                            == k as usize by {
                            assert(pre.node_seq()[k] == k as usize);
                        }
                        assert forall|k: usize|
                            k < n implies vstd::pervasive::cloned::<T>(
                            self.payload(ns[k as int]),
                            #[trigger] sub.payload(k),
                        ) by {
                            assert(pre.node_seq().contains(k)) by {
                                assert(pre.node_seq()[k as int] == k);
                            }
                            assert(sub.payload(k) == pre.payload(k));
                        }
                        assert forall|p: usize, q: usize|
                            p < n && q < n implies (#[trigger] sub.out_seq(p).contains(q)
                            <==> self.out_seq(ns[p as int]).contains(ns[q as int]) && (p < p0 || (p
                            == p0 && neigh@.take(kk + 1).contains(ns[q as int])))) by {
                            assert(self.out_seq(ns[p0 as int]).contains(ns[qq as int]));
                            if ns[q as int] == j {
                                assert(q == qq) by {
                                    if q != qq {
                                        assert(ns[q as int] != ns[qq as int]);
                                    }
                                }
                            }
                            if p == p0 {
                                assert(crate::index_set::seq_with(
                                    sub.out_seq(p0),
                                    pre.out_seq(p0),
                                    qq,
                                ));
                                if q == qq {
                                    assert(neigh@.take(kk + 1).contains(ns[q as int])) by {
                                        assert(neigh@.take(kk + 1).last() == j);
                                    }
                                }
                            } else {
                                assert(sub.out_seq(p) == pre.out_seq(p));
                            }
                        }
                    }
                } else {
                    proof {
                        assert forall|p: usize, q: usize|
                            p < n && q < n implies (#[trigger] sub.out_seq(p).contains(q)
                            <==> self.out_seq(ns[p as int]).contains(ns[q as int]) && (p < p0 || (p
                            == p0 && neigh@.take(kk + 1).contains(ns[q as int])))) by {
                            if ns[q as int] == j {
                                assert(ns.contains(ns[q as int]));
                                assert(false);
                            }
                        }
                    }
                }
                kk = kk + 1;
            }
            proof {
                assert(neigh@.take(neigh@.len() as int) =~= neigh@);
                assert forall|p: usize, q: usize|
                    p < n && q < n implies (#[trigger] sub.out_seq(p).contains(q) <==> self.out_seq(
                    ns[p as int]).contains(ns[q as int]) && p < p0 + 1) by {
                    if p == p0 && self.out_seq(ns[p as int]).contains(ns[q as int]) {
                        assert(neigh@.contains(ns[q as int]));
                    }
                }
            }
            p0 = p0 + 1;
        }
        sub
    }

    /// The transpose: a new graph with every edge direction reversed,
    /// the same node indices, and each payload carried over by `clone`.
    /// Keeping the indices makes transposition involutive.
    #[verifier::loop_isolation(false)]
    pub fn transpose(&self) -> (r: Digraph<T>)
        requires
            self.wf(),
        ensures
            r.wf(),
            r.directed(),
            is_transpose(r, *self),
    {
        proof {
            lemma_vec_len_bound(&self.nodes);
            lemma_live_seq(self.nodes@);
        }
        let mut nodes2: Vec<Option<Node<T>>> = Vec::new();
        let mut in2: Vec<NodeIndexSet> = Vec::new();
        let mut out2: Vec<NodeIndexSet> = Vec::new();
        let mut i: usize = 0;
        while i < self.nodes.len()
            invariant
                i <= self.nodes@.len(),
                nodes2@.len() == i,
                in2@.len() == i,
                out2@.len() == i,
                forall|k: int|
                    0 <= k < i ==> ((#[trigger] nodes2@[k]) is Some <==> self.nodes@[k] is Some),
                forall|k: int|
                    0 <= k < i ==> ((#[trigger] nodes2@[k]) matches Some(m) ==> m.index == k
                        && vstd::pervasive::cloned::<T>(
                        self.nodes@[k].unwrap().data,
                        m.data,
                    )),
                forall|k: int| 0 <= k < i ==> (#[trigger] in2@[k])@ == self.out_adj@[k]@,
                forall|k: int| 0 <= k < i ==> (#[trigger] out2@[k])@ == self.in_adj@[k]@,
            decreases self.nodes@.len() - i,
        {
            match self.nodes[i].as_ref() {
                Some(nd) => {
                    let copied = Node { data: nd.data.clone(), index: nd.index };
                    nodes2.push(Some(copied));
                },
                None => {
                    nodes2.push(None);
                },
            }
            in2.push(self.out_adj[i].duplicate());
            out2.push(self.in_adj[i].duplicate());
            i = i + 1;
        }
        let r = Digraph { nodes: nodes2, in_adj: in2, out_adj: out2, num_nodes: self.num_nodes };
        proof {
            lemma_vec_len_bound(&r.nodes);
            lemma_live_seq(r.nodes@);
            assert(live_seq(r.nodes@) == live_seq(self.nodes@)) by {
                assert forall|x: usize| #[trigger]
                    live_seq(r.nodes@).contains(x) <==> live_seq(self.nodes@).contains(x) by {}
                crate::index_set::lemma_sorted_same_membership(
                    live_seq(r.nodes@),
                    live_seq(self.nodes@),
                );
            }
            assert(r.wf()) by {
                assert forall|l: int, m: usize|
                    0 <= l < r.out_adj@.len() && (#[trigger] r.out_adj@[l]@.contains(m)) implies m
                    < r.nodes@.len() && r.nodes@[m as int] is Some && r.in_adj@[m as int]@.contains(
                    l as usize,
                ) by {
                    assert(self.in_adj@[l]@.contains(m));
                    assert(self.out_adj@[m as int]@.contains(l as usize));
                }
                assert forall|l: int, m: usize|
                    0 <= l < r.in_adj@.len() && (#[trigger] r.in_adj@[l]@.contains(m)) implies m
                    < r.nodes@.len() && r.nodes@[m as int] is Some && r.out_adj@[m as int]@.contains(
                    l as usize,
                ) by {
                    assert(self.out_adj@[l]@.contains(m));
                    assert(self.in_adj@[m as int]@.contains(l as usize));
                }
            }
            assert(is_transpose(r, *self)) by {
                assert forall|k: usize| #[trigger] r.out_seq(k) == self.in_seq(k) by {}
                assert forall|k: usize| #[trigger] r.in_seq(k) == self.out_seq(k) by {}
                assert forall|k: usize|
                    self.node_seq().contains(k) implies vstd::pervasive::cloned::<T>(
                    self.payload(k),
                    #[trigger] r.payload(k),
                ) by {}
            }
        }
        r
    }
}

} // verus!
