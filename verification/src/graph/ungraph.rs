//! Undirected graph: a node arena plus one symmetric adjacency relation.

use vstd::prelude::*;
use vstd::pervasive::VecAdditionalExecFns;

use crate::graph::{lemma_live_seq, lemma_vec_len_bound, live_seq, Graph, GraphError, GraphResult, Node, NodeIndex};
use crate::index_set::{seq_without, strictly_sorted, NodeIndexSet};

verus! {

/// Undirected graph. Allows loops.
///
/// Slot `i` of the arena holds node `i` until it is removed; a removed
/// slot stays empty, so indices are never reused. The adjacency sets are
/// kept symmetric: `j` is a neighbor of `i` exactly when `i` is a
/// neighbor of `j`.
pub struct Ungraph<T> {
    nodes: Vec<Option<Node<T>>>,
    adj: Vec<NodeIndexSet>,
    num_nodes: usize,
}

impl<T> Graph<T> for Ungraph<T> {
    closed spec fn wf(&self) -> bool {
        &&& self.adj@.len() == self.nodes@.len()
        &&& self.num_nodes == live_seq(self.nodes@).len()
        &&& forall|i: int|
            0 <= i < self.nodes@.len() ==> ((#[trigger] self.nodes@[i]) matches Some(n) ==> n.index
                == i)
        &&& forall|i: int| 0 <= i < self.adj@.len() ==> (#[trigger] self.adj@[i]).wf()
        &&& forall|i: int|
            0 <= i < self.nodes@.len() && self.nodes@[i] is None ==> (#[trigger] self.adj@[i])@
                == Seq::<usize>::empty()
        &&& forall|i: int, j: usize|
            0 <= i < self.adj@.len() && (#[trigger] self.adj@[i]@.contains(j)) ==> j
                < self.nodes@.len() && self.nodes@[j as int] is Some
        &&& forall|i: int, j: usize|
            0 <= i < self.adj@.len() && (#[trigger] self.adj@[i]@.contains(j))
                ==> self.adj@[j as int]@.contains(i as usize)
    }

    closed spec fn node_seq(&self) -> Seq<usize> {
        live_seq(self.nodes@)
    }

    closed spec fn out_seq(&self, i: usize) -> Seq<usize> {
        if i < self.adj@.len() {
            self.adj@[i as int]@
        } else {
            Seq::empty()
        }
    }

    closed spec fn in_seq(&self, i: usize) -> Seq<usize> {
        if i < self.adj@.len() {
            self.adj@[i as int]@
        } else {
            Seq::empty()
        }
    }

    closed spec fn payload(&self, i: usize) -> T {
        self.nodes@[i as int].unwrap().data
    }

    closed spec fn fresh_index(&self) -> usize {
        self.nodes@.len() as usize
    }

    closed spec fn directed(&self) -> bool {
        false
    }

    proof fn lemma_wf(&self) {
        lemma_vec_len_bound(&self.nodes);
            lemma_live_seq(self.nodes@);
        assert forall|i: usize| strictly_sorted(#[trigger] self.out_seq(i)) by {
            if i < self.adj@.len() {
                assert(self.adj@[i as int].wf());
            }
        }
        assert forall|i: usize| strictly_sorted(#[trigger] self.in_seq(i)) by {
            if i < self.adj@.len() {
                assert(self.adj@[i as int].wf());
            }
        }
        assert forall|i: usize| !self.node_seq().contains(i) implies #[trigger] self.out_seq(i)
            == Seq::<usize>::empty() by {
            if i < self.adj@.len() {
                assert(self.nodes@[i as int] is None);
            }
        }
        assert forall|i: usize| !self.node_seq().contains(i) implies #[trigger] self.in_seq(i)
            == Seq::<usize>::empty() by {
            if i < self.adj@.len() {
                assert(self.nodes@[i as int] is None);
            }
        }
        assert forall|i: usize, j: usize| #[trigger]
            self.out_seq(i).contains(j) implies self.node_seq().contains(i)
            && self.node_seq().contains(j) by {
            assert(i < self.adj@.len());
            assert(self.adj@[i as int]@.contains(j));
            if self.nodes@[i as int] is None {
                assert(self.adj@[i as int]@ == Seq::<usize>::empty());
                assert(false);
            }
        }
        assert forall|i: usize, j: usize|
            #![trigger self.out_seq(i).contains(j)]
            #![trigger self.in_seq(j).contains(i)]
            self.out_seq(i).contains(j) <==> self.in_seq(j).contains(i) by {
            if self.out_seq(i).contains(j) {
                assert(self.adj@[i as int]@.contains(j));
                assert(self.adj@[j as int]@.contains(i));
                assert(j < self.nodes@.len());
            }
            if self.in_seq(j).contains(i) {
                assert(self.adj@[j as int]@.contains(i));
                assert(self.adj@[i as int]@.contains(j));
                assert(i < self.nodes@.len());
            }
        }
    }

    fn add_node(&mut self, val: T) -> NodeIndex {
        let ind = self.nodes.len();
        proof {
            lemma_vec_len_bound(&self.nodes);
            lemma_live_seq(self.nodes@);
        }
        self.nodes.push(Some(Node { data: val, index: ind }));
        self.adj.push(NodeIndexSet::new());
        proof {
            lemma_vec_len_bound(&self.nodes);
            lemma_live_seq(self.nodes@);
            assert(self.nodes@.drop_last() =~= old(self).nodes@);
            assert(live_seq(self.nodes@) =~= live_seq(old(self).nodes@).push(ind)) by {
                assert(self.nodes@.last() is Some);
                assert(live_seq(self.nodes@) == live_seq(self.nodes@.drop_last()) + seq![ind]);
            }
            assert(self.num_nodes < usize::MAX) by {
                assert(live_seq(old(self).nodes@).len() <= old(self).nodes@.len());
                assert(self.nodes@.len() <= usize::MAX);
            }
        }
        self.num_nodes = self.num_nodes + 1;
        proof {
            assert forall|k: usize| #[trigger] self.out_seq(k) == old(self).out_seq(k) by {
                if k < old(self).adj@.len() {
                    assert(self.adj@[k as int] == old(self).adj@[k as int]);
                } else if k == ind {
                    assert(self.adj@[k as int]@ == Seq::<usize>::empty());
                }
            }
            assert(self.wf()) by {
                assert forall|i: int|
                    0 <= i < self.nodes@.len() implies ((#[trigger] self.nodes@[i]) matches Some(n)
                    ==> n.index == i) by {
                    if i < old(self).nodes@.len() {
                        assert(self.nodes@[i] == old(self).nodes@[i]);
                    }
                }
                assert forall|i: int, j: usize|
                    0 <= i < self.adj@.len() && (#[trigger] self.adj@[i]@.contains(j)) implies j
                    < self.nodes@.len() && self.nodes@[j as int] is Some
                    && self.adj@[j as int]@.contains(i as usize) by {
                    if i < old(self).adj@.len() {
                        assert(self.adj@[i] == old(self).adj@[i]);
                        assert(old(self).adj@[i]@.contains(j));
                        assert(self.adj@[j as int] == old(self).adj@[j as int]);
                    } else {
                        assert(self.adj@[i]@ == Seq::<usize>::empty());
                    }
                }
            }
        }
        ind
    }

    fn add_edge(&mut self, i: NodeIndex, j: NodeIndex) -> GraphResult<bool> {
        if !self.has_node(i) {
            return Err(GraphError::invalid_index(i));
        }
        if !self.has_node(j) {
            return Err(GraphError::invalid_index(j));
        }
        proof {
            lemma_vec_len_bound(&self.nodes);
            lemma_live_seq(self.nodes@);
        }
        if self.adj[i].contains(j) {
            return Ok(false);
        }
        let mut si = self.adj[i].duplicate();
        si.insert(j);
        self.adj.set(i, si);
        let mut sj = self.adj[j].duplicate();
        sj.insert(i);
        self.adj.set(j, sj);
        proof {
            self.lemma_add_edge_restores(*old(self), i, j);
        }
        Ok(true)
    }

    #[verifier::loop_isolation(false)]
    fn remove_node(&mut self, i: NodeIndex) -> GraphResult<()> {
        if !self.has_node(i) {
            return Err(GraphError::invalid_index(i));
        }
        proof {
            lemma_vec_len_bound(&self.nodes);
            lemma_live_seq(self.nodes@);
        }
        let neigh = self.adj[i].duplicate();
        let ghost n = neigh@;
        let mut k: usize = 0;
        while k < neigh.len()
            invariant
                old(self).wf(),
                old(self).node_seq().contains(i),
                n == old(self).adj@[i as int]@,
                k <= n.len(),
                self.nodes@ == old(self).nodes@,
                self.num_nodes == old(self).num_nodes,
                self.adj@.len() == old(self).adj@.len(),
                forall|l: int|
                    0 <= l < self.adj@.len() && !n.take(k as int).contains(l as usize)
                        ==> #[trigger] self.adj@[l] == old(self).adj@[l],
                forall|l: int|
                    0 <= l < self.adj@.len() && n.take(k as int).contains(l as usize)
                        ==> seq_without((#[trigger] self.adj@[l])@, old(self).adj@[l]@, i),
            decreases n.len() - k,
        {
            let j = neigh.get(k);
            proof {
                assert(n[k as int] == j);
                assert(n.contains(j));
                assert(old(self).adj@[i as int]@.contains(j));
                assert(j < old(self).nodes@.len());
                // j has not been touched yet: n is sorted, so j appears once
                crate::index_set::lemma_sorted_no_duplicates(n);
                assert(!n.take(k as int).contains(j)) by {
                    if n.take(k as int).contains(j) {
                        let w = choose|w: int| 0 <= w < k && n.take(k as int)[w] == j;
                        assert(n[w] == j);
                        assert(n[k as int] == j);
                    }
                }
            }
            let mut sj = self.adj[j].duplicate();
            sj.remove(i);
            self.adj.set(j, sj);
            proof {
                assert forall|l: int|
                    0 <= l < self.adj@.len() && n.take(k + 1).contains(l as usize)
                        implies seq_without((#[trigger] self.adj@[l])@, old(self).adj@[l]@, i) by {
                    assert(n.take(k + 1) =~= n.take(k as int).push(j));
                    if l == j {
                    } else {
                        assert(n.take(k as int).contains(l as usize)) by {
                            let w = choose|w: int|
                                0 <= w < n.take(k + 1).len() && #[trigger] n.take(k + 1)[w]
                                    == l as usize;
                            assert(w < k);
                            assert(n.take(k as int)[w] == l as usize);
                        }
                    }
                }
                assert forall|l: int|
                    0 <= l < self.adj@.len() && !n.take(k + 1).contains(l as usize)
                        implies #[trigger] self.adj@[l] == old(self).adj@[l] by {
                    assert(n.take(k + 1) =~= n.take(k as int).push(j));
                    assert(!n.take(k as int).contains(l as usize));
                    assert(l != j) by {
                        assert(n.take(k + 1)[k as int] == j);
                    }
                }
            }
            k = k + 1;
        }
        proof {
            assert(n.take(n.len() as int) =~= n);
        }
        self.adj.set(i, NodeIndexSet::new());
        self.nodes.set(i, None);
        proof {
            lemma_vec_len_bound(&self.nodes);
            lemma_live_seq(self.nodes@);
            assert(seq_without(live_seq(self.nodes@), live_seq(old(self).nodes@), i)) by {
                assert forall|x: usize| #[trigger]
                    live_seq(self.nodes@).contains(x) <==> live_seq(old(self).nodes@).contains(x)
                        && x != i by {
                    if x < self.nodes@.len() && x != i {
                        assert(self.nodes@[x as int] == old(self).nodes@[x as int]);
                    }
                }
            }
            crate::index_set::lemma_sorted_minus_len(
                live_seq(self.nodes@),
                live_seq(old(self).nodes@),
                i,
            );
        }
        self.num_nodes = self.num_nodes - 1;
        proof {
            self.lemma_remove_node_restores(*old(self), i, n);
        }
        Ok(())
    }

    fn remove_edge(&mut self, i: NodeIndex, j: NodeIndex) -> GraphResult<bool> {
        if !self.has_node(i) {
            return Err(GraphError::invalid_index(i));
        }
        if !self.has_node(j) {
            return Err(GraphError::invalid_index(j));
        }
        proof {
            lemma_vec_len_bound(&self.nodes);
            lemma_live_seq(self.nodes@);
        }
        let mut si = self.adj[i].duplicate();
        let existed = si.remove(j);
        self.adj.set(i, si);
        let mut sj = self.adj[j].duplicate();
        sj.remove(i);
        self.adj.set(j, sj);
        proof {
            self.lemma_remove_edge_restores(*old(self), i, j);
        }
        Ok(existed)
    }

    fn adj(&self, i: NodeIndex) -> GraphResult<Vec<NodeIndex>> {
        if !self.has_node(i) {
            return Err(GraphError::invalid_index(i));
        }
        proof {
            lemma_vec_len_bound(&self.nodes);
            lemma_live_seq(self.nodes@);
        }
        Ok(self.adj[i].to_vec())
    }

    fn num_nodes(&self) -> usize {
        self.num_nodes
    }

    #[verifier::loop_isolation(false)]
    fn node_indices(&self) -> Vec<NodeIndex> {
        let mut out: Vec<usize> = Vec::new();
        let mut i: usize = 0;
        while i < self.nodes.len()
            invariant
                i <= self.nodes@.len(),
                out@ == live_seq(self.nodes@.take(i as int)),
            decreases self.nodes@.len() - i,
        {
            proof {
                assert(self.nodes@.take(i + 1).drop_last() =~= self.nodes@.take(i as int));
                assert(self.nodes@.take(i + 1).last() == self.nodes@[i as int]);
            }
            if self.nodes[i].is_some() {
                out.push(i);
                proof {
                    assert(live_seq(self.nodes@.take(i + 1)) =~= live_seq(
                        self.nodes@.take(i as int),
                    ).push(i));
                }
            } else {
                proof {
                    assert(live_seq(self.nodes@.take(i + 1)) =~= live_seq(
                        self.nodes@.take(i as int),
                    ));
                }
            }
            i = i + 1;
        }
        proof {
            assert(self.nodes@.take(self.nodes@.len() as int) =~= self.nodes@);
        }
        out
    }
}

impl<T> Ungraph<T> {
    /// An empty undirected graph.
    pub fn new() -> (r: Ungraph<T>)
        ensures
            r.wf(),
            r.node_seq() == Seq::<usize>::empty(),
            r.fresh_index() == 0,
            !r.directed(),
    {
        Ungraph { nodes: Vec::new(), adj: Vec::new(), num_nodes: 0 }
    }

    /// True when `i` names a live node.
    fn has_node(&self, i: NodeIndex) -> (r: bool)
        requires
            self.wf(),
        ensures
            r == self.node_seq().contains(i),
    {
        proof {
            lemma_vec_len_bound(&self.nodes);
            lemma_live_seq(self.nodes@);
        }
        i < self.nodes.len() && self.nodes[i].is_some()
    }

    /// The number of neighbors of `ind`, failing when `ind` is not live.
    pub fn degree(&self, ind: NodeIndex) -> (r: GraphResult<usize>)
        requires
            self.wf(),
        ensures
            self.node_seq().contains(ind) ==> r == Ok::<usize, GraphError>(
                self.out_seq(ind).len() as usize,
            ),
            !self.node_seq().contains(ind) ==> r == Err::<usize, GraphError>(
                GraphError::invalid_index(ind),
            ),
    {
        if !self.has_node(ind) {
            Err(GraphError::invalid_index(ind))
        } else {
            proof {
                lemma_vec_len_bound(&self.nodes);
                lemma_live_seq(self.nodes@);
            }
            Ok(self.adj[ind].len())
        }
    }

    /// The node stored under index `i`.
    pub fn get_node(&self, i: NodeIndex) -> (r: &Node<T>)
        requires
            self.wf(),
            self.node_seq().contains(i),
        ensures
            r.index == i,
            r.data == self.payload(i),
    {
        proof {
            lemma_vec_len_bound(&self.nodes);
            lemma_live_seq(self.nodes@);
        }
        self.nodes[i].as_ref().unwrap()
    }

    /// The set of neighbors of `i`.
    pub fn get_adj(&self, i: NodeIndex) -> (r: &NodeIndexSet)
        requires
            self.wf(),
            self.node_seq().contains(i),
        ensures
            r@ == self.out_seq(i),
            r.wf(),
    {
        proof {
            lemma_vec_len_bound(&self.nodes);
            lemma_live_seq(self.nodes@);
        }
        &self.adj[i]
    }

    /// True when nodes `i` and `j` are adjacent.
    pub fn are_adj(&self, i: NodeIndex, j: NodeIndex) -> (r: bool)
        requires
            self.wf(),
            self.node_seq().contains(i),
        ensures
            r == self.out_seq(i).contains(j),
    {
        self.get_adj(i).contains(j)
    }

    /// Adjacency of an undirected graph is symmetric: `are_adj(i, j)` and
    /// `are_adj(j, i)` always agree.
    pub proof fn lemma_are_adj_symmetric(&self, i: NodeIndex, j: NodeIndex)
        requires
            self.wf(),
        ensures
            self.out_seq(i).contains(j) <==> self.out_seq(j).contains(i),
    {
        self.lemma_wf();
        assert(self.in_seq(j) == self.out_seq(j));
        assert(self.in_seq(i) == self.out_seq(i));
    }

    /// Everything `add_edge` must re-establish after inserting `j` into
    /// the set of `i` and `i` into the set of `j`.
    proof fn lemma_add_edge_restores(&self, pre: Ungraph<T>, i: NodeIndex, j: NodeIndex)
        requires
            pre.wf(),
            pre.node_seq().contains(i),
            pre.node_seq().contains(j),
            self.nodes@ == pre.nodes@,
            self.num_nodes == pre.num_nodes,
            self.adj@.len() == pre.adj@.len(),
            crate::index_set::seq_with(self.adj@[i as int]@, pre.adj@[i as int]@, j),
            crate::index_set::seq_with(self.adj@[j as int]@, pre.adj@[j as int]@, i),
            forall|l: int|
                0 <= l < self.adj@.len() && l != i && l != j ==> #[trigger] self.adj@[l]
                    == pre.adj@[l],
        ensures
            self.wf(),
            Graph::<T>::add_edge_ok(pre, *self, i, j),
    {
        lemma_vec_len_bound(&pre.nodes);
        lemma_live_seq(pre.nodes@);
        assert(i < pre.nodes@.len() && j < pre.nodes@.len());
        assert(self.wf()) by {
            assert forall|l: int|
                0 <= l < self.nodes@.len() && self.nodes@[l] is None implies (
            #[trigger] self.adj@[l])@ == Seq::<usize>::empty() by {
                assert(l != i && l != j);
            }
            assert forall|l: int, m: usize|
                0 <= l < self.adj@.len() && (#[trigger] self.adj@[l]@.contains(m)) implies m
                < self.nodes@.len() && self.nodes@[m as int] is Some
                && self.adj@[m as int]@.contains(l as usize) by {
                if l == i && m == j {
                } else if l == j && m == i {
                } else if l == i {
                    assert(pre.adj@[l]@.contains(m));
                    assert(pre.adj@[m as int]@.contains(l as usize));
                } else if l == j {
                    assert(pre.adj@[l]@.contains(m));
                    assert(pre.adj@[m as int]@.contains(l as usize));
                } else {
                    assert(pre.adj@[l]@.contains(m));
                    assert(pre.adj@[m as int]@.contains(l as usize));
                }
            }
        }
    }

    /// Everything `remove_edge` must re-establish after removing `j` from
    /// the set of `i` and `i` from the set of `j`.
    proof fn lemma_remove_edge_restores(&self, pre: Ungraph<T>, i: NodeIndex, j: NodeIndex)
        requires
            pre.wf(),
            pre.node_seq().contains(i),
            pre.node_seq().contains(j),
            self.nodes@ == pre.nodes@,
            self.num_nodes == pre.num_nodes,
            self.adj@.len() == pre.adj@.len(),
            seq_without(self.adj@[i as int]@, pre.adj@[i as int]@, j),
            seq_without(self.adj@[j as int]@, pre.adj@[j as int]@, i),
            forall|l: int|
                0 <= l < self.adj@.len() && l != i && l != j ==> #[trigger] self.adj@[l]
                    == pre.adj@[l],
        ensures
            self.wf(),
            Graph::<T>::remove_edge_ok(pre, *self, i, j),
    {
        lemma_vec_len_bound(&pre.nodes);
        lemma_live_seq(pre.nodes@);
        assert(i < pre.nodes@.len() && j < pre.nodes@.len());
        assert(self.wf()) by {
            assert forall|l: int|
                0 <= l < self.nodes@.len() && self.nodes@[l] is None implies (
            #[trigger] self.adj@[l])@ == Seq::<usize>::empty() by {
                assert(l != i && l != j);
            }
            assert forall|l: int, m: usize|
                0 <= l < self.adj@.len() && (#[trigger] self.adj@[l]@.contains(m)) implies m
                < self.nodes@.len() && self.nodes@[m as int] is Some
                && self.adj@[m as int]@.contains(l as usize) by {
                if l == i {
                    assert(pre.adj@[l]@.contains(m));
                    assert(pre.adj@[m as int]@.contains(l as usize));
                    assert(m != j);
                } else if l == j {
                    assert(pre.adj@[l]@.contains(m));
                    assert(pre.adj@[m as int]@.contains(l as usize));
                    assert(m != i);
                } else {
                    assert(pre.adj@[l]@.contains(m));
                    assert(pre.adj@[m as int]@.contains(l as usize));
                    if m == i {
                        assert(l as usize != j);
                    } else if m == j {
                        assert(l as usize != i);
                    }
                }
            }
        }
    }

    /// Everything `remove_node` must re-establish after clearing slot `i`
    /// and taking `i` out of the sets of its neighbors `n`.
    proof fn lemma_remove_node_restores(&self, pre: Ungraph<T>, i: NodeIndex, n: Seq<usize>)
        requires
            pre.wf(),
            pre.node_seq().contains(i),
            n == pre.adj@[i as int]@,
            self.nodes@ == pre.nodes@.update(i as int, None),
            self.num_nodes == live_seq(self.nodes@).len(),
            self.adj@.len() == pre.adj@.len(),
            self.adj@[i as int]@ == Seq::<usize>::empty(),
            forall|l: int|
                0 <= l < self.adj@.len() && l != i && !n.contains(l as usize)
                    ==> #[trigger] self.adj@[l] == pre.adj@[l],
            forall|l: int|
                0 <= l < self.adj@.len() && l != i && n.contains(l as usize) ==> seq_without(
                    (#[trigger] self.adj@[l])@,
                    pre.adj@[l]@,
                    i,
                ),
        ensures
            self.wf(),
            Graph::<T>::remove_node_ok(pre, *self, i),
    {
        lemma_vec_len_bound(&pre.nodes);
        lemma_live_seq(pre.nodes@);
        lemma_vec_len_bound(&self.nodes);
            lemma_live_seq(self.nodes@);
        assert(i < pre.nodes@.len());
        // a set other than the neighbors of i never held i
        assert forall|l: int|
            0 <= l < self.adj@.len() && l != i implies seq_without(
            (#[trigger] self.adj@[l])@,
            pre.adj@[l]@,
            i,
        ) by {
            if !n.contains(l as usize) {
                assert(!pre.adj@[l]@.contains(i)) by {
                    if pre.adj@[l]@.contains(i) {
                        assert(pre.adj@[i as int]@.contains(l as usize));
                    }
                }
                assert(pre.adj@[l].wf());
            }
        }
        assert(self.wf()) by {
            assert forall|l: int| 0 <= l < self.adj@.len() implies (#[trigger] self.adj@[l]).wf() by {
                if l != i && n.contains(l as usize) {
                    assert(seq_without(self.adj@[l]@, pre.adj@[l]@, i));
                }
            }
            assert forall|l: int|
                0 <= l < self.nodes@.len() && self.nodes@[l] is None implies (
            #[trigger] self.adj@[l])@ == Seq::<usize>::empty() by {
                if l != i {
                    assert(pre.nodes@[l] is None);
                    assert(pre.adj@[l]@ == Seq::<usize>::empty());
                    if n.contains(l as usize) {
                        assert(pre.adj@[i as int]@.contains(l as usize));
                        assert(pre.nodes@[l] is Some);
                    }
                }
            }
            assert forall|l: int, m: usize|
                0 <= l < self.adj@.len() && (#[trigger] self.adj@[l]@.contains(m)) implies m
                < self.nodes@.len() && self.nodes@[m as int] is Some
                && self.adj@[m as int]@.contains(l as usize) by {
                assert(l != i);
                assert(pre.adj@[l]@.contains(m));
                assert(m != i);
                assert(pre.nodes@[m as int] is Some);
                assert(pre.adj@[m as int]@.contains(l as usize));
            }
        }
        assert(Graph::<T>::remove_node_ok(pre, *self, i)) by {
            assert(seq_without(self.node_seq(), pre.node_seq(), i)) by {
                assert forall|x: usize| #[trigger]
                    self.node_seq().contains(x) <==> pre.node_seq().contains(x) && x != i by {
                    if x < self.nodes@.len() && x != i {
                        assert(self.nodes@[x as int] == pre.nodes@[x as int]);
                    }
                }
            }
            assert forall|k: usize| k != i implies seq_without(
                #[trigger] self.out_seq(k),
                pre.out_seq(k),
                i,
            ) by {
                if k < self.adj@.len() {
                } else {
                    assert(self.out_seq(k) == Seq::<usize>::empty());
                    assert(pre.out_seq(k) == Seq::<usize>::empty());
                }
            }
            assert forall|k: usize|
                self.node_seq().contains(k) implies #[trigger] self.payload(k) == pre.payload(
                k,
            ) by {
                assert(self.nodes@[k as int] == pre.nodes@[k as int]);
            }
        }
    }
}


impl<T: Clone> Ungraph<T> {
    /// The subgraph induced by a set of node indices: a new graph with
    /// one node per member of `nodes` (in increasing order of old index,
    /// with fresh dense indices) and exactly the edges of this graph
    /// whose both endpoints lie in `nodes`.
    #[verifier::loop_isolation(false)]
    #[verifier::rlimit(100)]
    pub fn induced_subgraph(&self, nodes: &NodeIndexSet) -> (r: Ungraph<T>)
        requires
            self.wf(),
            nodes.wf(),
            forall|x: usize| nodes@.contains(x) ==> self.node_seq().contains(x),
        ensures
            r.wf(),
            !r.directed(),
            r.fresh_index() == nodes@.len(),
            r.node_seq().len() == nodes@.len(),
            forall|k: int| 0 <= k < nodes@.len() ==> #[trigger] r.node_seq()[k] == k as usize,
            forall|k: usize|
                k < nodes@.len() ==> vstd::pervasive::cloned::<T>(
                    self.payload(nodes@[k as int]),
                    #[trigger] r.payload(k),
                ),
            forall|p: usize, q: usize|
                p < nodes@.len() && q < nodes@.len() ==> (#[trigger] r.out_seq(p).contains(q)
                    <==> self.out_seq(nodes@[p as int]).contains(nodes@[q as int])),
    {
        proof {
            self.lemma_wf();
            crate::index_set::lemma_sorted_no_duplicates(nodes@);
        }
        let ghost ns = nodes@;
        let n = nodes.len();
        let mut sub: Ungraph<T> = Ungraph::new();
        proof {
            sub.lemma_wf();
            assert forall|k: usize| #[trigger] sub.out_seq(k) == Seq::<usize>::empty() by {
                if sub.node_seq().contains(k) {
                    assert(false);
                }
            }
        }
        let mut p: usize = 0;
        while p < n
            invariant
                sub.wf(),
                !sub.directed(),
                p <= n,
                sub.fresh_index() == p,
                sub.node_seq().len() == p,
                forall|k: int| 0 <= k < p ==> #[trigger] sub.node_seq()[k] == k as usize,
                forall|k: usize|
                    k < p ==> vstd::pervasive::cloned::<T>(
                        self.payload(ns[k as int]),
                        #[trigger] sub.payload(k),
                    ),
                forall|k: usize| #[trigger] sub.out_seq(k) == Seq::<usize>::empty(),
            decreases n - p,
        {
            let old_i = nodes.get(p);
            proof {
                assert(ns.contains(old_i)) by {
                    assert(ns[p as int] == old_i);
                }
            }
            let val = self.get_node(old_i).data.clone();
            let ghost pre = sub;
            let ni = sub.add_node(val);
            proof {
                assert(vstd::pervasive::cloned::<T>(self.payload(ns[p as int]), val));
                assert(sub.node_seq() == pre.node_seq().push(ni));
                assert forall|k: int| 0 <= k < p + 1 implies #[trigger] sub.node_seq()[k]
                    == k as usize by {
                    if k < p {
                        assert(pre.node_seq()[k] == k as usize);
                    }
                }
                assert forall|k: usize|
                    k < p + 1 implies vstd::pervasive::cloned::<T>(
                    self.payload(ns[k as int]),
                    #[trigger] sub.payload(k),
                ) by {
                    if k < p {
                        assert(sub.payload(k) == pre.payload(k)) by {
                            assert(pre.node_seq().contains(k)) by {
                                assert(pre.node_seq()[k as int] == k);
                            }
                        }
                    }
                }
            }
            p = p + 1;
        }
        proof {
            assert forall|q: usize| q < n implies sub.node_seq().contains(q) by {
                assert(sub.node_seq()[q as int] == q);
            }
        }
        let mut p0: usize = 0;
        while p0 < n
            invariant
                sub.wf(),
                !sub.directed(),
                p0 <= n,
                sub.fresh_index() == n,
                sub.node_seq().len() == n,
                forall|k: int| 0 <= k < n ==> #[trigger] sub.node_seq()[k] == k as usize,
                forall|k: usize|
                    k < n ==> vstd::pervasive::cloned::<T>(
                        self.payload(ns[k as int]),
                        #[trigger] sub.payload(k),
                    ),
                forall|p: usize, q: usize|
                    p < n && q < n ==> (#[trigger] sub.out_seq(p).contains(q) <==> self.out_seq(
                        ns[p as int],
                    ).contains(ns[q as int]) && (p < p0 || q < p0)),
            decreases n - p0,
        {
            let old_i = nodes.get(p0);
            proof {
                assert(ns.contains(old_i)) by {
                    assert(ns[p0 as int] == old_i);
                }
            }
            let neigh = self.get_adj(old_i).to_vec();
            let mut kk: usize = 0;
            while kk < neigh.len()
                invariant
                    kk <= neigh@.len(),
                    neigh@ == self.out_seq(ns[p0 as int]),
                    sub.wf(),
                    !sub.directed(),
                    sub.fresh_index() == n,
                    sub.node_seq().len() == n,
                    forall|k: int| 0 <= k < n ==> #[trigger] sub.node_seq()[k] == k as usize,
                    forall|k: usize|
                        k < n ==> vstd::pervasive::cloned::<T>(
                            self.payload(ns[k as int]),
                            #[trigger] sub.payload(k),
                        ),
                    forall|p: usize, q: usize|
                        p < n && q < n ==> (#[trigger] sub.out_seq(p).contains(q) <==> self.out_seq(
                            ns[p as int],
                        ).contains(ns[q as int]) && (p < p0 || q < p0 || (p == p0 && neigh@.take(
                            kk as int,
                        ).contains(ns[q as int])) || (q == p0 && neigh@.take(kk as int).contains(
                            ns[p as int],
                        )))),
                decreases neigh@.len() - kk,
            {
                let j = neigh[kk];
                proof {
                    assert(neigh@.take(kk + 1) =~= neigh@.take(kk as int).push(j));
                }
                if nodes.contains(j) {
                    let qq = nodes.position_of(j);
                    proof {
                        assert(ns[qq as int] == j);
                        assert(sub.node_seq().contains(p0)) by {
                            assert(sub.node_seq()[p0 as int] == p0);
                        }
                        assert(sub.node_seq().contains(qq)) by {
                            assert(sub.node_seq()[qq as int] == qq);
                        }
                    }
                    let ghost pre = sub;
                    let _ = sub.add_edge(p0, qq);
                    proof {
                        assert(Graph::<T>::add_edge_ok(pre, sub, p0, qq));
                        assert forall|k: int| 0 <= k < n implies #[trigger] sub.node_seq()[k]
                            == k as usize by {
                            assert(pre.node_seq()[k] == k as usize);
                        }
                        assert forall|k: usize|
                            k < n implies vstd::pervasive::cloned::<T>(
                            self.payload(ns[k as int]),
                            #[trigger] sub.payload(k),
                        ) by {
                            assert(pre.node_seq().contains(k)) by {
                                assert(pre.node_seq()[k as int] == k);
                            }
                            assert(sub.payload(k) == pre.payload(k));
                        }
                        assert forall|p: usize, q: usize|
                            p < n && q < n implies (#[trigger] sub.out_seq(p).contains(q)
                            <==> self.out_seq(ns[p as int]).contains(ns[q as int]) && (p < p0 || q
                            < p0 || (p == p0 && neigh@.take(kk + 1).contains(ns[q as int])) || (q
                            == p0 && neigh@.take(kk + 1).contains(ns[p as int])))) by {
                            assert(self.out_seq(ns[p0 as int]).contains(ns[qq as int]));
                            assert(self.out_seq(ns[qq as int]).contains(ns[p0 as int])) by {
                                self.lemma_wf();
                            }
                            // a prefix member naming row q pins q, since the
                            // member list has no repeats
                            if ns[q as int] == j {
                                assert(q == qq) by {
                                    if q != qq {
                                        assert(ns[q as int] != ns[qq as int]);
                                    }
                                }
                            }
                            if ns[p as int] == j {
                                assert(p == qq) by {
                                    if p != qq {
                                        assert(ns[p as int] != ns[qq as int]);
                                    }
                                }
                            }
                            if p == p0 && q == qq {
                                assert(sub.out_seq(p).contains(q)) by {
                                    assert(crate::index_set::seq_with(
                                        sub.out_seq(p0),
                                        pre.out_seq(p0),
                                        qq,
                                    ));
                                }
                                assert(neigh@.take(kk + 1).contains(ns[q as int])) by {
                                    assert(neigh@.take(kk + 1).last() == j);
                                }
                            } else if p == qq && q == p0 {
                                assert(sub.out_seq(p).contains(q)) by {
                                    if p0 == qq {
                                        assert(crate::index_set::seq_with(
                                            sub.out_seq(p0),
                                            pre.out_seq(p0),
                                            qq,
                                        ));
                                    } else {
                                        assert(crate::index_set::seq_with(
                                            sub.out_seq(qq),
                                            pre.out_seq(qq),
                                            p0,
                                        ));
                                    }
                                }
                                assert(neigh@.take(kk + 1).contains(ns[p as int])) by {
                                    assert(neigh@.take(kk + 1).last() == j);
                                }
                            } else if p == p0 {
                                assert(sub.out_seq(p).contains(q) <==> pre.out_seq(p).contains(
                                    q,
                                )) by {
                                    assert(crate::index_set::seq_with(
                                        sub.out_seq(p0),
                                        pre.out_seq(p0),
                                        qq,
                                    ));
                                }
                            } else if p == qq {
                                assert(sub.out_seq(p).contains(q) <==> pre.out_seq(p).contains(
                                    q,
                                )) by {
                                    if p0 == qq {
                                        assert(crate::index_set::seq_with(
                                            sub.out_seq(p0),
                                            pre.out_seq(p0),
                                            qq,
                                        ));
                                    } else {
                                        assert(crate::index_set::seq_with(
                                            sub.out_seq(qq),
                                            pre.out_seq(qq),
                                            p0,
                                        ));
                                    }
                                }
                            } else {
                                assert(sub.out_seq(p) == pre.out_seq(p));
                            }
                        }
                    }
                } else {
                    proof {
                        assert forall|p: usize, q: usize|
                            p < n && q < n implies (#[trigger] sub.out_seq(p).contains(q)
                            <==> self.out_seq(ns[p as int]).contains(ns[q as int]) && (p < p0 || q
                            < p0 || (p == p0 && neigh@.take(kk + 1).contains(ns[q as int])) || (q
                            == p0 && neigh@.take(kk + 1).contains(ns[p as int])))) by {
                            // j names no member, so the longer prefix adds
                            // nothing that matters
                            if ns[q as int] == j {
                                assert(ns.contains(ns[q as int]));
                                assert(false);
                            }
                            if ns[p as int] == j {
                                assert(ns.contains(ns[p as int]));
                                assert(false);
                            }
                        }
                    }
                }
                kk = kk + 1;
            }
            proof {
                assert(neigh@.take(neigh@.len() as int) =~= neigh@);
                assert forall|p: usize, q: usize|
                    p < n && q < n implies (#[trigger] sub.out_seq(p).contains(q) <==> self.out_seq(
                    ns[p as int]).contains(ns[q as int]) && (p < p0 + 1 || q < p0 + 1)) by {
                    assert(sub.out_seq(p).contains(q) <==> self.out_seq(ns[p as int]).contains(
                        ns[q as int],
                    ) && (p < p0 || q < p0 || (p == p0 && neigh@.contains(ns[q as int])) || (q == p0
                        && neigh@.contains(ns[p as int]))));
                    if p == p0 && self.out_seq(ns[p as int]).contains(ns[q as int]) {
                        assert(neigh@.contains(ns[q as int]));
                    }
                    if q == p0 && self.out_seq(ns[p as int]).contains(ns[q as int]) {
                        assert(neigh@.contains(ns[p as int])) by {
                            self.lemma_wf();
                            assert(self.out_seq(ns[q as int]).contains(ns[p as int]));
                        }
                    }
                }
            }
            p0 = p0 + 1;
        }
        sub
    }
}

} // verus!
