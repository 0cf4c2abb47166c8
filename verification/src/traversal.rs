//! Generic breadth-first and depth-first traversal over the graph
//! capability interface, producing spanning trees and forests.
//!
//! A traversal tree stores graph indices as payloads; its own node
//! indices are assigned in visit order, so the parent of every tree node
//! was visited earlier.

use vstd::prelude::*;

use crate::graph::{Graph, GraphError, GraphResult, NodeIndex};
use crate::index_set::{
    lemma_nodup_cover, lemma_sorted_same_membership, lemma_sorted_subset_len, strictly_sorted,
    NodeIndexSet,
};
use crate::tree::Tree;

verus! {

/// An ordered sequence of trees covering every node of a graph.
pub type Forest<T> = Vec<Tree<T>>;

/// There is an edge from `i` to `j` (for an undirected graph: `i` and
/// `j` are adjacent).
pub open spec fn edge_to<T, G: Graph<T>>(g: &G, i: usize, j: usize) -> bool {
    g.out_seq(i).contains(j)
}

/// Some entry of the stack `st` carries the node `j`.
#[verifier::opaque]
pub open spec fn on_stack(st: Seq<(NodeIndex, Option<NodeIndex>)>, j: usize) -> bool {
    exists|k: int| 0 <= k < st.len() && (#[trigger] st[k]).0 == j
}

/// `p` is a walk in `g`: a nonempty sequence of live nodes, each
/// consecutive pair joined by an edge.
pub open spec fn is_walk<T, G: Graph<T>>(g: &G, p: Seq<usize>) -> bool {
    &&& p.len() >= 1
    &&& forall|k: int| 0 <= k < p.len() ==> g.node_seq().contains(#[trigger] p[k])
    &&& forall|k: int| 0 <= k < p.len() - 1 ==> edge_to(g, #[trigger] p[k], p[k + 1])
}

/// `t` lies in the component of `s`: some walk leads from `s` to `t`.
#[verifier::opaque]
pub open spec fn reaches<T, G: Graph<T>>(g: &G, s: usize, t: usize) -> bool {
    exists|p: Seq<usize>| #[trigger] is_walk(g, p) && p.first() == s && p.last() == t
}

/// The nodes of the component of `s`, in increasing order.
pub open spec fn component_seq<T, G: Graph<T>>(g: &G, s: usize) -> Seq<usize> {
    g.node_seq().filter(|x: usize| reaches(g, s, x))
}

/// Every live node reaches itself.
pub proof fn lemma_reaches_refl<T, G: Graph<T>>(g: &G, s: usize)
    requires
        g.node_seq().contains(s),
    ensures
        reaches(g, s, s),
{
    reveal(reaches);
    let p = seq![s];
    assert(p[0] == s);
    assert(is_walk(g, p));
    assert(p.first() == s && p.last() == s);
}

/// Reachability extends along an edge to a live node.
pub proof fn lemma_reaches_step<T, G: Graph<T>>(g: &G, s: usize, t: usize, u: usize)
    requires
        reaches(g, s, t),
        edge_to(g, t, u),
        g.node_seq().contains(u),
    ensures
        reaches(g, s, u),
{
    reveal(reaches);
    let p = choose|p: Seq<usize>| #[trigger] is_walk(g, p) && p.first() == s && p.last() == t;
    let q = p.push(u);
    assert(is_walk(g, q)) by {
        assert forall|k: int| 0 <= k < q.len() implies g.node_seq().contains(#[trigger] q[k]) by {
            if k < p.len() {
                assert(q[k] == p[k]);
            }
        }
        assert forall|k: int| 0 <= k < q.len() - 1 implies edge_to(g, #[trigger] q[k], q[k + 1]) by {
            if k < p.len() - 1 {
                assert(q[k] == p[k] && q[k + 1] == p[k + 1]);
            } else {
                assert(q[k] == p[p.len() - 1] && q[k + 1] == u);
                assert(p[p.len() - 1] == p.last());
            }
        }
    }
    assert(q.first() == s && q.last() == u);
}

/// The ends of a reachability witness are live.
pub proof fn lemma_reaches_live<T, G: Graph<T>>(g: &G, s: usize, t: usize)
    requires
        reaches(g, s, t),
    ensures
        g.node_seq().contains(s),
        g.node_seq().contains(t),
{
    reveal(reaches);
    let p = choose|p: Seq<usize>| #[trigger] is_walk(g, p) && p.first() == s && p.last() == t;
    assert(p[0] == s && p[p.len() - 1] == t);
}

/// Every node of a walk that starts inside an edge-closed set stays
/// inside it.
proof fn lemma_walk_in_closed<T, G: Graph<T>>(g: &G, p: Seq<usize>, d: Seq<usize>)
    requires
        is_walk(g, p),
        d.contains(p.first()),
        forall|x: usize, y: usize| d.contains(x) && #[trigger] edge_to(g, x, y) ==> d.contains(y),
    ensures
        d.contains(p.last()),
    decreases p.len(),
{
    if p.len() == 1 {
        assert(p.last() == p.first());
    } else {
        let q = p.drop_last();
        assert(is_walk(g, q)) by {
            assert forall|k: int|
                0 <= k < q.len() implies g.node_seq().contains(#[trigger] q[k]) by {
                assert(q[k] == p[k]);
            }
            assert forall|k: int|
                0 <= k < q.len() - 1 implies edge_to(g, #[trigger] q[k], q[k + 1]) by {
                assert(q[k] == p[k] && q[k + 1] == p[k + 1]);
            }
        }
        assert(q.first() == p.first());
        lemma_walk_in_closed(g, q, d);
        assert(q.last() == p[p.len() - 2]);
        assert(edge_to(g, p[p.len() - 2], p[p.len() - 1]));
        assert(d.contains(p.last()));
    }
}

/// A set that holds `s` and is closed under edges holds everything `s`
/// reaches.
pub proof fn lemma_closed_set_reaches<T, G: Graph<T>>(g: &G, s: usize, d: Seq<usize>, t: usize)
    requires
        d.contains(s),
        forall|x: usize, y: usize| d.contains(x) && #[trigger] edge_to(g, x, y) ==> d.contains(y),
        reaches(g, s, t),
    ensures
        d.contains(t),
{
    reveal(reaches);
    let p = choose|p: Seq<usize>| #[trigger] is_walk(g, p) && p.first() == s && p.last() == t;
    lemma_walk_in_closed(g, p, d);
}

/// Filtering a sorted sequence keeps it sorted and keeps exactly the
/// members satisfying the predicate.
pub proof fn lemma_filter_sorted(s: Seq<usize>, pred: spec_fn(usize) -> bool)
    requires
        strictly_sorted(s),
    ensures
        strictly_sorted(s.filter(pred)),
        forall|y: usize| #[trigger] s.filter(pred).contains(y) <==> s.contains(y) && pred(y),
    decreases s.len(),
{
    reveal(Seq::filter);
    if s.len() > 0 {
        crate::index_set::lemma_sorted_drop_last(s);
        lemma_filter_sorted(s.drop_last(), pred);
        let f = s.filter(pred);
        let fp = s.drop_last().filter(pred);
        if pred(s.last()) {
            assert(f == fp.push(s.last()));
            assert forall|y: usize| #[trigger] f.contains(y) implies s.contains(y) && pred(y) by {
                let w = choose|w: int| 0 <= w < f.len() && f[w] == y;
                if w < fp.len() {
                    assert(fp.contains(y));
                } else {
                    assert(y == s.last());
                    assert(s.contains(s.last()));
                }
            }
            assert forall|y: usize| s.contains(y) && pred(y) implies #[trigger] f.contains(y) by {
                if y == s.last() {
                    assert(f[fp.len() as int] == y);
                } else {
                    assert(s.drop_last().contains(y));
                    assert(fp.contains(y));
                    let w = choose|w: int| 0 <= w < fp.len() && fp[w] == y;
                    assert(f[w] == y);
                }
            }
            assert forall|u: int, v: int| 0 <= u < v < f.len() implies f[u] < f[v] by {
                if v < fp.len() {
                } else {
                    assert(f[u] == fp[u]);
                    assert(fp.contains(fp[u]));
                    assert(s.drop_last().contains(fp[u]));
                    assert(fp[u] != s.last());
                    crate::index_set::lemma_sorted_last_max(s);
                    assert(fp[u] <= s.last());
                }
            }
        } else {
            assert(f == fp);
            assert forall|y: usize| #[trigger] f.contains(y) <==> s.contains(y) && pred(y) by {
                assert(fp.contains(y) <==> s.drop_last().contains(y) && pred(y));
                if s.contains(y) && pred(y) {
                    assert(y != s.last());
                }
            }
        }
    }
}

/// `t` is a spanning tree of the component of `start` in `g`: it holds
/// each node of that component exactly once, its root is `start`, and
/// the parent of every other tree node was visited earlier and is
/// joined to it by a graph edge.
pub open spec fn valid_traversal_tree<T, G: Graph<T>>(g: &G, start: usize, t: Tree<
    NodeIndex,
>) -> bool {
    &&& t.wf()
    &&& t.size() > 0
    &&& t.data_seq()[0] == start
    &&& t.data_seq().no_duplicates()
    &&& forall|x: usize|
        #![trigger t.data_seq().contains(x)]
        #![trigger reaches(g, start, x)]
        t.data_seq().contains(x) <==> reaches(g, start, x)
    &&& forall|k: int|
        1 <= k < t.size() ==> ((#[trigger] t.parent_of(k)) matches Some(p) && 0 <= p < k
            && edge_to(g, t.data_seq()[p as int], t.data_seq()[k]))
    &&& t.parent_of(0) is None
}

/// What the breadth-first loop guarantees once its queue is exhausted:
/// the discovered set `d` is exactly the component of `start`, and the
/// tree built over the processed queue `q` is its spanning tree.
proof fn lemma_bfs_exit<T, G: Graph<T>>(
    g: &G,
    start: usize,
    q: Seq<(NodeIndex, Option<NodeIndex>)>,
    d: Seq<usize>,
    tree: Tree<NodeIndex>,
)
    requires
        g.wf(),
        strictly_sorted(d),
        g.node_seq().contains(start),
        q.len() >= 1,
        q[0].0 == start && q[0].1 is None,
        d.len() == q.len(),
        forall|k: int| 0 <= k < q.len() ==> d.contains((#[trigger] q[k]).0),
        forall|x: usize|
            #[trigger] d.contains(x) ==> g.node_seq().contains(x) && reaches(g, start, x),
        forall|k: int, l: int| 0 <= k < l < q.len() ==> (#[trigger] q[k]).0 != (#[trigger] q[l]).0,
        forall|k: int|
            1 <= k < q.len() ==> ((#[trigger] q[k]).1 matches Some(p) && 0 <= p < k && edge_to(
                g,
                q[p as int].0,
                q[k].0,
            )),
        tree.wf(),
        tree.size() == q.len(),
        tree.data_seq() == q.map_values(|pr: (NodeIndex, Option<NodeIndex>)| pr.0),
        forall|k: int| 0 <= k < q.len() ==> #[trigger] tree.parent_of(k) == q[k].1,
        forall|k: int, j: usize|
            0 <= k < q.len() && #[trigger] g.out_seq(q[k].0).contains(j) ==> d.contains(j),
    ensures
        valid_traversal_tree(g, start, tree),
        tree.size() == component_seq(g, start).len(),
{
    g.lemma_wf();
    let data = tree.data_seq();
    assert(data.len() == q.len());
    assert(forall|k: int| 0 <= k < q.len() ==> #[trigger] data[k] == q[k].0);
    // the visited payloads repeat nothing and lie in the discovered set,
    // whose size they match: so they cover it
    assert(data.no_duplicates()) by {
        assert forall|k: int, l: int|
            0 <= k < data.len() && 0 <= l < data.len() && k != l implies data[k] != data[l] by {
            if k < l {
            } else {
                assert(q[l].0 != q[k].0);
            }
        }
    }
    assert forall|y: usize| data.contains(y) implies d.contains(y) by {
        let w = choose|w: int| 0 <= w < data.len() && data[w] == y;
        assert(d.contains(q[w].0));
    }
    lemma_nodup_cover(data, d);
    // the discovered set is closed under edges and holds start, so it
    // holds the whole component; it is sorted, so it is the component
    assert forall|x: usize, y: usize|
        d.contains(x) && #[trigger] edge_to(g, x, y) implies d.contains(y) by {
        assert(data.contains(x));
        let k = choose|k: int| 0 <= k < data.len() && data[k] == x;
        assert(g.out_seq(q[k].0).contains(y));
    }
    assert(d.contains(q[0].0));
    let pred = |x: usize| reaches(g, start, x);
    lemma_filter_sorted(g.node_seq(), pred);
    assert forall|x: usize| #[trigger] d.contains(x) <==> component_seq(g, start).contains(x) by {
        if d.contains(x) {
            assert(g.node_seq().contains(x) && pred(x));
            assert(component_seq(g, start).contains(x));
        }
        if component_seq(g, start).contains(x) {
            assert(g.node_seq().contains(x) && pred(x));
            lemma_closed_set_reaches(g, start, d, x);
        }
    }
    assert(strictly_sorted(component_seq(g, start)));
    lemma_sorted_same_membership(d, component_seq(g, start));
    assert forall|x: usize|
        #![trigger data.contains(x)]
        #![trigger reaches(g, start, x)]
        data.contains(x) <==> reaches(g, start, x) by {
        if data.contains(x) {
            let w = choose|w: int| 0 <= w < data.len() && data[w] == x;
            assert(d.contains(q[w].0));
        }
        if reaches(g, start, x) {
            lemma_closed_set_reaches(g, start, d, x);
        }
    }
    assert(data[0] == start);
    assert(valid_traversal_tree(g, start, tree)) by {
        assert forall|k: int|
            1 <= k < tree.size() implies ((#[trigger] tree.parent_of(k)) matches Some(p) && 0 <= p
            < k && edge_to(g, tree.data_seq()[p as int], tree.data_seq()[k])) by {
            assert(tree.parent_of(k) == q[k].1);
            assert(q[k].1 matches Some(p) && 0 <= p < k && edge_to(g, q[p as int].0, q[k].0));
        }
        assert(tree.parent_of(0) == q[0].1);
    }
}

/// Breadth-first traversal from `start`, returning the breadth-first
/// spanning tree of the component containing `start`.
///
/// A node is discovered when it is enqueued and never enqueued twice, so
/// the tree parent of each node is the node that first discovered it.
/// On an empty graph the result is an empty tree; a start index that
/// names no live node is reported as invalid.
#[verifier::loop_isolation(false)]
#[verifier::rlimit(100)]
pub fn bf_trav<T, G: Graph<T>>(g: &G, start: NodeIndex) -> (r: GraphResult<Tree<NodeIndex>>)
    requires
        g.wf(),
    ensures
        g.node_seq().len() == 0 ==> (r matches Ok(t) && t.wf() && t.size() == 0),
        g.node_seq().len() > 0 && !g.node_seq().contains(start) ==> r == Err::<
            Tree<NodeIndex>,
            GraphError,
        >(GraphError::invalid_index(start)),
        g.node_seq().len() > 0 && g.node_seq().contains(start) ==> (r matches Ok(t)
            && valid_traversal_tree(g, start, t) && t.size() == component_seq(g, start).len()),
{
    let mut tree: Tree<NodeIndex> = Tree::new();
    if g.num_nodes() == 0 {
        return Ok(tree);
    }
    match g.adj(start) {
        Err(e) => {
            return Err(e);
        },
        Ok(_) => {},
    }
    proof {
        g.lemma_wf();
        lemma_reaches_refl(g, start);
    }
    let mut discovered = NodeIndexSet::new();
    let mut queue: Vec<(NodeIndex, Option<NodeIndex>)> = Vec::new();
    queue.push((start, None));
    discovered.insert(start);
    proof {
        assert(queue@.len() == 1);
        assert(queue@[0] == (start, Option::<NodeIndex>::None));
        assert(discovered@.contains(start));
        assert forall|k: int|
            0 <= k < queue@.len() implies discovered@.contains((#[trigger] queue@[k]).0) by {
            assert(k == 0);
        }
        assert forall|x: usize| #[trigger] discovered@.contains(x) implies x == start by {}
        lemma_sorted_subset_len(discovered@, g.node_seq());
        assert(tree.data_seq() =~= queue@.take(0).map_values(
            |pr: (NodeIndex, Option<NodeIndex>)| pr.0,
        ));
    }
    let mut head: usize = 0;
    while head < queue.len()
        invariant
            head <= queue@.len(),
            1 <= queue@.len(),
            discovered.wf(),
            discovered@.len() == queue@.len(),
            discovered@.len() <= g.node_seq().len(),
            queue@[0].0 == start && queue@[0].1 is None,
            forall|k: int| 0 <= k < queue@.len() ==> discovered@.contains((#[trigger] queue@[k]).0),
            forall|x: usize|
                #[trigger] discovered@.contains(x) ==> g.node_seq().contains(x) && reaches(
                    g,
                    start,
                    x,
                ),
            forall|k: int, l: int|
                0 <= k < l < queue@.len() ==> (#[trigger] queue@[k]).0 != (#[trigger] queue@[l]).0,
            forall|k: int|
                1 <= k < queue@.len() ==> ((#[trigger] queue@[k]).1 matches Some(p) && 0 <= p < k
                    && edge_to(g, queue@[p as int].0, queue@[k].0)),
            tree.wf(),
            tree.size() == head,
            tree.data_seq() == queue@.take(head as int).map_values(
                |pr: (NodeIndex, Option<NodeIndex>)| pr.0,
            ),
            forall|k: int| 0 <= k < head ==> #[trigger] tree.parent_of(k) == queue@[k].1,
            forall|k: int, j: usize|
                0 <= k < head && #[trigger] g.out_seq(queue@[k].0).contains(j)
                    ==> discovered@.contains(j),
        decreases g.node_seq().len() - discovered@.len(), queue@.len() - head,
    {
        let pair = queue[head];
        let ind = pair.0;
        let parent = pair.1;
        let tree_ind = tree.num_nodes();
        proof {
            assert(discovered@.contains(ind));
        }
        match parent {
            None => {
                proof {
                    assert(head == 0);
                }
                tree.add_root(ind);
            },
            Some(p) => {
                proof {
                    assert(head >= 1) by {
                        if head == 0 {
                            assert(queue@[0].1 is None);
                        }
                    }
                    assert(0 <= p < head);
                }
                tree.add_child(p, ind);
            },
        }
        proof {
            assert(tree.data_seq() =~= queue@.take(head + 1).map_values(
                |pr: (NodeIndex, Option<NodeIndex>)| pr.0,
            ));
        }
        let neigh = match g.adj(ind) {
            Ok(v) => v,
            Err(e) => {
                return Err(e);
            },
        };
        let ghost q_snap = queue@;
        let mut kk: usize = 0;
        while kk < neigh.len()
            invariant
                kk <= neigh@.len(),
                neigh@ == g.out_seq(ind),
                head < queue@.len(),
                q_snap.len() <= queue@.len(),
                discovered@.contains(ind),
                q_snap[head as int].0 == ind,
                queue@.take(head + 1) == q_snap.take(head + 1),
                discovered.wf(),
                discovered@.len() == queue@.len(),
                discovered@.len() <= g.node_seq().len(),
                forall|k: int|
                    0 <= k < queue@.len() ==> discovered@.contains((#[trigger] queue@[k]).0),
                forall|x: usize|
                    #[trigger] discovered@.contains(x) ==> g.node_seq().contains(x) && reaches(
                        g,
                        start,
                        x,
                    ),
                forall|k: int, l: int|
                    0 <= k < l < queue@.len() ==> (#[trigger] queue@[k]).0 != (
                    #[trigger] queue@[l]).0,
                forall|k: int|
                    1 <= k < queue@.len() ==> ((#[trigger] queue@[k]).1 matches Some(p) && 0 <= p
                        < k && edge_to(g, queue@[p as int].0, queue@[k].0)),
                forall|k: int, j: usize|
                    0 <= k < head && #[trigger] g.out_seq(queue@[k].0).contains(j)
                        ==> discovered@.contains(j),
                forall|w: int| 0 <= w < kk ==> discovered@.contains(#[trigger] neigh@[w]),
            decreases neigh@.len() - kk,
        {
            let j = neigh[kk];
            proof {
                assert(neigh@[kk as int] == j);
                assert(g.out_seq(ind).contains(j)) by {
                    assert(g.out_seq(ind)[kk as int] == j);
                }
                assert(g.node_seq().contains(j));
            }
            if !discovered.contains(j) {
                let ghost d_snap = discovered@;
                let ghost q_pre = queue@;
                queue.push((j, Some(tree_ind)));
                discovered.insert(j);
                proof {
                    let newk = q_pre.len() as int;
                    assert(queue@ == q_pre.push((j, Some(tree_ind))));
                    assert(d_snap.contains(ind));
                    lemma_reaches_step(g, start, ind, j);
                    assert(queue@.take(head + 1) =~= q_pre.take(head + 1));
                    assert forall|x: usize|
                        #[trigger] discovered@.contains(x) implies g.node_seq().contains(x)
                        && reaches(g, start, x) by {
                        if x != j {
                            assert(d_snap.contains(x));
                        }
                    }
                    lemma_sorted_subset_len(discovered@, g.node_seq());
                    assert forall|k: int|
                        0 <= k < queue@.len() implies discovered@.contains(
                        (#[trigger] queue@[k]).0) by {
                        if k < newk {
                            assert(queue@[k] == q_pre[k]);
                            assert(d_snap.contains(q_pre[k].0));
                        } else {
                            assert(queue@[k].0 == j);
                        }
                    }
                    assert forall|k: int, l: int|
                        0 <= k < l < queue@.len() implies (#[trigger] queue@[k]).0 != (
                    #[trigger] queue@[l]).0 by {
                        if l == newk {
                            assert(queue@[k] == q_pre[k]);
                            assert(d_snap.contains(q_pre[k].0));
                            assert(queue@[l].0 == j);
                        } else {
                            assert(queue@[k] == q_pre[k] && queue@[l] == q_pre[l]);
                        }
                    }
                    assert forall|k: int|
                        1 <= k < queue@.len() implies ((#[trigger] queue@[k]).1 matches Some(p) && 0
                        <= p < k && edge_to(g, queue@[p as int].0, queue@[k].0)) by {
                        if k < newk {
                            assert(queue@[k] == q_pre[k]);
                        } else {
                            assert(queue@[k].1 == Some(tree_ind));
                            assert(tree_ind == head);
                            assert(queue@[head as int] == q_pre[head as int]);
                            assert(q_pre.take(head + 1)[head as int] == q_snap.take(head + 1)[
                                head as int
                            ]);
                            assert(q_pre[head as int].0 == ind);
                            assert(edge_to(g, ind, j));
                        }
                    }
                }
            }
            kk = kk + 1;
        }
        proof {
            assert(q_snap[head as int] == pair);
            assert forall|k: int| 0 <= k <= head implies queue@[k] == q_snap[k] by {
                assert(queue@.take(head + 1)[k] == q_snap.take(head + 1)[k]);
            }
        }
        head = head + 1;
        proof {
            assert forall|k: int, j2: usize|
                0 <= k < head && #[trigger] g.out_seq(queue@[k].0).contains(j2)
                    implies discovered@.contains(j2) by {
                if k == head - 1 {
                    assert(queue@[k].0 == ind);
                    let w = choose|w: int|
                        0 <= w < neigh@.len() && #[trigger] g.out_seq(ind)[w] == j2;
                    assert(neigh@[w] == j2);
                }
            }
        }
    }
    proof {
        assert(queue@.take(head as int) =~= queue@);
        lemma_bfs_exit(g, start, queue@, discovered@, tree);
    }
    Ok(tree)
}


/// What the depth-first loop guarantees once its stack is exhausted:
/// the visited set `v` is exactly the component of `start`, and the
/// tree built in visit order is its spanning tree.
proof fn lemma_dfs_exit<T, G: Graph<T>>(g: &G, start: usize, v: Seq<usize>, tree: Tree<NodeIndex>)
    requires
        g.wf(),
        strictly_sorted(v),
        g.node_seq().contains(start),
        forall|x: usize|
            #[trigger] v.contains(x) ==> g.node_seq().contains(x) && reaches(g, start, x),
        forall|x: usize, y: usize| v.contains(x) && #[trigger] edge_to(g, x, y) ==> v.contains(y),
        tree.wf(),
        tree.size() == v.len(),
        tree.size() > 0,
        tree.data_seq()[0] == start,
        tree.parent_of(0) is None,
        forall|k: int| 0 <= k < tree.size() ==> v.contains(#[trigger] tree.data_seq()[k]),
        forall|k: int, l: int|
            0 <= k < tree.size() && 0 <= l < tree.size() && k != l ==> tree.data_seq()[k]
                != tree.data_seq()[l],
        forall|k: int|
            1 <= k < tree.size() ==> ((#[trigger] tree.parent_of(k)) matches Some(p) && 0 <= p < k
                && edge_to(g, tree.data_seq()[p as int], tree.data_seq()[k])),
    ensures
        valid_traversal_tree(g, start, tree),
        tree.size() == component_seq(g, start).len(),
{
    g.lemma_wf();
    let data = tree.data_seq();
    assert(data.no_duplicates());
    assert(v.contains(start));
    lemma_nodup_cover(data, v);
    let pred = |x: usize| reaches(g, start, x);
    lemma_filter_sorted(g.node_seq(), pred);
    assert forall|x: usize| #[trigger] v.contains(x) <==> component_seq(g, start).contains(x) by {
        if v.contains(x) {
            assert(g.node_seq().contains(x) && pred(x));
            assert(component_seq(g, start).contains(x));
        }
        if component_seq(g, start).contains(x) {
            assert(g.node_seq().contains(x) && pred(x));
            lemma_closed_set_reaches(g, start, v, x);
        }
    }
    assert(strictly_sorted(component_seq(g, start)));
    lemma_sorted_same_membership(v, component_seq(g, start));
    assert forall|x: usize|
        #![trigger data.contains(x)]
        #![trigger reaches(g, start, x)]
        data.contains(x) <==> reaches(g, start, x) by {
        if data.contains(x) {
            let w = choose|w: int| 0 <= w < data.len() && data[w] == x;
            assert(v.contains(data[w]));
        }
        if reaches(g, start, x) {
            lemma_closed_set_reaches(g, start, v, x);
        }
    }
}

/// Depth-first traversal from `start`, returning the depth-first
/// spanning tree of the component containing `start`.
///
/// Unlike breadth-first traversal, a node is marked visited only when it
/// is popped, so the same node may sit on the stack several times; every
/// out-neighbor of a visited node is pushed unconditionally and stale
/// entries are discarded at pop time. On an empty graph the result is an
/// empty tree; a start index that names no live node is reported as
/// invalid.
#[verifier::loop_isolation(false)]
#[verifier::rlimit(100)]
pub fn df_trav<T, G: Graph<T>>(g: &G, start: NodeIndex) -> (r: GraphResult<Tree<NodeIndex>>)
    requires
        g.wf(),
    ensures
        g.node_seq().len() == 0 ==> (r matches Ok(t) && t.wf() && t.size() == 0),
        g.node_seq().len() > 0 && !g.node_seq().contains(start) ==> r == Err::<
            Tree<NodeIndex>,
            GraphError,
        >(GraphError::invalid_index(start)),
        g.node_seq().len() > 0 && g.node_seq().contains(start) ==> (r matches Ok(t)
            && valid_traversal_tree(g, start, t) && t.size() == component_seq(g, start).len()),
{
    let mut tree: Tree<NodeIndex> = Tree::new();
    if g.num_nodes() == 0 {
        return Ok(tree);
    }
    match g.adj(start) {
        Err(e) => {
            return Err(e);
        },
        Ok(_) => {},
    }
    proof {
        g.lemma_wf();
        lemma_reaches_refl(g, start);
    }
    let mut visited = NodeIndexSet::new();
    let mut stack: Vec<(NodeIndex, Option<NodeIndex>)> = Vec::new();
    stack.push((start, None));
    proof {
        assert(stack@ =~= seq![(start, Option::<NodeIndex>::None)]);
        assert(tree.data_seq().len() == 0);
    }
    while stack.len() > 0
        invariant
            visited.wf(),
            visited@.len() <= g.node_seq().len(),
            forall|x: usize|
                #[trigger] visited@.contains(x) ==> g.node_seq().contains(x) && reaches(
                    g,
                    start,
                    x,
                ),
            tree.wf(),
            tree.size() == visited@.len(),
            forall|k: int|
                0 <= k < tree.size() ==> visited@.contains(#[trigger] tree.data_seq()[k]),
            forall|k: int, l: int|
                0 <= k < tree.size() && 0 <= l < tree.size() && k != l ==> tree.data_seq()[k]
                    != tree.data_seq()[l],
            tree.size() > 0 ==> tree.data_seq()[0] == start,
            tree.size() > 0 ==> tree.parent_of(0) is None,
            forall|k: int|
                1 <= k < tree.size() ==> ((#[trigger] tree.parent_of(k)) matches Some(p) && 0 <= p
                    < k && edge_to(g, tree.data_seq()[p as int], tree.data_seq()[k])),
            forall|k: int|
                0 <= k < stack@.len() ==> g.node_seq().contains((#[trigger] stack@[k]).0)
                    && reaches(g, start, stack@[k].0),
            forall|k: int|
                0 <= k < stack@.len() ==> ((#[trigger] stack@[k]).1 matches Some(p) ==> 0 <= p
                    < tree.size() && edge_to(g, tree.data_seq()[p as int], stack@[k].0)),
            tree.size() == 0 ==> stack@ == seq![(start, Option::<NodeIndex>::None)],
            tree.size() > 0 ==> (forall|k: int|
                0 <= k < stack@.len() ==> (#[trigger] stack@[k]).1 is Some),
            forall|x: usize, j: usize|
                visited@.contains(x) && #[trigger] edge_to(g, x, j) ==> visited@.contains(j)
                    || on_stack(stack@, j),
        decreases g.node_seq().len() - visited@.len(), stack@.len(),
    {
        let ghost st_old = stack@;
        let pair = stack.pop().unwrap();
        let ind = pair.0;
        let parent = pair.1;
        let ghost st_pop = stack@;
        proof {
            assert(st_old[st_old.len() - 1] == pair);
            assert(forall|k: int| 0 <= k < st_pop.len() ==> st_pop[k] == st_old[k]);
        }
        if !visited.contains(ind) {
            let tree_ind = tree.num_nodes();
            let ghost v_pre = visited@;
            let ghost data_pre = tree.data_seq();
            visited.insert(ind);
            proof {
                lemma_sorted_subset_len(visited@, g.node_seq());
            }
            match parent {
                None => {
                    proof {
                        assert(tree.size() == 0) by {
                            if tree.size() > 0 {
                                assert(st_old[st_old.len() - 1].1 is Some);
                            }
                        }
                    }
                    tree.add_root(ind);
                },
                Some(p) => {
                    proof {
                        assert(tree.size() > 0) by {
                            if tree.size() == 0 {
                                assert(st_old == seq![(start, Option::<NodeIndex>::None)]);
                                assert(st_old[0].1 is None);
                            }
                        }
                        assert(0 <= p < tree.size());
                    }
                    tree.add_child(p, ind);
                },
            }
            proof {
                assert(tree.data_seq() =~= data_pre.push(ind));
                assert(tree.data_seq()[tree.size() - 1] == ind);
                assert(forall|k: int|
                    0 <= k < data_pre.len() ==> #[trigger] tree.data_seq()[k] == data_pre[k]);
                assert forall|k: int, l: int|
                    0 <= k < tree.size() && 0 <= l < tree.size() && k
                        != l implies tree.data_seq()[k] != tree.data_seq()[l] by {
                    if k < data_pre.len() && l < data_pre.len() {
                    } else if l == data_pre.len() {
                        assert(v_pre.contains(data_pre[k]));
                    } else if k == data_pre.len() {
                        assert(v_pre.contains(data_pre[l]));
                    }
                }
            }
            let neigh = match g.adj(ind) {
                Ok(v) => v,
                Err(e) => {
                    return Err(e);
                },
            };
            let ghost st_base = stack@;
            let mut kk: usize = 0;
            while kk < neigh.len()
                invariant
                    kk <= neigh@.len(),
                    neigh@ == g.out_seq(ind),
                    stack@ == st_base + neigh@.take(kk as int).map_values(
                        |j: usize| (j, Some(tree_ind)),
                    ),
                decreases neigh@.len() - kk,
            {
                let j = neigh[kk];
                stack.push((j, Some(tree_ind)));
                proof {
                    assert(stack@ =~= st_base + neigh@.take(kk + 1).map_values(
                        |j2: usize| (j2, Some(tree_ind)),
                    ));
                }
                kk = kk + 1;
            }
            proof {
                assert(neigh@.take(neigh@.len() as int) =~= neigh@);
                let added = neigh@.map_values(|j2: usize| (j2, Some(tree_ind)));
                assert(stack@ == st_base + added);
                assert(forall|w: int|
                    0 <= w < added.len() ==> #[trigger] added[w] == (neigh@[w], Some(tree_ind)));
                assert(forall|k: int|
                    0 <= k < st_base.len() ==> #[trigger] stack@[k] == st_base[k]);
                assert(forall|w: int|
                    0 <= w < added.len() ==> #[trigger] stack@[st_base.len() + w] == added[w]);
                assert(tree_ind < tree.size() && tree.data_seq()[tree_ind as int] == ind);
                assert forall|k: int|
                    0 <= k < stack@.len() implies g.node_seq().contains((#[trigger] stack@[k]).0)
                    && reaches(g, start, stack@[k].0) by {
                    if k < st_base.len() {
                        assert(st_base[k] == st_old[k]);
                    } else {
                        let w = k - st_base.len();
                        assert(stack@[k] == (neigh@[w], Some(tree_ind)));
                        assert(g.out_seq(ind)[w] == neigh@[w]);
                        assert(g.out_seq(ind).contains(neigh@[w]));
                        assert(g.node_seq().contains(neigh@[w]));
                        assert(reaches(g, start, ind));
                        lemma_reaches_step(g, start, ind, neigh@[w]);
                    }
                }
                assert forall|k: int|
                    0 <= k < stack@.len() implies ((#[trigger] stack@[k]).1 matches Some(p) ==> 0
                    <= p < tree.size() && edge_to(g, tree.data_seq()[p as int], stack@[k].0)) by {
                    if k < st_base.len() {
                        assert(st_base[k] == st_old[k]);
                        match st_old[k].1 {
                            Some(p) => {
                                assert(p < data_pre.len());
                                assert(tree.data_seq()[p as int] == data_pre[p as int]);
                            },
                            None => {},
                        }
                    } else {
                        let w = k - st_base.len();
                        assert(stack@[k] == (neigh@[w], Some(tree_ind)));
                        assert(g.out_seq(ind).contains(neigh@[w])) by {
                            assert(g.out_seq(ind)[w] == neigh@[w]);
                        }
                    }
                }
                assert forall|k: int|
                    0 <= k < stack@.len() implies (#[trigger] stack@[k]).1 is Some by {
                    if k < st_base.len() {
                        assert(st_base[k] == st_old[k]);
                        if st_old[k].1 is None {
                            assert(data_pre.len() == 0) by {
                                if data_pre.len() > 0 {
                                    assert(st_old[k].1 is Some);
                                }
                            }
                            assert(st_old == seq![(start, Option::<NodeIndex>::None)]);
                            assert(st_old.len() == 1);
                            assert(k < 0);
                        }
                    }
                }
                assert(tree.data_seq()[0] == start) by {
                    if data_pre.len() == 0 {
                        assert(st_old == seq![(start, Option::<NodeIndex>::None)]);
                        assert(ind == start);
                    }
                }
                assert forall|x: usize, j0: usize|
                    visited@.contains(x) && #[trigger] edge_to(g, x, j0) implies visited@.contains(
                    j0) || on_stack(stack@, j0) by {
                    reveal(on_stack);
                    if x == ind {
                        let w = choose|w: int|
                            0 <= w < g.out_seq(ind).len() && #[trigger] g.out_seq(ind)[w] == j0;
                        assert(stack@[st_base.len() + w] == (neigh@[w], Some(tree_ind)));
                        assert(stack@[st_base.len() + w].0 == j0);
                    } else {
                        assert(v_pre.contains(x));
                        if !v_pre.contains(j0) && !visited@.contains(j0) {
                            assert(on_stack(st_old, j0));
                            let k = choose|k: int|
                                0 <= k < st_old.len() && (#[trigger] st_old[k]).0 == j0;
                            assert(k < st_old.len() - 1) by {
                                if k == st_old.len() - 1 {
                                    assert(st_old[k].0 == ind);
                                    assert(visited@.contains(ind));
                                }
                            }
                            assert(stack@[k] == st_base[k]);
                            assert(stack@[k].0 == j0);
                        }
                    }
                }
            }
        } else {
            proof {
                assert forall|x: usize, j0: usize|
                    visited@.contains(x) && #[trigger] edge_to(g, x, j0) implies visited@.contains(
                    j0) || on_stack(stack@, j0) by {
                    reveal(on_stack);
                    if !visited@.contains(j0) {
                        assert(on_stack(st_old, j0));
                        let k = choose|k: int|
                            0 <= k < st_old.len() && (#[trigger] st_old[k]).0 == j0;
                        assert(k < st_old.len() - 1) by {
                            if k == st_old.len() - 1 {
                                assert(st_old[k].0 == ind);
                                assert(visited@.contains(ind));
                            }
                        }
                        assert(stack@[k].0 == j0);
                    }
                }
                assert(tree.size() > 0) by {
                    if tree.size() == 0 {
                        assert(visited@.len() == 0);
                        assert(visited@.contains(ind));
                    }
                }
            }
        }
    }
    proof {
        assert(tree.size() > 0) by {
            if tree.size() == 0 {
                assert(stack@ == seq![(start, Option::<NodeIndex>::None)]);
            }
        }
        assert(visited@.contains(tree.data_seq()[0]));
        assert forall|x: usize, y: usize|
            visited@.contains(x) && #[trigger] edge_to(g, x, y) implies visited@.contains(y) by {
            if !visited@.contains(y) {
                reveal(on_stack);
                assert(on_stack(stack@, y));
                let k = choose|k: int| 0 <= k < stack@.len() && (#[trigger] stack@[k]).0 == y;
                assert(false);
            }
        }
        lemma_dfs_exit(g, start, visited@, tree);
    }
    Ok(tree)
}

/// The payloads of the trees of a forest, concatenated in order.
pub open spec fn forest_data(fs: Seq<Tree<NodeIndex>>) -> Seq<usize>
    decreases fs.len(),
{
    if fs.len() == 0 {
        Seq::empty()
    } else {
        forest_data(fs.drop_last()) + fs.last().data_seq()
    }
}

/// `t` is one tree of a traversal forest over `g`: nonempty, free of
/// repeats, every node reachable from its root, and every non-root node
/// joined to its earlier-visited parent by a graph edge.
pub open spec fn valid_forest_tree<T, G: Graph<T>>(g: &G, t: Tree<NodeIndex>) -> bool {
    &&& t.wf()
    &&& t.size() > 0
    &&& t.parent_of(0) is None
    &&& t.data_seq().no_duplicates()
    &&& forall|x: usize|
        #[trigger] t.data_seq().contains(x) ==> g.node_seq().contains(x) && reaches(
            g,
            t.data_seq()[0],
            x,
        )
    &&& forall|k: int|
        1 <= k < t.size() ==> ((#[trigger] t.parent_of(k)) matches Some(p) && 0 <= p < k
            && edge_to(g, t.data_seq()[p as int], t.data_seq()[k]))
}

/// Every edge leaving the first `fi + 1` trees of `f` stays inside them.
pub open spec fn prefix_closed<T, G: Graph<T>>(g: &G, f: Seq<Tree<NodeIndex>>, fi: int) -> bool {
    forall|x: usize, y: usize|
        forest_data(f.take(fi + 1)).contains(x) && #[trigger] edge_to(g, x, y) ==> forest_data(
            f.take(fi + 1),
        ).contains(y)
}

/// Appending a tree to a forest appends its payloads.
proof fn lemma_forest_data_push(fs: Seq<Tree<NodeIndex>>, t: Tree<NodeIndex>)
    ensures
        forest_data(fs.push(t)) == forest_data(fs) + t.data_seq(),
{
    assert(fs.push(t).drop_last() =~= fs);
    assert(fs.push(t).last() == t);
}

/// Concatenating a fresh block onto a duplicate-free sequence keeps it
/// duplicate-free, and joins the memberships.
proof fn lemma_concat_fresh(a: Seq<usize>, b: Seq<usize>)
    requires
        a.no_duplicates(),
        forall|k: int, l: int| 0 <= k < b.len() && 0 <= l < b.len() && k != l ==> b[k] != b[l],
        forall|k: int| 0 <= k < b.len() ==> !a.contains(#[trigger] b[k]),
    ensures
        (a + b).no_duplicates(),
        forall|y: usize| #[trigger] (a + b).contains(y) <==> a.contains(y) || b.contains(y),
{
    let c = a + b;
    assert forall|k: int, l: int|
        0 <= k < c.len() && 0 <= l < c.len() && k != l implies c[k] != c[l] by {
        if k < a.len() && l < a.len() {
            assert(c[k] == a[k] && c[l] == a[l]);
        } else if k < a.len() {
            assert(c[k] == a[k] && c[l] == b[l - a.len()]);
            assert(a.contains(a[k]));
        } else if l < a.len() {
            assert(c[k] == b[k - a.len()] && c[l] == a[l]);
            assert(a.contains(a[l]));
        } else {
            assert(c[k] == b[k - a.len()] && c[l] == b[l - a.len()]);
        }
    }
    assert forall|y: usize| #[trigger] (a + b).contains(y) <==> a.contains(y) || b.contains(y) by {
        if c.contains(y) {
            let w = choose|w: int| 0 <= w < c.len() && c[w] == y;
            if w < a.len() {
                assert(a[w] == y);
            } else {
                assert(b[w - a.len()] == y);
            }
        }
        if a.contains(y) {
            let w = choose|w: int| 0 <= w < a.len() && a[w] == y;
            assert(c[w] == y);
        }
        if b.contains(y) {
            let w = choose|w: int| 0 <= w < b.len() && b[w] == y;
            assert(c[a.len() + w] == y);
        }
    }
}

/// What the whole-graph loop guarantees once its stack and its
/// unvisited set are both exhausted: banking the last tree yields a
/// forest that partitions the live nodes, tree by tree.
proof fn lemma_forest_exit<T, G: Graph<T>>(
    g: &G,
    start: usize,
    f: Seq<Tree<NodeIndex>>,
    f_pre: Seq<Tree<NodeIndex>>,
    t_done: Tree<NodeIndex>,
    v: Seq<usize>,
    uv: Seq<usize>,
)
    requires
        f == f_pre.push(t_done),
        g.wf(),
        strictly_sorted(v),
        g.node_seq().contains(start),
        forall|x: usize| #[trigger] uv.contains(x) <==> g.node_seq().contains(x) && !v.contains(x),
        uv.len() == 0,
        forall|x: usize| #[trigger] v.contains(x) ==> g.node_seq().contains(x),
        t_done.wf(),
        t_done.size() > 0,
        t_done.parent_of(0) is None,
        forall|k: int| 0 <= k < t_done.size() ==> v.contains(#[trigger] t_done.data_seq()[k]),
        forall|k: int, l: int|
            0 <= k < t_done.size() && 0 <= l < t_done.size() && k != l ==> t_done.data_seq()[k]
                != t_done.data_seq()[l],
        forall|k: int|
            0 <= k < t_done.size() ==> !forest_data(f_pre).contains(
                #[trigger] t_done.data_seq()[k],
            ),
        forall|k: int|
            0 <= k < t_done.size() ==> reaches(
                g,
                t_done.data_seq()[0],
                #[trigger] t_done.data_seq()[k],
            ),
        forall|k: int|
            1 <= k < t_done.size() ==> ((#[trigger] t_done.parent_of(k)) matches Some(p) && 0 <= p
                < k && edge_to(g, t_done.data_seq()[p as int], t_done.data_seq()[k])),
        forest_data(f_pre).no_duplicates(),
        forall|x: usize| #[trigger] forest_data(f_pre).contains(x) ==> v.contains(x),
        forall|x: usize|
            #[trigger] v.contains(x) ==> forest_data(f_pre).contains(x)
                || t_done.data_seq().contains(x),
        forest_data(f_pre).len() + t_done.size() == v.len(),
        forall|fi: int| 0 <= fi < f_pre.len() ==> valid_forest_tree(g, #[trigger] f_pre[fi]),
        forall|fi: int| 0 <= fi < f_pre.len() ==> prefix_closed(g, f_pre, fi),
        f_pre.len() >= 1 ==> f_pre[0].data_seq()[0] == start,
        f_pre.len() == 0 ==> t_done.data_seq()[0] == start,
        forall|x: usize|
            f_pre.len() >= 1 ==> ((#[trigger] f_pre[0].data_seq().contains(x)) <==> reaches(
                g,
                start,
                x,
            )),
    ensures
        f.len() >= 1,
        forall|fi: int| 0 <= fi < f.len() ==> valid_forest_tree(g, #[trigger] f[fi]),
        forest_data(f).no_duplicates(),
        forall|x: usize| #[trigger] forest_data(f).contains(x) <==> g.node_seq().contains(x),
        forest_data(f).len() == g.node_seq().len(),
        f[0].data_seq()[0] == start,
        forall|x: usize| #[trigger] f[0].data_seq().contains(x) <==> reaches(g, start, x),
        forall|fi: int, x: usize|
            0 <= fi < f.len() && #[trigger] reaches(g, f[fi].data_seq()[0], x) ==> forest_data(
                f.take(fi + 1),
            ).contains(x),
{
    g.lemma_wf();
    let fd_pre = forest_data(f_pre);

        lemma_forest_data_push(f_pre, t_done);
                assert(forest_data(f) == fd_pre + t_done.data_seq());
        lemma_concat_fresh(fd_pre, t_done.data_seq());
        // every live node was visited, so the forest covers the graph
        assert forall|x: usize| v.contains(x) <==> g.node_seq().contains(x) by {
            if g.node_seq().contains(x) && !v.contains(x) {
                assert(uv.contains(x));
                assert(uv.len() > 0) by {
                    if uv.len() == 0 {
                        assert(!uv.contains(x));
                    }
                }
            }
        }
        lemma_sorted_same_membership(v, g.node_seq());
        assert forall|fi: int|
            0 <= fi < f.len() implies valid_forest_tree(g, #[trigger] f[fi]) by {
            if fi < f.len() - 1 {
                assert(f[fi] == f_pre[fi]);
            } else {
                assert(f[fi] == t_done);
                assert(t_done.data_seq().no_duplicates()) by {
                    assert forall|k: int, l: int|
                        0 <= k < t_done.data_seq().len() && 0 <= l < t_done.data_seq().len() && k
                            != l implies t_done.data_seq()[k] != t_done.data_seq()[l] by {}
                }
                assert forall|x: usize|
                    #[trigger] t_done.data_seq().contains(x) implies g.node_seq().contains(x)
                    && reaches(g, t_done.data_seq()[0], x) by {
                    let w = choose|w: int|
                        0 <= w < t_done.data_seq().len() && t_done.data_seq()[w] == x;
                }
            }
        }
        assert forall|x: usize|
            #[trigger] forest_data(f).contains(x) <==> g.node_seq().contains(x) by {
            if forest_data(f).contains(x) {
                assert(fd_pre.contains(x) || t_done.data_seq().contains(x));
                if t_done.data_seq().contains(x) {
                    let w = choose|w: int|
                        0 <= w < t_done.data_seq().len() && t_done.data_seq()[w] == x;
                    assert(v.contains(x));
                }
            }
            if g.node_seq().contains(x) {
                assert(v.contains(x));
            }
        }
        assert(forest_data(f).len() == g.node_seq().len());
        assert forall|fi: int, x: usize|
            0 <= fi < f.len() && #[trigger] reaches(g, f[fi].data_seq()[0], x)
                implies forest_data(f.take(fi + 1)).contains(x) by {
            let pre = f.take(fi + 1);
            assert(prefix_closed(g, f, fi)) by {
                if fi < f.len() - 1 {
                    assert(f.take(fi + 1) =~= f_pre.take(fi + 1));
                    assert(prefix_closed(g, f_pre, fi));
                } else {
                    assert(f.take(fi + 1) =~= f);
                    assert forall|x2: usize, y2: usize|
                        forest_data(f.take(fi + 1)).contains(x2) && #[trigger] edge_to(g, x2, y2)
                            implies forest_data(f.take(fi + 1)).contains(y2) by {
                        assert(forest_data(f).contains(x2));
                        assert(g.node_seq().contains(y2)) by {
                            assert(g.node_seq().contains(x2));
                        }
                        assert(forest_data(f).contains(y2));
                    }
                }
            }
            // the root of tree fi lies inside its own prefix
            assert(pre =~= f.take(fi).push(f[fi]));
            lemma_forest_data_push(f.take(fi), f[fi]);
            assert(forest_data(pre) == forest_data(f.take(fi)) + f[fi].data_seq());
            assert(valid_forest_tree(g, f[fi]));
            let root = f[fi].data_seq()[0];
            assert(forest_data(pre).contains(root)) by {
                assert(forest_data(pre)[forest_data(f.take(fi)).len() as int] == root);
            }
            lemma_closed_set_reaches(g, root, forest_data(pre), x);
        }
        if f_pre.len() == 0 {
            assert(f[0] == t_done);
            assert(t_done.data_seq()[0] == start);
            assert(fd_pre.len() == 0);
            assert forall|x: usize|
                (#[trigger] f[0].data_seq().contains(x)) <==> reaches(g, start, x) by {
                if t_done.data_seq().contains(x) {
                    let w = choose|w: int|
                        0 <= w < t_done.data_seq().len() && t_done.data_seq()[w] == x;
                }
                if reaches(g, start, x) {
                    lemma_reaches_live(g, start, x);
                    assert(v.contains(x));
                    assert(t_done.data_seq().contains(x));
                }
            }
        } else {
            assert(f[0] == f_pre[0]);
            assert forall|x: usize|
                (#[trigger] f[0].data_seq().contains(x)) <==> reaches(g, start, x) by {
                assert(f_pre[0].data_seq().contains(x) <==> reaches(g, start, x));
            }
        }
    }

/// Depth-first traversal of the whole graph: repeat depth-first
/// traversal, first from `start` and then from the smallest node not yet
/// visited, until every live node is covered; each repetition appends
/// one tree to the forest.
///
/// The trees partition the live nodes, so their total node count equals
/// `num_nodes()`; the first tree holds exactly the component of `start`.
#[verifier::loop_isolation(false)]
#[verifier::rlimit(100)]
pub fn df_trav_all<T, G: Graph<T>>(g: &G, start: NodeIndex) -> (r: GraphResult<Forest<NodeIndex>>)
    requires
        g.wf(),
    ensures
        g.node_seq().len() == 0 ==> (r matches Ok(f) && f@.len() == 0),
        g.node_seq().len() > 0 && !g.node_seq().contains(start) ==> r == Err::<
            Forest<NodeIndex>,
            GraphError,
        >(GraphError::invalid_index(start)),
        g.node_seq().len() > 0 && g.node_seq().contains(start) ==> (r matches Ok(f) && {
            &&& f@.len() >= 1
            &&& forall|fi: int| 0 <= fi < f@.len() ==> valid_forest_tree(g, #[trigger] f@[fi])
            &&& forest_data(f@).no_duplicates()
            &&& forall|x: usize|
                #[trigger] forest_data(f@).contains(x) <==> g.node_seq().contains(x)
            &&& forest_data(f@).len() == g.node_seq().len()
            &&& f@[0].data_seq()[0] == start
            &&& forall|x: usize|
                #[trigger] f@[0].data_seq().contains(x) <==> reaches(g, start, x)
            &&& forall|fi: int, x: usize|
                0 <= fi < f@.len() && #[trigger] reaches(g, f@[fi].data_seq()[0], x)
                    ==> forest_data(f@.take(fi + 1)).contains(x)
        }),
{
    let mut forest: Forest<NodeIndex> = Vec::new();
    let mut tree: Tree<NodeIndex> = Tree::new();
    if g.num_nodes() == 0 {
        return Ok(forest);
    }
    match g.adj(start) {
        Err(e) => {
            return Err(e);
        },
        Ok(_) => {},
    }
    proof {
        g.lemma_wf();
        lemma_reaches_refl(g, start);
    }
    let mut visited = NodeIndexSet::new();
    let mut unvisited = NodeIndexSet::from_sorted(g.node_indices());
    let mut stack: Vec<(NodeIndex, Option<NodeIndex>)> = Vec::new();
    stack.push((start, None));
    proof {
        assert(stack@ =~= seq![(start, Option::<NodeIndex>::None)]);
        assert(stack@[0] == (start, Option::<NodeIndex>::None));
        assert(forest_data(forest@) =~= Seq::<usize>::empty());
        assert(tree.data_seq().len() == 0);
        assert(visited@.len() == 0);
        assert forall|x: usize| !(#[trigger] visited@.contains(x)) by {}
        assert forall|x: usize| !(#[trigger] forest_data(forest@).contains(x)) by {}
        assert(forest_data(forest@).no_duplicates());
        assert forall|x: usize|
            #[trigger] unvisited@.contains(x) <==> g.node_seq().contains(x)
                && !visited@.contains(x) by {}
    }
    while stack.len() > 0 || !unvisited.is_empty()
        invariant
            visited.wf(),
            unvisited.wf(),
            forall|x: usize|
                #[trigger] unvisited@.contains(x) <==> g.node_seq().contains(x)
                    && !visited@.contains(x),
            forall|x: usize| #[trigger] visited@.contains(x) ==> g.node_seq().contains(x),
            visited@.len() <= g.node_seq().len(),
            tree.wf(),
            tree.size() > 0 ==> tree.parent_of(0) is None,
            forall|k: int|
                0 <= k < tree.size() ==> visited@.contains(#[trigger] tree.data_seq()[k]),
            forall|k: int, l: int|
                0 <= k < tree.size() && 0 <= l < tree.size() && k != l ==> tree.data_seq()[k]
                    != tree.data_seq()[l],
            forall|k: int|
                0 <= k < tree.size() ==> !forest_data(forest@).contains(
                    #[trigger] tree.data_seq()[k],
                ),
            forall|k: int|
                0 <= k < tree.size() ==> reaches(
                    g,
                    tree.data_seq()[0],
                    #[trigger] tree.data_seq()[k],
                ),
            forall|k: int|
                1 <= k < tree.size() ==> ((#[trigger] tree.parent_of(k)) matches Some(p) && 0 <= p
                    < k && edge_to(g, tree.data_seq()[p as int], tree.data_seq()[k])),
            forall|k: int|
                0 <= k < stack@.len() ==> g.node_seq().contains((#[trigger] stack@[k]).0),
            tree.size() > 0 ==> (forall|k: int|
                0 <= k < stack@.len() ==> reaches(
                    g,
                    tree.data_seq()[0],
                    (#[trigger] stack@[k]).0,
                )),
            forall|k: int|
                0 <= k < stack@.len() ==> ((#[trigger] stack@[k]).1 matches Some(p) ==> 0 <= p
                    < tree.size() && edge_to(g, tree.data_seq()[p as int], stack@[k].0)),
            tree.size() == 0 ==> stack@.len() == 1 && stack@[0].1 is None
                && !visited@.contains(stack@[0].0),
            tree.size() > 0 ==> (forall|k: int|
                0 <= k < stack@.len() ==> (#[trigger] stack@[k]).1 is Some),
            stack@.len() == 0 ==> tree.size() > 0,
            forest_data(forest@).no_duplicates(),
            forall|x: usize| #[trigger] forest_data(forest@).contains(x) ==> visited@.contains(x),
            forall|x: usize|
                #[trigger] visited@.contains(x) ==> forest_data(forest@).contains(x)
                    || tree.data_seq().contains(x),
            forest_data(forest@).len() + tree.size() == visited@.len(),
            forall|fi: int|
                0 <= fi < forest@.len() ==> valid_forest_tree(g, #[trigger] forest@[fi]),
            forall|fi: int| 0 <= fi < forest@.len() ==> prefix_closed(g, forest@, fi),
            forest@.len() >= 1 ==> forest@[0].data_seq()[0] == start,
            forest@.len() == 0 && tree.size() > 0 ==> tree.data_seq()[0] == start,
            forest@.len() == 0 && tree.size() == 0 ==> stack@[0].0 == start,
            forall|x: usize|
                forest@.len() >= 1 ==> ((#[trigger] forest@[0].data_seq().contains(x)) <==> reaches(
                    g,
                    start,
                    x,
                )),
            forall|x: usize, j: usize|
                visited@.contains(x) && #[trigger] edge_to(g, x, j) ==> visited@.contains(j)
                    || on_stack(stack@, j),
        decreases
                g.node_seq().len() - visited@.len(),
                (if tree.size() == 0 {
                    0int
                } else {
                    1int
                }),
                stack@.len(),
    {
        if stack.len() == 0 {
            // the last component is exhausted: bank its tree and restart
            // the traversal from the smallest unvisited node
            proof {
                assert forall|x: usize, y: usize|
                    visited@.contains(x) && #[trigger] edge_to(g, x, y) implies visited@.contains(
                    y,
                ) by {
                    if !visited@.contains(y) {
                        reveal(on_stack);
                        assert(on_stack(stack@, y));
                        let k = choose|k: int|
                            0 <= k < stack@.len() && (#[trigger] stack@[k]).0 == y;
                        assert(false);
                    }
                }
            }
            let ghost v_closed = visited@;
            let ghost fd_pre = forest_data(forest@);
            let ghost f_prev = forest@;
            let ghost t_done = tree;
            let another = unvisited.get(0);
            forest.push(tree);
            tree = Tree::new();
            stack.push((another, None));
            proof {
                assert(forest@ == f_prev.push(t_done));
                lemma_forest_data_push(f_prev, t_done);
                assert(forest_data(forest@) == fd_pre + t_done.data_seq());
                lemma_concat_fresh(fd_pre, t_done.data_seq());
                assert forall|x: usize|
                    #[trigger] forest_data(forest@).contains(x) implies visited@.contains(x) by {
                    if t_done.data_seq().contains(x) {
                        let w = choose|w: int|
                            0 <= w < t_done.data_seq().len() && t_done.data_seq()[w] == x;
                    }
                }
                assert forall|x: usize|
                    #[trigger] visited@.contains(x) implies forest_data(forest@).contains(x)
                    || tree.data_seq().contains(x) by {
                    assert(fd_pre.contains(x) || t_done.data_seq().contains(x));
                    assert(forest_data(forest@).contains(x));
                }
                assert(stack@ =~= seq![(another, Option::<NodeIndex>::None)]);
                assert(unvisited@.contains(another)) by {
                    assert(unvisited@[0] == another);
                }
                assert(tree.data_seq().len() == 0);
                assert forall|fi: int|
                    0 <= fi < forest@.len() implies valid_forest_tree(
                    g,
                    #[trigger] forest@[fi],
                ) by {
                    if fi < forest@.len() - 1 {
                        assert(forest@[fi] == f_prev[fi]);
                    } else {
                        assert(forest@[fi] == t_done);
                        assert(t_done.data_seq().no_duplicates()) by {
                            assert forall|k: int, l: int|
                                0 <= k < t_done.data_seq().len() && 0 <= l
                                    < t_done.data_seq().len() && k
                                    != l implies t_done.data_seq()[k] != t_done.data_seq()[l] by {}
                        }
                        assert forall|x: usize|
                            #[trigger] t_done.data_seq().contains(x) implies g.node_seq().contains(
                            x,
                        ) && reaches(g, t_done.data_seq()[0], x) by {
                            let w = choose|w: int|
                                0 <= w < t_done.data_seq().len() && t_done.data_seq()[w] == x;
                        }
                    }
                }
                assert forall|fi: int|
                    0 <= fi < forest@.len() implies prefix_closed(g, forest@, fi) by {
                    assert(forest@.take(fi + 1) =~= if fi < forest@.len() - 1 {
                        f_prev.take(fi + 1)
                    } else {
                        forest@
                    });
                    if fi < forest@.len() - 1 {
                        assert(prefix_closed(g, f_prev, fi));
                    } else {
                        assert(forest@.take(fi + 1) == forest@);
                        assert forall|x: usize, y: usize|
                            forest_data(forest@.take(fi + 1)).contains(x) && #[trigger] edge_to(
                                g,
                                x,
                                y,
                            ) implies forest_data(forest@.take(fi + 1)).contains(y) by {
                            assert(forest_data(forest@).contains(x));
                            assert(v_closed.contains(x)) by {
                                if t_done.data_seq().contains(x) {
                                    let w = choose|w: int|
                                        0 <= w < t_done.data_seq().len() && t_done.data_seq()[w]
                                            == x;
                                }
                            }
                            assert(v_closed.contains(y));
                            assert(forest_data(forest@).contains(y));
                        }
                    }
                }
                // once the first tree is banked its contents are pinned:
                // they are exactly the component of start
                if forest@.len() == 1 {
                    assert(forest@[0] == t_done);
                    assert(t_done.data_seq()[0] == start);
                    assert(fd_pre.len() == 0);
                    assert(v_closed.contains(start)) by {
                        assert(t_done.data_seq().contains(start)) by {
                            assert(t_done.data_seq()[0] == start);
                        }
                    }
                    assert forall|x: usize|
                        (#[trigger] forest@[0].data_seq().contains(x)) <==> reaches(
                        g,
                        start,
                        x,
                    ) by {
                        if t_done.data_seq().contains(x) {
                            let w = choose|w: int|
                                0 <= w < t_done.data_seq().len() && t_done.data_seq()[w] == x;
                        }
                        if reaches(g, start, x) {
                            lemma_closed_set_reaches(g, start, v_closed, x);
                            assert(t_done.data_seq().contains(x));
                        }
                    }
                } else {
                    assert(forest@[0] == f_prev[0]);
                }
            }
        } else {
            let ghost st_old = stack@;
            let pair = stack.pop().unwrap();
            let ind = pair.0;
            let parent = pair.1;
            let ghost st_pop = stack@;
            proof {
                assert(st_old[st_old.len() - 1] == pair);
                assert(forall|k: int| 0 <= k < st_pop.len() ==> st_pop[k] == st_old[k]);
            }
            if !visited.contains(ind) {
                let tree_ind = tree.num_nodes();
                let ghost v_pre = visited@;
                let ghost data_pre = tree.data_seq();
                visited.insert(ind);
                unvisited.remove(ind);
                proof {
                    lemma_sorted_subset_len(visited@, g.node_seq());
                }
                match parent {
                    None => {
                        proof {
                            assert(tree.size() == 0) by {
                                if tree.size() > 0 {
                                    assert(st_old[st_old.len() - 1].1 is Some);
                                }
                            }
                            lemma_reaches_refl(g, ind);
                        }
                        tree.add_root(ind);
                    },
                    Some(p) => {
                        proof {
                            assert(tree.size() > 0) by {
                                if tree.size() == 0 {
                                    assert(st_old[0].1 is None);
                                    assert(st_old.len() == 1);
                                }
                            }
                            assert(0 <= p < tree.size());
                        }
                        tree.add_child(p, ind);
                    },
                }
                proof {
                    assert(tree.data_seq() =~= data_pre.push(ind));
                    assert(tree.data_seq()[tree.size() - 1] == ind);
                    assert(forall|k: int|
                        0 <= k < data_pre.len() ==> #[trigger] tree.data_seq()[k] == data_pre[k]);
                    assert(reaches(g, tree.data_seq()[0], ind)) by {
                        if data_pre.len() == 0 {
                            lemma_reaches_refl(g, ind);
                        }
                    }
                    assert forall|k: int, l: int|
                        0 <= k < tree.size() && 0 <= l < tree.size() && k
                            != l implies tree.data_seq()[k] != tree.data_seq()[l] by {
                        if k < data_pre.len() && l < data_pre.len() {
                        } else if l == data_pre.len() {
                            assert(v_pre.contains(data_pre[k]));
                        } else if k == data_pre.len() {
                            assert(v_pre.contains(data_pre[l]));
                        }
                    }
                }
                let neigh = match g.adj(ind) {
                    Ok(v) => v,
                    Err(e) => {
                        return Err(e);
                    },
                };
                let ghost st_base = stack@;
                let mut kk: usize = 0;
                while kk < neigh.len()
                    invariant
                        kk <= neigh@.len(),
                        neigh@ == g.out_seq(ind),
                        stack@ == st_base + neigh@.take(kk as int).map_values(
                            |j: usize| (j, Some(tree_ind)),
                        ),
                    decreases neigh@.len() - kk,
                {
                    let j = neigh[kk];
                    stack.push((j, Some(tree_ind)));
                    proof {
                        assert(stack@ =~= st_base + neigh@.take(kk + 1).map_values(
                            |j2: usize| (j2, Some(tree_ind)),
                        ));
                    }
                    kk = kk + 1;
                }
                proof {
                    assert(neigh@.take(neigh@.len() as int) =~= neigh@);
                    let added = neigh@.map_values(|j2: usize| (j2, Some(tree_ind)));
                    assert(stack@ == st_base + added);
                    assert(forall|w: int|
                        0 <= w < added.len() ==> #[trigger] added[w] == (
                        neigh@[w],
                        Some(tree_ind),
                    ));
                    assert(forall|k: int|
                        0 <= k < st_base.len() ==> #[trigger] stack@[k] == st_base[k]);
                    assert(forall|w: int|
                        0 <= w < added.len() ==> #[trigger] stack@[st_base.len() + w] == added[w]);
                    assert(tree_ind < tree.size() && tree.data_seq()[tree_ind as int] == ind);
                    assert forall|k: int|
                        0 <= k < stack@.len() implies g.node_seq().contains(
                        (#[trigger] stack@[k]).0) && reaches(g, tree.data_seq()[0], stack@[k].0) by {
                        if k < st_base.len() {
                            assert(st_base[k] == st_old[k]);
                            assert(data_pre.len() > 0) by {
                                if data_pre.len() == 0 {
                                    assert(st_old.len() == 1);
                                    assert(k < 0);
                                }
                            }
                            assert(reaches(g, data_pre[0], st_old[k].0));
                            assert(tree.data_seq()[0] == data_pre[0]);
                        } else {
                            let w = k - st_base.len();
                            assert(stack@[k] == (neigh@[w], Some(tree_ind)));
                            assert(g.out_seq(ind)[w] == neigh@[w]);
                            assert(g.out_seq(ind).contains(neigh@[w]));
                            assert(g.node_seq().contains(neigh@[w]));
                            assert(reaches(g, tree.data_seq()[0], ind));
                            lemma_reaches_step(g, tree.data_seq()[0], ind, neigh@[w]);
                        }
                    }
                    assert forall|k: int|
                        0 <= k < stack@.len() implies ((#[trigger] stack@[k]).1 matches Some(p)
                        ==> 0 <= p < tree.size() && edge_to(
                        g,
                        tree.data_seq()[p as int],
                        stack@[k].0,
                    )) by {
                        if k < st_base.len() {
                            assert(st_base[k] == st_old[k]);
                            match st_old[k].1 {
                                Some(p) => {
                                    assert(p < data_pre.len());
                                    assert(tree.data_seq()[p as int] == data_pre[p as int]);
                                },
                                None => {},
                            }
                        } else {
                            let w = k - st_base.len();
                            assert(stack@[k] == (neigh@[w], Some(tree_ind)));
                            assert(g.out_seq(ind).contains(neigh@[w])) by {
                                assert(g.out_seq(ind)[w] == neigh@[w]);
                            }
                        }
                    }
                    assert forall|k: int|
                        0 <= k < stack@.len() implies (#[trigger] stack@[k]).1 is Some by {
                        if k < st_base.len() {
                            assert(st_base[k] == st_old[k]);
                            if st_old[k].1 is None {
                                assert(data_pre.len() == 0) by {
                                    if data_pre.len() > 0 {
                                        assert(st_old[k].1 is Some);
                                    }
                                }
                                assert(st_old.len() == 1);
                                assert(k < 0);
                            }
                        }
                    }
                    assert(forest@.len() == 0 && tree.size() > 0 ==> tree.data_seq()[0]
                        == start) by {
                        if data_pre.len() == 0 {
                            assert(st_old[0].1 is None);
                            assert(st_old.len() == 1);
                        }
                    }
                    assert forall|x: usize|
                        #[trigger] visited@.contains(x) implies forest_data(forest@).contains(x)
                        || tree.data_seq().contains(x) by {
                        if x == ind {
                            assert(tree.data_seq()[data_pre.len() as int] == ind);
                        } else {
                            assert(v_pre.contains(x));
                            if data_pre.contains(x) {
                                let w = choose|w: int|
                                    0 <= w < data_pre.len() && data_pre[w] == x;
                                assert(tree.data_seq()[w] == x);
                            }
                        }
                    }
                    assert forall|x: usize, j0: usize|
                        visited@.contains(x) && #[trigger] edge_to(g, x, j0)
                            implies visited@.contains(j0) || on_stack(stack@, j0) by {
                        reveal(on_stack);
                        if x == ind {
                            let w = choose|w: int|
                                0 <= w < g.out_seq(ind).len() && #[trigger] g.out_seq(ind)[w]
                                    == j0;
                            assert(stack@[st_base.len() + w] == (neigh@[w], Some(tree_ind)));
                            assert(stack@[st_base.len() + w].0 == j0);
                        } else {
                            assert(v_pre.contains(x));
                            if !v_pre.contains(j0) && !visited@.contains(j0) {
                                assert(on_stack(st_old, j0));
                                let k = choose|k: int|
                                    0 <= k < st_old.len() && (#[trigger] st_old[k]).0 == j0;
                                assert(k < st_old.len() - 1) by {
                                    if k == st_old.len() - 1 {
                                        assert(st_old[k].0 == ind);
                                        assert(visited@.contains(ind));
                                    }
                                }
                                assert(stack@[k] == st_base[k]);
                                assert(stack@[k].0 == j0);
                            }
                        }
                    }
                }
            } else {
                proof {
                    assert forall|x: usize, j0: usize|
                        visited@.contains(x) && #[trigger] edge_to(g, x, j0)
                            implies visited@.contains(j0) || on_stack(stack@, j0) by {
                        reveal(on_stack);
                        if !visited@.contains(j0) {
                            assert(on_stack(st_old, j0));
                            let k = choose|k: int|
                                0 <= k < st_old.len() && (#[trigger] st_old[k]).0 == j0;
                            assert(k < st_old.len() - 1) by {
                                if k == st_old.len() - 1 {
                                    assert(st_old[k].0 == ind);
                                    assert(visited@.contains(ind));
                                }
                            }
                            assert(stack@[k].0 == j0);
                        }
                    }
                    assert(tree.size() > 0) by {
                        if tree.size() == 0 {
                            assert(!visited@.contains(st_old[0].0));
                        }
                    }
                }
            }
        }
    }
    let ghost fd_pre = forest_data(forest@);
    let ghost t_done = tree;
    let ghost f_pre = forest@;
    forest.push(tree);
    proof {
        assert(forest@ == f_pre.push(t_done));
        lemma_forest_exit(g, start, forest@, f_pre, t_done, visited@, unvisited@);
    }
    Ok(forest)
}

} // verus!
