//! Index-addressed rooted tree, the result structure of a traversal.
//!
//! Tree nodes get dense indices in insertion order; every node but the
//! root records the index of its parent, which is always inserted
//! earlier, so a tree has no cycles by construction.

use vstd::prelude::*;
use vstd::pervasive::VecAdditionalExecFns;

use crate::graph::NodeIndex;
use crate::index_set::NodeIndexSet;

verus! {

/// A tree node: a payload, its own index, and its parent (`None` only
/// for the root).
pub struct TreeNode<T> {
    pub data: T,
    pub index: NodeIndex,
    pub parent: Option<NodeIndex>,
}

/// A rooted tree with an optional root (`None` exactly when the tree is
/// empty).
pub struct Tree<T> {
    root: Option<NodeIndex>,
    nodes: Vec<TreeNode<T>>,
    children: Vec<NodeIndexSet>,
    num_nodes: usize,
}

impl<T> Tree<T> {
    /// The number of nodes, which is the length of `data_seq`.
    pub open spec fn size(&self) -> nat {
        self.data_seq().len()
    }

    /// The payloads, in insertion order.
    pub closed spec fn data_seq(&self) -> Seq<T> {
        self.nodes@.map_values(|n: TreeNode<T>| n.data)
    }

    /// The parent of node `k` (`None` only for the root).
    pub closed spec fn parent_of(&self, k: int) -> Option<NodeIndex> {
        self.nodes@[k].parent
    }

    /// The children of node `p`, in increasing order.
    pub closed spec fn children_of(&self, p: int) -> Seq<usize> {
        self.children@[p]@
    }

    /// The root index: `None` exactly when the tree is empty.
    pub closed spec fn root_spec(&self) -> Option<NodeIndex> {
        self.root
    }

    /// Structural invariant: nodes are densely indexed in insertion
    /// order, the root is node 0, every other node names an earlier
    /// parent, and the children sets mirror the parent references.
    pub closed spec fn wf(&self) -> bool {
        &&& self.nodes@.len() == self.children@.len()
        &&& self.num_nodes == self.nodes@.len()
        &&& self.root == (if self.nodes@.len() == 0 {
            Option::<NodeIndex>::None
        } else {
            Option::<NodeIndex>::Some(0usize)
        })
        &&& forall|k: int| 0 <= k < self.nodes@.len() ==> (#[trigger] self.nodes@[k]).index == k
        &&& forall|k: int|
            0 <= k < self.nodes@.len() ==> ((#[trigger] self.nodes@[k]).parent is None <==> k == 0)
        &&& forall|k: int|
            0 <= k < self.nodes@.len() ==> ((#[trigger] self.nodes@[k]).parent matches Some(p)
                ==> p < k)
        &&& forall|k: int| 0 <= k < self.children@.len() ==> (#[trigger] self.children@[k]).wf()
        &&& forall|p: int, c: usize|
            0 <= p < self.children@.len() && (#[trigger] self.children@[p]@.contains(c)) ==> c
                < self.nodes@.len() && self.nodes@[c as int].parent == Some(p as usize)
        &&& forall|c: int|
            0 <= c < self.nodes@.len() ==> ((#[trigger] self.nodes@[c]).parent matches Some(p)
                ==> self.children@[p as int]@.contains(c as usize))
    }

    /// An empty tree.
    pub fn new() -> (r: Tree<T>)
        ensures
            r.wf(),
            r.size() == 0,
            r.data_seq() == Seq::<T>::empty(),
            r.root_spec() is None,
    {
        let r = Tree { root: None, nodes: Vec::new(), children: Vec::new(), num_nodes: 0 };
        proof {
            assert(r.data_seq() =~= Seq::<T>::empty());
        }
        r
    }

    /// A tree holding a single root node.
    pub fn with_root(val: T) -> (r: Tree<T>)
        ensures
            r.wf(),
            r.size() == 1,
            r.data_seq() =~= seq![val],
            r.parent_of(0) is None,
            r.root_spec() == Some(0usize),
    {
        let root = TreeNode { data: val, index: 0, parent: None };
        let mut nodes: Vec<TreeNode<T>> = Vec::new();
        nodes.push(root);
        let mut children: Vec<NodeIndexSet> = Vec::new();
        children.push(NodeIndexSet::new());
        Tree { root: Some(0), nodes, children, num_nodes: 1 }
    }

    /// Add a root to an empty tree.
    pub fn add_root(&mut self, val: T)
        requires
            old(self).wf(),
            old(self).size() == 0,
        ensures
            final(self).wf(),
            final(self).size() == 1,
            final(self).data_seq() =~= seq![val],
            final(self).parent_of(0) is None,
            final(self).root_spec() == Some(0usize),
    {
        self.add_node(None, val);
    }

    /// Add a child of the node `parent`.
    pub fn add_child(&mut self, parent: NodeIndex, val: T)
        requires
            old(self).wf(),
            parent < old(self).size(),
            old(self).size() < usize::MAX,
        ensures
            final(self).wf(),
            final(self).size() == old(self).size() + 1,
            final(self).data_seq() == old(self).data_seq().push(val),
            final(self).parent_of(old(self).size() as int) == Some(parent),
            forall|k: int|
                0 <= k < old(self).size() ==> final(self).parent_of(k) == old(self).parent_of(k),
            final(self).root_spec() == old(self).root_spec(),
    {
        self.add_node(Some(parent), val);
    }

    /// Append a node under the given parent, assigning the next index.
    fn add_node(&mut self, parent: Option<NodeIndex>, val: T) -> (r: NodeIndex)
        requires
            old(self).wf(),
            parent matches Some(p) ==> p < old(self).size(),
            parent is None ==> old(self).size() == 0,
            old(self).size() < usize::MAX,
        ensures
            final(self).wf(),
            r == old(self).size(),
            final(self).size() == old(self).size() + 1,
            final(self).data_seq() == old(self).data_seq().push(val),
            final(self).parent_of(r as int) == parent,
            forall|k: int|
                0 <= k < old(self).size() ==> final(self).parent_of(k) == old(self).parent_of(k),
            final(self).root_spec() == (if old(self).size() == 0 {
                Some(r)
            } else {
                old(self).root_spec()
            }),
    {
        let ind = self.num_nodes;
        let node = TreeNode { data: val, index: ind, parent };
        self.nodes.push(node);
        self.children.push(NodeIndexSet::new());
        match parent {
            Some(p) => {
                let mut s = self.children[p].duplicate();
                s.insert(ind);
                self.children.set(p, s);
                proof {
                    assert(!old(self).children@[p as int]@.contains(ind)) by {
                        if old(self).children@[p as int]@.contains(ind) {
                            assert(old(self).nodes@[ind as int].parent == Some(p));
                        }
                    }
                }
            },
            None => {
                self.root = Some(ind);
            },
        }
        self.num_nodes = self.num_nodes + 1;
        proof {
            assert(final(self).data_seq() =~= old(self).data_seq().push(val));
            assert(self.wf()) by {
                assert forall|k: int|
                    0 <= k < self.nodes@.len() implies (#[trigger] self.nodes@[k]).index == k && (
                self.nodes@[k].parent is None <==> k == 0) && (self.nodes@[k].parent matches Some(
                    q,
                ) ==> q < k) by {
                    if k < old(self).nodes@.len() {
                        assert(self.nodes@[k] == old(self).nodes@[k]);
                    }
                }
                assert forall|p2: int, c: usize|
                    0 <= p2 < self.children@.len() && (#[trigger] self.children@[p2]@.contains(
                        c,
                    )) implies c < self.nodes@.len() && self.nodes@[c as int].parent == Some(
                    p2 as usize,
                ) by {
                    if parent matches Some(p) && p2 == p {
                        if c != ind {
                            assert(old(self).children@[p2]@.contains(c));
                            assert(self.nodes@[c as int] == old(self).nodes@[c as int]);
                        }
                    } else if p2 < old(self).children@.len() {
                        assert(self.children@[p2] == old(self).children@[p2]);
                        assert(old(self).children@[p2]@.contains(c));
                        assert(self.nodes@[c as int] == old(self).nodes@[c as int]);
                    } else {
                        assert(self.children@[p2]@ == Seq::<usize>::empty());
                    }
                }
                assert forall|c: int|
                    0 <= c < self.nodes@.len() implies ((#[trigger] self.nodes@[c]).parent
                    matches Some(p2) ==> self.children@[p2 as int]@.contains(c as usize)) by {
                    if c < old(self).nodes@.len() {
                        assert(self.nodes@[c] == old(self).nodes@[c]);
                        match old(self).nodes@[c].parent {
                            Some(p2) => {
                                assert(old(self).children@[p2 as int]@.contains(c as usize));
                                if parent != Some(p2) {
                                    assert(self.children@[p2 as int] == old(
                                        self,
                                    ).children@[p2 as int]);
                                }
                            },
                            None => {},
                        }
                    }
                }
            }
        }
        ind
    }

    /// The number of nodes.
    pub fn num_nodes(&self) -> (r: usize)
        requires
            self.wf(),
        ensures
            r == self.size(),
    {
        self.num_nodes
    }

    /// The root index, `None` when the tree is empty.
    pub fn root(&self) -> (r: Option<NodeIndex>)
        requires
            self.wf(),
        ensures
            r == self.root_spec(),
    {
        self.root
    }

    /// The node stored under index `k`.
    pub fn get_node(&self, k: NodeIndex) -> (r: &TreeNode<T>)
        requires
            self.wf(),
            k < self.size(),
        ensures
            r.index == k,
            r.data == self.data_seq()[k as int],
            r.parent == self.parent_of(k as int),
    {
        &self.nodes[k]
    }

    /// The set of children of node `k`.
    pub fn get_children(&self, k: NodeIndex) -> (r: &NodeIndexSet)
        requires
            self.wf(),
            k < self.size(),
        ensures
            r@ == self.children_of(k as int),
            r.wf(),
    {
        &self.children[k]
    }
}

} // verus!
