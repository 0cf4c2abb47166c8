use graphlib::graph::digraph::Digraph;
use graphlib::graph::ungraph::Ungraph;
use graphlib::graph::{Graph, GraphError, GraphErrorType};
use graphlib::traversal::{bf_trav, df_trav, df_trav_all};
use graphlib::tree::Tree;

fn invalid(ind: usize) -> GraphError {
    GraphError { error_type: GraphErrorType::InvalidNodeIndex(ind) }
}

fn tree_payloads(t: &Tree<usize>) -> Vec<usize> {
    let mut out: Vec<usize> = Vec::new();
    for k in 0..t.num_nodes() {
        out.push(t.get_node(k).data);
    }
    out.sort();
    out
}

#[test]
fn bfs_on_empty_graph_returns_empty_tree() {
    let g: Ungraph<char> = Ungraph::new();
    let t = bf_trav(&g, 0).unwrap();
    assert_eq!(t.num_nodes(), 0);
    assert_eq!(t.root(), None);
}

#[test]
fn dfs_on_empty_graph_returns_empty_tree() {
    let g: Digraph<char> = Digraph::new();
    let t = df_trav(&g, 3).unwrap();
    assert_eq!(t.num_nodes(), 0);
}

#[test]
fn traversal_from_dead_index_fails() {
    let mut g: Ungraph<char> = Ungraph::new();
    g.add_node('a');
    assert_eq!(bf_trav(&g, 7).err(), Some(invalid(7)));
    assert_eq!(df_trav(&g, 7).err(), Some(invalid(7)));
    assert_eq!(df_trav_all(&g, 7).err(), Some(invalid(7)));
}

#[test]
fn bfs_tree_has_root_and_direct_children() {
    // the a, b, c scenario: edges (0,1) and (0,2); BFS from 0 gives a
    // tree rooted at 0 whose children are 1 and 2
    let mut g: Ungraph<char> = Ungraph::new();
    let a = g.add_node('a');
    let b = g.add_node('b');
    let c = g.add_node('c');
    g.add_edge(a, b).unwrap();
    g.add_edge(a, c).unwrap();
    assert_eq!(g.degree(a), Ok(2));
    assert_eq!(g.degree(b), Ok(1));
    let t = bf_trav(&g, a).unwrap();
    assert_eq!(t.num_nodes(), 3);
    assert_eq!(t.root(), Some(0));
    assert_eq!(t.get_node(0).data, a);
    assert_eq!(t.get_node(0).parent, None);
    let kids = t.get_children(0).to_vec();
    let mut kid_payloads: Vec<usize> = kids.iter().map(|&k| t.get_node(k).data).collect();
    kid_payloads.sort();
    assert_eq!(kid_payloads, vec![b, c]);
}

#[test]
fn bfs_visits_exactly_the_connected_component() {
    // two components: {0, 1, 2} and {3, 4}
    let mut g: Ungraph<char> = Ungraph::new();
    let a = g.add_node('a');
    let b = g.add_node('b');
    let c = g.add_node('c');
    let d = g.add_node('d');
    let e = g.add_node('e');
    g.add_edge(a, b).unwrap();
    g.add_edge(b, c).unwrap();
    g.add_edge(d, e).unwrap();
    let t = bf_trav(&g, a).unwrap();
    assert_eq!(tree_payloads(&t), vec![a, b, c]);
    let t2 = bf_trav(&g, e).unwrap();
    assert_eq!(tree_payloads(&t2), vec![d, e]);
}

#[test]
fn dfs_visits_exactly_the_reachable_set() {
    // 0 -> 1 -> 2, 3 -> 0: from 0 only {0, 1, 2} is reachable
    let mut g: Digraph<char> = Digraph::new();
    let a = g.add_node('a');
    let b = g.add_node('b');
    let c = g.add_node('c');
    let d = g.add_node('d');
    g.add_edge(a, b).unwrap();
    g.add_edge(b, c).unwrap();
    g.add_edge(d, a).unwrap();
    let t = df_trav(&g, a).unwrap();
    assert_eq!(tree_payloads(&t), vec![a, b, c]);
    let t2 = df_trav(&g, d).unwrap();
    assert_eq!(tree_payloads(&t2), vec![a, b, c, d]);
}

#[test]
fn traversal_trees_link_each_node_to_an_earlier_parent() {
    let mut g: Ungraph<char> = Ungraph::new();
    let a = g.add_node('a');
    let b = g.add_node('b');
    let c = g.add_node('c');
    let d = g.add_node('d');
    g.add_edge(a, b).unwrap();
    g.add_edge(b, c).unwrap();
    g.add_edge(c, d).unwrap();
    g.add_edge(d, a).unwrap();
    for t in [bf_trav(&g, a).unwrap(), df_trav(&g, a).unwrap()] {
        assert_eq!(t.num_nodes(), 4);
        assert_eq!(t.get_node(0).parent, None);
        for k in 1..t.num_nodes() {
            let p = t.get_node(k).parent.unwrap();
            assert!(p < k);
            // the tree edge is a graph edge
            assert!(g.are_adj(t.get_node(p).data, t.get_node(k).data));
        }
    }
}

#[test]
fn forest_covers_every_node_exactly_once() {
    // three components: {0, 1}, {2}, {3, 4}
    let mut g: Ungraph<char> = Ungraph::new();
    let a = g.add_node('a');
    let b = g.add_node('b');
    let c = g.add_node('c');
    let d = g.add_node('d');
    let e = g.add_node('e');
    g.add_edge(a, b).unwrap();
    g.add_edge(d, e).unwrap();
    let forest = df_trav_all(&g, a).unwrap();
    assert_eq!(forest.len(), 3);
    let total: usize = forest.iter().map(|t| t.num_nodes()).sum();
    assert_eq!(total, g.num_nodes());
    let mut all: Vec<usize> = Vec::new();
    for t in forest.iter() {
        for k in 0..t.num_nodes() {
            all.push(t.get_node(k).data);
        }
    }
    all.sort();
    assert_eq!(all, vec![a, b, c, d, e]);
    // the first tree is the component of the start node
    assert_eq!(tree_payloads(&forest[0]), vec![a, b]);
    assert_eq!(forest[0].get_node(0).data, a);
}

#[test]
fn forest_of_empty_graph_is_empty() {
    let g: Digraph<char> = Digraph::new();
    let forest = df_trav_all(&g, 0).unwrap();
    assert_eq!(forest.len(), 0);
}

#[test]
fn forest_total_matches_after_removals() {
    let mut g: Digraph<char> = Digraph::new();
    let a = g.add_node('a');
    let b = g.add_node('b');
    let c = g.add_node('c');
    g.add_edge(a, b).unwrap();
    g.add_edge(b, c).unwrap();
    g.remove_node(b).unwrap();
    let forest = df_trav_all(&g, a).unwrap();
    let total: usize = forest.iter().map(|t| t.num_nodes()).sum();
    assert_eq!(total, g.num_nodes());
    assert_eq!(total, 2);
    assert_eq!(forest.len(), 2);
}

#[test]
fn forest_trees_take_only_nodes_not_seen_earlier() {
    // a -> b and c -> a: the first tree from a takes {a, b}, so the
    // second tree holds c alone even though a is reachable from c
    let mut g: Digraph<char> = Digraph::new();
    let a = g.add_node('a');
    let b = g.add_node('b');
    let c = g.add_node('c');
    g.add_edge(a, b).unwrap();
    g.add_edge(c, a).unwrap();
    let forest = df_trav_all(&g, a).unwrap();
    assert_eq!(forest.len(), 2);
    assert_eq!(tree_payloads(&forest[0]), vec![a, b]);
    assert_eq!(tree_payloads(&forest[1]), vec![c]);
}

#[test]
fn tree_construction_by_hand() {
    let mut t: Tree<char> = Tree::new();
    assert_eq!(t.root(), None);
    t.add_root('r');
    assert_eq!(t.root(), Some(0));
    t.add_child(0, 'x');
    t.add_child(0, 'y');
    t.add_child(1, 'z');
    assert_eq!(t.num_nodes(), 4);
    assert_eq!(t.get_node(1).data, 'x');
    assert_eq!(t.get_node(3).parent, Some(1));
    assert_eq!(t.get_children(0).to_vec(), vec![1, 2]);
    let u: Tree<char> = Tree::with_root('w');
    assert_eq!(u.num_nodes(), 1);
    assert_eq!(u.root(), Some(0));
    assert_eq!(u.get_node(0).data, 'w');
}
