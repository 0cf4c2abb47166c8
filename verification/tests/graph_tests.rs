use graphlib::graph::digraph::Digraph;
use graphlib::graph::ungraph::Ungraph;
use graphlib::graph::{Graph, GraphError, GraphErrorType};
use graphlib::index_set::NodeIndexSet;

fn invalid(ind: usize) -> GraphError {
    GraphError { error_type: GraphErrorType::InvalidNodeIndex(ind) }
}

#[test]
fn add_node_assigns_increasing_indices() {
    let mut g: Ungraph<char> = Ungraph::new();
    assert_eq!(g.add_node('a'), 0);
    assert_eq!(g.add_node('b'), 1);
    assert_eq!(g.add_node('c'), 2);
    assert_eq!(g.num_nodes(), 3);
    assert_eq!(g.node_indices(), vec![0, 1, 2]);
}

#[test]
fn add_edge_twice_returns_true_then_false_ungraph() {
    let mut g: Ungraph<char> = Ungraph::new();
    let a = g.add_node('a');
    let b = g.add_node('b');
    assert_eq!(g.add_edge(a, b), Ok(true));
    assert_eq!(g.add_edge(a, b), Ok(false));
}

#[test]
fn add_edge_twice_returns_true_then_false_digraph() {
    let mut g: Digraph<char> = Digraph::new();
    let a = g.add_node('a');
    let b = g.add_node('b');
    assert_eq!(g.add_edge(a, b), Ok(true));
    assert_eq!(g.add_edge(a, b), Ok(false));
}

#[test]
fn add_edge_rejects_dead_indices() {
    let mut g: Ungraph<char> = Ungraph::new();
    let a = g.add_node('a');
    assert_eq!(g.add_edge(5, a), Err(invalid(5)));
    assert_eq!(g.add_edge(a, 7), Err(invalid(7)));
    let mut h: Digraph<char> = Digraph::new();
    let x = h.add_node('x');
    assert_eq!(h.add_edge(9, x), Err(invalid(9)));
    assert_eq!(h.add_edge(x, 9), Err(invalid(9)));
}

#[test]
fn are_adj_is_symmetric() {
    let mut g: Ungraph<char> = Ungraph::new();
    let a = g.add_node('a');
    let b = g.add_node('b');
    let c = g.add_node('c');
    g.add_edge(a, b).unwrap();
    assert_eq!(g.are_adj(a, b), g.are_adj(b, a));
    assert_eq!(g.are_adj(a, c), g.are_adj(c, a));
    assert!(g.are_adj(a, b));
    assert!(!g.are_adj(a, c));
}

#[test]
fn out_and_in_adjacency_mirror_each_other() {
    let mut g: Digraph<char> = Digraph::new();
    let a = g.add_node('a');
    let b = g.add_node('b');
    let c = g.add_node('c');
    g.add_edge(a, b).unwrap();
    g.add_edge(c, a).unwrap();
    for &i in &[a, b, c] {
        for &j in &[a, b, c] {
            assert_eq!(g.get_out_adj(i).contains(j), g.get_in_adj(j).contains(i));
        }
    }
    assert!(g.is_out_adj_to(a, b));
    assert!(!g.is_out_adj_to(b, a));
}

#[test]
fn self_loops_are_allowed() {
    let mut g: Ungraph<char> = Ungraph::new();
    let a = g.add_node('a');
    assert_eq!(g.add_edge(a, a), Ok(true));
    assert!(g.are_adj(a, a));
    assert_eq!(g.degree(a), Ok(1));
    let mut h: Digraph<char> = Digraph::new();
    let x = h.add_node('x');
    assert_eq!(h.add_edge(x, x), Ok(true));
    assert!(h.is_out_adj_to(x, x));
    assert_eq!(h.out_degree(x), Ok(1));
    assert_eq!(h.in_degree(x), Ok(1));
}

#[test]
fn remove_node_removes_all_incident_edges() {
    let mut g: Ungraph<char> = Ungraph::new();
    let a = g.add_node('a');
    let b = g.add_node('b');
    let c = g.add_node('c');
    g.add_edge(a, b).unwrap();
    g.add_edge(a, c).unwrap();
    g.add_edge(b, c).unwrap();
    assert_eq!(g.remove_node(a), Ok(()));
    assert_eq!(g.num_nodes(), 2);
    assert_eq!(g.node_indices(), vec![b, c]);
    // no remaining adjacency ever yields the removed index
    for &i in &[b, c] {
        assert!(!g.adj(i).unwrap().contains(&a));
    }
    assert!(g.are_adj(b, c));
    assert_eq!(g.remove_node(a), Err(invalid(a)));
}

#[test]
fn remove_node_in_digraph_clears_both_directions() {
    let mut g: Digraph<char> = Digraph::new();
    let a = g.add_node('a');
    let b = g.add_node('b');
    let c = g.add_node('c');
    g.add_edge(a, b).unwrap();
    g.add_edge(b, a).unwrap();
    g.add_edge(c, a).unwrap();
    g.add_edge(a, a).unwrap();
    assert_eq!(g.remove_node(a), Ok(()));
    assert_eq!(g.num_nodes(), 2);
    for &i in &[b, c] {
        assert!(!g.adj(i).unwrap().contains(&a));
        assert!(!g.get_in_adj(i).contains(a));
        assert!(!g.get_out_adj(i).contains(a));
    }
}

#[test]
fn removed_indices_are_never_reused() {
    let mut g: Ungraph<char> = Ungraph::new();
    let a = g.add_node('a');
    let _b = g.add_node('b');
    g.remove_node(a).unwrap();
    let c = g.add_node('c');
    assert_eq!(c, 2);
    assert_eq!(g.node_indices(), vec![1, 2]);
    assert_eq!(g.degree(a), Err(invalid(a)));
}

#[test]
fn remove_edge_reports_whether_it_existed() {
    let mut g: Ungraph<char> = Ungraph::new();
    let a = g.add_node('a');
    let b = g.add_node('b');
    g.add_edge(a, b).unwrap();
    assert_eq!(g.remove_edge(a, b), Ok(true));
    assert!(!g.are_adj(a, b));
    assert!(!g.are_adj(b, a));
    assert_eq!(g.remove_edge(a, b), Ok(false));
    assert_eq!(g.remove_edge(a, 9), Err(invalid(9)));
    let mut h: Digraph<char> = Digraph::new();
    let x = h.add_node('x');
    let y = h.add_node('y');
    h.add_edge(x, y).unwrap();
    assert_eq!(h.remove_edge(y, x), Ok(false));
    assert_eq!(h.remove_edge(x, y), Ok(true));
    assert!(!h.is_out_adj_to(x, y));
}

#[test]
fn degree_counts_neighbors() {
    let mut g: Ungraph<char> = Ungraph::new();
    let a = g.add_node('a');
    let b = g.add_node('b');
    let c = g.add_node('c');
    g.add_edge(a, b).unwrap();
    g.add_edge(a, c).unwrap();
    assert_eq!(g.degree(a), Ok(2));
    assert_eq!(g.degree(b), Ok(1));
    assert_eq!(g.degree(9), Err(invalid(9)));
}

#[test]
fn in_and_out_degree_count_each_direction() {
    let mut g: Digraph<char> = Digraph::new();
    let a = g.add_node('a');
    let b = g.add_node('b');
    let c = g.add_node('c');
    g.add_edge(a, b).unwrap();
    g.add_edge(c, b).unwrap();
    assert_eq!(g.out_degree(a), Ok(1));
    assert_eq!(g.in_degree(a), Ok(0));
    assert_eq!(g.in_degree(b), Ok(2));
    assert_eq!(g.out_degree(9), Err(invalid(9)));
    assert_eq!(g.in_degree(9), Err(invalid(9)));
}

#[test]
fn get_node_returns_payload_and_index() {
    let mut g: Ungraph<char> = Ungraph::new();
    let a = g.add_node('a');
    let b = g.add_node('b');
    assert_eq!(g.get_node(a).data, 'a');
    assert_eq!(g.get_node(a).index, a);
    assert_eq!(g.get_node(b).data, 'b');
    let mut h: Digraph<char> = Digraph::new();
    let x = h.add_node('x');
    assert_eq!(h.get_node(x).data, 'x');
}

#[test]
fn adjacency_is_reported_in_increasing_order() {
    let mut g: Ungraph<char> = Ungraph::new();
    let a = g.add_node('a');
    let b = g.add_node('b');
    let c = g.add_node('c');
    g.add_edge(a, c).unwrap();
    g.add_edge(a, b).unwrap();
    assert_eq!(g.adj(a).unwrap(), vec![b, c]);
    assert_eq!(g.get_adj(a).to_vec(), vec![b, c]);
    assert_eq!(g.adj(9), Err(invalid(9)));
}

#[test]
fn induced_subgraph_keeps_exactly_inner_edges() {
    // the demo graph: a-b, a-d, a-e, b-c, c-e, d-e, d-f, e-f,
    // induced on {c, d, e, f}
    let mut y: Ungraph<char> = Ungraph::new();
    let a = y.add_node('a');
    let b = y.add_node('b');
    let c = y.add_node('c');
    let d = y.add_node('d');
    let e = y.add_node('e');
    let f = y.add_node('f');
    y.add_edge(a, b).unwrap();
    y.add_edge(a, d).unwrap();
    y.add_edge(a, e).unwrap();
    y.add_edge(b, c).unwrap();
    y.add_edge(c, e).unwrap();
    y.add_edge(d, e).unwrap();
    y.add_edge(d, f).unwrap();
    y.add_edge(e, f).unwrap();
    let mut members = NodeIndexSet::new();
    members.insert(c);
    members.insert(d);
    members.insert(e);
    members.insert(f);
    let sub = y.induced_subgraph(&members);
    // fresh dense indices follow the increasing order of the old ones:
    // c -> 0, d -> 1, e -> 2, f -> 3
    assert_eq!(sub.num_nodes(), 4);
    assert_eq!(sub.get_node(0).data, 'c');
    assert_eq!(sub.get_node(1).data, 'd');
    assert_eq!(sub.get_node(2).data, 'e');
    assert_eq!(sub.get_node(3).data, 'f');
    let mut expected = vec![(0, 2), (1, 2), (1, 3), (2, 3)];
    expected.sort();
    let mut got: Vec<(usize, usize)> = Vec::new();
    for i in 0..4 {
        for j in 0..4 {
            if i < j && sub.are_adj(i, j) {
                got.push((i, j));
            }
        }
    }
    got.sort();
    assert_eq!(got, expected);
    // the edges to the dropped nodes a and b are gone: node 0 (c) kept
    // only its edge to e
    assert_eq!(sub.degree(0), Ok(1));
}

#[test]
fn induced_subgraph_of_digraph_preserves_direction() {
    let mut g: Digraph<char> = Digraph::new();
    let a = g.add_node('a');
    let b = g.add_node('b');
    let c = g.add_node('c');
    let d = g.add_node('d');
    g.add_edge(a, b).unwrap();
    g.add_edge(b, c).unwrap();
    g.add_edge(c, a).unwrap();
    g.add_edge(c, d).unwrap();
    let mut members = NodeIndexSet::new();
    members.insert(a);
    members.insert(b);
    members.insert(c);
    let sub = g.induced_subgraph(&members);
    assert_eq!(sub.num_nodes(), 3);
    assert!(sub.is_out_adj_to(0, 1));
    assert!(!sub.is_out_adj_to(1, 0));
    assert!(sub.is_out_adj_to(1, 2));
    assert!(sub.is_out_adj_to(2, 0));
    assert_eq!(sub.out_degree(2), Ok(1));
}

#[test]
fn transpose_reverses_every_edge() {
    // nodes a..e with edges a->b, a->c, d->a, e->a, d->e
    let mut h: Digraph<char> = Digraph::new();
    let a = h.add_node('a');
    let b = h.add_node('b');
    let c = h.add_node('c');
    let d = h.add_node('d');
    let e = h.add_node('e');
    h.add_edge(a, b).unwrap();
    h.add_edge(a, c).unwrap();
    h.add_edge(d, a).unwrap();
    h.add_edge(e, a).unwrap();
    h.add_edge(d, e).unwrap();
    let t = h.transpose();
    assert_eq!(t.num_nodes(), 5);
    let mut expected = vec![(b, a), (c, a), (a, d), (a, e), (e, d)];
    expected.sort();
    let mut got: Vec<(usize, usize)> = Vec::new();
    for &i in &[a, b, c, d, e] {
        for &j in &[a, b, c, d, e] {
            if t.is_out_adj_to(i, j) {
                got.push((i, j));
            }
        }
    }
    got.sort();
    assert_eq!(got, expected);
    for &i in &[a, b, c, d, e] {
        assert_eq!(t.get_node(i).data, h.get_node(i).data);
    }
}

#[test]
fn transpose_twice_restores_the_graph() {
    let mut h: Digraph<char> = Digraph::new();
    let a = h.add_node('a');
    let b = h.add_node('b');
    let c = h.add_node('c');
    h.add_edge(a, b).unwrap();
    h.add_edge(b, c).unwrap();
    h.add_edge(c, c).unwrap();
    // removal leaves a gap in the indices; transposition keeps it
    let d = h.add_node('d');
    h.remove_node(c);
    h.add_edge(d, a).unwrap();
    let tt = h.transpose().transpose();
    assert_eq!(tt.node_indices(), h.node_indices());
    let mut payloads_h: Vec<char> = Vec::new();
    let mut payloads_tt: Vec<char> = Vec::new();
    for &i in h.node_indices().iter() {
        payloads_h.push(h.get_node(i).data);
        payloads_tt.push(tt.get_node(i).data);
        assert_eq!(tt.adj(i), h.adj(i));
        assert_eq!(tt.get_in_adj(i).to_vec(), h.get_in_adj(i).to_vec());
    }
    payloads_h.sort();
    payloads_tt.sort();
    assert_eq!(payloads_h, payloads_tt);
}

#[test]
fn transpose_of_empty_graph_is_empty() {
    let x: Digraph<char> = Digraph::new();
    let t = x.transpose();
    assert_eq!(t.num_nodes(), 0);
    assert_eq!(t.node_indices(), Vec::<usize>::new());
}

#[test]
fn node_index_set_keeps_members_sorted_and_unique() {
    let mut s = NodeIndexSet::new();
    assert!(s.is_empty());
    assert!(s.insert(5));
    assert!(s.insert(1));
    assert!(s.insert(3));
    assert!(!s.insert(3));
    assert_eq!(s.len(), 3);
    assert_eq!(s.to_vec(), vec![1, 3, 5]);
    assert!(s.contains(3));
    assert!(!s.contains(2));
    assert_eq!(s.position_of(3), 1);
    assert!(s.remove(3));
    assert!(!s.remove(3));
    assert_eq!(s.to_vec(), vec![1, 5]);
}
