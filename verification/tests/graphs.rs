use itualgs_rs::graph::dfs::DFS;
use itualgs_rs::graph::dijkstra_sp::DijstraSP;
use itualgs_rs::graph::edge::Edge;
use itualgs_rs::graph::edge_weighted_graph::EdgeWeightedGraph;
use itualgs_rs::graph::graph::Graph;
use itualgs_rs::graph::kruskal_mst::KruskalMST;

#[allow(non_snake_case)]
#[test]
fn DFS_test_create_graph() {
    let mut g = Graph::new(4);
    g.add_edge(0, 1);
    g.add_edge(0, 2);
    let paths = DFS::new(&g, 2);
    assert_eq!(paths.marked[1], true);
    assert_eq!(paths.marked[0], true);
    assert_eq!(paths.marked[2], true);
    assert_eq!(paths.marked[3], false);
}

#[test]
fn graph_test_create_graph() {
    let mut g = Graph::new(4);
    g.add_edge(0, 1);
    g.add_edge(0, 2);
    let it = g.adj_vertices(&0);
    assert_eq!(it[0], 2 as usize);
    assert_eq!(it[1], 1 as usize);
}

#[test]
fn test_create_empty_graph() {
    let g = Graph::new(4);
    let it = g.adj_vertices(&0);
    assert_eq!(it.first(), None);
}

#[test]
fn kruskal_mst_test_create_graph() {
    let mut g = EdgeWeightedGraph::new(4);
    let list = vec![Edge::new(0, 1, 2), Edge::new(2, 1, 50), Edge::new(2, 0, 3)];

    for ele in list {
        g.add_edge(ele);
    }
    let k = KruskalMST::new(g);
    let mut edges = k.edges();
    for _ in 0..edges.size() {
        println!("{}", edges.dequeue().unwrap().weight);
    }
}

#[test]
fn graph_clone_is_deep() {
    let mut g = Graph::new(3);
    g.add_edge(0, 1);
    let copy = g.clone();
    g.add_edge(1, 2);
    assert_eq!(copy.get_e(), 1);
    assert_eq!(g.get_e(), 2);
    assert_eq!(copy.adj_vertices(&1), vec![0]);
    assert_eq!(g.adj_vertices(&1), vec![2, 0]);
}

#[test]
fn graph_degree_counts_insertions() {
    let mut g = Graph::new(3);
    g.add_edge(0, 1);
    g.add_edge(0, 2);
    g.add_edge(0, 0);
    assert_eq!(g.degree(0), 3);
    assert_eq!(g.degree(1), 1);
    assert_eq!(g.get_v(), 3);
    assert_eq!(g.get_e(), 3);
}

#[test]
fn ewg_edges_round_trip() {
    let mut g = EdgeWeightedGraph::new(3);
    g.add_edge(Edge::new(1, 2, 7));
    let list = g.edges().to_list();
    assert_eq!(list.len(), 1);
    assert_eq!(list[0].v, 1);
    assert_eq!(list[0].w, 2);
    assert_eq!(list[0].weight, 7);
}

#[test]
fn ewg_edges_keep_self_loops_and_parallels() {
    let mut g = EdgeWeightedGraph::new(3);
    g.add_edge(Edge::new(0, 0, 4));
    g.add_edge(Edge::new(1, 2, 9));
    g.add_edge(Edge::new(1, 2, 9));
    let mut list = g.edges().to_list();
    assert_eq!(list.len(), 3);
    list.sort_by_key(|e| e.weight);
    assert_eq!(list[0].weight, 4);
    assert_eq!(list[1].weight, 9);
    assert_eq!(list[2].weight, 9);
    assert_eq!(g.degree(&0), 2);
    assert_eq!(g.degree(&1), 2);
}

#[test]
fn edge_endpoints_and_order() {
    let e = Edge::new(3, 5, 11);
    assert_eq!(*e.either(), 3);
    assert_eq!(*e.other(3), 5);
    assert_eq!(*e.other(5), 3);
    let f = Edge::new(0, 1, 12);
    assert_eq!(e.cmp(&f), std::cmp::Ordering::Less);
    assert_eq!(f.cmp(&e), std::cmp::Ordering::Greater);
    assert_eq!(e.cmp(&e.clone()), std::cmp::Ordering::Equal);
}

#[test]
fn dijkstra_distances_increase_along_a_path() {
    let mut g = EdgeWeightedGraph::new(5);
    g.add_edge(Edge::new(0, 1, 1));
    g.add_edge(Edge::new(1, 2, 2));
    g.add_edge(Edge::new(2, 3, 4));
    let sp = DijstraSP::new(g, 0);
    assert_eq!(sp.get_distance_to(&0), 0);
    assert_eq!(sp.get_distance_to(&1), 1);
    assert_eq!(sp.get_distance_to(&2), 3);
    assert_eq!(sp.get_distance_to(&3), 7);
    assert!(sp.get_distance_to(&0) < sp.get_distance_to(&1));
    assert!(sp.get_distance_to(&1) < sp.get_distance_to(&2));
    assert!(sp.get_distance_to(&2) < sp.get_distance_to(&3));
    assert!(!sp.has_path_to(&4));
    assert_eq!(sp.get_distance_to(&4), u128::MAX);
    assert!(sp.path_to(&4).is_none());
    // the path to the source itself is empty, every other one is not
    assert_eq!(sp.path_to(&0).unwrap().size(), 0);
    assert!(sp.path_to(&1).unwrap().size() > 0);
}

#[test]
fn dijkstra_path_weights_add_up_to_the_distance() {
    let mut g = EdgeWeightedGraph::new(6);
    g.add_edge(Edge::new(0, 1, 7));
    g.add_edge(Edge::new(0, 2, 2));
    g.add_edge(Edge::new(2, 1, 3));
    g.add_edge(Edge::new(1, 3, 1));
    g.add_edge(Edge::new(2, 3, 8));
    g.add_edge(Edge::new(3, 4, 5));
    let sp = DijstraSP::new(g, 0);
    for v in 0..5usize {
        assert!(sp.has_path_to(&v));
        let mut stack = sp.path_to(&v).unwrap();
        let mut total: u128 = 0;
        let mut at = 0usize;
        for _ in 0..stack.size() {
            let e = stack.pop().unwrap();
            total += e.weight;
            at = *e.other(at);
        }
        assert_eq!(at, v);
        assert_eq!(total, sp.get_distance_to(&v));
    }
    assert_eq!(sp.get_distance_to(&3), 6);
}

#[test]
fn kruskal_connected_graph_yields_v_minus_one_edges() {
    let mut g = EdgeWeightedGraph::new(5);
    g.add_edge(Edge::new(0, 1, 4));
    g.add_edge(Edge::new(0, 2, 3));
    g.add_edge(Edge::new(1, 2, 1));
    g.add_edge(Edge::new(1, 3, 2));
    g.add_edge(Edge::new(2, 3, 4));
    g.add_edge(Edge::new(3, 4, 2));
    g.add_edge(Edge::new(1, 4, 3));
    let k = KruskalMST::new(g);
    assert_eq!(k.weight, 8);
    assert_eq!(k.edges().size(), 4);
}

#[test]
fn kruskal_weight_is_minimal_among_spanning_trees() {
    // exhaustive search over all edge subsets of a small graph
    let edges = vec![
        (0usize, 1usize, 4u128),
        (0, 2, 3),
        (1, 2, 1),
        (1, 3, 2),
        (2, 3, 4),
    ];
    let v = 4usize;
    let mut g = EdgeWeightedGraph::new(v);
    for &(a, b, w) in &edges {
        g.add_edge(Edge::new(a, b, w));
    }
    let k = KruskalMST::new(g);

    let mut best: Option<u128> = None;
    for mask in 0u32..(1 << edges.len()) {
        let chosen: Vec<&(usize, usize, u128)> =
            edges.iter().enumerate().filter(|(i, _)| mask & (1 << i) != 0).map(|(_, e)| e).collect();
        if chosen.len() != v - 1 {
            continue;
        }
        // check connectivity of the chosen subset
        let mut reach = vec![false; v];
        reach[0] = true;
        for _ in 0..v {
            for &&(a, b, _) in &chosen {
                if reach[a] || reach[b] {
                    reach[a] = true;
                    reach[b] = true;
                }
            }
        }
        if reach.iter().all(|&r| r) {
            let total: u128 = chosen.iter().map(|e| e.2).sum();
            best = Some(match best {
                None => total,
                Some(b) if total < b => total,
                Some(b) => b,
            });
        }
    }
    assert_eq!(k.weight, best.unwrap());
    assert_eq!(k.weight, 6);
}

#[test]
fn kruskal_spans_each_component_of_a_disconnected_graph() {
    let mut g = EdgeWeightedGraph::new(6);
    g.add_edge(Edge::new(0, 1, 1));
    g.add_edge(Edge::new(1, 2, 2));
    g.add_edge(Edge::new(0, 2, 3));
    g.add_edge(Edge::new(3, 4, 1));
    let k = KruskalMST::new(g);
    // 6 vertices in 3 components: 6 - 3 accepted edges
    assert_eq!(k.edges().size(), 3);
}

#[test]
fn kruskal_tie_order_is_deterministic() {
    // edges of one weight are scanned in the order `edges()` hands
    // them out, which the stable sort preserves
    let mut g = EdgeWeightedGraph::new(4);
    g.add_edge(Edge::new(0, 1, 5));
    g.add_edge(Edge::new(2, 3, 5));
    g.add_edge(Edge::new(1, 2, 5));
    let collected = g.edges().to_list();
    let k = KruskalMST::new(g);
    let mut accepted = k.edges();
    for i in 0..3 {
        let e = accepted.dequeue().unwrap();
        assert_eq!((e.v, e.w), (collected[i].v, collected[i].w));
    }
}

