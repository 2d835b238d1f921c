pub mod dfs;
pub mod dijkstra_sp;
pub mod edge;
pub mod edge_weighted_graph;
pub mod graph;
pub mod kruskal_mst;
