//! Graph algorithms with verified contracts: a weighted undirected graph
//! container with breadth-first and depth-first path search, and a
//! spanning-tree root-election protocol (gossip of root suggestions with
//! id- and cost-based tie-breaking) together with its convergence driver.

pub mod bfs;
pub mod bfstest;
pub mod dfs;
pub mod graph;
pub mod spanningtree;
