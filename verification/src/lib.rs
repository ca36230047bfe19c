#![verifier::loop_isolation(false)]
//! Generic data-structure and graph-algorithm primitives.
//!
//! The central pair of components is a comparator-driven binary heap
//! ([`PriorityQueue`]) and a single-source shortest-path engine built on
//! top of it.

pub mod binary_search_tree;
pub mod binary_tree;
pub mod linked_list;
pub mod dijkstra;
pub mod graph;
pub mod priority_queue;

pub use binary_search_tree::BST;
pub use binary_tree::BinaryTree;
pub use linked_list::LinkedList;
pub use dijkstra::Dijkstra;
pub use graph::Graph;
pub use priority_queue::PriorityQueue;
