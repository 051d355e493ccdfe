pub mod tree_walk;
