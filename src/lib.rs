//! An append-only binary tree kept in one vector, with integer indices for links.

pub mod binary_tree;
