//! An unbalanced binary search tree holding unique, totally ordered
//! records, driven by a line-oriented command loop.
//!
//! [`tree`] holds the tree, specified against a `Set` model of its values'
//! views; [`order`] the strict total order it sorts by; [`record`] the
//! date-and-name record the command loop stores, ordered field by field;
//! [`command`] the operations the loop drives the tree with and their
//! outcomes; [`props`] laws relating several operations.

pub mod command;
pub mod order;
pub mod props;
pub mod record;
pub mod tree;
