//! Binary and zero-suppressed decision diagrams over an arena of vertices,
//! with machine-checked contracts for reduction, operator application,
//! variable substitution and the satisfiability queries.
//!
//! Vertices are made in a [`node::Arena`] and known by their handles, so
//! that a vertex handed to several parents is one vertex. A diagram is a
//! [`node::Node`]: an arena of vertices and the handle of a root. What it
//! denotes is the decision tree below its root, a [`tree::Tree`], and every
//! contract is stated over that tree. Reduction
//! ([`reduce`]) brings a node into canonical form ([`canonical`]) under one
//! of two rules; [`bdd::BDD`] and [`zdd::ZDD`] hold a node in that form.
//! Two diagrams are combined by an operator in [`apply`], and one is
//! substituted for a variable of another in [`compose`]. What holds of the
//! results is proved in [`laws`].
pub mod operator;
pub mod tree;
pub mod arena;
pub mod dd;
pub mod node;
pub mod graphviz;
pub mod canonical;
pub mod reduce;
pub mod laws;
pub mod apply;
pub mod compose;
pub mod bdd;
pub mod zdd;
pub mod ddt;
