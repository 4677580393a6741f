//! Static checks that every directive able to turn a field error into a thrown
//! exception sits below a directive that catches such errors.
pub mod directives;
pub mod graphql;
pub mod laws;
pub mod protection;
pub mod registry;
pub mod registry_to_graph;
pub mod render;
pub mod text;
pub mod tree_formatter;
pub mod validate;
