pub mod order;
pub mod tagged;
pub mod node;
pub mod node_eq;
pub mod memory;
pub mod shape;
pub mod reclaim;
pub mod height;
pub mod list;
pub mod view;
pub mod ops;
pub mod traverse;
pub mod marks;
pub mod laws;
