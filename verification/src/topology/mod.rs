pub mod fxset;
pub mod graph;
pub mod mutation;
pub mod ring;
