pub mod compression;
pub mod persistence;
pub mod symmetry;
