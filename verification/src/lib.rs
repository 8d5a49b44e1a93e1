//! A deterministic sparse-graph universe: the graph, its topology mutation
//! rules, the seeded generator, the observers' integer bookkeeping, the replay
//! window, the frame layout and the grid picture, each with its contract.

pub mod kernel;
pub mod observer;
pub mod replay;
pub mod topology;
pub mod transform;
pub mod visualization;
pub mod web;
