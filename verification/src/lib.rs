//! Feature-history export to build123d programs.

pub mod adjacency;
pub mod arena;
pub mod arrangement;
pub mod assign;
pub mod basis;
pub mod blend;
pub mod bodies;
pub mod crossing;
pub mod curve;
pub mod curves;
pub mod emit;
pub mod frame;
pub mod history;
pub mod identity;
pub mod ir;
pub mod kernel;
pub mod lines;
pub mod list;
pub mod loops;
pub mod meridian;
pub mod nesting;
pub mod notes;
pub mod plan;
pub mod planning;
pub mod profile;
pub mod program;
pub mod recovery;
pub mod report;
pub mod ring;
pub mod scalar;
pub mod settle;
pub mod solids;
pub mod text;
pub mod topo;
pub mod vectors;
pub mod wording;
