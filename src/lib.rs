//! Import-structure analysis for Python codebases: module identity
//! resolution, a typed dependency graph, and the analyses run over it.

pub mod changeset;
pub mod common;
pub mod crawler;
pub mod dependencies;
pub mod diagnose;
pub mod cycles;
pub mod external;
pub mod graph;
pub mod impact;
pub mod imports;
pub mod instability;
pub mod pressure;
pub mod pyproject;
pub mod text;
