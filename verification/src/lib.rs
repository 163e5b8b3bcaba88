//! Verified core of a durable WebAssembly execution engine: memory snapshot
//! deltas, Git source resolution, BPMN token flow and DMN decision tables.

pub mod text;
pub mod git_resolver;
pub mod gitops;
pub mod cache;
pub mod service;
pub mod engine;
pub mod delta_json;
pub mod json;
pub mod dmn;
pub mod bpmn;
