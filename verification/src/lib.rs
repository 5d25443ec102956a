//! Workflow automation engine: a registry of action-type definitions, a
//! builder that turns a flat workflow schema into an executable graph
//! forest, and an executor that drives that forest to a terminal status.
//!
//! Concrete action runners beyond the reserved "Start" marker are
//! external collaborators: they implement the runner capability and are
//! registered by the embedding application. In particular the image
//! matcher, whose runner holds an opencv image matrix, keeps floating
//! point scores, and needs system libraries, stays outside this crate;
//! only its registration contract is covered here.

pub mod controller;
pub mod convert;
pub mod executor;
pub mod graph;
pub mod json;
pub mod node;
pub mod register;
pub mod schema;
pub mod start;
pub mod task;
pub mod workflow;
