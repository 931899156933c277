//! Control-plane core of a deployment service: accepting uploads as queued
//! deployments, reading and cancelling them, deleting services with their
//! deployments, and merging a deployment's stored log backlog with a live
//! feed into one ordered stream per subscriber.
pub mod handlers;
pub mod logstream;
pub mod model;
pub mod queue;
pub mod registry;
