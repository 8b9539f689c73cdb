//! A controller that puts idle Kubernetes workloads to sleep and wakes them on traffic.
//!
//! The library holds the controller's logic: reading targets and their stored-state
//! annotations, putting them to sleep and waking them, judging traffic from ingress
//! counters, and the regime that decides when to do which.
pub mod text;
pub mod strmap;
pub mod json;
pub mod annotations;
pub mod resource;
pub mod deploy;
pub mod service;
pub mod metrics;
pub mod state;
pub mod config;
pub mod controller;
pub mod laws;
