//! Reading a configuration written in KDL.
//!
//! A text is read into a document by the `kdl` crate; everything after that,
//! what the sections are called, what may stand in them and what it means, is
//! decided here.

pub mod acme;
pub mod args;
pub mod balancing;
pub mod connectors;
pub mod document;
pub mod laws;
pub mod listeners;
pub mod nesting;
pub mod path_control;
pub mod routes;
pub mod services;
pub mod settings;
