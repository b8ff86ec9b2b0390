//! Reconciles the contract deployments recorded on disk against the networks
//! that a Hardhat configuration declares.
//!
//! Every function here works on plain values: the program around the library
//! reads the configuration and the deployment records, and prints or writes
//! what the library renders.

pub mod aggregate;
pub mod audit;
pub mod config;
pub mod json;
pub mod listing;
pub mod matching;
pub mod project;
pub mod reconcile;
pub mod store;
pub mod table;
pub mod text;
pub mod title;
pub mod unicode;
pub mod update;
