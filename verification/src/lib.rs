//! Release listings and package diffs for packages of the npm registry.

pub mod models;
pub mod routes;
pub mod text;
mod trusted;
