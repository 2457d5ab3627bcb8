//! charta: verified core of a state-chart verification service.
pub mod tools;
pub mod chart;
pub mod formula;
pub mod smt;
pub mod system;
pub mod property;
pub mod pragma;
pub mod encode;
pub mod text;
pub mod verdict;
pub mod engine;
pub mod verify;
pub mod codegen;
pub mod service;
pub mod laws;
pub mod printer;
pub mod bounds;
pub mod attrs;
