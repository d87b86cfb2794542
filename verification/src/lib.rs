//! Elaboration support for an HDL compiler front-end: binding instantiation
//! arguments to declared module parameters (with canonical, interned
//! parameter environments) and building nested, importable lexical scopes.

pub mod context;
pub mod param_env;
pub mod scope;
