//! An authorization policy engine: a declarative access-control model
//! (request shape, policy shape, role rules, effect rule and matcher
//! expression) plus a set of policy rows decide whether a request is
//! permitted.  The model container, the role-inheritance graphs, the
//! matcher evaluator and the effect fold each carry contracts stating
//! exactly what they compute.

pub mod adapter;
pub mod builtins;
pub mod effector;
pub mod enforcer;
pub mod errors;
pub mod matcher;
pub mod model;
pub mod role_manager;
pub mod strings;
