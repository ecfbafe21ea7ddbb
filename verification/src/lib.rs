//! A reduction engine for interaction nets: a graph of fixed-arity agents
//! connected through ports, rewritten in place by five local rules until no
//! active pair remains.
//!
//! The net lives in a single arena ([`net::Net`]) that owns every agent;
//! agents refer to one another by stable indices, so cycles and self-loops
//! need no special casing, and all mutation goes through one exclusive
//! borrow of the arena.

pub mod driver;
pub mod laws;
pub mod model;
pub mod net;
pub mod rules;
