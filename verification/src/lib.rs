//! Search strategies and scheduling for a constraint solver.

pub mod assignments;
pub mod branching;
pub mod containers;
mod fixed;
mod number;
pub mod predicates;
pub mod propagation;
pub mod propagator_queue;
pub mod propagator_utility;
pub mod queue_history;
pub mod queue_laws;
pub mod statistics;
pub mod utility_laws;
pub mod variables;

pub use fixed::Fixed;
pub use number::{Number, OrderedNumber};
