//! Strategies for deciding what to branch on.

pub mod activity_laws;
pub mod brancher;
pub mod custom_search;
pub mod custom_search_laws;
pub mod dormant;
pub mod independent_variable_value_brancher;
pub mod selection;
pub mod variable_activity_branching;
pub mod variable_vsid;
pub mod vsid_laws;

pub use brancher::{Brancher, BrancherEvent, LearnedNogood, Notification};
pub use custom_search::CustomSearch;
pub use independent_variable_value_brancher::IndependentVariableValueBrancher;
pub use selection::{InDomainMin, InDomainSplit, InputOrder};
pub use variable_activity_branching::VariableActivitySearch;
pub use variable_vsid::VariableVsidBrancher;
