//! Checked mid-level IR (MIR) of the compiler: identities, dense dataflow
//! sets, body model, and the path-sensitive validations run over bodies.

pub mod ids;
pub mod dataflow;
pub mod semantic;
pub mod locals;
pub mod calls;
pub mod drop_plans;
pub mod resolution;
pub mod model;
pub mod control_flow;
pub mod places;
pub mod sorted;
pub mod initialization;
pub mod worklist;
pub mod drop_obligations;
pub mod loans;
pub mod scopes;
pub mod cleanup;
pub mod validate;
pub mod lower;
pub mod names;
pub mod index;
pub mod error_values;
pub mod contracts;
pub mod initialization_flow;
pub mod drop_obligations_flow;
pub mod loans_flow;
