//! Lifetime and loan tracking.

pub mod block_ends;
pub mod borrowers;
pub mod check;
pub mod constraints;
pub mod desugaring;
pub mod edge_cuts;
pub mod ends_once;
pub mod ends_placed;
pub mod flows;
pub mod in_force;
pub mod last_uses;
pub mod loan_flow;
pub mod loans;
pub mod needed;
pub mod nll;
pub mod only_ends;
pub mod outputs;
pub mod projection;
pub mod reborrows;
pub mod region;
pub mod type_bounds;
pub mod well_formed;
