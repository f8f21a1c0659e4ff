//! Turns the control-flow graph of a function into structured code: nested
//! conditionals and loops that run the same instructions in the same order.

pub mod admission;
pub mod admitted;
pub mod analysis;
pub mod coverage;
pub mod decisions;
pub mod dominance;
pub mod exits;
pub mod flow;
pub mod fx;
pub mod ir;
pub mod listings;
pub mod machine;
pub mod nesting;
pub mod nops;
pub mod reading;
pub mod run;
pub mod scope;
pub mod serializer;
pub mod shape;
pub mod simulation;
pub mod steps;
pub mod walk;
