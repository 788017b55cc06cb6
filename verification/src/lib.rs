//! A decision engine for gated actions: conditions over arithmetic expressions,
//! literals, named variables and references into a structured execution context.

pub mod decimal;
pub mod error;
pub mod eval;
pub mod execute;
pub mod grammar;
pub mod json;
pub mod keyed;
pub mod msg;
pub mod query;
pub mod render;
pub mod state;
pub mod strings;
pub mod theorems;
pub mod types;
pub mod value;
