//! The messages that the contract takes.

use crate::types::{Condition, InwardExecuteCtx, Variable};
use vstd::prelude::*;

verus! {

/// Sets the contract up; the engine itself needs nothing.
#[derive(Debug, Clone, Copy, PartialEq, Eq)]
pub struct InstantiateMsg {}

/// The two definitions that an owner can make.
pub enum ExecuteMsg {
    /// Stores `variable` under `name`, in the place of what stood there.
    AddVariable { variable: Variable, name: String },
    /// Stores the condition that is evaluated by default.
    AddCondition { condition: Condition },
}

/// The four decisions that can be asked for.
pub enum QueryMsg {
    /// Evaluates the stored condition.
    Evaluate { ctx: Option<InwardExecuteCtx> },
    /// Evaluates the condition given.
    EvaluateCondition { condition: Condition, ctx: Option<InwardExecuteCtx> },
    /// Resolves the variable stored under `name`.
    EvaluateVariable { name: String, ctx: Option<InwardExecuteCtx> },
    /// Resolves the variable given.
    EvaluateCustomVariable { variable: Variable, ctx: Option<InwardExecuteCtx> },
}

} // verus!
