//! The two definitions that an owner makes.

use crate::state::Deps;
use crate::types::{Condition, Variable};
use vstd::prelude::*;

verus! {

/// Defines the condition that is evaluated by default.
pub fn add_condition(deps: &mut Deps, condition: Condition)
    ensures
        final(deps)@.condition == Some(condition@),
        final(deps)@.variables == old(deps)@.variables,
        final(deps)@.replies == old(deps)@.replies,
{
    deps.store_condition(condition);
}

/// Defines the variable of a name, in the place of the one it had.
pub fn add_variable(deps: &mut Deps, variable: &Variable, name: &str)
    ensures
        final(deps)@.variables == old(deps)@.variables.insert(name@, variable@),
        final(deps)@.condition == old(deps)@.condition,
        final(deps)@.replies == old(deps)@.replies,
{
    deps.store_variable(name, variable.clone());
}

} // verus!
