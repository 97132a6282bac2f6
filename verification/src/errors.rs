//! Failure conditions of the simulation core. Every operation reports
//! failure to its caller; nothing aborts the process.

use vstd::prelude::*;

verus! {

/// The ways a registry lookup, a recipe registration or a simulation step
/// can fail. All are recoverable and leave the engine untouched.
#[derive(Clone, Copy, Debug, PartialEq, Eq, Structural)]
pub enum GameError {
    /// A recipe was registered under a key that is already taken.
    DuplicateRecipeKey,
    /// A recipe mentions a resource handle outside the registry's range.
    InvalidResourceReference,
    /// A step was requested for a key with no registered recipe.
    RecipeNotFound,
    /// A standing (non-consumed) requirement of the recipe is unmet.
    MissingPrerequisites,
    /// An ingredient's per-step amount exceeds the current inventory.
    MissingIngredients,
    /// A resource name in a recipe definition is not in the registry.
    UnknownResourceName,
    /// A quantity computed during a step does not fit the representation
    /// even after reduction to lowest terms.
    QuantityOverflow,
}

impl GameError {
    /// A short human-readable description, for drivers that display failures.
    pub fn message(&self) -> &'static str {
        match self {
            GameError::DuplicateRecipeKey => "recipe key already exists",
            GameError::InvalidResourceReference => "recipe references an invalid resource",
            GameError::RecipeNotFound => "recipe not found",
            GameError::MissingPrerequisites => "missing prerequisites",
            GameError::MissingIngredients => "missing ingredients",
            GameError::UnknownResourceName => "unknown resource name",
            GameError::QuantityOverflow => "quantity out of representable range",
        }
    }
}

} // verus!
