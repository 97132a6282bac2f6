//! Recipe definitions: immutable conversion rules from ingredient amounts to
//! output amounts, gated by non-consumed requirements and realized over a
//! fixed number of ticks.
//!
//! The three amount lists are sparse mappings from resource handle to amount
//! (few resources take part in one recipe), in contrast to the dense
//! per-handle inventory vector.

use crate::qty::Qty;
use crate::resources::{Resource, ResourceMap};
use vstd::prelude::*;

verus! {

/// An immutable conversion rule. `ingredients` are consumed and `outputs`
/// produced fractionally, one `amount / ticks` share per step; `requirements`
/// must be present in full at every step and are never consumed.
#[derive(Debug, Clone)]
pub struct Recipe {
    /// Consumed over the recipe's duration, `amount / ticks` per step.
    pub ingredients: Vec<(Resource, Qty)>,
    /// Produced over the recipe's duration, `amount / ticks` per step.
    pub outputs: Vec<(Resource, Qty)>,
    /// Standing gate: must be present in full, never consumed.
    pub requirements: Vec<(Resource, Qty)>,
    /// How many steps fully realize one unit of the recipe; at least 1.
    pub ticks: u64,
}

/// Each amount is well-formed and each resource is mentioned at most once,
/// as the keys of a mapping would be.
pub open spec fn list_wf(items: Seq<(Resource, Qty)>) -> bool {
    &&& forall|i: int| 0 <= i < items.len() ==> (#[trigger] items[i]).1.wf()
    &&& forall|i: int, j: int| 0 <= i < j < items.len() ==> items[i].0 != items[j].0
}

/// Every resource in `items` is a valid handle for a registry of `n` names.
pub open spec fn list_valid_for(items: Seq<(Resource, Qty)>, n: int) -> bool {
    forall|i: int| 0 <= i < items.len() ==> (#[trigger] items[i]).0.0 < n
}

impl Recipe {
    /// Structural well-formedness: a positive duration, well-formed amounts,
    /// and no resource repeated within a list.
    pub open spec fn wf(self) -> bool {
        &&& self.ticks >= 1
        &&& list_wf(self.ingredients@)
        &&& list_wf(self.outputs@)
        &&& list_wf(self.requirements@)
    }

    /// Every handle the recipe mentions is valid in a registry of `n` names.
    pub open spec fn valid_for(self, n: int) -> bool {
        &&& list_valid_for(self.ingredients@, n)
        &&& list_valid_for(self.outputs@, n)
        &&& list_valid_for(self.requirements@, n)
    }
}

/// Checks that every resource in `items` is a valid handle of `registry`.
pub fn list_valid(items: &Vec<(Resource, Qty)>, registry: &ResourceMap) -> (r: bool)
    ensures
        r == list_valid_for(items@, registry.names().len() as int),
{
    let mut j: usize = 0;
    while j < items.len()
        invariant
            j <= items.len(),
            forall|i: int| 0 <= i < j ==> (#[trigger] items@[i]).0.0 < registry.names().len(),
        decreases items.len() - j,
    {
        if !registry.has_resource(items[j].0) {
            return false;
        }
        j = j + 1;
    }
    true
}

} // verus!
