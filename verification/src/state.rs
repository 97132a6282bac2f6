//! The inventory: a dense vector of quantities, one slot per resource handle,
//! the same length as the registry that the engine was built from. It is
//! mutated only by full replacement during a step, never by partial edits
//! visible mid-transition.

use crate::qty::Qty;
use crate::resources::{Resource, ResourceMap};
use vstd::pervasive::VecAdditionalExecFns;
use vstd::prelude::*;

verus! {

/// Current amounts owned, indexed by resource handle.
#[derive(Debug, Clone)]
pub struct StateVec {
    pub resources: Vec<Qty>,
}

impl StateVec {
    /// The quantities as a mathematical sequence.
    pub open spec fn quantities(self) -> Seq<Qty> {
        self.resources@
    }

    /// Every slot holds a well-formed quantity.
    pub open spec fn wf(self) -> bool {
        forall|i: int| 0 <= i < self.quantities().len() ==> (#[trigger] self.quantities()[i]).wf()
    }

    /// Wraps an existing vector of quantities.
    pub fn new(resources: Vec<Qty>) -> (r: Self)
        ensures
            r.quantities() == resources@,
    {
        StateVec { resources }
    }

    /// An all-zero inventory with one slot per resource of `resources`.
    pub fn empty(resources: &ResourceMap) -> (r: Self)
        ensures
            r.quantities().len() == resources.names().len(),
            forall|i: int|
                0 <= i < r.quantities().len() ==> r.quantities()[i] == (Qty { num: 0u64, den: 1u64 }),
            r.wf(),
    {
        let n = resources.resource_names.len();
        let mut v: Vec<Qty> = Vec::new();
        let mut i: usize = 0;
        while i < n
            invariant
                i <= n,
                v@.len() == i,
                forall|j: int| 0 <= j < i ==> v@[j] == (Qty { num: 0u64, den: 1u64 }),
            decreases n - i,
        {
            v.push(Qty::zero());
            i = i + 1;
        }
        StateVec { resources: v }
    }

    /// The quantity at a valid handle.
    pub fn get(&self, resource: Resource) -> (r: Qty)
        requires
            resource.0 < self.quantities().len(),
        ensures
            r == self.quantities()[resource.0 as int],
    {
        self.resources[resource.0]
    }

    /// Replaces the quantity at a valid handle.
    pub fn set(&mut self, resource: Resource, amount: Qty)
        requires
            resource.0 < old(self).quantities().len(),
        ensures
            final(self).quantities() == old(self).quantities().update(resource.0 as int, amount),
    {
        self.resources.set(resource.0, amount);
    }
}

} // verus!
