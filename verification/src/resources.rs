//! The resource registry: an ordered sequence of resource names, where the
//! name at index `i` belongs to handle `i`. Handles are stable: creation only
//! grows the registry, and a handle is never reused or renumbered.
//!
//! Duplicate names are allowed; a lookup by name returns the handle assigned
//! last, so an earlier handle with the same name becomes unreachable by name
//! (but keeps its slot and its name).

use crate::errors::GameError;
use vstd::prelude::*;

verus! {

/// An opaque, stable, zero-based handle for a resource, valid only relative
/// to the `ResourceMap` that issued it.
#[derive(Clone, Copy, Debug, PartialEq, Eq, PartialOrd, Ord, Hash, Structural)]
pub struct Resource(pub usize);

/// The registry of resource names; registration order assigns handles.
#[derive(Debug, Clone)]
pub struct ResourceMap {
    pub resource_names: Vec<String>,
}

/// The index of the last occurrence of `name` in `names`, or `-1` if absent.
pub open spec fn last_index_of_name(names: Seq<Seq<char>>, name: Seq<char>) -> int
    decreases names.len(),
{
    if names.len() == 0 {
        -1
    } else if names.last() == name {
        names.len() - 1
    } else {
        last_index_of_name(names.drop_last(), name)
    }
}

/// What `last_index_of_name` returns: an in-range index of `name` with no
/// later occurrence, or `-1` exactly when `name` does not occur at all.
pub proof fn lemma_last_index_of_name(names: Seq<Seq<char>>, name: Seq<char>)
    ensures
        -1 <= last_index_of_name(names, name) < names.len(),
        last_index_of_name(names, name) >= 0 ==> names[last_index_of_name(names, name)] == name,
        forall|j: int|
            last_index_of_name(names, name) < j < names.len() ==> names[j] != name,
    decreases names.len(),
{
    if names.len() > 0 && names.last() != name {
        lemma_last_index_of_name(names.drop_last(), name);
        assert(forall|j: int|
            0 <= j < names.len() - 1 ==> names[j] == names.drop_last()[j]);
    }
}

impl ResourceMap {
    /// The registered names, in handle order, as mathematical sequences.
    pub open spec fn names(self) -> Seq<Seq<char>> {
        Seq::new(self.resource_names@.len(), |i: int| self.resource_names@[i]@)
    }

    /// Some handle carries `name`.
    pub open spec fn spec_has_name(self, name: Seq<char>) -> bool {
        exists|i: int| 0 <= i < self.names().len() && self.names()[i] == name
    }

    /// An empty registry.
    pub fn new() -> (r: Self)
        ensures
            r.names().len() == 0,
    {
        ResourceMap { resource_names: Vec::new() }
    }

    /// Appends `name` and returns the next sequential handle.
    /// No duplicate-name detection is performed: a repeated name receives a
    /// fresh handle, and lookups by that name will yield the new handle.
    pub fn create_resource(&mut self, name: &str) -> (r: Resource)
        ensures
            final(self).names() == old(self).names().push(name@),
            r.0 == old(self).names().len(),
    {
        self.resource_names.push(name.to_string());
        let handle = Resource(self.resource_names.len() - 1);
        proof {
            assert(final(self).names() =~= old(self).names().push(name@));
        }
        handle
    }

    /// Looks a name up; returns the handle assigned last for that name, or
    /// `UnknownResourceName` if the name was never registered.
    pub fn get_resource(&self, name: &str) -> (r: Result<Resource, GameError>)
        ensures
            r is Ok <==> self.spec_has_name(name@),
            r matches Ok(h) ==> h.0 == last_index_of_name(self.names(), name@),
            r matches Err(e) ==> e == GameError::UnknownResourceName,
    {
        let key: String = name.to_string();
        let mut i: usize = self.resource_names.len();
        while i > 0
            invariant
                i <= self.resource_names.len(),
                key@ == name@,
                forall|j: int| i <= j < self.names().len() ==> self.names()[j] != name@,
            decreases i,
        {
            i = i - 1;
            if self.resource_names[i] == key {
                proof {
                    lemma_last_index_of_name(self.names(), name@);
                    let r = last_index_of_name(self.names(), name@);
                    assert(self.names()[i as int] == name@);
                    assert(r >= i) by {
                        if r < i {
                            assert(self.names()[i as int] != name@);
                        }
                    }
                    assert(r <= i) by {
                        if r > i {
                            assert(self.names()[r] != name@);
                        }
                    }
                }
                return Ok(Resource(i));
            }
        }
        proof {
            lemma_last_index_of_name(self.names(), name@);
        }
        Err(GameError::UnknownResourceName)
    }

    /// Whether some registered resource carries `name`.
    pub fn has_resource_by_name(&self, name: &str) -> (r: bool)
        ensures
            r == self.spec_has_name(name@),
    {
        match self.get_resource(name) {
            Ok(_) => true,
            Err(_) => false,
        }
    }

    /// Whether `resource` is a valid handle for this registry: its integer
    /// lies within `[0, count)`. Used as a bounds guard before indexing.
    pub fn has_resource(&self, resource: Resource) -> (r: bool)
        ensures
            r == (resource.0 < self.names().len()),
    {
        resource.0 < self.resource_names.len()
    }

    /// The name a handle was registered under; fails for an out-of-range
    /// handle.
    pub fn name_of(&self, resource: Resource) -> (r: Result<String, GameError>)
        ensures
            r is Ok <==> resource.0 < self.names().len(),
            r matches Ok(s) ==> s@ == self.names()[resource.0 as int],
            r matches Err(e) ==> e == GameError::InvalidResourceReference,
    {
        if resource.0 < self.resource_names.len() {
            Ok(self.resource_names[resource.0].clone())
        } else {
            Err(GameError::InvalidResourceReference)
        }
    }
}

impl Default for ResourceMap {
    /// Same as `ResourceMap::new`: an empty registry.
    fn default() -> (r: Self)
        ensures
            r.names().len() == 0,
    {
        ResourceMap::new()
    }
}

/// Registry bijection, handle to name and back: when all registered names
/// are distinct, looking up the name of any valid handle returns that same
/// handle. Together with the contracts of `name_of` and `get_resource` this
/// makes name assignment a bijection between handles and registered names.
/// (The other direction — the handle returned for a registered name carries
/// that name — holds even with duplicates, by `lemma_last_index_of_name`.)
pub proof fn lemma_registry_bijection(rm: ResourceMap, h: int)
    requires
        0 <= h < rm.names().len(),
        forall|i: int, j: int|
            0 <= i < j < rm.names().len() ==> rm.names()[i] != rm.names()[j],
    ensures
        last_index_of_name(rm.names(), rm.names()[h]) == h,
{
    lemma_last_index_of_name(rm.names(), rm.names()[h]);
    let r = last_index_of_name(rm.names(), rm.names()[h]);
    if r < h {
        assert(rm.names()[h] != rm.names()[h]);
    }
    if r > h {
        assert(rm.names()[r] == rm.names()[h]);
    }
}

} // verus!
