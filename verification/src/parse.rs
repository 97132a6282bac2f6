//! Translation of externally loaded recipe definitions — resource names with
//! amounts — into handle-keyed amount lists, validated against a registry.
//! Reading and decoding the declarative document itself is the unverified
//! loader's job; this translation is where an unknown resource name is
//! caught before any data reaches the engine.

use crate::errors::GameError;
use crate::qty::Qty;
use crate::resources::{last_index_of_name, lemma_last_index_of_name, Resource, ResourceMap};
use vstd::prelude::*;

verus! {

/// Translates `(name, amount)` pairs into `(handle, amount)` pairs via
/// `registry`. Fails with `UnknownResourceName` exactly when some name is
/// not registered; on success each name maps to the handle a lookup of it
/// returns, amounts unchanged, and distinct names yield distinct handles.
pub fn convert_resource_map(entries: &Vec<(String, Qty)>, registry: &ResourceMap) -> (r: Result<
    Vec<(Resource, Qty)>,
    GameError,
>)
    ensures
        r is Ok <==> (forall|i: int|
            0 <= i < entries@.len() ==> registry.spec_has_name(((#[trigger] entries@[i]).0)@)),
        r matches Ok(v) ==> v@.len() == entries@.len() && (forall|i: int|
            0 <= i < entries@.len() ==> ((#[trigger] v@[i]).0).0 == last_index_of_name(
                registry.names(),
                ((entries@[i]).0)@,
            ) && (v@[i]).1 == (entries@[i]).1),
        r matches Ok(v) ==> ((forall|i: int, j: int|
            0 <= i < j < entries@.len() ==> ((entries@[i]).0)@ != ((entries@[j]).0)@) ==> (
        forall|i: int, j: int| 0 <= i < j < v@.len() ==> (v@[i]).0 != (v@[j]).0)),
        r matches Err(e) ==> e == GameError::UnknownResourceName,
{
    let mut out: Vec<(Resource, Qty)> = Vec::new();
    let mut j: usize = 0;
    while j < entries.len()
        invariant
            j <= entries@.len(),
            out@.len() == j,
            forall|i: int|
                0 <= i < j ==> registry.spec_has_name(((#[trigger] entries@[i]).0)@),
            forall|i: int|
                0 <= i < j ==> ((#[trigger] out@[i]).0).0 == last_index_of_name(
                    registry.names(),
                    ((entries@[i]).0)@,
                ) && (out@[i]).1 == (entries@[i]).1,
        decreases entries@.len() - j,
    {
        let name = &entries[j].0;
        let amt = entries[j].1;
        match registry.get_resource(name.as_str()) {
            Ok(h) => {
                out.push((h, amt));
            },
            Err(_) => {
                return Err(GameError::UnknownResourceName);
            },
        }
        j = j + 1;
    }
    proof {
        assert forall|i: int, j2: int|
            0 <= i < j2 < entries@.len() && ((entries@[i]).0)@ != ((entries@[j2]).0)@ implies (
        out@[i]).0 != (out@[j2]).0 by {
            lemma_last_index_of_name(registry.names(), ((entries@[i]).0)@);
            lemma_last_index_of_name(registry.names(), ((entries@[j2]).0)@);
        }
    }
    Ok(out)
}

} // verus!
