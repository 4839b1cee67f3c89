use vstd::prelude::*;

use crate::error::Error;
use crate::model::Manifest;

verus! {

/// The absolute layer position that a signed reference denotes, if any.
///
/// A non-negative reference is an absolute position; a negative one counts
/// from the end, so `-1` is the newest layer and `-total` the oldest.  The
/// reference resolves only when the position falls in `[0, total - 1]`.
pub open spec fn resolve_spec(total: int, reference: int) -> Option<int> {
    let pos = if reference >= 0 {
        reference
    } else {
        total + reference
    };
    if 0 <= pos < total {
        Some(pos)
    } else {
        None
    }
}

/// For a non-empty layer list, every reference in `[-total, total - 1]`
/// resolves to a position in `[0, total - 1]`; `-1` and `total - 1` both
/// resolve to the newest layer, `-total` resolves to the oldest, and any
/// reference outside `[-total, total - 1]` fails to resolve.
pub proof fn lemma_resolve_range(total: int, reference: int)
    requires
        total > 0,
    ensures
        -total <= reference < total ==> (resolve_spec(total, reference) matches Some(p) && 0 <= p
            < total),
        resolve_spec(total, -1) == resolve_spec(total, total - 1),
        resolve_spec(total, -total) == Some(0int),
        (reference < -total || reference >= total) ==> resolve_spec(total, reference) is None,
{
}

/// Maps a caller-supplied signed layer reference to an absolute position in
/// `manifest.layers`, failing with `IndexOutOfRange` when the reference lies
/// outside `[-total, total - 1]` (in particular whenever there are no layers).
pub fn convert_layer_num(manifest: &Manifest, layer: i16) -> (r: Result<usize, Error>)
    ensures
        match r {
            Ok(pos) => resolve_spec(
                manifest.layers@.len() as int,
                layer as int,
            ) == Some(pos as int),
            Err(e) => {
                &&& e == Error::IndexOutOfRange
                &&& resolve_spec(manifest.layers@.len() as int, layer as int) is None
            },
        },
{
    let total = manifest.layers.len();
    if layer >= 0 {
        let pos = layer as usize;
        if pos < total {
            Ok(pos)
        } else {
            Err(Error::IndexOutOfRange)
        }
    } else {
        let magnitude = (-(layer as i32)) as usize;
        if magnitude <= total {
            Ok(total - magnitude)
        } else {
            Err(Error::IndexOutOfRange)
        }
    }
}

} // verus!
