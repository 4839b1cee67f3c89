use vstd::prelude::*;

verus! {

/// The failure kinds that the library and its callers distinguish.
///
/// `ParseError` covers malformed manifest or config documents, including a
/// top-level manifest list that does not hold exactly one manifest.
/// `IndexOutOfRange`
/// is returned when a layer reference resolves outside the available layers.
/// `ArchiveError` marks an unreadable or malformed archive entry,
/// `WhiteoutTargetMissing` a deletion marker whose target is absent from the
/// tree composed so far, `PathError` an in-image path that cannot be brought
/// into relative form, and `IoError` a filesystem failure around the core.
#[derive(Clone, Copy, Debug, PartialEq, Eq, Structural)]
pub enum Error {
    ParseError,
    IndexOutOfRange,
    ArchiveError,
    WhiteoutTargetMissing,
    PathError,
    IoError,
}

} // verus!
