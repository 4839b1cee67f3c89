use vstd::prelude::*;

use crate::paths::base_name_of;
use crate::paths::is_whiteout_name;
use crate::paths::is_whiteout_path;
use crate::paths::last_slash_boundary;
use crate::paths::lemma_last_slash_end_bounds;
use crate::paths::strip_trailing_slashes;
use crate::paths::trimmed_len;
use crate::paths::whiteout_sentinel;
use crate::paths::whiteout_target_of;

verus! {

/// What one archive entry means to the compositor and the diff reporter,
/// decided once at the archive-reader boundary so that downstream logic never
/// re-parses names.
pub enum EntryKind {
    /// The entry's effective name is empty; it is ignored entirely.
    Skipped,
    /// A whiteout marker: `target` must not exist after this layer is applied.
    Whiteout { target: String },
    /// Ordinary content, materialized exactly as the archive describes it.
    Regular,
}

/// What the compositor does with one archive entry: ignore it, materialize
/// it at its path, or delete its whiteout target from the tree composed so
/// far.
pub enum EntryAction {
    /// The entry's effective name is empty; nothing happens.
    Skip,
    /// The entry's bytes and metadata are written at its path.
    Unpack,
    /// `target` and everything beneath it are removed.
    Delete { target: String },
}

/// Classifies one archive entry by its path: an empty effective name is
/// skipped, a base name made of the whiteout sentinel plus a non-empty rest is
/// a whiteout whose target is the parent directory joined with that rest, and
/// everything else is regular content.
pub fn classify(path: &str) -> (k: EntryKind)
    ensures
        match k {
            EntryKind::Skipped => base_name_of(path@).len() == 0,
            EntryKind::Whiteout { target } => is_whiteout_path(path@) && target@
                == whiteout_target_of(path@),
            EntryKind::Regular => base_name_of(path@).len() > 0 && !is_whiteout_path(path@),
        },
{
    let t = trimmed_len(path);
    let b = last_slash_boundary(path, t);
    proof {
        let trimmed = strip_trailing_slashes(path@);
        lemma_last_slash_end_bounds(trimmed);
        assert(trimmed.subrange(b as int, t as int) =~= path@.subrange(b as int, t as int));
        assert(base_name_of(path@) == path@.subrange(b as int, t as int));
    }
    if b == t {
        return EntryKind::Skipped;
    }
    let base_len = t - b;
    if base_len > 4 && path.get_char(b) == '.' && path.get_char(b + 1) == 'w' && path.get_char(
        b + 2,
    ) == 'h' && path.get_char(b + 3) == '.' {
        proof {
            assert(base_name_of(path@).subrange(0, 4) =~= whiteout_sentinel());
        }
        let parent = path.substring_char(0, b);
        let rest = path.substring_char(b + 4, t);
        let target = String::from_str(parent).concat(rest);
        proof {
            let trimmed = strip_trailing_slashes(path@);
            assert(trimmed.subrange(0, b as int) =~= path@.subrange(0, b as int));
            assert(trimmed.subrange(b + 4, t as int) =~= path@.subrange((b + 4) as int, t as int));
        }
        return EntryKind::Whiteout { target };
    }
    proof {
        if is_whiteout_name(base_name_of(path@)) {
            let base = base_name_of(path@);
            assert(base.subrange(0, 4)[0] == base[0]);
            assert(base.subrange(0, 4)[1] == base[1]);
            assert(base.subrange(0, 4)[2] == base[2]);
            assert(base.subrange(0, 4)[3] == base[3]);
            assert(whiteout_sentinel()[0] == '.');
            assert(whiteout_sentinel()[1] == 'w');
            assert(whiteout_sentinel()[2] == 'h');
            assert(whiteout_sentinel()[3] == '.');
            assert(false);
        }
    }
    EntryKind::Regular
}

/// The compositor's decision for one archive entry, given whether whiteout
/// deletion is in force for the range being composed: an entry with an empty
/// effective name is ignored, a whiteout marker becomes a deletion only
/// while deletion is in force, and every other entry — the raw marker
/// included, when it is not — is unpacked as it stands.
pub fn entry_action(path: &str, deletion: bool) -> (a: EntryAction)
    ensures
        match a {
            EntryAction::Skip => base_name_of(path@).len() == 0,
            EntryAction::Delete { target } => deletion && is_whiteout_path(path@) && target@
                == whiteout_target_of(path@),
            EntryAction::Unpack => base_name_of(path@).len() > 0 && !(deletion
                && is_whiteout_path(path@)),
        },
{
    match classify(path) {
        EntryKind::Skipped => EntryAction::Skip,
        EntryKind::Whiteout { target } => {
            if deletion {
                EntryAction::Delete { target }
            } else {
                EntryAction::Unpack
            }
        },
        EntryKind::Regular => EntryAction::Unpack,
    }
}

} // verus!
