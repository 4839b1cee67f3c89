use vstd::prelude::*;

use crate::entry::classify;
use crate::entry::EntryKind;
use crate::paths::base_name_of;
use crate::paths::is_whiteout_path;
use crate::paths::whiteout_target_of;

verus! {

/// The diff report of one layer: the paths it adds and the paths its
/// whiteout markers delete, each in archive order.
pub struct LayerInfo {
    pub additions: Vec<String>,
    pub deletions: Vec<String>,
}

/// The views of a sequence of owned strings.
pub open spec fn string_views(v: Seq<String>) -> Seq<Seq<char>> {
    v.map_values(|s: String| s@)
}

/// The paths a layer adds: every entry with a non-empty effective name that
/// is not a whiteout marker, verbatim and in archive order.
pub open spec fn additions_of(ps: Seq<Seq<char>>) -> Seq<Seq<char>>
    decreases ps.len(),
{
    if ps.len() == 0 {
        Seq::empty()
    } else {
        let rest = additions_of(ps.drop_last());
        let p = ps.last();
        if base_name_of(p).len() == 0 || is_whiteout_path(p) {
            rest
        } else {
            rest.push(p)
        }
    }
}

/// The paths a layer deletes: the target of every whiteout marker, in
/// archive order.
pub open spec fn deletions_of(ps: Seq<Seq<char>>) -> Seq<Seq<char>>
    decreases ps.len(),
{
    if ps.len() == 0 {
        Seq::empty()
    } else {
        let rest = deletions_of(ps.drop_last());
        let p = ps.last();
        if is_whiteout_path(p) {
            rest.push(whiteout_target_of(p))
        } else {
            rest
        }
    }
}

/// Reports, without applying anything, which paths one layer adds and which
/// its whiteout markers delete.  Entries with an empty effective name are
/// ignored; whiteout targets are reported with the sentinel prefix stripped
/// from the base name and the parent directory kept.
pub fn layer_info(paths: &Vec<String>) -> (r: LayerInfo)
    ensures
        string_views(r.additions@) == additions_of(string_views(paths@)),
        string_views(r.deletions@) == deletions_of(string_views(paths@)),
{
    let mut additions: Vec<String> = Vec::new();
    let mut deletions: Vec<String> = Vec::new();
    let n = paths.len();
    let mut i: usize = 0;
    while i < n
        invariant
            i <= n,
            n == paths@.len(),
            string_views(additions@) == additions_of(string_views(paths@.take(i as int))),
            string_views(deletions@) == deletions_of(string_views(paths@.take(i as int))),
        decreases n - i,
    {
        proof {
            assert(string_views(paths@.take((i + 1) as int)).drop_last() =~= string_views(
                paths@.take(i as int),
            ));
            assert(string_views(paths@.take((i + 1) as int)).last() == paths@[i as int]@);
        }
        match classify(paths[i].as_str()) {
            EntryKind::Skipped => {},
            EntryKind::Whiteout { target } => {
                deletions.push(target);
                proof {
                    assert(string_views(deletions@) =~= deletions_of(
                        string_views(paths@.take((i + 1) as int)),
                    ));
                }
            },
            EntryKind::Regular => {
                let p = paths[i].clone();
                additions.push(p);
                proof {
                    assert(string_views(additions@) =~= additions_of(
                        string_views(paths@.take((i + 1) as int)),
                    ));
                }
            },
        }
        i = i + 1;
    }
    proof {
        assert(paths@.take(n as int) =~= paths@);
    }
    LayerInfo { additions, deletions }
}

} // verus!
