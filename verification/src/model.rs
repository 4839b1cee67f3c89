use vstd::prelude::*;

use crate::error::Error;

verus! {

/// The top-level document of an unpacked image: the path of the config
/// document, the optional human-readable tags, and the ordered list of
/// per-layer archive paths (index `i` is layer `i`, oldest first).
pub struct Manifest {
    pub config: String,
    pub repo_tags: Option<Vec<String>>,
    pub layers: Vec<String>,
}

/// One build step of the image.  `empty_layer` means the step produced no
/// filesystem delta and therefore consumed no entry of `Manifest::layers`.
pub struct HistoryEntry {
    pub empty_layer: bool,
    pub created: String,
    pub created_by: String,
    pub comment: String,
}

/// The image config document: platform fields and the ordered build history.
pub struct Config {
    pub architecture: String,
    pub history: Vec<HistoryEntry>,
    pub os: String,
}

impl Clone for HistoryEntry {
    fn clone(&self) -> (r: Self)
        ensures
            r == *self,
    {
        HistoryEntry {
            empty_layer: self.empty_layer,
            created: self.created.clone(),
            created_by: self.created_by.clone(),
            comment: self.comment.clone(),
        }
    }
}

/// The sub-sequence of history entries that consumed a layer: those with
/// `empty_layer == false`, in order.  Entry `i` of this sub-sequence
/// corresponds one-to-one to `Manifest::layers[i]`.
pub open spec fn kept_history(h: Seq<HistoryEntry>) -> Seq<HistoryEntry>
    decreases h.len(),
{
    if h.len() == 0 {
        Seq::empty()
    } else {
        let rest = kept_history(h.drop_last());
        if h.last().empty_layer {
            rest
        } else {
            rest.push(h.last())
        }
    }
}

impl Config {
    /// The history filtered to the build steps that produced a filesystem
    /// delta, in order.
    pub fn clean_history(&self) -> (r: Vec<HistoryEntry>)
        ensures
            r@ == kept_history(self.history@),
    {
        let mut r: Vec<HistoryEntry> = Vec::new();
        let n = self.history.len();
        let mut i: usize = 0;
        while i < n
            invariant
                i <= n,
                n == self.history@.len(),
                r@ == kept_history(self.history@.take(i as int)),
            decreases n - i,
        {
            proof {
                assert(self.history@.take((i + 1) as int).drop_last() =~= self.history@.take(
                    i as int,
                ));
            }
            if !self.history[i].empty_layer {
                let e = self.history[i].clone();
                r.push(e);
            }
            i = i + 1;
        }
        proof {
            assert(self.history@.take(n as int) =~= self.history@);
        }
        r
    }
}

/// Accepts the image's parsed top-level manifest list only when it holds exactly one
/// manifest document, and yields that document; any other count is a fatal
/// parse error, rejected before any layer processing begins.
pub fn single_manifest(manifests: Vec<Manifest>) -> (r: Result<Manifest, Error>)
    ensures
        match r {
            Ok(m) => manifests@.len() == 1 && m == manifests@[0],
            Err(e) => e == Error::ParseError && manifests@.len() != 1,
        },
{
    let mut v = manifests;
    if v.len() == 1 {
        match v.pop() {
            Some(m) => Ok(m),
            None => Err(Error::ParseError),
        }
    } else {
        Err(Error::ParseError)
    }
}

/// Validates the coupling between the two independently parsed documents:
/// the history entries that consumed a layer must line up one-to-one with
/// `manifest.layers`.  A length mismatch is rejected rather than silently
/// indexed past.
pub fn check_history_alignment(config: &Config, manifest: &Manifest) -> (r: Result<(), Error>)
    ensures
        match r {
            Ok(_) => kept_history(config.history@).len() == manifest.layers@.len(),
            Err(e) => {
                &&& e == Error::ParseError
                &&& kept_history(config.history@).len() != manifest.layers@.len()
            },
        },
{
    let n = config.history.len();
    let mut count: usize = 0;
    let mut i: usize = 0;
    while i < n
        invariant
            i <= n,
            n == config.history@.len(),
            count <= i,
            count as int == kept_history(config.history@.take(i as int)).len(),
        decreases n - i,
    {
        proof {
            assert(config.history@.take((i + 1) as int).drop_last() =~= config.history@.take(
                i as int,
            ));
        }
        if !config.history[i].empty_layer {
            count = count + 1;
        }
        i = i + 1;
    }
    proof {
        assert(config.history@.take(n as int) =~= config.history@);
    }
    if count == manifest.layers.len() {
        Ok(())
    } else {
        Err(Error::ParseError)
    }
}

/// The build command of each layer, by position: entry `i` of the result is
/// the `created_by` of the `i`-th history step that produced a filesystem
/// delta.  Fails with `ParseError` when the filtered history does not line
/// up with the layer list.
pub fn layer_commands(manifest: &Manifest, config: &Config) -> (r: Result<Vec<String>, Error>)
    ensures
        match r {
            Ok(cmds) => {
                &&& kept_history(config.history@).len() == manifest.layers@.len()
                &&& cmds@.len() == manifest.layers@.len()
                &&& forall|i: int|
                    0 <= i < cmds@.len() ==> cmds@[i] == kept_history(config.history@)[i].created_by
            },
            Err(e) => {
                &&& e == Error::ParseError
                &&& kept_history(config.history@).len() != manifest.layers@.len()
            },
        },
{
    let hist = config.clean_history();
    if hist.len() != manifest.layers.len() {
        return Err(Error::ParseError);
    }
    let n = hist.len();
    let mut cmds: Vec<String> = Vec::new();
    let mut i: usize = 0;
    while i < n
        invariant
            i <= n,
            n == hist@.len(),
            hist@ == kept_history(config.history@),
            cmds@.len() == i,
            forall|j: int| 0 <= j < i ==> cmds@[j] == hist@[j].created_by,
        decreases n - i,
    {
        let c = hist[i].created_by.clone();
        cmds.push(c);
        i = i + 1;
    }
    Ok(cmds)
}

} // verus!
