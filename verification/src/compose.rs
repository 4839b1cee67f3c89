use vstd::prelude::*;

use crate::entry::entry_action;
use crate::entry::EntryAction;
use crate::error::Error;
use crate::paths::base_name_of;
use crate::paths::is_whiteout_name;
use crate::paths::is_whiteout_path;
use crate::paths::last_slash_end;
use crate::paths::lemma_joined_base_name;
use crate::paths::strip_trailing_slashes;
use crate::paths::whiteout_sentinel;
use crate::paths::whiteout_target_of;

verus! {

/// One in-memory archive entry: a path and the bytes stored behind it.
pub struct LayerEntry {
    pub path: String,
    pub data: Vec<u8>,
}

/// The mathematical value of one entry.
pub struct EntryModel {
    pub path: Seq<char>,
    pub data: Seq<u8>,
}

impl View for LayerEntry {
    type V = EntryModel;

    open spec fn view(&self) -> EntryModel {
        EntryModel { path: self.path@, data: self.data@ }
    }
}

/// Whether deleting `target` removes the filesystem object at `k`: either
/// `k` is the target itself, or `k` lies beneath the target directory.
pub open spec fn path_covers(target: Seq<char>, k: Seq<char>) -> bool {
    ||| k == target
    ||| (k.len() > target.len() && k.subrange(0, target.len() as int) == target && k[target.len() as int]
        == '/')
}

/// The set of paths that deleting `target` removes.
pub open spec fn covered_keys(target: Seq<char>) -> Set<Seq<char>> {
    Set::new(|k: Seq<char>| path_covers(target, k))
}

/// The views of the entries of one in-memory layer.
pub open spec fn entry_views(es: Seq<LayerEntry>) -> Seq<EntryModel> {
    es.map_values(|e: LayerEntry| e@)
}

/// The mapping that a log of written entries denotes: a later entry for a
/// path shadows an earlier one.
pub(crate) open spec fn log_map(es: Seq<EntryModel>) -> Map<Seq<char>, Seq<u8>>
    decreases es.len(),
{
    if es.len() == 0 {
        Map::empty()
    } else {
        log_map(es.drop_last()).insert(es.last().path, es.last().data)
    }
}

/// A path is stored in the log's mapping exactly when some entry wrote it.
pub(crate) proof fn lemma_log_map_dom_key(es: Seq<EntryModel>, k: Seq<char>)
    ensures
        log_map(es).dom().contains(k) <==> (exists|x: int| 0 <= x < es.len() && es[x].path == k),
    decreases es.len(),
{
    if es.len() > 0 {
        lemma_log_map_dom_key(es.drop_last(), k);
        if log_map(es).dom().contains(k) {
            if k == es.last().path {
                assert(0 <= es.len() - 1 < es.len() && es[es.len() - 1].path == k);
            } else {
                assert(log_map(es.drop_last()).dom().contains(k));
                let x = choose|x: int|
                    0 <= x < es.drop_last().len() && es.drop_last()[x].path == k;
                assert(0 <= x < es.len() && es[x].path == k);
            }
        }
        if exists|x: int| 0 <= x < es.len() && es[x].path == k {
            let x = choose|x: int| 0 <= x < es.len() && es[x].path == k;
            if x < es.len() - 1 {
                assert(0 <= x < es.drop_last().len() && es.drop_last()[x].path == k);
                assert(log_map(es.drop_last()).dom().contains(k));
            }
            assert(log_map(es).dom().contains(k));
        }
    }
}

/// The whole-log form of `lemma_log_map_dom_key`.
pub(crate) proof fn lemma_log_map_dom(es: Seq<EntryModel>)
    ensures
        forall|k: Seq<char>|
            #![trigger log_map(es).dom().contains(k)]
            log_map(es).dom().contains(k) <==> (exists|x: int|
                0 <= x < es.len() && es[x].path == k),
{
    assert forall|k: Seq<char>|
        #![trigger log_map(es).dom().contains(k)]
        log_map(es).dom().contains(k) <==> (exists|x: int|
            0 <= x < es.len() && es[x].path == k) by {
        lemma_log_map_dom_key(es, k);
    }
}

/// The bytes the log's mapping stores at a path are those of the last entry
/// that wrote it.
pub(crate) proof fn lemma_log_map_at(es: Seq<EntryModel>, x: int)
    requires
        0 <= x < es.len(),
        forall|y: int| x < y < es.len() ==> es[y].path != es[x].path,
    ensures
        log_map(es).dom().contains(es[x].path),
        log_map(es)[es[x].path] == es[x].data,
    decreases es.len(),
{
    if x == es.len() - 1 {
    } else {
        assert(forall|y: int| x < y < es.len() - 1 ==> es.drop_last()[y].path != es[x].path);
        lemma_log_map_at(es.drop_last(), x);
        assert(es.last().path != es[x].path);
    }
}

/// An entry log with every entry beneath `target` dropped.
pub(crate) open spec fn log_without(es: Seq<EntryModel>, target: Seq<char>) -> Seq<EntryModel>
    decreases es.len(),
{
    if es.len() == 0 {
        Seq::empty()
    } else {
        let rest = log_without(es.drop_last(), target);
        if path_covers(target, es.last().path) {
            rest
        } else {
            rest.push(es.last())
        }
    }
}

/// Dropping the covered entries from the log removes exactly the covered
/// keys from the mapping it denotes.
pub(crate) proof fn lemma_log_without(es: Seq<EntryModel>, target: Seq<char>)
    ensures
        log_map(log_without(es, target)) == log_map(es).remove_keys(covered_keys(target)),
    decreases es.len(),
{
    if es.len() == 0 {
        assert(log_map(log_without(es, target)) =~= log_map(es).remove_keys(
            covered_keys(target),
        ));
    } else {
        lemma_log_without(es.drop_last(), target);
        let last = es.last();
        let rest = log_without(es.drop_last(), target);
        if path_covers(target, last.path) {
            assert(log_without(es, target) == rest);
            assert(log_map(es).remove_keys(covered_keys(target)) =~= log_map(
                es.drop_last(),
            ).remove_keys(covered_keys(target)));
        } else {
            assert(log_without(es, target) == rest.push(last));
            assert(rest.push(last).drop_last() =~= rest);
            assert(rest.push(last).last() == last);
            assert(log_map(rest.push(last)) == log_map(rest).insert(last.path, last.data));
            assert(log_map(es).remove_keys(covered_keys(target)) =~= log_map(
                es.drop_last(),
            ).remove_keys(covered_keys(target)).insert(last.path, last.data));
        }
    }
}

/// Whether the first `n` characters of `a` and `b` agree.
fn chars_eq_prefix(a: &str, b: &str, n: usize) -> (r: bool)
    requires
        n <= a@.len(),
        n <= b@.len(),
    ensures
        r == (a@.subrange(0, n as int) == b@.subrange(0, n as int)),
{
    let mut i: usize = 0;
    while i < n
        invariant
            i <= n,
            n <= a@.len(),
            n <= b@.len(),
            forall|j: int| 0 <= j < i ==> a@[j] == b@[j],
        decreases n - i,
    {
        if a.get_char(i) != b.get_char(i) {
            proof {
                assert(a@.subrange(0, n as int)[i as int] != b@.subrange(0, n as int)[i as int]);
            }
            return false;
        }
        i = i + 1;
    }
    proof {
        assert(a@.subrange(0, n as int) =~= b@.subrange(0, n as int));
    }
    true
}

/// Whether two strings hold the same characters.
fn str_eq(a: &str, b: &str) -> (r: bool)
    ensures
        r == (a@ == b@),
{
    let an = a.unicode_len();
    let bn = b.unicode_len();
    if an != bn {
        return false;
    }
    let r = chars_eq_prefix(a, b, an);
    proof {
        assert(a@.subrange(0, an as int) =~= a@);
        assert(b@.subrange(0, bn as int) =~= b@);
    }
    r
}

/// Whether deleting `target` removes the object at `k`.
fn covers_exec(target: &str, k: &str) -> (r: bool)
    ensures
        r == path_covers(target@, k@),
{
    let tn = target.unicode_len();
    let kn = k.unicode_len();
    if kn == tn {
        let r = chars_eq_prefix(target, k, tn);
        proof {
            assert(target@.subrange(0, tn as int) =~= target@);
            assert(k@.subrange(0, kn as int) =~= k@);
            if k@ != target@ && path_covers(target@, k@) {
                assert(false);
            }
        }
        r
    } else if kn > tn {
        if !chars_eq_prefix(target, k, tn) {
            proof {
                assert(target@.subrange(0, tn as int) =~= target@);
            }
            return false;
        }
        proof {
            assert(target@.subrange(0, tn as int) =~= target@);
        }
        let r = k.get_char(tn) == '/';
        r
    } else {
        proof {
            assert(k@ != target@);
        }
        false
    }
}

/// One entry applied to a tree.  An entry with an empty effective name is
/// ignored.  While deletion is in force, a whiteout marker deletes its target
/// and everything beneath it, and fails (`None`) when nothing lies there.
/// Every other entry — including a whiteout marker while deletion is not in
/// force — stores its bytes at its path.
pub open spec fn apply_entry_model(
    t: Map<Seq<char>, Seq<u8>>,
    e: EntryModel,
    deletion: bool,
) -> Option<Map<Seq<char>, Seq<u8>>> {
    if base_name_of(e.path).len() == 0 {
        Some(t)
    } else if deletion && is_whiteout_path(e.path) {
        let target = whiteout_target_of(e.path);
        if exists|k: Seq<char>| t.dom().contains(k) && path_covers(target, k) {
            Some(t.remove_keys(covered_keys(target)))
        } else {
            None
        }
    } else {
        Some(t.insert(e.path, e.data))
    }
}

/// One layer's entries applied to a tree in archive order; `None` marks a
/// failed whiteout, which aborts the whole composition.
pub open spec fn apply_entries_model(
    t: Map<Seq<char>, Seq<u8>>,
    es: Seq<EntryModel>,
    deletion: bool,
) -> Option<Map<Seq<char>, Seq<u8>>>
    decreases es.len(),
{
    if es.len() == 0 {
        Some(t)
    } else {
        match apply_entry_model(t, es[0], deletion) {
            Option::None => Option::None,
            Option::Some(t2) => apply_entries_model(t2, es.skip(1), deletion),
        }
    }
}

/// A range of layers applied to a tree strictly in order, oldest first.
pub open spec fn apply_layers_model(
    t: Map<Seq<char>, Seq<u8>>,
    ls: Seq<Seq<EntryModel>>,
    deletion: bool,
) -> Option<Map<Seq<char>, Seq<u8>>>
    decreases ls.len(),
{
    if ls.len() == 0 {
        Some(t)
    } else {
        match apply_entries_model(t, ls[0], deletion) {
            Option::None => Option::None,
            Option::Some(t2) => apply_layers_model(t2, ls.skip(1), deletion),
        }
    }
}

/// The views of the layers handed to the compositor.
pub open spec fn layer_views(ls: Seq<Vec<LayerEntry>>) -> Seq<Seq<EntryModel>> {
    ls.map_values(|l: Vec<LayerEntry>| entry_views(l@))
}

/// The tree that composing the range `ls` onto a fresh destination yields:
/// the layers are applied oldest to newest onto an empty tree, and whiteout
/// deletion is in force exactly when the range holds more than one layer.
pub open spec fn compose_model(ls: Seq<Seq<EntryModel>>) -> Option<Map<Seq<char>, Seq<u8>>> {
    apply_layers_model(Map::empty(), ls, ls.len() != 1)
}

/// A filesystem tree under composition, held as a log of written entries in
/// which a later entry for a path shadows an earlier one.  Its view is the
/// mapping from each stored path to the bytes the last write left there.
pub struct Tree {
    entries: Vec<LayerEntry>,
}

impl View for Tree {
    type V = Map<Seq<char>, Seq<u8>>;

    closed spec fn view(&self) -> Map<Seq<char>, Seq<u8>> {
        log_map(entry_views(self.entries@))
    }
}

impl Tree {
    /// The empty tree a composition starts from.
    pub fn new() -> (t: Tree)
        ensures
            t@ == Map::<Seq<char>, Seq<u8>>::empty(),
    {
        let t = Tree { entries: Vec::new() };
        proof {
            assert(entry_views(t.entries@) =~= Seq::<EntryModel>::empty());
        }
        t
    }

    /// Stores `data` at `path`, shadowing anything written there before.
    pub fn write(&mut self, path: String, data: Vec<u8>)
        ensures
            final(self)@ == old(self)@.insert(path@, data@),
    {
        let ghost p = path@;
        let ghost d = data@;
        self.entries.push(LayerEntry { path, data });
        proof {
            assert(entry_views(self.entries@).drop_last() =~= entry_views(old(self).entries@));
            assert(entry_views(self.entries@).last().path == p);
            assert(entry_views(self.entries@).last().data == d);
        }
    }

    /// The bytes stored at exactly `path`, if any.
    pub fn lookup(&self, path: &str) -> (r: Option<&Vec<u8>>)
        ensures
            match r {
                Some(d) => self@.dom().contains(path@) && d@ == self@[path@],
                None => !self@.dom().contains(path@),
            },
    {
        let ghost es = entry_views(self.entries@);
        let mut i: usize = self.entries.len();
        while i > 0
            invariant
                i <= self.entries@.len(),
                es == entry_views(self.entries@),
                forall|y: int| i <= y < es.len() ==> es[y].path != path@,
            decreases i,
        {
            i = i - 1;
            if str_eq(self.entries[i].path.as_str(), path) {
                proof {
                    assert(es[i as int].path == path@);
                    lemma_log_map_at(es, i as int);
                }
                return Some(&self.entries[i].data);
            }
        }
        proof {
            lemma_log_map_dom(es);
        }
        None
    }

    /// Deletes `target` and everything beneath it, reporting whether
    /// anything lay there.
    pub fn remove_subtree(&mut self, target: &str) -> (removed: bool)
        ensures
            removed == exists|k: Seq<char>|
                old(self)@.dom().contains(k) && path_covers(target@, k),
            final(self)@ == old(self)@.remove_keys(covered_keys(target@)),
    {
        let ghost orig = entry_views(old(self).entries@);
        let ghost mut j: int = 0;
        let mut i: usize = 0;
        let mut removed = false;
        while i < self.entries.len()
            invariant
                0 <= j <= orig.len(),
                i as int == log_without(orig.take(j), target@).len(),
                entry_views(self.entries@) == log_without(orig.take(j), target@) + orig.skip(j),
                removed == exists|x: int| 0 <= x < j && path_covers(target@, orig[x].path),
            decreases orig.len() - j,
        {
            proof {
                assert(orig.take(j + 1).drop_last() =~= orig.take(j));
                assert(orig.take(j + 1).last() == orig[j]);
                assert(entry_views(self.entries@)[i as int] == orig[j]);
            }
            let covered = covers_exec(target, self.entries[i].path.as_str());
            if covered {
                let ghost prev = self.entries@;
                self.entries.remove(i);
                removed = true;
                proof {
                    assert(path_covers(target@, orig[j].path));
                    assert(log_without(orig.take(j + 1), target@) == log_without(
                        orig.take(j),
                        target@,
                    ));
                    assert(self.entries@ == prev.remove(i as int));
                    assert(entry_views(prev) == log_without(orig.take(j), target@) + orig.skip(j));
                    assert(entry_views(prev).len() == prev.len());
                    assert(prev.len() == i + orig.len() - j);
                    assert(self.entries@.len() == prev.len() - 1);
                    assert forall|x: int| 0 <= x < self.entries@.len() implies entry_views(
                        self.entries@,
                    )[x] == (log_without(orig.take(j + 1), target@) + orig.skip(j + 1))[x] by {
                        let lw = log_without(orig.take(j), target@);
                        if x < i as int {
                            assert(self.entries@[x] == prev[x]);
                            assert(entry_views(self.entries@)[x] == prev[x]@);
                            assert(entry_views(prev)[x] == prev[x]@);
                            assert(entry_views(prev)[x] == lw[x]);
                            assert((log_without(orig.take(j + 1), target@) + orig.skip(j + 1))[x]
                                == lw[x]);
                        } else {
                            assert(self.entries@[x] == prev[x + 1]);
                            assert(entry_views(self.entries@)[x] == prev[x + 1]@);
                            assert(entry_views(prev)[x + 1] == prev[x + 1]@);
                            assert(entry_views(prev)[x + 1] == orig.skip(j)[x + 1 - i]);
                            assert(orig.skip(j)[x + 1 - i] == orig[j + x + 1 - i]);
                            assert((log_without(orig.take(j + 1), target@) + orig.skip(j + 1))[x]
                                == orig.skip(j + 1)[x - i]);
                            assert(orig.skip(j + 1)[x - i] == orig[j + 1 + x - i]);
                        }
                    }
                    assert(entry_views(self.entries@) =~= log_without(orig.take(j + 1), target@)
                        + orig.skip(j + 1));
                }
            } else {
                i = i + 1;
                proof {
                    assert(entry_views(self.entries@) =~= log_without(orig.take(j + 1), target@)
                        + orig.skip(j + 1));
                }
            }
            proof {
                j = j + 1;
            }
        }
        proof {
            assert(j == orig.len());
            assert(orig.take(j) =~= orig);
            assert(entry_views(self.entries@) =~= log_without(orig, target@));
            lemma_log_without(orig, target@);
            lemma_log_map_dom(orig);
        }
        removed
    }
}

/// An owned copy of a byte vector.
fn clone_bytes(v: &Vec<u8>) -> (r: Vec<u8>)
    ensures
        r@ == v@,
{
    let r = v.clone();
    proof {
        assert(r@ =~= v@);
    }
    r
}

/// Composes a contiguous, ordered range of layers onto a fresh tree: each
/// layer's entries are applied in archive order, and whiteout deletion is in
/// force exactly when `deletion` says so.  A whiteout whose target is absent
/// from the tree composed so far aborts the whole composition with
/// `WhiteoutTargetMissing`.
pub fn compose_with(layers: &Vec<Vec<LayerEntry>>, deletion: bool) -> (r: Result<Tree, Error>)
    ensures
        match r {
            Ok(t) => apply_layers_model(Map::empty(), layer_views(layers@), deletion) == Some(t@),
            Err(e) => {
                &&& e == Error::WhiteoutTargetMissing
                &&& apply_layers_model(Map::empty(), layer_views(layers@), deletion) is None
            },
        },
{
    let ghost lv = layer_views(layers@);
    let mut tree = Tree::new();
    let n = layers.len();
    let mut i: usize = 0;
    proof {
        assert(lv.skip(0) =~= lv);
    }
    while i < n
        invariant
            i <= n,
            n == layers@.len(),
            lv == layer_views(layers@),
            apply_layers_model(Map::empty(), lv, deletion) == apply_layers_model(
                tree@,
                lv.skip(i as int),
                deletion,
            ),
        decreases n - i,
    {
        let layer = &layers[i];
        let ghost ev = lv[i as int];
        proof {
            assert(ev == entry_views(layer@));
            assert(lv.skip(i as int)[0] == lv[i as int]);
            assert(lv.skip(i as int).skip(1) =~= lv.skip((i + 1) as int));
            assert(ev.skip(0) =~= ev);
        }
        let m = layer.len();
        let mut k: usize = 0;
        while k < m
            invariant
                k <= m,
                i < n,
                n == layers@.len(),
                lv == layer_views(layers@),
                ev == lv[i as int],
                ev == entry_views(layer@),
                layer == &layers@[i as int],
                m == layer@.len(),
                match apply_entries_model(tree@, ev.skip(k as int), deletion) {
                    Option::None => apply_layers_model(Map::empty(), lv, deletion) is None,
                    Option::Some(t2) => apply_layers_model(Map::empty(), lv, deletion)
                        == apply_layers_model(t2, lv.skip((i + 1) as int), deletion),
                },
            decreases m - k,
        {
            proof {
                assert(ev.skip(k as int)[0] == ev[k as int]);
                assert(ev.skip(k as int).skip(1) =~= ev.skip((k + 1) as int));
                assert(ev[k as int] == layer@[k as int]@);
            }
            let e = &layer[k];
            match entry_action(e.path.as_str(), deletion) {
                EntryAction::Skip => {
                    proof {
                        assert(apply_entry_model(tree@, ev[k as int], deletion) == Some(tree@));
                    }
                },
                EntryAction::Delete { target } => {
                    let ghost t0 = tree@;
                    let removed = tree.remove_subtree(target.as_str());
                    if !removed {
                        proof {
                            assert(apply_entry_model(t0, ev[k as int], deletion) is None);
                            assert(apply_entries_model(t0, ev.skip(k as int), deletion) is None);
                        }
                        return Err(Error::WhiteoutTargetMissing);
                    }
                    proof {
                        assert(apply_entry_model(t0, ev[k as int], deletion) == Some(tree@));
                    }
                },
                EntryAction::Unpack => {
                    let ghost t0 = tree@;
                    let p = e.path.clone();
                    let d = clone_bytes(&e.data);
                    tree.write(p, d);
                    proof {
                        assert(apply_entry_model(t0, ev[k as int], deletion) == Some(tree@));
                    }
                },
            }
            k = k + 1;
        }
        proof {
            assert(ev.skip(m as int) =~= Seq::<EntryModel>::empty());
        }
        i = i + 1;
    }
    proof {
        assert(lv.skip(n as int) =~= Seq::<Seq<EntryModel>>::empty());
    }
    Ok(tree)
}

/// Composes the given layer range exactly as a dump does: onto a fresh
/// destination, oldest to newest, with whiteout deletion in force exactly
/// when the range holds more than one layer — a single layer is unpacked
/// with its raw whiteout markers preserved.
pub fn compose(layers: &Vec<Vec<LayerEntry>>) -> (r: Result<Tree, Error>)
    ensures
        match r {
            Ok(t) => compose_model(layer_views(layers@)) == Some(t@),
            Err(e) => {
                &&& e == Error::WhiteoutTargetMissing
                &&& compose_model(layer_views(layers@)) is None
            },
        },
{
    let deletion = layers.len() != 1;
    compose_with(layers, deletion)
}

/// Composition is deterministic: the tree composed from an ordered layer
/// range is a function of that range alone, so composing the same range
/// twice into fresh destinations yields identical trees.
pub proof fn lemma_compose_deterministic(
    ls: Seq<Seq<EntryModel>>,
    t1: Map<Seq<char>, Seq<u8>>,
    t2: Map<Seq<char>, Seq<u8>>,
)
    requires
        compose_model(ls) == Some(t1),
        compose_model(ls) == Some(t2),
    ensures
        t1 == t2,
{
}

/// Applying a range of layers equals applying a prefix of it and then the
/// remainder, starting from the tree the prefix produced.
pub proof fn lemma_apply_layers_split(
    t: Map<Seq<char>, Seq<u8>>,
    ls: Seq<Seq<EntryModel>>,
    n: int,
    deletion: bool,
)
    requires
        0 <= n <= ls.len(),
    ensures
        apply_layers_model(t, ls, deletion) == match apply_layers_model(t, ls.take(n), deletion) {
            Option::None => Option::<Map<Seq<char>, Seq<u8>>>::None,
            Option::Some(t2) => apply_layers_model(t2, ls.skip(n), deletion),
        },
    decreases n,
{
    if n == 0 {
        assert(ls.take(0) =~= Seq::<Seq<EntryModel>>::empty());
        assert(ls.skip(0) =~= ls);
    } else {
        assert(ls.take(n)[0] == ls[0]);
        assert(ls.take(n).skip(1) =~= ls.skip(1).take(n - 1));
        assert(ls.skip(n) =~= ls.skip(1).skip(n - 1));
        match apply_entries_model(t, ls[0], deletion) {
            Option::None => {},
            Option::Some(t2) => {
                lemma_apply_layers_split(t2, ls.skip(1), n - 1, deletion);
            },
        }
    }
}

/// Stacking equivalence: for `1 <= k < ls.len()`, composing the stacked
/// prefix `[0..=k]` yields exactly the intermediate tree of a full dump of
/// `ls` after its first `k + 1` layers — the full dump equals that tree with
/// the remaining layers applied on top.  (Both composings cover more than
/// one layer, so whiteout deletion is in force in both.)
pub proof fn lemma_stacking_equivalence(ls: Seq<Seq<EntryModel>>, k: int)
    requires
        1 <= k < ls.len(),
    ensures
        compose_model(ls) == match compose_model(ls.take(k + 1)) {
            Option::None => Option::<Map<Seq<char>, Seq<u8>>>::None,
            Option::Some(t) => apply_layers_model(t, ls.skip(k + 1), true),
        },
{
    assert(ls.take(k + 1).len() == k + 1);
    lemma_apply_layers_split(Map::empty(), ls, k + 1, true);
}

/// Whiteout application: let layer A add the path `dir + name` and layer B
/// hold a whiteout marker for it.  Composing `[A, B]` deletes the path — the
/// resulting tree is empty, and in particular holds neither the path nor the
/// marker.  Composing `[B]` alone interprets nothing: the raw marker file
/// itself appears in the output.
pub proof fn lemma_whiteout_application(
    dir: Seq<char>,
    name: Seq<char>,
    data: Seq<u8>,
    marker: Seq<u8>,
)
    requires
        dir.len() == 0 || dir.last() == '/',
        name.len() > 0,
        forall|i: int| 0 <= i < name.len() ==> name[i] != '/',
        !is_whiteout_name(name),
    ensures
        compose_model(
            seq![
                seq![EntryModel { path: dir + name, data }],
                seq![EntryModel { path: dir + whiteout_sentinel() + name, data: marker }],
            ],
        ) == Some(Map::<Seq<char>, Seq<u8>>::empty()),
        compose_model(seq![seq![EntryModel { path: dir + whiteout_sentinel() + name, data: marker }]])
            == Some(Map::<Seq<char>, Seq<u8>>::empty().insert(dir + whiteout_sentinel() + name, marker)),
{
    let p = dir + name;
    let wname = whiteout_sentinel() + name;
    let w = dir + whiteout_sentinel() + name;
    assert(w =~= dir + wname);
    assert(whiteout_sentinel()[0] == '.');
    assert(whiteout_sentinel()[1] == 'w');
    assert(whiteout_sentinel()[2] == 'h');
    assert(whiteout_sentinel()[3] == '.');
    assert(forall|i: int| 0 <= i < wname.len() ==> wname[i] != '/');
    lemma_joined_base_name(dir, name);
    lemma_joined_base_name(dir, wname);
    assert(base_name_of(w) == wname);
    assert(wname.subrange(0, 4) =~= whiteout_sentinel());
    assert(is_whiteout_path(w));
    assert(!is_whiteout_path(p));
    assert(whiteout_target_of(w) =~= p) by {
        assert(strip_trailing_slashes(w) == w);
        assert(last_slash_end(w) == dir.len());
        assert(w.subrange(0, dir.len() as int) =~= dir);
        assert(w.subrange(dir.len() as int + 4, w.len() as int) =~= name);
    }

    let e1 = EntryModel { path: p, data };
    let e2 = EntryModel { path: w, data: marker };
    let la = seq![e1];
    let lb = seq![e2];
    assert(la.len() == 1 && la[0] == e1);
    assert(lb.len() == 1 && lb[0] == e2);

    // Composing [A, B]: more than one layer, so deletion is in force.
    let ls = seq![la, lb];
    assert(ls.len() == 2);
    assert(ls[0] == la && ls[1] == lb);
    let t1 = Map::<Seq<char>, Seq<u8>>::empty().insert(p, data);
    assert(la.skip(1) =~= Seq::<EntryModel>::empty());
    assert(apply_entry_model(Map::empty(), e1, true) == Some(t1));
    assert(apply_entries_model(t1, la.skip(1), true) == Some(t1));
    assert(apply_entries_model(Map::empty(), la, true) == Some(t1));
    assert(t1.dom().contains(p) && path_covers(p, p));
    let t2m = t1.remove_keys(covered_keys(p));
    assert(apply_entry_model(t1, e2, true) == Some(t2m));
    assert(lb.skip(1) =~= Seq::<EntryModel>::empty());
    assert(apply_entries_model(t2m, lb.skip(1), true) == Some(t2m));
    assert(apply_entries_model(t1, lb, true) == Some(t2m));
    assert(ls.skip(1) =~= seq![lb]);
    assert(seq![lb].skip(1) =~= Seq::<Seq<EntryModel>>::empty());
    assert(t2m =~= Map::<Seq<char>, Seq<u8>>::empty());
    assert(apply_layers_model(t2m, ls.skip(1).skip(1), true) == Some(t2m));
    assert(apply_layers_model(t1, ls.skip(1), true) == Some(t2m));
    assert(apply_layers_model(Map::empty(), ls, true) == Some(t2m));

    // Composing [B] alone: a single layer, so the marker is kept verbatim.
    let ls1 = seq![lb];
    assert(ls1.len() == 1);
    assert(ls1[0] == lb);
    let tm = Map::<Seq<char>, Seq<u8>>::empty().insert(w, marker);
    assert(apply_entry_model(Map::empty(), e2, false) == Some(tm));
    assert(apply_entries_model(tm, lb.skip(1), false) == Some(tm));
    assert(apply_entries_model(Map::empty(), lb, false) == Some(tm));
    assert(ls1.skip(1) =~= Seq::<Seq<EntryModel>>::empty());
    assert(apply_layers_model(tm, ls1.skip(1), false) == Some(tm));
    assert(apply_layers_model(Map::empty(), ls1, false) == Some(tm));
}

} // verus!
