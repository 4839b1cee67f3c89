use vstd::prelude::*;

use crate::error::Error;

verus! {

/// The sentinel prefix that marks a whiteout entry's base name.
pub open spec fn whiteout_sentinel() -> Seq<char> {
    seq!['.', 'w', 'h', '.']
}

/// `s` without its trailing `/` separators.
pub open spec fn strip_trailing_slashes(s: Seq<char>) -> Seq<char>
    decreases s.len(),
{
    if s.len() > 0 && s.last() == '/' {
        strip_trailing_slashes(s.drop_last())
    } else {
        s
    }
}

/// The position right after the last `/` in `s`, or `0` when `s` holds none.
pub open spec fn last_slash_end(s: Seq<char>) -> int
    decreases s.len(),
{
    if s.len() == 0 {
        0
    } else if s.last() == '/' {
        s.len() as int
    } else {
        last_slash_end(s.drop_last())
    }
}

/// The position after the last separator always lies within the string.
pub proof fn lemma_last_slash_end_bounds(s: Seq<char>)
    ensures
        0 <= last_slash_end(s) <= s.len(),
    decreases s.len(),
{
    if s.len() > 0 && s.last() != '/' {
        lemma_last_slash_end_bounds(s.drop_last());
    }
}

/// The base name of an archive entry path: its last segment, with trailing
/// separators ignored.  Empty when the path holds no segment at all.
pub open spec fn base_name_of(p: Seq<char>) -> Seq<char> {
    let t = strip_trailing_slashes(p);
    t.subrange(last_slash_end(t), t.len() as int)
}

/// Whether `n` is a whiteout base name: the sentinel prefix followed by a
/// non-empty remainder.
pub open spec fn is_whiteout_name(n: Seq<char>) -> bool {
    n.len() > 4 && n.subrange(0, 4) == whiteout_sentinel()
}

/// Whether the entry path `p` is a whiteout marker.
pub open spec fn is_whiteout_path(p: Seq<char>) -> bool {
    is_whiteout_name(base_name_of(p))
}

/// The path a whiteout marker deletes: the marker's parent directory joined
/// with the marker's base name stripped of the sentinel prefix.
pub open spec fn whiteout_target_of(p: Seq<char>) -> Seq<char>
    recommends
        is_whiteout_path(p),
{
    let t = strip_trailing_slashes(p);
    let b = last_slash_end(t);
    t.subrange(0, b) + t.subrange(b + 4, t.len() as int)
}

/// Appending separator-free characters does not move the last separator.
pub proof fn lemma_last_slash_end_append(s: Seq<char>, t: Seq<char>)
    requires
        forall|i: int| 0 <= i < t.len() ==> t[i] != '/',
    ensures
        last_slash_end(s + t) == last_slash_end(s),
    decreases t.len(),
{
    if t.len() == 0 {
        assert(s + t =~= s);
    } else {
        assert((s + t).last() == t.last());
        assert((s + t).drop_last() =~= s + t.drop_last());
        assert(forall|i: int| 0 <= i < t.drop_last().len() ==> t.drop_last()[i] == t[i]);
        lemma_last_slash_end_append(s, t.drop_last());
    }
}

/// In a path made of a directory prefix (empty, or ending in a separator)
/// and a separator-free non-empty name, the base name is the name and the
/// last separator closes the directory prefix.
pub proof fn lemma_joined_base_name(dir: Seq<char>, name: Seq<char>)
    requires
        dir.len() == 0 || dir.last() == '/',
        name.len() > 0,
        forall|i: int| 0 <= i < name.len() ==> name[i] != '/',
    ensures
        strip_trailing_slashes(dir + name) == dir + name,
        last_slash_end(dir + name) == dir.len(),
        base_name_of(dir + name) == name,
{
    assert((dir + name).last() == name.last());
    lemma_last_slash_end_append(dir, name);
    assert(last_slash_end(dir) == dir.len());
    assert(base_name_of(dir + name) =~= name);
}

/// `s` without its leading `/` separators.
pub open spec fn strip_root(s: Seq<char>) -> Seq<char>
    decreases s.len(),
{
    if s.len() > 0 && s[0] == '/' {
        strip_root(s.skip(1))
    } else {
        s
    }
}

/// The position of the first `:` in `s`, or `s.len()` when `s` holds none.
pub open spec fn first_colon_at(s: Seq<char>) -> int
    decreases s.len(),
{
    if s.len() == 0 {
        0
    } else if s[0] == ':' {
        0
    } else {
        1 + first_colon_at(s.skip(1))
    }
}

/// The short name of an image reference: the part after the last `/` (the
/// registry path, if any, is dropped) and before the first `:` that follows
/// (the tag, if any, is dropped).
pub open spec fn image_base_name(s: Seq<char>) -> Seq<char> {
    let after = s.subrange(last_slash_end(s), s.len() as int);
    after.subrange(0, first_colon_at(after))
}

/// The length of `s@` once trailing `/` separators are removed.
pub(crate) fn trimmed_len(s: &str) -> (t: usize)
    ensures
        t <= s@.len(),
        s@.take(t as int) == strip_trailing_slashes(s@),
{
    let n = s.unicode_len();
    proof {
        assert(s@.take(n as int) =~= s@);
    }
    let mut t: usize = n;
    while t > 0 && s.get_char(t - 1) == '/'
        invariant
            t <= n,
            n == s@.len(),
            strip_trailing_slashes(s@) == strip_trailing_slashes(s@.take(t as int)),
        decreases t,
    {
        proof {
            assert(s@.take(t as int).drop_last() =~= s@.take((t - 1) as int));
        }
        t = t - 1;
    }
    t
}

/// The value of `last_slash_end` on `s@.take(end)`, found by a backward scan.
pub(crate) fn last_slash_boundary(s: &str, end: usize) -> (b: usize)
    requires
        end <= s@.len(),
    ensures
        b <= end,
        b as int == last_slash_end(s@.take(end as int)),
{
    let mut b: usize = end;
    while b > 0 && s.get_char(b - 1) != '/'
        invariant
            b <= end,
            end <= s@.len(),
            last_slash_end(s@.take(end as int)) == last_slash_end(s@.take(b as int)),
        decreases b,
    {
        proof {
            assert(s@.take(b as int).drop_last() =~= s@.take((b - 1) as int));
        }
        b = b - 1;
    }
    b
}

/// The effective base name of an archive entry path: its last segment, with
/// trailing separators ignored.  Empty exactly when the path holds no
/// segment at all, in which case the entry is skipped.
pub fn base_name(path: &str) -> (r: String)
    ensures
        r@ == base_name_of(path@),
{
    let t = trimmed_len(path);
    let b = last_slash_boundary(path, t);
    proof {
        let trimmed = strip_trailing_slashes(path@);
        lemma_last_slash_end_bounds(trimmed);
        assert(trimmed.subrange(b as int, t as int) =~= path@.subrange(b as int, t as int));
    }
    String::from_str(path.substring_char(b, t))
}

/// Brings a user-supplied in-image path into relative form by stripping its
/// leading root separators, so that it can be joined under a destination
/// directory.  Every path can be brought into that form, so the result is
/// always `Ok`; the `Result` shape mirrors the placement interface, whose
/// other implementations may reject paths.
pub fn clean_path(path: &str) -> (r: Result<String, Error>)
    ensures
        r matches Ok(p) && p@ == strip_root(path@),
{
    let n = path.unicode_len();
    proof {
        assert(path@.skip(0) =~= path@);
    }
    let mut i: usize = 0;
    while i < n && path.get_char(i) == '/'
        invariant
            i <= n,
            n == path@.len(),
            strip_root(path@) == strip_root(path@.skip(i as int)),
        decreases n - i,
    {
        proof {
            assert(path@.skip(i as int).skip(1) =~= path@.skip((i + 1) as int));
        }
        i = i + 1;
    }
    proof {
        assert(path@.skip(i as int) =~= path@.subrange(i as int, n as int));
    }
    Ok(String::from_str(path.substring_char(i, n)))
}

/// The short image name used for scratch locations: the reference without
/// its registry path and without its tag.
pub fn name_from_image(image: &str) -> (r: String)
    ensures
        r@ == image_base_name(image@),
{
    let n = image.unicode_len();
    proof {
        assert(image@.take(n as int) =~= image@);
    }
    let b = last_slash_boundary(image, n);
    let mut c: usize = b;
    while c < n && image.get_char(c) != ':'
        invariant
            b <= c <= n,
            n == image@.len(),
            b as int == last_slash_end(image@),
            first_colon_at(image@.skip(b as int)) == c - b + first_colon_at(
                image@.skip(c as int),
            ),
        decreases n - c,
    {
        proof {
            assert(image@.skip(c as int).skip(1) =~= image@.skip((c + 1) as int));
        }
        c = c + 1;
    }
    proof {
        let after = image@.subrange(b as int, n as int);
        assert(after =~= image@.skip(b as int));
        assert(after.subrange(0, (c - b) as int) =~= image@.subrange(b as int, c as int));
    }
    String::from_str(image.substring_char(b, c))
}

} // verus!
