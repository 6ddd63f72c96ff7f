//! Where the caches live.

use vstd::prelude::*;
use vstd::string::*;

verus! {

/// `rel` below the directory `base`: an absolute `rel` stands for itself, and
/// a separator is put between the two unless `base` is empty or ends in one.
pub open spec fn joined(base: Seq<char>, rel: Seq<char>) -> Seq<char> {
    if rel.len() > 0 && rel[0] == '/' {
        rel
    } else if base.len() > 0 && base.last() != '/' {
        base.push('/') + rel
    } else {
        base + rel
    }
}

/// `rel` below the directory `base`.
pub fn join(base: &str, rel: &str) -> (r: String)
    ensures
        r@ == joined(base@, rel@),
{
    let rel_len = rel.unicode_len();
    if rel_len > 0 && rel.get_char(0) == '/' {
        return rel.to_owned();
    }
    let mut r = base.to_owned();
    let n = base.unicode_len();
    if n > 0 && base.get_char(n - 1) != '/' {
        r.push('/');
    }
    r.append(rel);
    r
}

/// The cache directory of this program below the user's cache directory, where
/// that one is known.
pub fn cache_root(user_cache: Option<&str>) -> (r: Option<String>)
    ensures
        match user_cache {
            Some(dir) => r is Some && r->0@ == joined(dir@, "nix-npb"@),
            None => r is None,
        },
{
    match user_cache {
        Some(dir) => Some(join(dir, "nix-npb")),
        None => None,
    }
}

/// The database file below the cache directory.
pub fn db_path(root: &str) -> (r: String)
    ensures
        r@ == joined(root@, "npb.sqlite"@),
{
    join(root, "npb.sqlite")
}

/// A path below a directory is the directory, one separator and the path, where
/// the directory brings a separator of its own or not; an absolute path stands for
/// itself, and so does any path below the empty directory.
pub proof fn law_paths_are_joined_by_one_separator(dir: Seq<char>, rel: Seq<char>)
    ensures
        joined(dir, seq!['/'] + rel) == seq!['/'] + rel,
        rel.len() == 0 || rel[0] != '/' ==> joined(Seq::empty(), rel) == rel,
        (rel.len() == 0 || rel[0] != '/') && dir.len() > 0 && dir.last() != '/' ==> joined(dir, rel)
            == dir + seq!['/'] + rel && joined(dir + seq!['/'], rel) == joined(dir, rel),
{
    let slashed = seq!['/'] + rel;
    assert(slashed[0] == '/');
    assert(Seq::<char>::empty() + rel =~= rel);
    if (rel.len() == 0 || rel[0] != '/') && dir.len() > 0 && dir.last() != '/' {
        assert(joined(dir, rel) =~= dir + seq!['/'] + rel);
        let d = dir + seq!['/'];
        assert(d.last() == '/');
        assert(joined(d, rel) =~= d + rel);
    }
}

} // verus!
