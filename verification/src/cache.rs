//! Facts from the binary cache: whether what a derivation would build is there
//! already. The signal is exact and of successes only: a narinfo exists, or it
//! does not.

use vstd::prelude::*;
use vstd::string::*;
use vstd::utf8::*;

use crate::ordered::{StringMap, StringSet};
use crate::text;

verus! {

/// The binary cache.
pub const CACHE: &'static str = "https://cache.nixos.org";

/// How many probes run at once.
pub const PROBE_CONCURRENCY: usize = 64;

/// How many derivations one `nix derivation show` is asked about, which keeps
/// the arguments well below the limit of the system.
pub const DERIVATION_SHOW_CHUNK: usize = 4096;

// --- command output ----------------------------------------------------------

/// What `String::from_utf8_lossy` makes of bytes.
pub uninterp spec fn lossy_text(bytes: Seq<u8>) -> Seq<char>;

/// `String::from_utf8_lossy`: the text of these bytes. Bytes that are UTF-8
/// come back as the text that they encode; in others, what is not UTF-8 is
/// replaced.
#[verifier::external_body]
fn from_utf8_lossy(bytes: &[u8]) -> (r: String)
    ensures
        r@ == lossy_text(bytes@),
        valid_utf8(bytes@) ==> encode_utf8(r@) == bytes@,
{
    String::from_utf8_lossy(bytes).into_owned()
}

/// Texts without the white space around them, but for the empty ones.
pub open spec fn tidied(parts: Seq<Seq<char>>) -> Seq<Seq<char>>
    decreases parts.len(),
{
    if parts.len() == 0 {
        Seq::empty()
    } else {
        let rest = tidied(parts.drop_last());
        let t = text::trimmed(parts.last());
        if t.len() == 0 {
            rest
        } else {
            rest.push(t)
        }
    }
}

/// The lines of a text without the white space around them, but for the empty
/// ones.
pub fn text_lines(s: &str) -> (r: Vec<String>)
    ensures
        text::texts(r@) == tidied(text::lines_of(s@)),
{
    let all = text::split_lines(s);
    let ghost parts = text::texts(all@);
    let mut r: Vec<String> = Vec::new();
    let mut i: usize = 0;
    assert(text::texts(r@) =~= tidied(parts.take(0)));
    while i < all.len()
        invariant
            i <= all@.len(),
            parts == text::texts(all@),
            text::texts(r@) == tidied(parts.take(i as int)),
        decreases all@.len() - i,
    {
        let t = text::trim(all[i].as_str());
        proof {
            assert(parts.take(i + 1).drop_last() =~= parts.take(i as int));
            assert(parts.take(i + 1).last() == all@[i as int]@);
            text::lemma_texts_push(r@, t);
        }
        if t.as_str().unicode_len() > 0 {
            r.push(t);
        }
        i = i + 1;
    }
    assert(parts.take(i as int) =~= parts);
    r
}

/// The lines of a command's output without the white space around them, but
/// for the empty ones.
pub fn lines(bytes: &[u8]) -> (r: Vec<String>)
    ensures
        text::texts(r@) == tidied(text::lines_of(lossy_text(bytes@))),
{
    let s = from_utf8_lossy(bytes);
    text_lines(s.as_str())
}

// --- store paths -------------------------------------------------------------

/// The last part of a path.
pub open spec fn base_of(path: Seq<char>) -> Seq<char> {
    text::split_on(path, '/').last()
}

/// The hash of a store path: what the last part of `/nix/store/<hash>-name`
/// begins with.
pub open spec fn hash_of(path: Seq<char>) -> Seq<char> {
    text::split_on(base_of(path), '-').first()
}

/// The last part of a path.
pub fn base_name(path: &str) -> (r: String)
    ensures
        r@ == base_of(path@),
{
    let mut parts = text::split(path, '/');
    assert(text::texts(parts@).len() == parts@.len());
    let ghost all = parts@;
    assert(parts@.len() > 0);
    let r = parts.pop().unwrap();
    assert(text::texts(all)[all.len() - 1] == r@);
    r
}

/// The hash of a store path.
pub fn store_hash(path: &str) -> (r: Option<String>)
    ensures
        r is Some,
        r->0@ == hash_of(path@),
{
    let base = base_name(path);
    let parts = text::split(base.as_str(), '-');
    assert(text::texts(parts@).len() == parts@.len());
    assert(text::texts(parts@)[0] == parts@[0]@);
    Some(parts[0].clone())
}

/// Where the binary cache answers for an output path.
pub fn narinfo_url(out_path: &str) -> (r: Option<String>)
    ensures
        r is Some,
        r->0@ == CACHE@ + "/"@ + hash_of(out_path@) + ".narinfo"@,
{
    match store_hash(out_path) {
        Some(hash) => {
            let mut s = CACHE.to_owned();
            s.append("/");
            s.append(hash.as_str());
            s.append(".narinfo");
            Some(s)
        },
        None => None,
    }
}

// --- output paths ------------------------------------------------------------

/// A derivation as `nix derivation show` reports it: the name it goes by, and
/// the path of each output where that is known.
pub struct Shown {
    pub key: String,
    pub outputs: Vec<Option<String>>,
}

/// The last of the first `n` derivations whose path ends in `base`.
pub open spec fn full_path(drvs: Seq<Seq<char>>, base: Seq<char>, n: int) -> Option<Seq<char>>
    decreases n,
{
    if n <= 0 {
        None
    } else if base_of(drvs[n - 1]) == base {
        Some(drvs[n - 1])
    } else {
        full_path(drvs, base, n - 1)
    }
}

/// The output paths of a derivation, where all are known.
pub open spec fn known_paths(outputs: Seq<Option<String>>) -> Option<Seq<Seq<char>>> {
    if forall|i: int| 0 <= i < outputs.len() ==> (#[trigger] outputs[i]) is Some {
        Some(Seq::new(outputs.len(), |i: int| outputs[i]->0@))
    } else {
        None
    }
}

/// The output paths of the derivations `drvs`, from the first `n` reports.
pub open spec fn outputs_by_drv(drvs: Seq<Seq<char>>, shown: Seq<Shown>, n: int) -> Map<
    Seq<char>,
    Seq<Seq<char>>,
>
    decreases n,
{
    if n <= 0 {
        Map::empty()
    } else {
        let before = outputs_by_drv(drvs, shown, n - 1);
        let full = full_path(drvs, base_of(shown[n - 1].key@), drvs.len() as int);
        let paths = known_paths(shown[n - 1].outputs@);
        if full is Some && paths is Some {
            before.insert(full->0, paths->0)
        } else {
            before
        }
    }
}

fn find_full(drvs: &[String], base: &str) -> (r: Option<usize>)
    ensures
        match r {
            Some(k) => k < drvs@.len() && full_path(
                text::texts(drvs@),
                base@,
                drvs@.len() as int,
            ) == Some(drvs@[k as int]@),
            None => full_path(text::texts(drvs@), base@, drvs@.len() as int) is None,
        },
{
    let ghost all = text::texts(drvs@);
    let mut i: usize = drvs.len();
    while i > 0
        invariant
            i <= drvs@.len(),
            all == text::texts(drvs@),
            full_path(all, base@, drvs@.len() as int) == full_path(all, base@, i as int),
        decreases i,
    {
        i = i - 1;
        let b = base_name(drvs[i].as_str());
        assert(all[i as int] == drvs@[i as int]@);
        if text::same(b.as_str(), base) {
            return Some(i);
        }
    }
    None
}

fn collect_known(outputs: &[Option<String>]) -> (r: Option<Vec<String>>)
    ensures
        match r {
            Some(v) => known_paths(outputs@) == Some(text::texts(v@)),
            None => known_paths(outputs@) is None,
        },
{
    let mut v: Vec<String> = Vec::new();
    let mut i: usize = 0;
    while i < outputs.len()
        invariant
            i <= outputs@.len(),
            forall|k: int| 0 <= k < i ==> (#[trigger] outputs@[k]) is Some,
            text::texts(v@) == Seq::new(i as nat, |k: int| outputs@[k]->0@),
        decreases outputs@.len() - i,
    {
        match &outputs[i] {
            Some(p) => {
                let c = p.clone();
                proof {
                    text::lemma_texts_push(v@, c);
                }
                v.push(c);
                assert(text::texts(v@) =~= Seq::new((i + 1) as nat, |k: int| outputs@[k]->0@));
            },
            None => {
                assert(!(outputs@[i as int] is Some));
                return None;
            },
        }
        i = i + 1;
    }
    assert(Seq::new(i as nat, |k: int| outputs@[k]->0@) =~= Seq::new(
        outputs@.len(),
        |k: int| outputs@[k]->0@,
    ));
    Some(v)
}

/// The output paths of those of the derivations `drvs` that the reports speak
/// of. A report may name a derivation by its file name alone. One with an
/// output whose path is not known is left out: it cannot be probed.
pub fn drv_outputs_many(drvs: &[String], shown: &[Shown]) -> (r: StringMap<Vec<String>>)
    ensures
        r.wf(),
        text::lists(r@) == outputs_by_drv(text::texts(drvs@), shown@, shown@.len() as int),
{
    let ghost all = text::texts(drvs@);
    let mut r: StringMap<Vec<String>> = StringMap::new();
    let mut i: usize = 0;
    assert(text::lists(r@) =~= outputs_by_drv(all, shown@, 0));
    while i < shown.len()
        invariant
            i <= shown@.len(),
            all == text::texts(drvs@),
            r.wf(),
            text::lists(r@) == outputs_by_drv(all, shown@, i as int),
        decreases shown@.len() - i,
    {
        let base = base_name(shown[i].key.as_str());
        let full = find_full(drvs, base.as_str());
        if let Some(k) = full {
            if let Some(paths) = collect_known(shown[i].outputs.as_slice()) {
                let ghost before = r@;
                let ghost p = paths;
                r.insert(drvs[k].clone(), paths);
                proof {
                    assert(r@ == before.insert(drvs@[k as int]@, p));
                    assert(text::lists(r@) =~= text::lists(before).insert(
                        drvs@[k as int]@,
                        text::texts(p@),
                    ));
                }
            }
        }
        i = i + 1;
    }
    r
}

// --- verdicts ----------------------------------------------------------------

/// Whether a derivation need not be built: it has outputs, and all of them are
/// in the cache.
pub open spec fn substitutable(outs: Seq<Seq<char>>, hits: Set<Seq<char>>) -> bool {
    outs.len() > 0 && forall|i: int| 0 <= i < outs.len() ==> hits.contains(#[trigger] outs[i])
}

/// The outputs of a derivation, none where they are not known.
pub open spec fn outputs_of(outputs: Map<Seq<char>, Vec<String>>, drv: Seq<char>) -> Seq<Seq<char>> {
    if outputs.contains_key(drv) {
        text::texts(outputs[drv]@)
    } else {
        Seq::empty()
    }
}

/// For each derivation whether it is substitutable.
pub open spec fn cache_verdicts(
    drvs: Seq<Seq<char>>,
    outputs: Map<Seq<char>, Vec<String>>,
    hits: Set<Seq<char>>,
) -> Map<Seq<char>, bool> {
    Map::new(
        |d: Seq<char>| drvs.contains(d),
        |d: Seq<char>| substitutable(outputs_of(outputs, d), hits),
    )
}

fn all_hit(outs: &[String], hits: &StringSet) -> (r: bool)
    requires
        hits.wf(),
    ensures
        r == substitutable(text::texts(outs@), hits@),
{
    let ghost all = text::texts(outs@);
    assert(all.len() == outs@.len());
    if outs.len() == 0 {
        return false;
    }
    let mut i: usize = 0;
    while i < outs.len()
        invariant
            i <= outs@.len(),
            hits.wf(),
            all == text::texts(outs@),
            all.len() == outs@.len(),
            forall|k: int| 0 <= k < i ==> hits@.contains(#[trigger] all[k]),
        decreases outs@.len() - i,
    {
        assert(all[i as int] == outs@[i as int]@);
        if !hits.contains(outs[i].as_str()) {
            assert(!hits@.contains(all[i as int]));
            return false;
        }
        i = i + 1;
    }
    true
}

/// For each derivation whether it is substitutable, from the output paths of
/// the derivations and from which output paths the cache has. One whose outputs
/// are not known is not.
pub fn in_cache_many(
    drvs: &[String],
    outputs: &StringMap<Vec<String>>,
    hits: &StringSet,
) -> (r: StringMap<bool>)
    requires
        outputs.wf(),
        hits.wf(),
    ensures
        r.wf(),
        r@ == cache_verdicts(text::texts(drvs@), outputs@, hits@),
{
    let ghost all = text::texts(drvs@);
    let mut r: StringMap<bool> = StringMap::new();
    let mut i: usize = 0;
    assert(r@ =~= cache_verdicts(all.take(0), outputs@, hits@));
    while i < drvs.len()
        invariant
            i <= drvs@.len(),
            outputs.wf(),
            hits.wf(),
            all == text::texts(drvs@),
            r.wf(),
            r@ == cache_verdicts(all.take(i as int), outputs@, hits@),
        decreases drvs@.len() - i,
    {
        let ghost before = r@;
        let ghost d = drvs@[i as int]@;
        let sub = match outputs.get(drvs[i].as_str()) {
            Some(outs) => all_hit(outs.as_slice(), hits),
            None => false,
        };
        assert(sub == substitutable(outputs_of(outputs@, d), hits@));
        r.insert(drvs[i].clone(), sub);
        proof {
            let seen = all.take(i as int);
            let next = all.take(i + 1);
            let now = cache_verdicts(next, outputs@, hits@);
            assert(next =~= seen.push(d));
            assert forall|x: Seq<char>| #[trigger] now.contains_key(x) == r@.contains_key(x) by {
                if seen.contains(x) {
                    let k = choose|k: int| 0 <= k < seen.len() && seen[k] == x;
                    assert(next[k] == x);
                }
                if x == d {
                    assert(next[i as int] == x);
                }
                if next.contains(x) && x != d {
                    let k = choose|k: int| 0 <= k < next.len() && next[k] == x;
                    assert(seen[k] == x);
                }
            }
            assert(now =~= r@);
        }
        i = i + 1;
    }
    assert(all.take(i as int) =~= all);
    r
}

/// One output that the cache lacks makes its derivation one to build, and so
/// does not to know its outputs.
pub proof fn law_one_missing_output_forces_a_build(
    drvs: Seq<Seq<char>>,
    outputs: Map<Seq<char>, Vec<String>>,
    hits: Set<Seq<char>>,
    drv: Seq<char>,
    out: Seq<char>,
)
    requires
        drvs.contains(drv),
        !outputs.contains_key(drv) || (outputs_of(outputs, drv).contains(out) && !hits.contains(
            out,
        )),
    ensures
        cache_verdicts(drvs, outputs, hits)[drv] == false,
{
    if outputs.contains_key(drv) {
        let outs = outputs_of(outputs, drv);
        let i = choose|i: int| 0 <= i < outs.len() && outs[i] == out;
        assert(!hits.contains(outs[i]));
    }
}

/// What the cache gains takes no verdict of "substitutable" back.
pub proof fn law_more_hits_keep_verdicts(
    drvs: Seq<Seq<char>>,
    outputs: Map<Seq<char>, Vec<String>>,
    hits: Set<Seq<char>>,
    more: Set<Seq<char>>,
    drv: Seq<char>,
)
    requires
        drvs.contains(drv),
        hits.subset_of(more),
        cache_verdicts(drvs, outputs, hits)[drv],
    ensures
        cache_verdicts(drvs, outputs, more)[drv],
{
}

/// Every derivation asked about gets a verdict and no other does; it is a yes
/// exactly where the outputs are known, there are some, however many, and the cache
/// has each of them.
pub proof fn law_verdicts_say_whether_the_cache_has_all_outputs(
    drvs: Seq<Seq<char>>,
    outputs: Map<Seq<char>, Vec<String>>,
    hits: Set<Seq<char>>,
    drv: Seq<char>,
)
    ensures
        cache_verdicts(drvs, outputs, hits).contains_key(drv) <==> drvs.contains(drv),
        drvs.contains(drv) && outputs.contains_key(drv) && outputs[drv]@.len() > 0 && (forall|i: int|
            0 <= i < outputs[drv]@.len() ==> hits.contains((#[trigger] outputs[drv]@[i])@))
            ==> cache_verdicts(drvs, outputs, hits)[drv],
        drvs.contains(drv) && cache_verdicts(drvs, outputs, hits)[drv] ==> outputs.contains_key(drv)
            && outputs[drv]@.len() > 0 && forall|i: int|
            0 <= i < outputs[drv]@.len() ==> hits.contains((#[trigger] outputs[drv]@[i])@),
{
    if outputs.contains_key(drv) {
        let outs = outputs_of(outputs, drv);
        assert(outs.len() == outputs[drv]@.len());
        assert forall|i: int| 0 <= i < outs.len() implies #[trigger] outs[i] == outputs[drv]@[i]@ by {}
        if drvs.contains(drv) && cache_verdicts(drvs, outputs, hits)[drv] {
            assert forall|i: int| 0 <= i < outputs[drv]@.len() implies hits.contains(
                (#[trigger] outputs[drv]@[i])@,
            ) by {
                assert(hits.contains(outs[i]));
            }
        }
    }
}

/// The verdict on a derivation depends on its own outputs alone: neither what else
/// is asked about nor other hits change it.
pub proof fn law_verdicts_depend_on_own_outputs_alone(
    drvs: Seq<Seq<char>>,
    others: Seq<Seq<char>>,
    outputs: Map<Seq<char>, Vec<String>>,
    hits: Set<Seq<char>>,
    more: Set<Seq<char>>,
    drv: Seq<char>,
)
    requires
        drvs.contains(drv),
        others.contains(drv),
        outputs.contains_key(drv) ==> forall|i: int|
            0 <= i < outputs[drv]@.len() ==> (hits.contains((#[trigger] outputs[drv]@[i])@)
                <==> more.contains(outputs[drv]@[i]@)),
    ensures
        cache_verdicts(drvs, outputs, hits)[drv] == cache_verdicts(others, outputs, more)[drv],
{
    law_verdicts_say_whether_the_cache_has_all_outputs(drvs, outputs, hits, drv);
    law_verdicts_say_whether_the_cache_has_all_outputs(others, outputs, more, drv);
    if cache_verdicts(drvs, outputs, hits)[drv] {
        assert forall|i: int| 0 <= i < outputs[drv]@.len() implies more.contains(
            (#[trigger] outputs[drv]@[i])@,
        ) by {}
    }
    if cache_verdicts(others, outputs, more)[drv] {
        assert forall|i: int| 0 <= i < outputs[drv]@.len() implies hits.contains(
            (#[trigger] outputs[drv]@[i])@,
        ) by {}
    }
}

proof fn lemma_split_prefix(p: Seq<char>, c: char, rest: Seq<char>)
    requires
        text::lacks(p, c),
    ensures
        text::split_on(p + seq![c] + rest, c) == seq![p] + text::split_on(rest, c),
        text::split_on(p, c) == seq![p],
{
    let s = p + seq![c] + rest;
    let n = p.len() as int;
    assert(s[n] == c);
    assert forall|i: int| 0 <= i < n implies s[i] != c by {
        assert(s[i] == p[i]);
    }
    text::lemma_first_at_unique(s, c, n);
    assert(s.take(n) =~= p);
    assert(s.skip(n + 1) =~= rest);
    text::lemma_first_at(p, c);
}

proof fn lemma_last_piece(dir: Seq<char>, name: Seq<char>)
    requires
        text::lacks(name, '/'),
    ensures
        text::split_on(dir + seq!['/'] + name, '/').last() == name,
    decreases dir.len(),
{
    text::lemma_first_at(dir, '/');
    let k = text::first_at(dir, '/');
    lemma_split_prefix(name, '/', name);
    if k == dir.len() {
        lemma_split_prefix(dir, '/', name);
        assert((seq![dir] + seq![name]).last() == name);
    } else {
        let p = dir.take(k);
        let rest = dir.skip(k + 1) + seq!['/'] + name;
        assert(dir + seq!['/'] + name =~= p + seq!['/'] + rest);
        lemma_split_prefix(p, '/', rest);
        lemma_last_piece(dir.skip(k + 1), name);
        let tail = text::split_on(rest, '/');
        text::law_pieces_make_up_the_text(rest, '/');
        assert((seq![p] + tail).last() == tail.last());
    }
}

/// The file name of a path is what follows its last slash, and the hash of a store
/// path is what the file name holds before its first dash.
pub proof fn law_store_paths_are_taken_apart(dir: Seq<char>, hash: Seq<char>, rest: Seq<char>)
    requires
        text::lacks(hash, '/'),
        text::lacks(hash, '-'),
        text::lacks(rest, '/'),
    ensures
        base_of(dir + seq!['/'] + rest) == rest,
        base_of(rest) == rest,
        hash_of(dir + seq!['/'] + (hash + seq!['-'] + rest)) == hash,
        hash_of(dir + seq!['/'] + hash) == hash,
{
    lemma_last_piece(dir, rest);
    lemma_split_prefix(rest, '/', rest);
    let name = hash + seq!['-'] + rest;
    assert(text::lacks(name, '/')) by {
        assert forall|i: int| 0 <= i < name.len() implies name[i] != '/' by {
            if i < hash.len() {
                assert(name[i] == hash[i]);
            } else if i > hash.len() {
                assert(name[i] == rest[i - hash.len() - 1]);
            }
        }
    }
    lemma_last_piece(dir, name);
    lemma_split_prefix(hash, '-', rest);
    assert((seq![hash] + text::split_on(rest, '-')).first() == hash);
    lemma_last_piece(dir, hash);
}

/// Of the lines of an output, each is kept in its place without the white space
/// around it, and a blank one is left out.
pub proof fn law_blank_lines_are_left_out(a: Seq<Seq<char>>, line: Seq<char>, b: Seq<Seq<char>>)
    ensures
        tidied(a + b) == tidied(a) + tidied(b),
        tidied(seq![line]) == (if forall|i: int| 0 <= i < line.len() ==> text::is_white(
            #[trigger] line[i],
        ) {
            Seq::empty()
        } else {
            seq![text::trimmed(line)]
        }),
    decreases b.len(),
{
    if b.len() == 0 {
        assert(a + b =~= a);
        assert(tidied(a) + tidied(b) =~= tidied(a));
    } else {
        assert((a + b).drop_last() =~= a + b.drop_last());
        law_blank_lines_are_left_out(a, line, b.drop_last());
        assert(tidied(a + b) =~= tidied(a) + tidied(b));
    }
    assert(seq![line].drop_last() =~= Seq::<Seq<char>>::empty());
    assert(tidied(seq![line].drop_last()) =~= Seq::<Seq<char>>::empty());
    lemma_trimmed_blank(line);
    if text::trimmed(line).len() > 0 {
        assert(tidied(seq![line]) =~= seq![text::trimmed(line)]);
    }
}

proof fn lemma_trimmed_blank(line: Seq<char>)
    ensures
        text::trimmed(line).len() == 0 <==> forall|i: int|
            0 <= i < line.len() ==> text::is_white(#[trigger] line[i]),
{
    if forall|i: int| 0 <= i < line.len() ==> text::is_white(#[trigger] line[i]) {
        let e = Seq::<char>::empty();
        text::law_trimming_takes_the_white_space_around(line, e, e);
        assert(line + e + e =~= line);
    } else {
        lemma_start_keeps(line);
        lemma_end_keeps(text::trimmed_start(line));
    }
}

proof fn lemma_start_keeps(s: Seq<char>)
    requires
        exists|i: int| 0 <= i < s.len() && !text::is_white(#[trigger] s[i]),
    ensures
        exists|i: int|
            0 <= i < text::trimmed_start(s).len() && !text::is_white(
                #[trigger] text::trimmed_start(s)[i],
            ),
    decreases s.len(),
{
    let i = choose|i: int| 0 <= i < s.len() && !text::is_white(#[trigger] s[i]);
    if text::is_white(s[0]) {
        assert(s.skip(1)[i - 1] == s[i]);
        lemma_start_keeps(s.skip(1));
        assert(text::trimmed_start(s) == text::trimmed_start(s.skip(1)));
    } else {
        assert(text::trimmed_start(s) == s);
        assert(!text::is_white(text::trimmed_start(s)[i]));
    }
}

proof fn lemma_end_keeps(s: Seq<char>)
    requires
        exists|i: int| 0 <= i < s.len() && !text::is_white(#[trigger] s[i]),
    ensures
        text::trimmed_end(s).len() > 0,
    decreases s.len(),
{
    if text::is_white(s.last()) {
        let i = choose|i: int| 0 <= i < s.len() && !text::is_white(#[trigger] s[i]);
        assert(s.drop_last()[i] == s[i]);
        lemma_end_keeps(s.drop_last());
    }
}

proof fn lemma_full_path(drvs: Seq<Seq<char>>, base: Seq<char>, n: int)
    requires
        0 <= n <= drvs.len(),
    ensures
        match full_path(drvs, base, n) {
            Some(d) => exists|k: int|
                0 <= k < n && #[trigger] drvs[k] == d && base_of(d) == base && forall|m: int|
                    k < m < n ==> base_of(#[trigger] drvs[m]) != base,
            None => forall|k: int| 0 <= k < n ==> base_of(#[trigger] drvs[k]) != base,
        },
    decreases n,
{
    if n > 0 {
        lemma_full_path(drvs, base, n - 1);
        if base_of(drvs[n - 1]) == base {
            assert(drvs[n - 1] == full_path(drvs, base, n)->0);
        } else if full_path(drvs, base, n) is Some {
            let d = full_path(drvs, base, n)->0;
            let k = choose|k: int|
                0 <= k < n - 1 && #[trigger] drvs[k] == d && base_of(d) == base && forall|m: int|
                    k < m < n - 1 ==> base_of(#[trigger] drvs[m]) != base;
            assert(drvs[k] == d);
        }
    }
}

/// A derivation is found by its file name: the answer is one of those asked about,
/// the last of that name, and there is one wherever the name occurs.
pub proof fn law_derivations_are_found_by_file_name(drvs: Seq<Seq<char>>, k: int)
    requires
        0 <= k < drvs.len(),
        forall|m: int| k < m < drvs.len() ==> base_of(#[trigger] drvs[m]) != base_of(drvs[k]),
    ensures
        full_path(drvs, base_of(drvs[k]), drvs.len() as int) == Some(drvs[k]),
{
    let base = base_of(drvs[k]);
    lemma_full_path(drvs, base, drvs.len() as int);
    if full_path(drvs, base, drvs.len() as int) is None {
        assert(base_of(drvs[k]) != base);
    } else {
        let d = full_path(drvs, base, drvs.len() as int)->0;
        let j = choose|j: int|
            0 <= j < drvs.len() && #[trigger] drvs[j] == d && base_of(d) == base && forall|m: int|
                j < m < drvs.len() ==> base_of(#[trigger] drvs[m]) != base;
        assert(base_of(drvs[j]) == base);
        assert(base_of(drvs[k]) == base);
    }
}

/// The outputs of a derivation are those of the last report on it, in their order,
/// where each of them is known.
pub proof fn law_reported_outputs_are_kept(drvs: Seq<Seq<char>>, shown: Seq<Shown>, k: int, i: int)
    requires
        0 <= k < drvs.len(),
        forall|m: int| k < m < drvs.len() ==> base_of(#[trigger] drvs[m]) != base_of(drvs[k]),
        0 <= i < shown.len(),
        base_of(shown[i].key@) == base_of(drvs[k]),
        forall|o: int| 0 <= o < shown[i].outputs@.len() ==> (#[trigger] shown[i].outputs@[o]) is Some,
        forall|j: int| i < j < shown.len() ==> base_of((#[trigger] shown[j]).key@) != base_of(drvs[k]),
    ensures
        ({
            let m = outputs_by_drv(drvs, shown, shown.len() as int);
            &&& m.contains_key(drvs[k])
            &&& m[drvs[k]].len() == shown[i].outputs@.len()
            &&& forall|o: int|
                0 <= o < shown[i].outputs@.len() ==> #[trigger] m[drvs[k]][o]
                    == shown[i].outputs@[o]->0@
        }),
{
    law_derivations_are_found_by_file_name(drvs, k);
    lemma_outputs_stay(drvs, shown, k, i, shown.len() as int);
}

proof fn lemma_outputs_stay(drvs: Seq<Seq<char>>, shown: Seq<Shown>, k: int, i: int, n: int)
    requires
        0 <= k < drvs.len(),
        full_path(drvs, base_of(drvs[k]), drvs.len() as int) == Some(drvs[k]),
        0 <= i < n <= shown.len(),
        base_of(shown[i].key@) == base_of(drvs[k]),
        known_paths(shown[i].outputs@) is Some,
        forall|j: int| i < j < n ==> base_of((#[trigger] shown[j]).key@) != base_of(drvs[k]),
    ensures
        outputs_by_drv(drvs, shown, n).contains_key(drvs[k]),
        outputs_by_drv(drvs, shown, n)[drvs[k]] == known_paths(shown[i].outputs@)->0,
    decreases n,
{
    if n - 1 > i {
        lemma_outputs_stay(drvs, shown, k, i, n - 1);
        lemma_full_path(drvs, base_of(shown[n - 1].key@), drvs.len() as int);
    }
}

/// Outputs are kept only of derivations that were asked about, and only where a
/// report with all outputs known is on that derivation.
pub proof fn law_no_outputs_without_a_report(
    drvs: Seq<Seq<char>>,
    shown: Seq<Shown>,
    n: int,
    d: Seq<char>,
)
    requires
        0 <= n <= shown.len(),
        outputs_by_drv(drvs, shown, n).contains_key(d),
    ensures
        drvs.contains(d),
        exists|i: int|
            0 <= i < n && base_of((#[trigger] shown[i]).key@) == base_of(d) && forall|o: int|
                0 <= o < shown[i].outputs@.len() ==> (#[trigger] shown[i].outputs@[o]) is Some,
    decreases n,
{
    if n > 0 {
        lemma_full_path(drvs, base_of(shown[n - 1].key@), drvs.len() as int);
        if outputs_by_drv(drvs, shown, n - 1).contains_key(d) {
            law_no_outputs_without_a_report(drvs, shown, n - 1, d);
            let i = choose|i: int|
                0 <= i < n - 1 && base_of((#[trigger] shown[i]).key@) == base_of(d) && forall|o: int|
                    0 <= o < shown[i].outputs@.len() ==> (#[trigger] shown[i].outputs@[o]) is Some;
            assert(base_of(shown[i].key@) == base_of(d));
        } else {
            assert(base_of(shown[n - 1].key@) == base_of(d));
        }
    }
}

} // verus!
