//! The format version of the eval cache, and its one-time wipe.
//!
//! All that the cache holds can be derived again. The observation log and the
//! patch trees keep their format; the eval files, and what the database holds
//! of evaluations, change shape from time to time. A new version wipes exactly
//! those, after a question. A marker file at the root of the cache holds the
//! version; a cache with data and without the marker is of version 0.

use vstd::prelude::*;
use vstd::string::*;

use crate::paths;
use crate::text;

verus! {

/// The current version of the eval cache.
pub const CURRENT: u32 = 2;

/// What drops all that the database holds of evaluations. A table comes before
/// the one that it refers to, since foreign keys are enforced.
pub const WIPE_SQL: &'static str = "DROP TABLE IF EXISTS test_drv; DROP TABLE IF EXISTS test_pkg; DROP TABLE IF EXISTS transitive_block; DROP TABLE IF EXISTS eval_key; VACUUM;";

/// What is to be done about the cache before anything reads or writes it.
#[derive(Debug, Clone, Copy, PartialEq, Eq, Structural)]
pub enum Upkeep {
    /// Nothing: it is of the current version.
    Keep,
    /// Refuse it: it is of a newer version, which cannot be read.
    Refuse { found: u32 },
    /// Write the version: it is a fresh one.
    Stamp,
    /// Ask to wipe it: it is of an older version.
    Wipe { from: u32 },
}

/// What is to be done about a cache: the version in its marker, where there is
/// one, and whether it has a database.
pub open spec fn upkeep(found: Option<u32>, db_exists: bool) -> Upkeep {
    match found {
        Some(v) => if v == CURRENT {
            Upkeep::Keep
        } else if v > CURRENT {
            Upkeep::Refuse { found: v }
        } else {
            Upkeep::Wipe { from: v }
        },
        None => if db_exists {
            Upkeep::Wipe { from: 0 }
        } else {
            Upkeep::Stamp
        },
    }
}

/// What is to be done about a cache.
pub fn ensure_current(found: Option<u32>, db_exists: bool) -> (r: Upkeep)
    ensures
        r == upkeep(found, db_exists),
{
    match found {
        Some(v) => if v == CURRENT {
            Upkeep::Keep
        } else if v > CURRENT {
            Upkeep::Refuse { found: v }
        } else {
            Upkeep::Wipe { from: v }
        },
        None => if db_exists {
            Upkeep::Wipe { from: 0 }
        } else {
            Upkeep::Stamp
        },
    }
}

/// The version that the text of a marker stands for, if it is one.
pub open spec fn marked(marker: Seq<char>) -> Option<u32> {
    match text::number(text::trimmed(marker)) {
        Some(n) => if n <= u32::MAX {
            Some(n as u32)
        } else {
            None
        },
        None => None,
    }
}

/// The version that the text of a marker stands for, if it is one.
pub fn read_version(marker: &str) -> (r: Option<u32>)
    ensures
        r == marked(marker@),
{
    let t = text::trim(marker);
    match text::parse_number(t.as_str(), 0xffff_ffff) {
        Some(n) => Some(n as u32),
        None => None,
    }
}

/// The text of a marker of the current version.
pub fn version_text() -> (r: String)
    ensures
        r@ == text::decimal(CURRENT as nat) + "\n"@,
{
    let mut s = text::decimal_u64(CURRENT as u64);
    s.append("\n");
    s
}

/// The marker file at the root of the cache.
pub fn version_path(root: &str) -> (r: String)
    ensures
        r@ == paths::joined(root@, "format-version"@),
{
    paths::join(root, "format-version")
}

/// What is said of a cache of a newer version.
pub fn newer_message(root: &str, found: u32) -> (r: String)
    ensures
        r@ == "the npb cache at "@ + root@ + " was written by a newer npb (format version "@
            + text::decimal(found as nat) + "; this npb is version "@ + text::decimal(CURRENT as nat)
            + "). Upgrade npb, or remove that directory to start fresh."@,
{
    let mut s = "the npb cache at ".to_owned();
    s.append(root);
    s.append(" was written by a newer npb (format version ");
    let v = text::decimal_u64(found as u64);
    s.append(v.as_str());
    s.append("; this npb is version ");
    let c = text::decimal_u64(CURRENT as u64);
    s.append(c.as_str());
    s.append("). Upgrade npb, or remove that directory to start fresh.");
    s
}

/// What is said before the question.
pub fn changed_message(from: u32) -> (r: String)
    ensures
        r@ == "npb's eval-cache format has changed (version "@ + text::decimal(from as nat)
            + " -> "@ + text::decimal(CURRENT as nat)
            + "). The cached\nevaluations and --tests cache must be regenerated; your build history (the\nobservation log) is kept."@,
{
    let mut s = "npb's eval-cache format has changed (version ".to_owned();
    let v = text::decimal_u64(from as u64);
    s.append(v.as_str());
    s.append(" -> ");
    let c = text::decimal_u64(CURRENT as u64);
    s.append(c.as_str());
    s.append(
        "). The cached\nevaluations and --tests cache must be regenerated; your build history (the\nobservation log) is kept.",
    );
    s
}

/// The question whether to wipe the cache.
pub fn wipe_question(root: &str) -> (r: String)
    ensures
        r@ == "Delete the eval cache under "@ + root@ + "? [Y/n] "@,
{
    let mut s = "Delete the eval cache under ".to_owned();
    s.append(root);
    s.append("? [Y/n] ");
    s
}

/// What is said where the answer was no.
pub const ABORTED: &'static str = "aborted: the cache format is out of date and was left untouched";

/// A cache that was wiped or stamped is kept from then on: its marker reads
/// back as the current version.
pub proof fn law_written_version_is_kept(db_exists: bool)
    ensures
        marked(text::decimal(CURRENT as nat) + "\n"@) == Some(CURRENT),
        upkeep(Some(CURRENT), db_exists) == Upkeep::Keep,
{
    reveal_strlit("\n");
    reveal_with_fuel(text::decimal, 2);
    reveal_with_fuel(text::trimmed_start, 2);
    reveal_with_fuel(text::trimmed_end, 3);
    reveal_with_fuel(text::digits_value, 2);
    let m = text::decimal(CURRENT as nat) + "\n"@;
    let d = text::decimal(2);
    assert(d =~= seq!['2']);
    assert(m =~= seq!['2', '\n']);
    assert(text::trimmed_start(m) == m);
    assert(m.drop_last() =~= d);
    assert(text::trimmed(m) == d);
    assert(d.drop_last() =~= Seq::<char>::empty());
}

/// Only a cache that holds data, and of an older version, is ever wiped.
pub proof fn law_only_older_caches_are_wiped(found: Option<u32>, db_exists: bool)
    ensures
        upkeep(found, db_exists) is Wipe <==> match found {
            Some(v) => v < CURRENT,
            None => db_exists,
        },
{
}

/// What is done about a cache follows from its version alone where it has one, and
/// else from whether there is a database: the version of this program is kept, a
/// newer one is refused by its number, an older one is wiped, an unmarked database
/// counts as the oldest, and nothing at all is stamped.
pub proof fn law_versions_decide_what_is_done(v: u32, db_exists: bool)
    ensures
        v == 2 ==> upkeep(Some(v), db_exists) == Upkeep::Keep,
        v > 2 ==> upkeep(Some(v), db_exists) == (Upkeep::Refuse { found: v }),
        v < 2 ==> upkeep(Some(v), db_exists) == (Upkeep::Wipe { from: v }),
        upkeep(None, true) == (Upkeep::Wipe { from: 0 }),
        upkeep(None, false) == Upkeep::Stamp,
{
}

/// A marker is read as its number, with or without white space around it, exactly
/// where it is a number of 32 bits.
pub proof fn law_markers_read_as_their_number(a: Seq<char>, n: nat, b: Seq<char>)
    requires
        forall|i: int| 0 <= i < a.len() ==> text::is_white(#[trigger] a[i]),
        forall|i: int| 0 <= i < b.len() ==> text::is_white(#[trigger] b[i]),
    ensures
        n <= 0xffff_ffff ==> marked(a + text::decimal(n) + b) == Some(n as u32),
        n > 0xffff_ffff ==> marked(a + text::decimal(n) + b) is None,
{
    let d = text::decimal(n);
    text::lemma_decimal_digits(n);
    assert('0' <= d[0] <= '9' && '0' <= d[d.len() - 1] <= '9');
    text::law_trimming_takes_the_white_space_around(a, d, b);
    text::law_numbers_read_back(n);
}

/// A wipe drops the tables of evaluations, the ones that refer to the keys before
/// the keys, and nothing else: the observation log and the patch trees stay.
pub proof fn law_wiping_drops_evaluations_alone()
    ensures
        WIPE_SQL@ == "DROP TABLE IF EXISTS "@ + "test_drv"@ + "; "@ + "DROP TABLE IF EXISTS "@
            + "test_pkg"@ + "; "@ + "DROP TABLE IF EXISTS "@ + "transitive_block"@ + "; "@
            + "DROP TABLE IF EXISTS "@ + "eval_key"@ + "; "@ + "VACUUM;"@,
{
    reveal_strlit("DROP TABLE IF EXISTS test_drv; DROP TABLE IF EXISTS test_pkg; DROP TABLE IF EXISTS transitive_block; DROP TABLE IF EXISTS eval_key; VACUUM;");
    reveal_strlit("DROP TABLE IF EXISTS ");
    reveal_strlit("test_drv");
    reveal_strlit("test_pkg");
    reveal_strlit("transitive_block");
    reveal_strlit("eval_key");
    reveal_strlit("; ");
    reveal_strlit("VACUUM;");
    assert(WIPE_SQL@ =~= "DROP TABLE IF EXISTS "@ + "test_drv"@ + "; "@ + "DROP TABLE IF EXISTS "@
        + "test_pkg"@ + "; "@ + "DROP TABLE IF EXISTS "@ + "transitive_block"@ + "; "@
        + "DROP TABLE IF EXISTS "@ + "eval_key"@ + "; "@ + "VACUUM;"@);
}

} // verus!
