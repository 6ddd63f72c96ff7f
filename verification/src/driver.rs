//! The build driver: what to build, what to skip, and what to record.
//!
//! The log remembers what the nix store forgets: failures. A derivation that is
//! known to fail is not attempted again, and neither is one that has such a
//! derivation among its dependencies. But a recorded failure is never trusted
//! blindly: each carries the output paths whose validity decides it anew, so
//! that what was built elsewhere since is a success again, and what it blocked
//! is attempted.
//!
//! What only nix can say (which outputs a derivation has, which paths are
//! invalid, what a closure holds, which builds stopped) comes in as arguments.

use std::collections::HashMap;

use vstd::prelude::*;
use vstd::string::*;

use crate::model;
use crate::model::{BuildPolicy, Decision, Fact, Observation, Outcome};
use crate::evalfile;
use crate::live;
use crate::live::Tree;
use crate::ordered;
use crate::ordered::{StringMap, StringSet};
use crate::store;
use crate::store::{Store, StoreError};
use crate::text;

verus! {

/// How many store paths one `nix-store` is asked about.
pub const NIX_STORE_ARG_CHUNK: usize = 4096;

/// One derivation to consider.
#[derive(Debug, PartialEq, Eq)]
pub struct Target {
    pub drv_path: String,
}

/// The derivations of some targets.
pub open spec fn target_drvs(targets: Seq<Target>) -> Seq<Seq<char>> {
    targets.map_values(|t: Target| t.drv_path@)
}

/// The derivations of some targets.
pub fn drvs_of(targets: &[Target]) -> (r: Vec<String>)
    ensures
        text::texts(r@) == target_drvs(targets@),
{
    let ghost all = target_drvs(targets@);
    let mut r: Vec<String> = Vec::new();
    let mut i: usize = 0;
    assert(text::texts(r@) =~= all.take(0));
    while i < targets.len()
        invariant
            i <= targets@.len(),
            all == target_drvs(targets@),
            text::texts(r@) == all.take(i as int),
        decreases targets@.len() - i,
    {
        let d = targets[i].drv_path.clone();
        proof {
            text::lemma_texts_push(r@, d);
            assert(all.take(i + 1) =~= all.take(i as int).push(all[i as int]));
        }
        r.push(d);
        i = i + 1;
    }
    assert(all.take(i as int) =~= all);
    r
}

// --- histories ---------------------------------------------------------------

/// What is known of a derivation, the oldest fact first.
pub open spec fn known(m: Map<Seq<char>, Vec<Observation>>, drv: Seq<char>) -> Seq<Fact> {
    model::facts(ordered::listed(m, drv))
}

/// The paths of the latest fact with an outcome that holds any.
pub open spec fn last_blocker(history: Seq<Fact>, outcome: Outcome) -> Option<Seq<Seq<char>>>
    decreases history.len(),
{
    if history.len() == 0 {
        None
    } else if history.last().outcome == outcome && history.last().blocker.len() > 0 {
        Some(history.last().blocker)
    } else {
        last_blocker(history.drop_last(), outcome)
    }
}

/// Whether no path is invalid.
pub open spec fn all_valid(paths: Seq<Seq<char>>, invalid: Set<Seq<char>>) -> bool {
    forall|i: int| 0 <= i < paths.len() ==> !invalid.contains(#[trigger] paths[i])
}

/// The observations of a derivation.
fn observations<'a>(m: &'a StringMap<Vec<Observation>>, drv: &str) -> (r: Option<&'a Vec<Observation>>)
    requires
        m.wf(),
    ensures
        match r {
            Some(v) => known(m@, drv@) == model::facts(v@) && m@.contains_key(drv@) && *v == m@[drv@],
            None => known(m@, drv@) == Seq::<Fact>::empty() && !m@.contains_key(drv@),
        },
{
    let r = m.get(drv);
    proof {
        if r is None {
            assert(known(m@, drv@) =~= Seq::<Fact>::empty());
        }
    }
    r
}

fn recent_blocker(obs: &[Observation], outcome: Outcome) -> (r: Option<Vec<String>>)
    ensures
        match r {
            Some(b) => last_blocker(model::facts(obs@), outcome) == Some(text::texts(b@))
                && b@.len() > 0,
            None => last_blocker(model::facts(obs@), outcome) is None,
        },
{
    let ghost h = model::facts(obs@);
    let mut i: usize = obs.len();
    assert(h.take(i as int) =~= h);
    while i > 0
        invariant
            i <= obs@.len(),
            h == model::facts(obs@),
            last_blocker(h, outcome) == last_blocker(h.take(i as int), outcome),
        decreases i,
    {
        proof {
            assert(h.take(i as int).drop_last() =~= h.take(i - 1));
            assert(h.take(i as int).last() == obs@[i - 1]@);
        }
        i = i - 1;
        if obs[i].outcome == outcome && obs[i].blocker.len() > 0 {
            assert(text::texts(obs@[i as int].blocker@).len() == obs@[i as int].blocker@.len());
            return Some(text::copy_all(obs[i].blocker.as_slice()));
        }
    }
    None
}

fn none_invalid(paths: &[String], invalid: &StringSet) -> (r: bool)
    requires
        invalid.wf(),
    ensures
        r == all_valid(text::texts(paths@), invalid@),
{
    let ghost all = text::texts(paths@);
    let mut i: usize = 0;
    while i < paths.len()
        invariant
            i <= paths@.len(),
            invalid.wf(),
            all == text::texts(paths@),
            all.len() == paths@.len(),
            forall|k: int| 0 <= k < i ==> !invalid@.contains(#[trigger] all[k]),
        decreases paths@.len() - i,
    {
        assert(all[i as int] == paths@[i as int]@);
        if invalid.contains(paths[i].as_str()) {
            assert(invalid@.contains(all[i as int]));
            return false;
        }
        i = i + 1;
    }
    true
}

fn extend(all: &mut Vec<String>, more: &[String])
    ensures
        text::texts(final(all)@) == text::texts(old(all)@) + text::texts(more@),
{
    let ghost was = text::texts(all@);
    let ghost add = text::texts(more@);
    let mut i: usize = 0;
    assert(was + add.take(0) =~= was);
    while i < more.len()
        invariant
            i <= more@.len(),
            add == text::texts(more@),
            text::texts(all@) == was + add.take(i as int),
        decreases more@.len() - i,
    {
        let s = more[i].clone();
        proof {
            text::lemma_texts_push(all@, s);
            assert((was + add.take(i as int)).push(add[i as int]) =~= was + add.take(i + 1));
        }
        all.push(s);
        i = i + 1;
    }
    assert(add.take(i as int) =~= add);
}

/// Whether a build succeeded: the derivation has outputs, and all are valid.
pub open spec fn outputs_valid(outs: Seq<Seq<char>>, invalid: Set<Seq<char>>) -> bool {
    outs.len() > 0 && all_valid(outs, invalid)
}

/// Whether a build succeeded, from the outputs of the derivation and the
/// invalid ones among them.
pub fn drv_built(outs: &[String], invalid: &StringSet) -> (r: bool)
    requires
        invalid.wf(),
    ensures
        r == outputs_valid(text::texts(outs@), invalid@),
{
    assert(text::texts(outs@).len() == outs@.len());
    outs.len() > 0 && none_invalid(outs, invalid)
}

// --- dependency blocks -------------------------------------------------------

/// Whether the dependency block in force in a history is stale: the culprit's
/// outputs that it recorded are all valid by now. A block without them is not.
pub open spec fn block_is_stale(history: Seq<Fact>, invalid: Set<Seq<char>>) -> bool {
    match last_blocker(history, Outcome::DepFailed) {
        Some(b) => all_valid(b, invalid),
        None => false,
    }
}

/// For each target with a block that recorded its culprit, whether the block
/// is stale.
pub open spec fn stale_blocks(
    drvs: Seq<Seq<char>>,
    m: Map<Seq<char>, Vec<Observation>>,
    invalid: Set<Seq<char>>,
) -> Map<Seq<char>, bool> {
    Map::new(
        |d: Seq<char>|
            drvs.contains(d) && last_blocker(known(m, d), Outcome::DepFailed) is Some,
        |d: Seq<char>| block_is_stale(known(m, d), invalid),
    )
}

/// The culprits' outputs of the blocks of the first `n` targets.
pub open spec fn block_paths(
    drvs: Seq<Seq<char>>,
    m: Map<Seq<char>, Vec<Observation>>,
    n: int,
) -> Seq<Seq<char>>
    decreases n,
{
    if n <= 0 {
        Seq::empty()
    } else {
        block_paths(drvs, m, n - 1) + match last_blocker(
            known(m, drvs[n - 1]),
            Outcome::DepFailed,
        ) {
            Some(b) => b,
            None => Seq::empty(),
        }
    }
}

fn blocker_in(m: &StringMap<Vec<Observation>>, drv: &str, outcome: Outcome) -> (r: Option<Vec<String>>)
    requires
        m.wf(),
    ensures
        match r {
            Some(b) => last_blocker(known(m@, drv@), outcome) == Some(text::texts(b@)) && b@.len()
                > 0,
            None => last_blocker(known(m@, drv@), outcome) is None,
        },
{
    match observations(m, drv) {
        Some(obs) => recent_blocker(obs.as_slice(), outcome),
        None => None,
    }
}

/// The paths whose validity decides which dependency blocks are stale.
pub fn dep_block_paths(targets: &[Target], m: &StringMap<Vec<Observation>>) -> (r: Vec<String>)
    requires
        m.wf(),
    ensures
        text::texts(r@) == block_paths(target_drvs(targets@), m@, targets@.len() as int),
{
    let ghost drvs = target_drvs(targets@);
    let mut r: Vec<String> = Vec::new();
    let mut i: usize = 0;
    assert(text::texts(r@) =~= block_paths(drvs, m@, 0));
    while i < targets.len()
        invariant
            i <= targets@.len(),
            m.wf(),
            drvs == target_drvs(targets@),
            text::texts(r@) == block_paths(drvs, m@, i as int),
        decreases targets@.len() - i,
    {
        assert(drvs[i as int] == targets@[i as int].drv_path@);
        match blocker_in(m, targets[i].drv_path.as_str(), Outcome::DepFailed) {
            Some(b) => extend(&mut r, b.as_slice()),
            None => {
                assert(text::texts(r@) + Seq::<Seq<char>>::empty() =~= text::texts(r@));
            },
        }
        i = i + 1;
    }
    r
}

proof fn lemma_contains_push(s: Seq<Seq<char>>, n: int, d: Seq<char>)
    requires
        0 <= n < s.len(),
    ensures
        s.take(n + 1).contains(d) == (s.take(n).contains(d) || d == s[n]),
{
    let a = s.take(n);
    let b = s.take(n + 1);
    if a.contains(d) {
        let k = choose|k: int| 0 <= k < a.len() && a[k] == d;
        assert(b[k] == d);
    }
    if d == s[n] {
        assert(b[n] == d);
    }
    if b.contains(d) && d != s[n] {
        let k = choose|k: int| 0 <= k < b.len() && b[k] == d;
        assert(a[k] == d);
    }
}

/// For each target with a block that recorded its culprit, whether the block
/// is stale, from the invalid ones of [`dep_block_paths`].
pub fn stale_dep_blocks(
    targets: &[Target],
    m: &StringMap<Vec<Observation>>,
    invalid: &StringSet,
) -> (r: StringMap<bool>)
    requires
        m.wf(),
        invalid.wf(),
    ensures
        r.wf(),
        r@ == stale_blocks(target_drvs(targets@), m@, invalid@),
{
    let ghost drvs = target_drvs(targets@);
    let mut r: StringMap<bool> = StringMap::new();
    let mut i: usize = 0;
    assert(r@ =~= stale_blocks(drvs.take(0), m@, invalid@));
    while i < targets.len()
        invariant
            i <= targets@.len(),
            m.wf(),
            invalid.wf(),
            r.wf(),
            drvs == target_drvs(targets@),
            r@ == stale_blocks(drvs.take(i as int), m@, invalid@),
        decreases targets@.len() - i,
    {
        let ghost d = drvs[i as int];
        let ghost now = stale_blocks(drvs.take(i + 1), m@, invalid@);
        assert(d == targets@[i as int].drv_path@);
        proof {
            assert forall|x: Seq<char>| #[trigger] now.contains_key(x) == (r@.contains_key(x) || (x
                == d && last_blocker(known(m@, d), Outcome::DepFailed) is Some)) by {
                lemma_contains_push(drvs, i as int, x);
            }
        }
        if let Some(b) = blocker_in(m, targets[i].drv_path.as_str(), Outcome::DepFailed) {
            let stale = none_invalid(b.as_slice(), invalid);
            assert(stale == block_is_stale(known(m@, d), invalid@));
            r.insert(targets[i].drv_path.clone(), stale);
        }
        proof {
            assert forall|x: Seq<char>| #[trigger] now.contains_key(x) implies now[x] == r@[x] by {
            }
            assert(r@.dom() =~= now.dom());
            assert(r@ =~= now);
        }
        i = i + 1;
    }
    assert(drvs.take(i as int) =~= drvs);
    r
}

// --- direct failures ---------------------------------------------------------

/// What re-checking the direct failures turned up.
pub struct FailureRecheck {
    /// The failures whose outputs are all valid by now.
    pub heal: StringSet,
    /// The failures that are still none, with their outputs where those were
    /// not recorded before.
    pub record_outputs: Vec<(String, Vec<String>)>,
}

/// The outputs by which a history of failures is decided anew, and whether
/// they were recorded: those of the latest direct failure that recorded any,
/// else those that its recipe gives. None where a success is recorded, where
/// there is no direct failure, or where no outputs are known.
pub open spec fn recheckable(history: Seq<Fact>, resolved: Seq<Seq<char>>) -> Option<
    (Seq<Seq<char>>, bool),
> {
    if model::seen(history, Outcome::Built) || !model::seen(history, Outcome::Failed) {
        None
    } else {
        match last_blocker(history, Outcome::Failed) {
            Some(b) => Some((b, true)),
            None => if resolved.len() > 0 {
                Some((resolved, false))
            } else {
                None
            },
        }
    }
}

/// Whether the outputs of a derivation must be asked for to re-check it.
pub open spec fn must_resolve(history: Seq<Fact>) -> bool {
    !model::seen(history, Outcome::Built) && model::seen(history, Outcome::Failed) && last_blocker(
        history,
        Outcome::Failed,
    ) is None
}

/// The outputs of a derivation, none where they are not known.
pub open spec fn resolved_outputs(outputs: Map<Seq<char>, Vec<String>>, drv: Seq<char>) -> Seq<
    Seq<char>,
> {
    text::texts(ordered::listed(outputs, drv))
}

/// Whether a direct failure healed.
pub open spec fn heals(
    history: Seq<Fact>,
    resolved: Seq<Seq<char>>,
    invalid: Set<Seq<char>>,
) -> bool {
    match recheckable(history, resolved) {
        Some((outs, _)) => all_valid(outs, invalid),
        None => false,
    }
}

/// Whether a direct failure is still one, and its outputs are new to the log.
pub open spec fn is_news(
    history: Seq<Fact>,
    resolved: Seq<Seq<char>>,
    invalid: Set<Seq<char>>,
) -> bool {
    match recheckable(history, resolved) {
        Some((outs, recorded)) => !recorded && !all_valid(outs, invalid),
        None => false,
    }
}

/// The derivations of some targets whose failures healed.
pub open spec fn healed(
    drvs: Seq<Seq<char>>,
    m: Map<Seq<char>, Vec<Observation>>,
    outputs: Map<Seq<char>, Vec<String>>,
    invalid: Set<Seq<char>>,
) -> Set<Seq<char>> {
    Set::new(
        |d: Seq<char>|
            drvs.contains(d) && heals(known(m, d), resolved_outputs(outputs, d), invalid),
    )
}

/// The failures of the first `n` targets that are still failures and whose
/// outputs are new to the log, with those outputs.
pub open spec fn news(
    drvs: Seq<Seq<char>>,
    m: Map<Seq<char>, Vec<Observation>>,
    outputs: Map<Seq<char>, Vec<String>>,
    invalid: Set<Seq<char>>,
    n: int,
) -> Seq<(Seq<char>, Seq<Seq<char>>)>
    decreases n,
{
    if n <= 0 {
        Seq::empty()
    } else {
        let d = drvs[n - 1];
        let before = news(drvs, m, outputs, invalid, n - 1);
        let outs = resolved_outputs(outputs, d);
        if is_news(known(m, d), outs, invalid) {
            before.push((d, outs))
        } else {
            before
        }
    }
}

/// Derivations with their paths as texts.
pub open spec fn path_lists(v: Seq<(String, Vec<String>)>) -> Seq<(Seq<char>, Seq<Seq<char>>)> {
    v.map_values(|p: (String, Vec<String>)| (p.0@, text::texts(p.1@)))
}

/// The derivations of the first `n` targets whose outputs must be asked for.
pub open spec fn to_resolve(
    drvs: Seq<Seq<char>>,
    m: Map<Seq<char>, Vec<Observation>>,
    n: int,
) -> Seq<Seq<char>>
    decreases n,
{
    if n <= 0 {
        Seq::empty()
    } else if must_resolve(known(m, drvs[n - 1])) {
        to_resolve(drvs, m, n - 1).push(drvs[n - 1])
    } else {
        to_resolve(drvs, m, n - 1)
    }
}

/// The outputs of the first `n` targets that decide their failures anew.
pub open spec fn recheck_outputs(
    drvs: Seq<Seq<char>>,
    m: Map<Seq<char>, Vec<Observation>>,
    outputs: Map<Seq<char>, Vec<String>>,
    n: int,
) -> Seq<Seq<char>>
    decreases n,
{
    if n <= 0 {
        Seq::empty()
    } else {
        recheck_outputs(drvs, m, outputs, n - 1) + match recheckable(
            known(m, drvs[n - 1]),
            resolved_outputs(outputs, drvs[n - 1]),
        ) {
            Some((outs, _)) => outs,
            None => Seq::empty(),
        }
    }
}

fn listed_copy(m: &StringMap<Vec<String>>, key: &str) -> (r: Vec<String>)
    requires
        m.wf(),
    ensures
        text::texts(r@) == resolved_outputs(m@, key@),
{
    match m.get(key) {
        Some(v) => text::copy_all(v.as_slice()),
        None => {
            let r: Vec<String> = Vec::new();
            assert(text::texts(r@) =~= resolved_outputs(m@, key@));
            r
        },
    }
}

fn has_outcome(m: &StringMap<Vec<Observation>>, drv: &str, outcome: Outcome) -> (r: bool)
    requires
        m.wf(),
    ensures
        r == model::seen(known(m@, drv@), outcome),
{
    match observations(m, drv) {
        Some(obs) => model::any_outcome(obs.as_slice(), outcome),
        None => false,
    }
}

fn recheck_of(
    m: &StringMap<Vec<Observation>>,
    outputs: &StringMap<Vec<String>>,
    drv: &str,
) -> (r: Option<(Vec<String>, bool)>)
    requires
        m.wf(),
        outputs.wf(),
    ensures
        match r {
            Some((outs, recorded)) => recheckable(
                known(m@, drv@),
                resolved_outputs(outputs@, drv@),
            ) == Some((text::texts(outs@), recorded)),
            None => recheckable(known(m@, drv@), resolved_outputs(outputs@, drv@)) is None,
        },
{
    if has_outcome(m, drv, Outcome::Built) || !has_outcome(m, drv, Outcome::Failed) {
        return None;
    }
    match blocker_in(m, drv, Outcome::Failed) {
        Some(b) => Some((b, true)),
        None => {
            let outs = listed_copy(outputs, drv);
            assert(text::texts(outs@).len() == outs@.len());
            if outs.len() > 0 {
                Some((outs, false))
            } else {
                None
            }
        },
    }
}

/// The derivations whose outputs must be asked for to re-check the direct
/// failures: those with a failure that recorded none.
pub fn recheck_queries(targets: &[Target], m: &StringMap<Vec<Observation>>) -> (r: Vec<String>)
    requires
        m.wf(),
    ensures
        text::texts(r@) == to_resolve(target_drvs(targets@), m@, targets@.len() as int),
{
    let ghost drvs = target_drvs(targets@);
    let mut r: Vec<String> = Vec::new();
    let mut i: usize = 0;
    assert(text::texts(r@) =~= to_resolve(drvs, m@, 0));
    while i < targets.len()
        invariant
            i <= targets@.len(),
            m.wf(),
            drvs == target_drvs(targets@),
            text::texts(r@) == to_resolve(drvs, m@, i as int),
        decreases targets@.len() - i,
    {
        assert(drvs[i as int] == targets@[i as int].drv_path@);
        let drv = targets[i].drv_path.as_str();
        if !has_outcome(m, drv, Outcome::Built) && has_outcome(m, drv, Outcome::Failed) {
            match blocker_in(m, drv, Outcome::Failed) {
                Some(_) => {},
                None => {
                    let d = targets[i].drv_path.clone();
                    proof {
                        text::lemma_texts_push(r@, d);
                    }
                    r.push(d);
                },
            }
        }
        i = i + 1;
    }
    r
}

/// The paths whose validity decides the direct failures anew, given the
/// outputs of [`recheck_queries`].
pub fn recheck_paths(
    targets: &[Target],
    m: &StringMap<Vec<Observation>>,
    outputs: &StringMap<Vec<String>>,
) -> (r: Vec<String>)
    requires
        m.wf(),
        outputs.wf(),
    ensures
        text::texts(r@) == recheck_outputs(
            target_drvs(targets@),
            m@,
            outputs@,
            targets@.len() as int,
        ),
{
    let ghost drvs = target_drvs(targets@);
    let mut r: Vec<String> = Vec::new();
    let mut i: usize = 0;
    assert(text::texts(r@) =~= recheck_outputs(drvs, m@, outputs@, 0));
    while i < targets.len()
        invariant
            i <= targets@.len(),
            m.wf(),
            outputs.wf(),
            drvs == target_drvs(targets@),
            text::texts(r@) == recheck_outputs(drvs, m@, outputs@, i as int),
        decreases targets@.len() - i,
    {
        assert(drvs[i as int] == targets@[i as int].drv_path@);
        match recheck_of(m, outputs, targets[i].drv_path.as_str()) {
            Some((outs, _)) => extend(&mut r, outs.as_slice()),
            None => {
                assert(text::texts(r@) + Seq::<Seq<char>>::empty() =~= text::texts(r@));
            },
        }
        i = i + 1;
    }
    r
}

/// Decides the direct failures of the targets anew, from the invalid ones of
/// [`recheck_paths`].
pub fn recheck_direct_failures(
    targets: &[Target],
    m: &StringMap<Vec<Observation>>,
    outputs: &StringMap<Vec<String>>,
    invalid: &StringSet,
) -> (r: FailureRecheck)
    requires
        m.wf(),
        outputs.wf(),
        invalid.wf(),
    ensures
        r.heal.wf(),
        r.heal@ == healed(target_drvs(targets@), m@, outputs@, invalid@),
        path_lists(r.record_outputs@) == news(
            target_drvs(targets@),
            m@,
            outputs@,
            invalid@,
            targets@.len() as int,
        ),
{
    let ghost drvs = target_drvs(targets@);
    let mut heal = StringSet::new();
    let mut record_outputs: Vec<(String, Vec<String>)> = Vec::new();
    let mut i: usize = 0;
    assert(heal@ =~= healed(drvs.take(0), m@, outputs@, invalid@));
    assert(path_lists(record_outputs@) =~= news(drvs, m@, outputs@, invalid@, 0));
    while i < targets.len()
        invariant
            i <= targets@.len(),
            m.wf(),
            outputs.wf(),
            invalid.wf(),
            heal.wf(),
            drvs == target_drvs(targets@),
            heal@ == healed(drvs.take(i as int), m@, outputs@, invalid@),
            path_lists(record_outputs@) == news(drvs, m@, outputs@, invalid@, i as int),
        decreases targets@.len() - i,
    {
        let ghost d = drvs[i as int];
        let ghost was = heal@;
        let ghost before = path_lists(record_outputs@);
        let ghost next = healed(drvs.take(i + 1), m@, outputs@, invalid@);
        assert(d == targets@[i as int].drv_path@);
        proof {
            assert forall|x: Seq<char>| #[trigger] next.contains(x) == (was.contains(x) || (x == d
                && heals(known(m@, d), resolved_outputs(outputs@, d), invalid@))) by {
                lemma_contains_push(drvs, i as int, x);
            }
        }
        if let Some((outs, recorded)) = recheck_of(m, outputs, targets[i].drv_path.as_str()) {
            if none_invalid(outs.as_slice(), invalid) {
                heal.insert(targets[i].drv_path.clone());
            } else if !recorded {
                let ghost o = text::texts(outs@);
                record_outputs.push((targets[i].drv_path.clone(), outs));
                assert(path_lists(record_outputs@) =~= before.push((d, o)));
            }
        }
        assert(heal@ =~= next);
        i = i + 1;
    }
    assert(drvs.take(i as int) =~= drvs);
    FailureRecheck { heal, record_outputs }
}

/// Whether a direct failure can only be re-checked with its recipe: none of
/// the direct failures recorded outputs.
pub open spec fn lacks_outputs(history: Seq<Fact>) -> bool {
    model::seen(history, Outcome::Failed) && last_blocker(history, Outcome::Failed) is None
}

/// Whether a direct failure can only be re-checked with its recipe.
pub fn needs_selfheal_instantiate(obs: &[Observation]) -> (r: bool)
    ensures
        r == lacks_outputs(model::facts(obs@)),
{
    if !model::any_outcome(obs, Outcome::Failed) {
        return false;
    }
    match recent_blocker(obs, Outcome::Failed) {
        Some(_) => false,
        None => true,
    }
}

// --- still failing -----------------------------------------------------------

/// Whether a derivation still fails: it has no outputs, or an invalid one.
pub open spec fn still_fails(outs: Seq<Seq<char>>, invalid: Set<Seq<char>>) -> bool {
    !outputs_valid(outs, invalid)
}

/// Those of some derivations that still fail, with their outputs.
pub open spec fn still_failing(
    candidates: Set<Seq<char>>,
    outputs: Map<Seq<char>, Vec<String>>,
    invalid: Set<Seq<char>>,
) -> Map<Seq<char>, Seq<Seq<char>>> {
    Map::new(
        |d: Seq<char>|
            candidates.contains(d) && still_fails(resolved_outputs(outputs, d), invalid),
        |d: Seq<char>| resolved_outputs(outputs, d),
    )
}

/// The outputs of some derivations, one list after another.
pub open spec fn outputs_in_order(
    members: Seq<Seq<char>>,
    outputs: Map<Seq<char>, Vec<String>>,
    n: int,
) -> Seq<Seq<char>>
    decreases n,
{
    if n <= 0 {
        Seq::empty()
    } else {
        outputs_in_order(members, outputs, n - 1) + resolved_outputs(outputs, members[n - 1])
    }
}

/// The paths whose validity decides which of some derivations still fail.
pub fn failing_paths(candidates: &StringSet, outputs: &StringMap<Vec<String>>) -> (r: Vec<String>)
    requires
        outputs.wf(),
    ensures
        text::texts(r@) == outputs_in_order(
            candidates.members(),
            outputs@,
            candidates.members().len() as int,
        ),
{
    let ghost members = candidates.members();
    let n = candidates.len();
    let mut r: Vec<String> = Vec::new();
    let mut i: usize = 0;
    assert(text::texts(r@) =~= outputs_in_order(members, outputs@, 0));
    while i < n
        invariant
            i <= n,
            n == members.len(),
            members == candidates.members(),
            outputs.wf(),
            text::texts(r@) == outputs_in_order(members, outputs@, i as int),
        decreases n - i,
    {
        let outs = listed_copy(outputs, candidates.at(i).as_str());
        extend(&mut r, outs.as_slice());
        i = i + 1;
    }
    r
}

/// Those of some derivations that still fail, with their outputs, from the
/// invalid ones of [`failing_paths`]. One that healed since is dropped, so that
/// a failure of the past never blocks again.
pub fn verify_failing(
    candidates: &StringSet,
    outputs: &StringMap<Vec<String>>,
    invalid: &StringSet,
) -> (r: StringMap<Vec<String>>)
    requires
        candidates.wf(),
        outputs.wf(),
        invalid.wf(),
    ensures
        r.wf(),
        text::lists(r@) == still_failing(candidates@, outputs@, invalid@),
{
    let ghost members = candidates.members();
    let n = candidates.len();
    let mut r: StringMap<Vec<String>> = StringMap::new();
    let mut i: usize = 0;
    assert(text::lists(r@) =~= still_failing(members.take(0).to_set(), outputs@, invalid@));
    while i < n
        invariant
            i <= n,
            n == members.len(),
            members == candidates.members(),
            outputs.wf(),
            invalid.wf(),
            r.wf(),
            text::lists(r@) == still_failing(members.take(i as int).to_set(), outputs@, invalid@),
        decreases n - i,
    {
        let d = candidates.at(i);
        let outs = listed_copy(outputs, d.as_str());
        let ghost o = outs;
        let ghost was = r@;
        let fails = !drv_built(outs.as_slice(), invalid);
        if fails {
            r.insert(d.clone(), outs);
        }
        proof {
            let seen = members.take(i as int).to_set();
            let next = members.take(i + 1).to_set();
            assert forall|x: Seq<char>| #[trigger] next.contains(x) == (seen.contains(x) || x
                == d@) by {
                lemma_contains_push(members, i as int, x);
            }
            let want = still_failing(next, outputs@, invalid@);
            let have = text::lists(r@);
            if fails {
                assert(have =~= text::lists(was).insert(d@, text::texts(o@)));
            }
            assert(have.dom() =~= want.dom());
            assert forall|x: Seq<char>| #[trigger] want.contains_key(x) implies want[x]
                == have[x] by {
                if x != d@ {
                    assert(text::lists(was).contains_key(x));
                }
            }
            assert(have =~= want);
        }
        i = i + 1;
    }
    assert(members.take(i as int) =~= members);
    r
}

/// For each of some derivations whether it built.
pub open spec fn outcomes_of(
    drvs: Seq<Seq<char>>,
    outputs: Map<Seq<char>, Vec<String>>,
    invalid: Set<Seq<char>>,
) -> Map<Seq<char>, bool> {
    Map::new(
        |d: Seq<char>| drvs.contains(d),
        |d: Seq<char>| outputs_valid(resolved_outputs(outputs, d), invalid),
    )
}

/// For each of some derivations whether it built: whether all its outputs are
/// valid.
pub fn build_outcomes(
    drvs: &[String],
    outputs: &StringMap<Vec<String>>,
    invalid: &StringSet,
) -> (r: StringMap<bool>)
    requires
        outputs.wf(),
        invalid.wf(),
    ensures
        r.wf(),
        r@ == outcomes_of(text::texts(drvs@), outputs@, invalid@),
{
    let ghost all = text::texts(drvs@);
    let mut r: StringMap<bool> = StringMap::new();
    let mut i: usize = 0;
    assert(r@ =~= outcomes_of(all.take(0), outputs@, invalid@));
    while i < drvs.len()
        invariant
            i <= drvs@.len(),
            all == text::texts(drvs@),
            outputs.wf(),
            invalid.wf(),
            r.wf(),
            r@ == outcomes_of(all.take(i as int), outputs@, invalid@),
        decreases drvs@.len() - i,
    {
        let ghost was = r@;
        let outs = listed_copy(outputs, drvs[i].as_str());
        let built = drv_built(outs.as_slice(), invalid);
        r.insert(drvs[i].clone(), built);
        proof {
            let want = outcomes_of(all.take(i + 1), outputs@, invalid@);
            assert forall|x: Seq<char>| #[trigger] want.contains_key(x) == r@.contains_key(x) by {
                lemma_contains_push(all, i as int, x);
            }
            assert(r@.dom() =~= want.dom());
            assert(all[i as int] == drvs@[i as int]@);
            assert forall|x: Seq<char>| #[trigger] want.contains_key(x) implies want[x] == r@[x] by {
                lemma_contains_push(all, i as int, x);
            }
            assert(r@ =~= want);
        }
        i = i + 1;
    }
    assert(all.take(i as int) =~= all);
    r
}

// --- recipes -----------------------------------------------------------------

/// Whether the recipe of a target is needed: to build it, or to re-check a
/// failure that recorded no outputs.
pub open spec fn needs_recipe(retry: bool, history: Seq<Fact>, invalid: Set<Seq<char>>) -> bool {
    let d = model::decision(retry, history, block_is_stale(history, invalid));
    d == Decision::Build || (d == Decision::SkipFail && lacks_outputs(history))
}

/// The derivations of some targets whose recipes are needed.
pub open spec fn recipes_needed(
    retry: bool,
    drvs: Seq<Seq<char>>,
    m: Map<Seq<char>, Vec<Observation>>,
    invalid: Set<Seq<char>>,
) -> Set<Seq<char>> {
    Set::new(|d: Seq<char>| drvs.contains(d) && needs_recipe(retry, known(m, d), invalid))
}

fn stale_in(stale: &StringMap<bool>, drv: &str) -> (r: bool)
    requires
        stale.wf(),
    ensures
        r == (stale@.contains_key(drv@) && stale@[drv@]),
{
    match stale.get(drv) {
        Some(b) => *b,
        None => false,
    }
}

fn decide_for(
    policy: BuildPolicy,
    m: &StringMap<Vec<Observation>>,
    drv: &str,
    stale: bool,
) -> (r: Decision)
    requires
        m.wf(),
    ensures
        r == model::decision(policy.retry, known(m@, drv@), stale),
{
    match observations(m, drv) {
        Some(obs) => policy.decide(obs.as_slice(), stale),
        None => {
            let none: Vec<Observation> = Vec::new();
            assert(model::facts(none@) =~= Seq::<Fact>::empty());
            policy.decide(none.as_slice(), stale)
        },
    }
}

/// The derivations of the targets whose recipes the build will need, decided
/// from the log and the invalid ones of [`dep_block_paths`] alone. Where there
/// are none, nothing has to be instantiated.
pub fn drvs_to_materialize(
    targets: &[Target],
    m: &StringMap<Vec<Observation>>,
    invalid: &StringSet,
    policy: BuildPolicy,
) -> (r: StringSet)
    requires
        m.wf(),
        invalid.wf(),
    ensures
        r.wf(),
        r@ == recipes_needed(policy.retry, target_drvs(targets@), m@, invalid@),
{
    let ghost drvs = target_drvs(targets@);
    let stale = stale_dep_blocks(targets, m, invalid);
    let mut need = StringSet::new();
    let mut i: usize = 0;
    assert(need@ =~= recipes_needed(policy.retry, drvs.take(0), m@, invalid@));
    while i < targets.len()
        invariant
            i <= targets@.len(),
            m.wf(),
            stale.wf(),
            need.wf(),
            drvs == target_drvs(targets@),
            stale@ == stale_blocks(drvs, m@, invalid@),
            need@ == recipes_needed(policy.retry, drvs.take(i as int), m@, invalid@),
        decreases targets@.len() - i,
    {
        let ghost d = drvs[i as int];
        let ghost was = need@;
        let drv = targets[i].drv_path.as_str();
        assert(d == drv@);
        assert(drvs.contains(d));
        let dep_stale = stale_in(&stale, drv);
        assert(dep_stale == block_is_stale(known(m@, d), invalid@));
        let decision = decide_for(policy, m, drv, dep_stale);
        let wanted = if decision == Decision::Build {
            true
        } else if decision == Decision::SkipFail {
            match observations(m, drv) {
                Some(obs) => needs_selfheal_instantiate(obs.as_slice()),
                None => false,
            }
        } else {
            false
        };
        assert(wanted == needs_recipe(policy.retry, known(m@, d), invalid@));
        if wanted {
            need.insert(targets[i].drv_path.clone());
        }
        proof {
            let next = recipes_needed(policy.retry, drvs.take(i + 1), m@, invalid@);
            assert forall|x: Seq<char>| #[trigger] next.contains(x) == need@.contains(x) by {
                lemma_contains_push(drvs, i as int, x);
            }
            assert(need@ =~= next);
        }
        i = i + 1;
    }
    assert(drvs.take(i as int) =~= drvs);
    need
}

/// Keeps of some recipes those that are absent from the store.
pub fn retain_absent(need: &StringSet, absent: &StringSet) -> (r: StringSet)
    requires
        need.wf(),
        absent.wf(),
    ensures
        r.wf(),
        r@ == need@.intersect(absent@),
{
    let ghost members = need.members();
    let n = need.len();
    let mut r = StringSet::new();
    let mut i: usize = 0;
    assert(r@ =~= members.take(0).to_set().intersect(absent@));
    while i < n
        invariant
            i <= n,
            n == members.len(),
            members == need.members(),
            absent.wf(),
            r.wf(),
            r@ == members.take(i as int).to_set().intersect(absent@),
        decreases n - i,
    {
        let d = need.at(i);
        if absent.contains(d.as_str()) {
            r.insert(d.clone());
        }
        proof {
            let next = members.take(i + 1).to_set().intersect(absent@);
            assert forall|x: Seq<char>| #[trigger] next.contains(x) == r@.contains(x) by {
                lemma_contains_push(members, i as int, x);
            }
            assert(r@ =~= next);
        }
        i = i + 1;
    }
    assert(members.take(i as int) =~= members);
    r
}

/// The recipes that must still be instantiated: of those that are needed, the
/// ones that the store reports as invalid. A recipe that is there is used where
/// it is.
pub fn drvs_needing_instantiation(need: StringSet, invalid: &StringSet) -> (r: StringSet)
    requires
        need.wf(),
        invalid.wf(),
    ensures
        r.wf(),
        r@ == need@.intersect(invalid@),
{
    if need.is_empty() {
        assert(need@ =~= need@.intersect(invalid@));
        return need;
    }
    retain_absent(&need, invalid)
}

// --- the probe ---------------------------------------------------------------

/// The derivations of the first `n` targets of which the log says nothing,
/// each once.
pub open spec fn unknown_drvs(
    drvs: Seq<Seq<char>>,
    log: Seq<store::LogData>,
    n: int,
) -> Seq<Seq<char>>
    decreases n,
{
    if n <= 0 {
        Seq::empty()
    } else {
        let before = unknown_drvs(drvs, log, n - 1);
        if store::facts_about(log, drvs[n - 1]).len() == 0 && !before.contains(drvs[n - 1]) {
            before.push(drvs[n - 1])
        } else {
            before
        }
    }
}

/// Whether the log is known to hold no code without a meaning, as far as some
/// derivations are concerned.
pub open spec fn readable(log: Seq<store::LogData>, drvs: Seq<Seq<char>>) -> bool {
    store::first_unknown(log, store::stored_all(drvs), log.len() as int) is None
}

/// The derivations of the targets of which the log says nothing, each once:
/// only for those can a probe change what is decided.
pub fn probe_candidates(store: &Store, targets: &[Target]) -> (r: Result<Vec<String>, StoreError>)
    ensures
        match r {
            Ok(v) => readable(store.log(), target_drvs(targets@)) && text::texts(v@)
                == unknown_drvs(target_drvs(targets@), store.log(), targets@.len() as int),
            Err(StoreError::UnknownOutcome(c)) => store::first_unknown(
                store.log(),
                store::stored_all(target_drvs(targets@)),
                store.log().len() as int,
            ) == Some(c),
        },
{
    let ghost drvs = target_drvs(targets@);
    let ghost log = store.log();
    let asked = drvs_of(targets);
    let m = match store.load_observations_many(asked.as_slice()) {
        Ok(m) => m,
        Err(e) => return Err(e),
    };
    let mut r: Vec<String> = Vec::new();
    let mut seen = StringSet::new();
    let mut i: usize = 0;
    assert(text::texts(r@) =~= unknown_drvs(drvs, log, 0));
    while i < targets.len()
        invariant
            i <= targets@.len(),
            m.wf(),
            seen.wf(),
            drvs == target_drvs(targets@),
            store::holds_histories(m@, log, store::stored_all(drvs), log.len() as int),
            text::texts(r@) == unknown_drvs(drvs, log, i as int),
            forall|d: Seq<char>| #[trigger] seen@.contains(d) <==> text::texts(r@).contains(d),
        decreases targets@.len() - i,
    {
        let ghost d = drvs[i as int];
        assert(d == targets@[i as int].drv_path@);
        let ghost was = text::texts(r@);
        proof {
            assert(drvs.contains(d));
            store::lemma_histories(m@, log, drvs, d);
        }
        let none = match observations(&m, targets[i].drv_path.as_str()) {
            Some(obs) => {
                assert(model::facts(obs@).len() == obs@.len());
                obs.len() == 0
            },
            None => true,
        };
        if none {
            let new = seen.insert(targets[i].drv_path.clone());
            if new {
                let c = targets[i].drv_path.clone();
                proof {
                    text::lemma_texts_push(r@, c);
                    assert forall|x: Seq<char>| #[trigger]
                        was.push(d).contains(x) <==> was.contains(x) || x == d by {
                        if was.contains(x) {
                            let k = choose|k: int| 0 <= k < was.len() && was[k] == x;
                            assert(was.push(d)[k] == x);
                        }
                        assert(was.push(d)[was.len() as int] == d);
                    }
                }
                r.push(c);
            }
        }
        i = i + 1;
    }
    Ok(r)
}

/// The derivations of a batch of verdicts that the cache has.
pub open spec fn hits_of(batch: Seq<(String, bool)>) -> Seq<Seq<char>>
    decreases batch.len(),
{
    if batch.len() == 0 {
        Seq::empty()
    } else if batch.last().1 {
        hits_of(batch.drop_last()).push(batch.last().0@)
    } else {
        hits_of(batch.drop_last())
    }
}

/// Records a batch of verdicts of the probe: its hits are successes, as a build
/// is; its misses are nothing, since the cache may change.
pub fn record_hit_batch(store: &mut Store, batch: &[(String, bool)])
    requires
        old(store).wf(),
    ensures
        final(store).wf(),
        final(store).log() == old(store).log() + hits_of(batch@).map_values(
            |d: Seq<char>| store::encoded(store::built(d)),
        ),
        final(store).caches_as(*old(store)),
{
    let mut hits: Vec<String> = Vec::new();
    let mut i: usize = 0;
    assert(text::texts(hits@) =~= hits_of(batch@.take(0)));
    while i < batch.len()
        invariant
            i <= batch@.len(),
            text::texts(hits@) == hits_of(batch@.take(i as int)),
        decreases batch@.len() - i,
    {
        proof {
            assert(batch@.take(i + 1).drop_last() =~= batch@.take(i as int));
            assert(batch@.take(i + 1).last() == batch@[i as int]);
        }
        if batch[i].1 {
            let d = batch[i].0.clone();
            proof {
                text::lemma_texts_push(hits@, d);
            }
            hits.push(d);
        }
        i = i + 1;
    }
    assert(batch@.take(i as int) =~= batch@);
    if hits.len() > 0 {
        store.record_cache_hits(hits.as_slice());
    } else {
        assert(text::texts(hits@) =~= Seq::<Seq<char>>::empty());
        assert(store.log() + hits_of(batch@).map_values(
            |d: Seq<char>| store::encoded(store::built(d)),
        ) =~= store.log());
    }
}

// --- deciding ----------------------------------------------------------------

/// One run of the driver: the targets, the policy, and what is known of each
/// target.
pub struct Run {
    pub targets: Vec<Target>,
    pub policy: BuildPolicy,
    pub known: StringMap<Vec<Observation>>,
}

/// A direct failure with its outputs.
pub open spec fn failed(drv: Seq<char>, outs: Seq<Seq<char>>) -> Fact {
    Fact { drv, outcome: Outcome::Failed, blocker: outs }
}

/// A failure for a dependency, with the outputs of the culprit.
pub open spec fn dep_failed(drv: Seq<char>, blocker: Seq<Seq<char>>) -> Fact {
    Fact { drv, outcome: Outcome::DepFailed, blocker }
}

/// The targets to build among the first `n`: those that the policy says to
/// build, given what is known of each and which paths are invalid.
pub open spec fn build_set(
    retry: bool,
    drvs: Seq<Seq<char>>,
    m: Map<Seq<char>, Vec<Observation>>,
    invalid: Set<Seq<char>>,
    n: int,
) -> Seq<usize>
    decreases n,
{
    if n <= 0 {
        Seq::empty()
    } else {
        let before = build_set(retry, drvs, m, invalid, n - 1);
        let h = known(m, drvs[n - 1]);
        if model::decision(retry, h, block_is_stale(h, invalid)) == Decision::Build {
            before.push((n - 1) as usize)
        } else {
            before
        }
    }
}

fn add_fact(store: &mut Store, drv: &str, outcome: Outcome, blocker: Vec<String>)
    requires
        old(store).wf(),
    ensures
        final(store).wf(),
        final(store).log() == old(store).log().push(
            store::encoded((Fact { drv: drv@, outcome, blocker: text::texts(blocker@) })),
        ),
        final(store).caches_as(*old(store)),
{
    let o = Observation { drv_path: drv.to_owned(), outcome, blocker };
    store.add_observation(&o);
}

impl Run {
    /// The lists that are known are in order.
    pub open spec fn wf(self) -> bool {
        self.known.wf()
    }

    /// The derivations of the targets.
    pub open spec fn drvs(self) -> Seq<Seq<char>> {
        target_drvs(self.targets@)
    }

    /// Begins a run with all that the log says of the targets.
    pub fn begin(store: &Store, targets: Vec<Target>, policy: BuildPolicy) -> (r: Result<
        Run,
        StoreError,
    >)
        ensures
            match r {
                Ok(run) => {
                    &&& run.wf()
                    &&& run.targets == targets
                    &&& run.policy == policy
                    &&& readable(store.log(), run.drvs())
                    &&& forall|d: Seq<char>|
                        run.drvs().contains(d) ==> #[trigger] known(run.known@, d)
                            == store::facts_about(store.log(), d)
                },
                Err(StoreError::UnknownOutcome(c)) => store::first_unknown(
                    store.log(),
                    store::stored_all(target_drvs(targets@)),
                    store.log().len() as int,
                ) == Some(c),
            },
    {
        let drvs = drvs_of(targets.as_slice());
        match store.load_observations_many(drvs.as_slice()) {
            Ok(known_now) => {
                let run = Run { targets, policy, known: known_now };
                proof {
                    assert forall|d: Seq<char>| run.drvs().contains(d) implies #[trigger] known(
                        run.known@,
                        d,
                    ) == store::facts_about(store.log(), d) by {
                        store::lemma_histories(run.known@, store.log(), run.drvs(), d);
                    }
                }
                Ok(run)
            },
            Err(e) => Err(e),
        }
    }

    /// Decides the direct failures of the targets anew, from the outputs of
    /// [`recheck_queries`] and the invalid ones of [`recheck_paths`]. A failure
    /// that healed is recorded as a success, and counts as one from here on.
    /// One that is still a failure has its outputs recorded where they were
    /// not, so that the next run needs no recipe.
    pub fn heal(
        &mut self,
        store: &mut Store,
        outputs: &StringMap<Vec<String>>,
        invalid: &StringSet,
    ) -> (r: FailureRecheck)
        requires
            old(self).wf(),
            old(store).wf(),
            outputs.wf(),
            invalid.wf(),
        ensures
            final(self).wf(),
            final(self).targets == old(self).targets,
            final(self).policy == old(self).policy,
            r.heal.wf(),
            r.heal@ == healed(old(self).drvs(), old(self).known@, outputs@, invalid@),
            path_lists(r.record_outputs@) == news(
                old(self).drvs(),
                old(self).known@,
                outputs@,
                invalid@,
                old(self).targets@.len() as int,
            ),
            forall|d: Seq<char>| #[trigger]
                known(final(self).known@, d) == (if r.heal@.contains(d) {
                    known(old(self).known@, d).push(store::built(d))
                } else {
                    known(old(self).known@, d)
                }),
            final(store).wf(),
            final(store).log() == old(store).log() + r.heal.members().map_values(
                |d: Seq<char>| store::encoded(store::built(d)),
            ) + path_lists(r.record_outputs@).map_values(
                |p: (Seq<char>, Seq<Seq<char>>)| store::encoded(failed(p.0, p.1)),
            ),
            final(store).caches_as(*old(store)),
    {
        let re = recheck_direct_failures(self.targets.as_slice(), &self.known, outputs, invalid);
        let ghost members = re.heal.members();
        let ghost log0 = store.log();
        let ghost known0 = self.known@;
        let ghost rows = members.map_values(|d: Seq<char>| store::encoded(store::built(d)));
        let n = re.heal.len();
        let mut i: usize = 0;
        proof {
            re.heal.lemma_members_ascend();
            assert(log0 + rows.take(0) =~= log0);
        }
        while i < n
            invariant
                i <= n,
                n == members.len(),
                members == re.heal.members(),
                ordered::strictly_ascending(members),
                rows == members.map_values(|d: Seq<char>| store::encoded(store::built(d))),
                self.wf(),
                self.targets == old(self).targets,
                self.policy == old(self).policy,
                store.wf(),
                store.caches_as(*old(store)),
                store.log() == log0 + rows.take(i as int),
                forall|d: Seq<char>| #[trigger]
                    known(self.known@, d) == (if members.take(i as int).contains(d) {
                        known(known0, d).push(store::built(d))
                    } else {
                        known(known0, d)
                    }),
            decreases n - i,
        {
            let d = re.heal.at(i);
            let ghost before = self.known@;
            proof {
                assert(!members.take(i as int).contains(d@)) by {
                    if members.take(i as int).contains(d@) {
                        let k = choose|k: int|
                            0 <= k < members.take(i as int).len() && members.take(i as int)[k] == d@;
                        assert(text::lex_before(members[k], members[i as int]));
                        text::lemma_lex_order(d@, d@, d@);
                    }
                }
            }
            let o = Observation {
                drv_path: d.clone(),
                outcome: Outcome::Built,
                blocker: Vec::new(),
            };
            assert(o@ =~= store::built(d@));
            store.add_observation(&o);
            self.known.append(d.as_str(), o);
            proof {
                assert(store.log() =~= log0 + rows.take(i + 1));
                assert forall|x: Seq<char>| #[trigger] known(self.known@, x) == (if members.take(
                    i + 1,
                ).contains(x) {
                    known(known0, x).push(store::built(x))
                } else {
                    known(known0, x)
                }) by {
                    lemma_contains_push(members, i as int, x);
                    let was = ordered::listed(before, x);
                    if x == d@ {
                        assert(model::facts(was.push(o)) =~= model::facts(was).push(o@));
                        assert(known(before, x) == known(known0, x));
                    } else {
                        assert(self.known@.contains_key(x) == before.contains_key(x));
                        assert(ordered::listed(self.known@, x) =~= was);
                        assert(known(before, x) == known(self.known@, x));
                    }
                }
            }
            i = i + 1;
        }
        proof {
            assert(members.take(i as int) =~= members);
            assert(rows.take(i as int) =~= rows);
            assert forall|d: Seq<char>| members.contains(d) == re.heal@.contains(d) by {}
        }
        let ghost log1 = store.log();
        let ghost late = path_lists(re.record_outputs@);
        let ghost more = late.map_values(
            |p: (Seq<char>, Seq<Seq<char>>)| store::encoded(failed(p.0, p.1)),
        );
        let mut k: usize = 0;
        assert(log1 + more.take(0) =~= log1);
        while k < re.record_outputs.len()
            invariant
                k <= re.record_outputs@.len(),
                late == path_lists(re.record_outputs@),
                more == late.map_values(
                    |p: (Seq<char>, Seq<Seq<char>>)| store::encoded(failed(p.0, p.1)),
                ),
                store.wf(),
                store.caches_as(*old(store)),
                store.log() == log1 + more.take(k as int),
            decreases re.record_outputs@.len() - k,
        {
            let pair = &re.record_outputs[k];
            let outs = text::copy_all(pair.1.as_slice());
            assert(late[k as int] == (pair.0@, text::texts(pair.1@)));
            add_fact(store, pair.0.as_str(), Outcome::Failed, outs);
            assert(store.log() =~= log1 + more.take(k + 1));
            k = k + 1;
        }
        assert(more.take(k as int) =~= more);
        re
    }

    /// The targets to build, from the invalid ones of [`dep_block_paths`].
    pub fn plan(&self, invalid: &StringSet) -> (r: Vec<usize>)
        requires
            self.wf(),
            invalid.wf(),
        ensures
            r@ == build_set(
                self.policy.retry,
                self.drvs(),
                self.known@,
                invalid@,
                self.targets@.len() as int,
            ),
            forall|k: int| 0 <= k < r@.len() ==> #[trigger] r@[k] < self.targets@.len(),
    {
        let ghost drvs = self.drvs();
        let stale = stale_dep_blocks(self.targets.as_slice(), &self.known, invalid);
        let mut r: Vec<usize> = Vec::new();
        let mut i: usize = 0;
        while i < self.targets.len()
            invariant
                i <= self.targets@.len(),
                self.wf(),
                stale.wf(),
                drvs == self.drvs(),
                stale@ == stale_blocks(drvs, self.known@, invalid@),
                r@ == build_set(self.policy.retry, drvs, self.known@, invalid@, i as int),
                forall|k: int| 0 <= k < r@.len() ==> #[trigger] r@[k] < self.targets@.len(),
            decreases self.targets@.len() - i,
        {
            let ghost d = drvs[i as int];
            let drv = self.targets[i].drv_path.as_str();
            assert(d == drv@);
            assert(drvs.contains(d));
            let dep_stale = stale_in(&stale, drv);
            assert(dep_stale == block_is_stale(known(self.known@, d), invalid@));
            if decide_for(self.policy, &self.known, drv, dep_stale) == Decision::Build {
                r.push(i);
            }
            i = i + 1;
        }
        r
    }
}

// --- propagating failures ----------------------------------------------------

/// The derivations that the log knows as failing, unless failures are to be
/// tried again.
pub fn failing_now(store: &Store, policy: BuildPolicy) -> (r: StringSet)
    ensures
        r.wf(),
        policy.retry ==> r@ == Set::<Seq<char>>::empty(),
        !policy.retry ==> forall|d: Seq<char>| #[trigger]
            r@.contains(d) <==> exists|i: int|
                0 <= i < store.log().len() && d == evalfile::restored(
                    (#[trigger] store.log()[i]).drv,
                ) && store::only_fails(store.log(), store.log()[i].drv, store.log().len() as int),
{
    if policy.retry {
        StringSet::new()
    } else {
        store.failing_drvs()
    }
}

/// The derivations of some of the targets.
pub open spec fn picked(drvs: Seq<Seq<char>>, at: Seq<usize>) -> Seq<Seq<char>> {
    Seq::new(at.len(), |k: int| drvs[at[k] as int])
}

/// Which of a closure, but for one derivation, are known as failing.
pub open spec fn suspects_in(
    closure: Seq<Seq<char>>,
    failing: Set<Seq<char>>,
    except: Option<Seq<char>>,
) -> Set<Seq<char>> {
    Set::new(
        |d: Seq<char>| closure.contains(d) && failing.contains(d) && Some(d) != except,
    )
}

/// Which of a closure are known as failing. A derivation is among its own
/// requirements, so it can be left out.
pub fn suspects(closure: &[String], failing: &StringSet, except: Option<&str>) -> (r: StringSet)
    requires
        failing.wf(),
    ensures
        r.wf(),
        r@ == suspects_in(
            text::texts(closure@),
            failing@,
            match except {
                Some(d) => Some(d@),
                None => None,
            },
        ),
{
    let ghost all = text::texts(closure@);
    let ghost out: Option<Seq<char>> = match except {
        Some(d) => Some(d@),
        None => None,
    };
    let mut r = StringSet::new();
    let mut i: usize = 0;
    assert(r@ =~= suspects_in(all.take(0), failing@, out));
    while i < closure.len()
        invariant
            i <= closure@.len(),
            all == text::texts(closure@),
            out == (match except {
                Some(d) => Some(d@),
                None => None,
            }),
            failing.wf(),
            r.wf(),
            r@ == suspects_in(all.take(i as int), failing@, out),
        decreases closure@.len() - i,
    {
        let d = closure[i].as_str();
        assert(all[i as int] == d@);
        let left_out = match except {
            Some(x) => text::same(d, x),
            None => false,
        };
        if !left_out && failing.contains(d) {
            r.insert(closure[i].clone());
        }
        proof {
            let next = suspects_in(all.take(i + 1), failing@, out);
            assert forall|x: Seq<char>| #[trigger] next.contains(x) == r@.contains(x) by {
                lemma_contains_push(all, i as int, x);
            }
            assert(r@ =~= next);
        }
        i = i + 1;
    }
    assert(all.take(i as int) =~= all);
    r
}

/// The culprit of a block: the first of the closure from the position `i` on
/// that still fails and is not the derivation itself.
pub open spec fn culprit_from(
    drv: Seq<char>,
    closure: Seq<Seq<char>>,
    verified: Set<Seq<char>>,
    i: int,
) -> Option<Seq<char>>
    decreases closure.len() - i,
{
    if i < 0 || i >= closure.len() {
        None
    } else if closure[i] != drv && verified.contains(closure[i]) {
        Some(closure[i])
    } else {
        culprit_from(drv, closure, verified, i + 1)
    }
}

/// The outputs of the culprit of a block, if there is one.
fn find_culprit(
    drv: &str,
    closure: &[String],
    verified: &StringMap<Vec<String>>,
) -> (r: Option<Vec<String>>)
    requires
        verified.wf(),
    ensures
        match (r, culprit_from(drv@, text::texts(closure@), verified@.dom(), 0)) {
            (Some(b), Some(c)) => verified@.contains_key(c) && text::texts(b@) == text::texts(
                verified@[c]@,
            ),
            (None, None) => true,
            _ => false,
        },
{
    let ghost all = text::texts(closure@);
    let mut i: usize = 0;
    while i < closure.len()
        invariant
            i <= closure@.len(),
            all == text::texts(closure@),
            verified.wf(),
            culprit_from(drv@, all, verified@.dom(), 0) == culprit_from(
                drv@,
                all,
                verified@.dom(),
                i as int,
            ),
        decreases closure@.len() - i,
    {
        assert(all[i as int] == closure@[i as int]@);
        if !text::same(closure[i].as_str(), drv) {
            if let Some(outs) = verified.get(closure[i].as_str()) {
                return Some(text::copy_all(outs.as_slice()));
            }
        }
        i = i + 1;
    }
    assert(all.len() == closure@.len());
    None
}

/// The propagation of failures to the targets that are to be built: a target
/// with a failing dependency would not get to run, so it is taken out, and the
/// block is recorded with the outputs of its culprit.
pub struct Propagation {
    /// The targets that were to be built.
    pub to_build: Vec<usize>,
    /// The derivations that still fail, with their outputs.
    pub verified: StringMap<Vec<String>>,
    /// How many targets were looked at.
    pub at: usize,
    /// The targets that are still to be built.
    pub still: Vec<usize>,
    /// The derivations whose block was recorded.
    pub blocked: StringSet,
}

impl Propagation {
    /// The targets are those of a run, and the lists are in order.
    pub open spec fn wf(self, run: Run) -> bool {
        &&& self.verified.wf()
        &&& self.blocked.wf()
        &&& self.at <= self.to_build@.len()
        &&& forall|k: int|
            0 <= k < self.to_build@.len() ==> #[trigger] self.to_build@[k] < run.targets@.len()
        &&& forall|k: int|
            0 <= k < self.still@.len() ==> #[trigger] self.still@[k] < run.targets@.len()
    }

    /// Begins with the targets to build and what still fails in their closure.
    pub fn begin(run: &Run, to_build: Vec<usize>, verified: StringMap<Vec<String>>) -> (r:
        Propagation)
        requires
            verified.wf(),
            forall|k: int| 0 <= k < to_build@.len() ==> #[trigger] to_build@[k] < run.targets@.len(),
        ensures
            r.wf(*run),
            r.to_build == to_build,
            r.verified == verified,
            r.at == 0,
            r.still@ == Seq::<usize>::empty(),
            r.blocked@ == Set::<Seq<char>>::empty(),
    {
        Propagation { to_build, verified, at: 0, still: Vec::new(), blocked: StringSet::new() }
    }

    /// The next target whose closure is needed. There is none where nothing
    /// fails, or when all were looked at.
    pub fn next(&self, run: &Run) -> (r: Option<String>)
        requires
            self.wf(*run),
        ensures
            match r {
                Some(d) => self.at < self.to_build@.len() && self.verified.keys().len() > 0 && d@
                    == run.drvs()[self.to_build@[self.at as int] as int],
                None => self.at == self.to_build@.len() || self.verified.keys().len() == 0,
            },
    {
        if self.verified.len() == 0 || self.at >= self.to_build.len() {
            return None;
        }
        let i = self.to_build[self.at];
        assert(run.drvs()[i as int] == run.targets@[i as int].drv_path@);
        Some(run.targets[i].drv_path.clone())
    }

    /// Looks at the next target, given its closure: it is still to be built, or
    /// its block is recorded, once for each derivation.
    pub fn blame(&mut self, run: &Run, store: &mut Store, closure: &[String])
        requires
            old(self).wf(*run),
            old(self).at < old(self).to_build@.len(),
            old(store).wf(),
        ensures
            final(self).wf(*run),
            final(self).to_build == old(self).to_build,
            final(self).verified == old(self).verified,
            final(self).at == old(self).at + 1,
            final(store).wf(),
            final(store).caches_as(*old(store)),
            ({
                let i = old(self).to_build@[old(self).at as int];
                let drv = run.drvs()[i as int];
                match culprit_from(
                    drv,
                    text::texts(closure@),
                    old(self).verified@.dom(),
                    0,
                ) {
                    None => {
                        &&& final(self).still@ == old(self).still@.push(i)
                        &&& final(self).blocked == old(self).blocked
                        &&& final(store).log() == old(store).log()
                    },
                    Some(c) => {
                        &&& final(self).still == old(self).still
                        &&& final(self).blocked@ == old(self).blocked@.insert(drv)
                        &&& final(store).log() == (if old(self).blocked@.contains(drv) {
                            old(store).log()
                        } else {
                            old(store).log().push(
                                store::encoded(
                                    dep_failed(drv, text::texts(old(self).verified@[c]@)),
                                ),
                            )
                        })
                    },
                }
            }),
    {
        let n: usize = self.to_build.len();
        assert(self.at < n);
        let i = self.to_build[self.at];
        assert(run.drvs()[i as int] == run.targets@[i as int].drv_path@);
        let drv = run.targets[i].drv_path.as_str();
        match find_culprit(drv, closure, &self.verified) {
            None => self.still.push(i),
            Some(blocker) => {
                let new = self.blocked.insert(run.targets[i].drv_path.clone());
                if new {
                    add_fact(store, drv, Outcome::DepFailed, blocker);
                }
            },
        }
        self.at = self.at + 1;
    }

    /// The targets to build in the end: all of them where nothing fails.
    pub fn finish(self, run: &Run) -> (r: Vec<usize>)
        requires
            self.wf(*run),
            self.at == self.to_build@.len() || self.verified.keys().len() == 0,
        ensures
            r == if self.verified.keys().len() == 0 {
                self.to_build
            } else {
                self.still
            },
            forall|k: int| 0 <= k < r@.len() ==> #[trigger] r@[k] < run.targets@.len(),
    {
        if self.verified.len() == 0 {
            self.to_build
        } else {
            self.still
        }
    }
}

impl Run {
    /// The derivations of some of the targets.
    pub fn drvs_at(&self, at: &[usize]) -> (r: Vec<String>)
        requires
            forall|k: int| 0 <= k < at@.len() ==> #[trigger] at@[k] < self.targets@.len(),
        ensures
            text::texts(r@) == picked(self.drvs(), at@),
    {
        let ghost all = picked(self.drvs(), at@);
        let mut r: Vec<String> = Vec::new();
        let mut i: usize = 0;
        assert(text::texts(r@) =~= all.take(0));
        while i < at.len()
            invariant
                i <= at@.len(),
                all == picked(self.drvs(), at@),
                forall|k: int| 0 <= k < at@.len() ==> #[trigger] at@[k] < self.targets@.len(),
                text::texts(r@) == all.take(i as int),
            decreases at@.len() - i,
        {
            let d = self.targets[at[i]].drv_path.clone();
            proof {
                text::lemma_texts_push(r@, d);
                assert(all[i as int] == d@);
                assert(all.take(i + 1) =~= all.take(i as int).push(all[i as int]));
            }
            r.push(d);
            i = i + 1;
        }
        assert(all.take(i as int) =~= all);
        r
    }
}

// --- the batch ---------------------------------------------------------------

/// The batch of builds: the derivations that were asked for, and those whose
/// outcome was recorded.
pub struct Batch {
    pub drvs: Vec<String>,
    pub requested: StringSet,
    pub recorded: StringSet,
}

/// What is recorded when the build of a derivation stops: the outcome of one
/// that was asked for; of any other, only a failure. A failure comes with the
/// outputs of the derivation.
pub open spec fn stop_fact(
    requested: bool,
    drv: Seq<char>,
    built: bool,
    outs: Seq<Seq<char>>,
) -> Option<Fact> {
    if built {
        if requested {
            Some(store::built(drv))
        } else {
            None
        }
    } else {
        Some(failed(drv, outs))
    }
}

impl Batch {
    /// The sets are in order.
    pub open spec fn wf(self) -> bool {
        &&& self.requested.wf()
        &&& self.recorded.wf()
        &&& self.requested@ == text::texts(self.drvs@).to_set()
    }

    /// A batch of some derivations.
    pub fn begin(drvs: Vec<String>) -> (r: Batch)
        ensures
            r.wf(),
            r.drvs == drvs,
            r.recorded@ == Set::<Seq<char>>::empty(),
    {
        let requested = ordered::set_of(drvs.as_slice());
        Batch { drvs, requested, recorded: StringSet::new() }
    }

    /// Whether anything is built at all.
    pub fn ran(&self) -> (r: bool)
        ensures
            r == (self.drvs@.len() > 0),
    {
        self.drvs.len() > 0
    }

    /// Records that the build of a derivation stopped: whether its outputs are
    /// valid, and which they are.
    pub fn finished(&mut self, store: &mut Store, drv: &str, built: bool, outs: Vec<String>)
        requires
            old(self).wf(),
            old(store).wf(),
        ensures
            final(self).wf(),
            final(self).drvs == old(self).drvs,
            final(self).requested == old(self).requested,
            final(self).recorded@ == (if old(self).requested@.contains(drv@) {
                old(self).recorded@.insert(drv@)
            } else {
                old(self).recorded@
            }),
            final(store).wf(),
            final(store).caches_as(*old(store)),
            final(store).log() == (match stop_fact(
                old(self).requested@.contains(drv@),
                drv@,
                built,
                text::texts(outs@),
            ) {
                Some(f) => old(store).log().push(store::encoded(f)),
                None => old(store).log(),
            }),
    {
        if self.requested.contains(drv) {
            if built {
                let none: Vec<String> = Vec::new();
                assert(text::texts(none@) =~= Seq::<Seq<char>>::empty());
                add_fact(store, drv, Outcome::Built, none);
            } else {
                add_fact(store, drv, Outcome::Failed, outs);
            }
            self.recorded.insert(drv.to_owned());
        } else if !built {
            add_fact(store, drv, Outcome::Failed, outs);
        }
    }

    /// The derivations that were asked for and whose build never stopped: they
    /// were blocked, or valid already.
    pub fn leftover(&self) -> (r: StringSet)
        requires
            self.wf(),
        ensures
            r.wf(),
            r@ == self.requested@.difference(self.recorded@),
    {
        let ghost members = self.requested.members();
        let n = self.requested.len();
        let mut r = StringSet::new();
        let mut i: usize = 0;
        assert(r@ =~= members.take(0).to_set().difference(self.recorded@));
        while i < n
            invariant
                i <= n,
                n == members.len(),
                members == self.requested.members(),
                self.wf(),
                r.wf(),
                r@ == members.take(i as int).to_set().difference(self.recorded@),
            decreases n - i,
        {
            let d = self.requested.at(i);
            if !self.recorded.contains(d.as_str()) {
                r.insert(d.clone());
            }
            proof {
                let next = members.take(i + 1).to_set().difference(self.recorded@);
                assert forall|x: Seq<char>| #[trigger] next.contains(x) == r@.contains(x) by {
                    lemma_contains_push(members, i as int, x);
                }
                assert(r@ =~= next);
            }
            i = i + 1;
        }
        assert(members.take(i as int) =~= members);
        r
    }
}

/// What is recorded of a derivation whose build never stopped: a success where
/// its outputs are valid; a block where a dependency still fails; else nothing,
/// since a failure that was not observed is none.
pub open spec fn leftover_fact(
    drv: Seq<char>,
    built: bool,
    verified: StringMap<Vec<String>>,
) -> Option<Fact> {
    if built {
        Some(store::built(drv))
    } else if verified.keys().len() > 0 {
        Some(dep_failed(drv, text::texts(verified.values()[0]@)))
    } else {
        None
    }
}

/// Records what is known of a derivation whose build never stopped, from
/// whether its outputs are valid, and from which of its dependencies still
/// fail.
pub fn attribute(store: &mut Store, drv: &str, built: bool, verified: &StringMap<Vec<String>>)
    requires
        old(store).wf(),
        verified.wf(),
    ensures
        final(store).wf(),
        final(store).caches_as(*old(store)),
        final(store).log() == (match leftover_fact(drv@, built, *verified) {
            Some(f) => old(store).log().push(store::encoded(f)),
            None => old(store).log(),
        }),
{
    if built {
        let none: Vec<String> = Vec::new();
        assert(text::texts(none@) =~= Seq::<Seq<char>>::empty());
        add_fact(store, drv, Outcome::Built, none);
    } else if verified.len() > 0 {
        let blocker = text::copy_all(verified.value_at(0).as_slice());
        add_fact(store, drv, Outcome::DepFailed, blocker);
    }
}

// --- the build log -----------------------------------------------------------

/// The kind of activity that is the build of a derivation.
pub const ACT_BUILD: i64 = 105;

/// The width of the column of verbs in the plain log.
pub const VERB_W: usize = 8;

/// An event of the build log: what happened, to which activity, of what kind,
/// and the first field where that is a text.
pub struct NixEvent {
    pub action: String,
    pub id: Option<u64>,
    pub typ: Option<i64>,
    pub field: Option<String>,
}

/// What an event means for the builds.
#[derive(Debug, PartialEq, Eq)]
pub enum Activity {
    /// Nothing.
    Other,
    /// The build of a derivation started.
    Started(String),
    /// The build of a derivation stopped.
    Stopped(String),
}

/// The builds that are running, by the numbers of their activities.
pub struct Builds {
    starts: HashMap<u64, String>,
}

/// What follows the mark of an event in a line of the log.
pub open spec fn event_text(line: Seq<char>) -> Option<Seq<char>> {
    if text::begins(line, "@nix "@) {
        Some(line.skip("@nix "@.len() as int))
    } else {
        None
    }
}

/// What follows the mark of an event in a line of the log.
pub fn event_of(line: &str) -> (r: Option<String>)
    ensures
        text::opt(r) == event_text(line@),
{
    let v = text::chars_of(line);
    let mark = text::chars_of("@nix ");
    assert(v@.skip(0) =~= v@);
    if !text::stands_at(v.as_slice(), mark.as_slice(), 0) {
        return None;
    }
    let s = text::string_between(v.as_slice(), mark.len(), v.len());
    assert(s@ =~= line@.skip(mark@.len() as int));
    Some(s)
}

impl Builds {
    /// The derivation of each running build.
    pub closed spec fn view(self) -> Map<u64, Seq<char>> {
        self.starts@.map_values(|s: String| s@)
    }

    /// No build is running.
    pub fn new() -> (r: Builds)
        ensures
            r@ == Map::<u64, Seq<char>>::empty(),
    {
        broadcast use vstd::std_specs::hash::group_hash_axioms;

        let r = Builds { starts: HashMap::new() };
        assert(r@ =~= Map::<u64, Seq<char>>::empty());
        r
    }

    /// Takes an event in. A build starts with its derivation; it stops by the
    /// number that it started with.
    pub fn event(&mut self, ev: &NixEvent) -> (r: Activity)
        ensures
            if ev.action@ == "start"@ && ev.typ == Some(ACT_BUILD) && ev.id is Some && ev.field
                is Some {
                &&& r is Started
                &&& r->Started_0@ == ev.field->0@
                &&& final(self)@ == old(self)@.insert(ev.id->0, ev.field->0@)
            } else if ev.action@ == "stop"@ && ev.id is Some && old(self)@.contains_key(ev.id->0) {
                &&& r is Stopped
                &&& r->Stopped_0@ == old(self)@[ev.id->0]
                &&& final(self)@ == old(self)@.remove(ev.id->0)
            } else {
                &&& r is Other
                &&& final(self)@ == old(self)@
            },
    {
        broadcast use vstd::std_specs::hash::group_hash_axioms;

        let ghost was = self@;
        proof {
            reveal_strlit("start");
            reveal_strlit("stop");
            assert("start"@.len() != "stop"@.len());
        }
        if text::same(ev.action.as_str(), "start") {
            let build = match ev.typ {
                Some(t) => t == ACT_BUILD,
                None => false,
            };
            if build {
                if let Some(id) = ev.id {
                    if let Some(drv) = &ev.field {
                        self.starts.insert(id, drv.clone());
                        assert(self@ =~= was.insert(id, drv@));
                        return Activity::Started(drv.clone());
                    }
                }
            }
            return Activity::Other;
        }
        if text::same(ev.action.as_str(), "stop") {
            if let Some(id) = ev.id {
                if let Some(drv) = self.starts.remove(&id) {
                    assert(self@ =~= was.remove(id));
                    return Activity::Stopped(drv);
                }
                assert(self@ =~= was);
            }
        }
        Activity::Other
    }
}

/// A line of the plain log: a verb, and the derivation in a column of its own.
pub fn verb_line(verb: &str, drv: &str) -> (r: String)
    ensures
        r@ == text::left_aligned(verb@, VERB_W as nat) + "  "@ + drv@,
{
    let mut s = text::align_left(verb, VERB_W as u128);
    s.append("  ");
    s.append(drv);
    s
}

/// The line of the plain log for a build that stopped.
pub fn stop_line(built: bool, drv: &str) -> (r: String)
    ensures
        r@ == text::left_aligned(
            if built {
                "built"@
            } else {
                "failed"@
            },
            VERB_W as nat,
        ) + "  "@ + drv@,
{
    if built {
        verb_line("built", drv)
    } else {
        verb_line("failed", drv)
    }
}

/// The options of a batch of builds: all is attempted, nothing is linked, and
/// the log is one of events.
pub open spec fn batch_options() -> Seq<Seq<char>> {
    seq![
        "--keep-going"@,
        "--no-link"@,
        "--log-format"@,
        "internal-json"@,
        "-v"@,
        "--extra-experimental-features"@,
        "nix-command"@,
    ]
}

/// The arguments with which nix builds all outputs of some derivations.
pub open spec fn batch_command(drvs: Seq<Seq<char>>) -> Seq<Seq<char>> {
    seq!["build"@] + drvs.map_values(|d: Seq<char>| d + "^*"@) + batch_options()
}

/// The arguments with which nix builds all outputs of some derivations.
pub fn batch_args(drvs: &[String]) -> (r: Vec<String>)
    ensures
        text::texts(r@) == batch_command(text::texts(drvs@)),
{
    let ghost all = text::texts(drvs@);
    let ghost want = all.map_values(|d: Seq<char>| d + "^*"@);
    let mut r: Vec<String> = Vec::new();
    r.push("build".to_owned());
    let mut i: usize = 0;
    assert(text::texts(r@) =~= seq!["build"@] + want.take(0));
    while i < drvs.len()
        invariant
            i <= drvs@.len(),
            all == text::texts(drvs@),
            want == all.map_values(|d: Seq<char>| d + "^*"@),
            text::texts(r@) == seq!["build"@] + want.take(i as int),
        decreases drvs@.len() - i,
    {
        let mut s = drvs[i].clone();
        s.append("^*");
        proof {
            text::lemma_texts_push(r@, s);
            assert(all[i as int] == drvs@[i as int]@);
            assert((seq!["build"@] + want.take(i as int)).push(want[i as int]) =~= seq!["build"@]
                + want.take(i + 1));
        }
        r.push(s);
        i = i + 1;
    }
    assert(want.take(i as int) =~= want);
    let ghost front = text::texts(r@);
    r.push("--keep-going".to_owned());
    r.push("--no-link".to_owned());
    r.push("--log-format".to_owned());
    r.push("internal-json".to_owned());
    r.push("-v".to_owned());
    r.push("--extra-experimental-features".to_owned());
    r.push("nix-command".to_owned());
    assert(text::texts(r@) =~= front + batch_options());
    r
}

// --- the probe in the tree ---------------------------------------------------

/// A probe that is prepared: the derivations to ask about, and its node.
pub struct Probe {
    pub to_probe: Vec<String>,
    pub node: usize,
}

/// Whether one node of a tree changed, and nothing else.
pub open spec fn only_node(before: Tree, after: Tree, id: int, n: live::NodeData) -> bool {
    &&& after.wf()
    &&& after.nodes() == before.nodes().update(id, n)
    &&& after.order() == before.order()
    &&& after.set_as(before)
}

/// Shows the probe in the tree, with its total, before it runs. A set of
/// targets that are all known has no probe and no node.
pub fn probe_prepare(store: &Store, targets: &[Target], tree: &mut Tree) -> (r: Result<
    Option<Probe>,
    StoreError,
>)
    requires
        old(tree).wf(),
    ensures
        final(tree).wf(),
        match r {
            Ok(Some(p)) => {
                &&& readable(store.log(), target_drvs(targets@))
                &&& p.to_probe@.len() > 0
                &&& text::texts(p.to_probe@) == unknown_drvs(
                    target_drvs(targets@),
                    store.log(),
                    targets@.len() as int,
                )
                &&& p.node == old(tree).nodes().len()
                &&& final(tree).nodes() == old(tree).nodes().push(
                    live::fresh("probe"@, 0, true, false, p.to_probe@.len() as i64, 0),
                )
                &&& final(tree).order() == old(tree).order().push(p.node as int)
                &&& final(tree).set_as(*old(tree))
            },
            Ok(None) => readable(store.log(), target_drvs(targets@)) && unknown_drvs(
                target_drvs(targets@),
                store.log(),
                targets@.len() as int,
            ).len() == 0 && *final(tree) == *old(tree),
            Err(StoreError::UnknownOutcome(c)) => store::first_unknown(
                store.log(),
                store::stored_all(target_drvs(targets@)),
                store.log().len() as int,
            ) == Some(c) && *final(tree) == *old(tree),
        },
{
    let to_probe = match probe_candidates(store, targets) {
        Ok(v) => v,
        Err(e) => return Err(e),
    };
    assert(text::texts(to_probe@).len() == to_probe@.len());
    if to_probe.len() == 0 {
        return Ok(None);
    }
    let node = tree.counter("probe", 0, to_probe.len() as i64);
    Ok(Some(Probe { to_probe, node }))
}

impl Probe {
    /// The probe runs.
    pub fn start(&self, tree: &mut Tree)
        requires
            old(tree).wf(),
            self.node < old(tree).nodes().len(),
        ensures
            only_node(
                *old(tree),
                *final(tree),
                self.node as int,
                old(tree).nodes()[self.node as int].running(),
            ),
    {
        let n = tree.node_mut(self.node);
        n.set_running();
    }

    /// A batch of verdicts landed: all are counted, and the hits are recorded.
    pub fn landed(&self, tree: &mut Tree, store: &mut Store, batch: &[(String, bool)])
        requires
            old(tree).wf(),
            old(store).wf(),
            self.node < old(tree).nodes().len(),
        ensures
            ({
                let n = old(tree).nodes()[self.node as int];
                only_node(
                    *old(tree),
                    *final(tree),
                    self.node as int,
                    (live::NodeData { count: n.count.wrapping_add(batch@.len() as i64), ..n }),
                )
            }),
            final(store).wf(),
            final(store).log() == old(store).log() + hits_of(batch@).map_values(
                |d: Seq<char>| store::encoded(store::built(d)),
            ),
            final(store).caches_as(*old(store)),
    {
        let n = tree.node_mut(self.node);
        n.add_count(batch.len() as i64);
        record_hit_batch(store, batch);
    }

    /// The probe is done.
    pub fn finish(&self, tree: &mut Tree)
        requires
            old(tree).wf(),
            self.node < old(tree).nodes().len(),
        ensures
            only_node(
                *old(tree),
                *final(tree),
                self.node as int,
                old(tree).nodes()[self.node as int].done(),
            ),
    {
        let n = tree.node_mut(self.node);
        n.set_done();
    }
}

// --- laws --------------------------------------------------------------------

proof fn lemma_build_set(
    retry: bool,
    drvs: Seq<Seq<char>>,
    m: Map<Seq<char>, Vec<Observation>>,
    invalid: Set<Seq<char>>,
    n: int,
)
    requires
        0 <= n <= drvs.len() <= usize::MAX,
    ensures
        forall|i: usize| #[trigger]
            build_set(retry, drvs, m, invalid, n).contains(i) <==> i < n && model::decision(
                retry,
                known(m, drvs[i as int]),
                block_is_stale(known(m, drvs[i as int]), invalid),
            ) == Decision::Build,
    decreases n,
{
    if n > 0 {
        lemma_build_set(retry, drvs, m, invalid, n - 1);
        let before = build_set(retry, drvs, m, invalid, n - 1);
        let now = build_set(retry, drvs, m, invalid, n);
        let last = (n - 1) as usize;
        assert forall|i: usize| #[trigger] now.contains(i) <==> i < n && model::decision(
            retry,
            known(m, drvs[i as int]),
            block_is_stale(known(m, drvs[i as int]), invalid),
        ) == Decision::Build by {
            if before.contains(i) {
                let k = choose|k: int| 0 <= k < before.len() && before[k] == i;
                assert(now[k] == i);
            }
            if now.len() > before.len() {
                assert(now[before.len() as int] == last);
            }
            if now.contains(i) && i != last {
                let k = choose|k: int| 0 <= k < now.len() && now[k] == i;
                assert(before[k] == i);
            }
        }
    }
}

/// Recipes are needed for exactly the targets that will be built, and for the
/// failures that can only be re-checked with them.
pub proof fn law_recipes_are_for_what_is_built(
    retry: bool,
    drvs: Seq<Seq<char>>,
    m: Map<Seq<char>, Vec<Observation>>,
    invalid: Set<Seq<char>>,
    i: usize,
)
    requires
        i < drvs.len() <= usize::MAX,
    ensures
        build_set(retry, drvs, m, invalid, drvs.len() as int).contains(i) ==> recipes_needed(
            retry,
            drvs,
            m,
            invalid,
        ).contains(drvs[i as int]),
        recipes_needed(retry, drvs, m, invalid).contains(drvs[i as int]) ==> build_set(
            retry,
            drvs,
            m,
            invalid,
            drvs.len() as int,
        ).contains(i) || lacks_outputs(known(m, drvs[i as int])),
{
    lemma_build_set(retry, drvs, m, invalid, drvs.len() as int);
    assert(drvs.contains(drvs[i as int]));
}

/// Targets that were built are not built again; nor are, unless they are to be
/// tried again, those that failed.
pub proof fn law_known_targets_are_not_built_again(
    retry: bool,
    drvs: Seq<Seq<char>>,
    m: Map<Seq<char>, Vec<Observation>>,
    invalid: Set<Seq<char>>,
)
    requires
        drvs.len() <= usize::MAX,
        forall|i: int|
            0 <= i < drvs.len() ==> model::seen(known(m, #[trigger] drvs[i]), Outcome::Built) || (
            !retry && model::seen(known(m, drvs[i]), Outcome::Failed)),
    ensures
        build_set(retry, drvs, m, invalid, drvs.len() as int).len() == 0,
{
    lemma_build_set(retry, drvs, m, invalid, drvs.len() as int);
    let b = build_set(retry, drvs, m, invalid, drvs.len() as int);
    if b.len() > 0 {
        assert(b.contains(b[0]));
        assert(model::seen(known(m, drvs[b[0] as int]), Outcome::Built) || (!retry && model::seen(
            known(m, drvs[b[0] as int]),
            Outcome::Failed,
        )));
    }
}

proof fn lemma_seen_push(h: Seq<Fact>, f: Fact, o: Outcome)
    ensures
        model::seen(h.push(f), o) == (model::seen(h, o) || f.outcome == o),
{
    let g = h.push(f);
    if model::seen(h, o) {
        let i = choose|i: int| 0 <= i < h.len() && (#[trigger] h[i]).outcome == o;
        assert(g[i].outcome == o);
    }
    if f.outcome == o {
        assert(g[h.len() as int].outcome == o);
    }
    if model::seen(g, o) && f.outcome != o {
        let i = choose|i: int| 0 <= i < g.len() && (#[trigger] g[i]).outcome == o;
        assert(h[i].outcome == o);
    }
}

/// A failure heals exactly when all outputs by which it is decided are valid,
/// and is a success from then on.
pub proof fn law_healed_failures_are_successes(
    history: Seq<Fact>,
    resolved: Seq<Seq<char>>,
    invalid: Set<Seq<char>>,
    drv: Seq<char>,
    retry: bool,
    stale: bool,
)
    requires
        heals(history, resolved, invalid),
    ensures
        model::seen(history, Outcome::Failed),
        !model::seen(history, Outcome::Built),
        match recheckable(history, resolved) {
            Some((outs, _)) => outs.len() > 0 && all_valid(outs, invalid),
            None => false,
        },
        model::decision(retry, history.push(store::built(drv)), stale) == Decision::SkipOk,
{
    lemma_seen_push(history, store::built(drv), Outcome::Built);
    lemma_blocker_nonempty(history, Outcome::Failed);
}

proof fn lemma_blocker_nonempty(history: Seq<Fact>, outcome: Outcome)
    ensures
        last_blocker(history, outcome) is Some ==> last_blocker(history, outcome)->0.len() > 0,
    decreases history.len(),
{
    if history.len() > 0 {
        lemma_blocker_nonempty(history.drop_last(), outcome);
    }
}

/// A failure that recorded outputs needs neither its recipe nor its outputs
/// again.
pub proof fn law_recorded_outputs_need_no_recipe(
    history: Seq<Fact>,
    drv: Seq<char>,
    outs: Seq<Seq<char>>,
)
    requires
        outs.len() > 0,
    ensures
        !lacks_outputs(history.push(failed(drv, outs))),
        !must_resolve(history.push(failed(drv, outs))),
{
    assert(history.push(failed(drv, outs)).last() == failed(drv, outs));
}

/// A block of a target that has no outcome of its own holds exactly until the
/// outputs of its culprit are valid; the target is built then.
pub proof fn law_block_holds_until_its_culprit_heals(
    history: Seq<Fact>,
    drv: Seq<char>,
    blocker: Seq<Seq<char>>,
    invalid: Set<Seq<char>>,
)
    requires
        !model::seen(history, Outcome::Built),
        !model::seen(history, Outcome::Failed),
        blocker.len() > 0,
    ensures
        ({
            let h = history.push(dep_failed(drv, blocker));
            model::decision(false, h, block_is_stale(h, invalid)) == (if all_valid(
                blocker,
                invalid,
            ) {
                Decision::Build
            } else {
                Decision::SkipFail
            })
        }),
{
    let f = dep_failed(drv, blocker);
    lemma_seen_push(history, f, Outcome::Built);
    lemma_seen_push(history, f, Outcome::Failed);
    lemma_seen_push(history, f, Outcome::DepFailed);
    assert(history.push(f).last() == f);
}

/// A target never blocks itself: its culprit is another derivation of its
/// closure, and one that still fails.
pub proof fn law_no_target_blocks_itself(
    drv: Seq<char>,
    closure: Seq<Seq<char>>,
    verified: Set<Seq<char>>,
    failing: Set<Seq<char>>,
)
    ensures
        match culprit_from(drv, closure, verified, 0) {
            Some(c) => c != drv && closure.contains(c) && verified.contains(c),
            None => forall|i: int|
                0 <= i < closure.len() && #[trigger] closure[i] != drv ==> !verified.contains(
                    closure[i],
                ),
        },
        !suspects_in(closure, failing, Some(drv)).contains(drv),
{
    lemma_culprit(drv, closure, verified, 0);
}

proof fn lemma_culprit(drv: Seq<char>, closure: Seq<Seq<char>>, verified: Set<Seq<char>>, i: int)
    requires
        0 <= i <= closure.len(),
    ensures
        match culprit_from(drv, closure, verified, i) {
            Some(c) => c != drv && closure.contains(c) && verified.contains(c),
            None => forall|k: int|
                i <= k < closure.len() && #[trigger] closure[k] != drv ==> !verified.contains(
                    closure[k],
                ),
        },
    decreases closure.len() - i,
{
    if i < closure.len() {
        assert(closure.contains(closure[i]));
        lemma_culprit(drv, closure, verified, i + 1);
    }
}

/// A dependency whose outputs are valid blocks nothing, whatever the log says.
pub proof fn law_healed_dependencies_block_nothing(
    drv: Seq<char>,
    closure: Seq<Seq<char>>,
    candidates: Set<Seq<char>>,
    outputs: Map<Seq<char>, Vec<String>>,
    invalid: Set<Seq<char>>,
    dep: Seq<char>,
)
    requires
        outputs_valid(resolved_outputs(outputs, dep), invalid),
    ensures
        culprit_from(drv, closure, still_failing(candidates, outputs, invalid).dom(), 0) != Some(
            dep,
        ),
{
    lemma_culprit(drv, closure, still_failing(candidates, outputs, invalid).dom(), 0);
}

/// No failure is recorded that was not observed: a direct failure only of a
/// build that stopped without valid outputs; a success only of valid outputs;
/// a block only where a dependency still fails.
pub proof fn law_only_observed_outcomes_are_recorded(
    requested: bool,
    drv: Seq<char>,
    built: bool,
    outs: Seq<Seq<char>>,
    verified: StringMap<Vec<String>>,
)
    ensures
        match stop_fact(requested, drv, built, outs) {
            Some(f) => f.drv == drv && f.outcome == (if built {
                Outcome::Built
            } else {
                Outcome::Failed
            }),
            None => built && !requested,
        },
        match leftover_fact(drv, built, verified) {
            Some(f) => f.drv == drv && f.outcome != Outcome::Failed && (f.outcome == Outcome::Built
                <==> built) && (f.outcome == Outcome::DepFailed ==> verified.keys().len() > 0),
            None => !built && verified.keys().len() == 0,
        },
{
}

proof fn lemma_known_once_told(log: Seq<store::LogData>, stored: Seq<char>, i: int, n: int)
    requires
        0 <= i < n <= log.len(),
        log[i].drv == stored,
        store::decoded(log[i]) is Some,
    ensures
        store::history(log, stored, n).len() > 0,
    decreases n,
{
    if i < n - 1 {
        lemma_known_once_told(log, stored, i, n - 1);
    }
}

proof fn lemma_unknown_drvs(drvs: Seq<Seq<char>>, log: Seq<store::LogData>, n: int)
    requires
        0 <= n <= drvs.len(),
    ensures
        forall|d: Seq<char>| #[trigger]
            unknown_drvs(drvs, log, n).contains(d) ==> store::facts_about(log, d).len() == 0,
        forall|i: int|
            0 <= i < n && store::facts_about(log, #[trigger] drvs[i]).len() == 0 ==> unknown_drvs(
                drvs,
                log,
                n,
            ).contains(drvs[i]),
        unknown_drvs(drvs, log, n).no_duplicates(),
    decreases n,
{
    if n > 0 {
        lemma_unknown_drvs(drvs, log, n - 1);
        let before = unknown_drvs(drvs, log, n - 1);
        let now = unknown_drvs(drvs, log, n);
        assert forall|d: Seq<char>| #[trigger] now.contains(d) implies store::facts_about(
            log,
            d,
        ).len() == 0 by {
            if !before.contains(d) {
                assert(d == drvs[n - 1]);
            }
        }
        assert forall|i: int|
            0 <= i < n && store::facts_about(log, #[trigger] drvs[i]).len() == 0 implies now.contains(
            drvs[i],
        ) by {
            if before.contains(drvs[i]) {
                let k = choose|k: int| 0 <= k < before.len() && before[k] == drvs[i];
                assert(now[k] == drvs[i]);
            } else {
                assert(now[before.len() as int] == drvs[i]);
            }
        }
    }
}

/// The probe asks about exactly the targets of which nothing is known, about
/// each once.
pub proof fn law_probe_asks_for_the_unknown(
    drvs: Seq<Seq<char>>,
    log: Seq<store::LogData>,
    i: int,
)
    requires
        0 <= i < drvs.len(),
    ensures
        unknown_drvs(drvs, log, drvs.len() as int).contains(drvs[i]) <==> store::facts_about(
            log,
            drvs[i],
        ).len() == 0,
        unknown_drvs(drvs, log, drvs.len() as int).no_duplicates(),
{
    lemma_unknown_drvs(drvs, log, drvs.len() as int);
}

proof fn lemma_hit_row(batch: Seq<(String, bool)>, drv: Seq<char>)
    requires
        hits_of(batch).contains(drv),
    ensures
        hits_of(batch).map_values(|d: Seq<char>| store::encoded(store::built(d))).contains(
            store::encoded(store::built(drv)),
        ),
{
    let hits = hits_of(batch);
    let k = choose|k: int| 0 <= k < hits.len() && hits[k] == drv;
    assert(hits.map_values(|d: Seq<char>| store::encoded(store::built(d)))[k] == store::encoded(
        store::built(drv),
    ));
}

/// A hit that was recorded is not asked about again, so that a run that was
/// cut short goes on where it was.
pub proof fn law_recorded_hits_are_not_probed_again(
    drvs: Seq<Seq<char>>,
    log: Seq<store::LogData>,
    batch: Seq<(String, bool)>,
    drv: Seq<char>,
)
    requires
        hits_of(batch).contains(drv),
        evalfile::store_drv(drv),
    ensures
        !unknown_drvs(
            drvs,
            log + hits_of(batch).map_values(|d: Seq<char>| store::encoded(store::built(d))),
            drvs.len() as int,
        ).contains(drv),
{
    let rows = hits_of(batch).map_values(|d: Seq<char>| store::encoded(store::built(d)));
    let after = log + rows;
    let row = store::encoded(store::built(drv));
    lemma_hit_row(batch, drv);
    let k = choose|k: int| 0 <= k < rows.len() && rows[k] == row;
    assert(after[log.len() + k] == row);
    store::law_facts_come_back(store::built(drv));
    evalfile::law_strip_then_restore(drv);
    lemma_known_once_told(
        after,
        evalfile::stripped(drv),
        log.len() + k,
        after.len() as int,
    );
    lemma_unknown_drvs(drvs, after, drvs.len() as int);
}

/// A suspect is whatever is in the closure, known as failing, and not the
/// derivation that is left out; so a target with a failing dependency other than
/// itself always has one.
pub proof fn law_failing_dependencies_are_suspects(
    closure: Seq<Seq<char>>,
    failing: Set<Seq<char>>,
    except: Seq<char>,
    d: Seq<char>,
)
    ensures
        suspects_in(closure, failing, Some(except)).contains(d) <==> closure.contains(d)
            && failing.contains(d) && d != except,
        suspects_in(closure, failing, None).contains(d) <==> closure.contains(d)
            && failing.contains(d),
        closure.contains(d) && failing.contains(d) && d != except ==> suspects_in(
            closure,
            failing,
            Some(except),
        ) != Set::<Seq<char>>::empty(),
{
}

/// Whether all outputs that are listed for a derivation are valid, and there are
/// some.
pub open spec fn listed_valid(
    outputs: Map<Seq<char>, Vec<String>>,
    d: Seq<char>,
    invalid: Set<Seq<char>>,
) -> bool {
    outputs.contains_key(d) && outputs[d]@.len() > 0 && forall|i: int|
        0 <= i < outputs[d]@.len() ==> !invalid.contains((#[trigger] outputs[d]@[i])@)
}

proof fn lemma_listed_valid(
    outputs: Map<Seq<char>, Vec<String>>,
    d: Seq<char>,
    invalid: Set<Seq<char>>,
)
    ensures
        outputs_valid(resolved_outputs(outputs, d), invalid) == listed_valid(outputs, d, invalid),
        outputs.contains_key(d) ==> resolved_outputs(outputs, d) == text::texts(outputs[d]@),
        !outputs.contains_key(d) ==> resolved_outputs(outputs, d).len() == 0,
{
    let outs = resolved_outputs(outputs, d);
    if outputs.contains_key(d) {
        assert(outs.len() == outputs[d]@.len());
        if outputs_valid(outs, invalid) {
            assert forall|i: int| 0 <= i < outputs[d]@.len() implies !invalid.contains(
                (#[trigger] outputs[d]@[i])@,
            ) by {
                assert(outs[i] == outputs[d]@[i]@);
            }
        }
        if listed_valid(outputs, d, invalid) {
            assert forall|i: int| 0 <= i < outs.len() implies !invalid.contains(#[trigger] outs[i]) by {
                assert(outs[i] == outputs[d]@[i]@);
            }
        }
    }
}

/// A build succeeded exactly where the derivation has outputs and all of them are
/// valid; whatever is said of a derivation, success or failure, is said by that.
pub proof fn law_validity_decides_success(
    drvs: Seq<Seq<char>>,
    candidates: Set<Seq<char>>,
    outputs: Map<Seq<char>, Vec<String>>,
    invalid: Set<Seq<char>>,
    d: Seq<char>,
)
    ensures
        outcomes_of(drvs, outputs, invalid).contains_key(d) <==> drvs.contains(d),
        drvs.contains(d) ==> outcomes_of(drvs, outputs, invalid)[d] == listed_valid(
            outputs,
            d,
            invalid,
        ),
        still_failing(candidates, outputs, invalid).contains_key(d) <==> candidates.contains(d)
            && !listed_valid(outputs, d, invalid),
        still_failing(candidates, outputs, invalid).contains_key(d) && outputs.contains_key(d)
            ==> still_failing(candidates, outputs, invalid)[d] == text::texts(outputs[d]@),
{
    lemma_listed_valid(outputs, d, invalid);
}

/// One invalid output makes a build a failure, and so does having no outputs.
pub proof fn law_one_invalid_output_is_a_failure(
    outs: Seq<Seq<char>>,
    invalid: Set<Seq<char>>,
    i: int,
)
    ensures
        0 <= i < outs.len() && invalid.contains(outs[i]) ==> !outputs_valid(outs, invalid)
            && still_fails(outs, invalid),
        outs.len() == 0 ==> !outputs_valid(outs, invalid) && still_fails(outs, invalid),
        outs.len() > 0 && (forall|k: int|
            0 <= k < outs.len() ==> !invalid.contains(#[trigger] outs[k])) ==> outputs_valid(
            outs,
            invalid,
        ) && !still_fails(outs, invalid),
{
}

/// A target that was left over is blocked where a dependency of its closure is
/// known as failing and still fails: it is looked at, found, and recorded with the
/// outputs of one that does.
pub proof fn law_leftovers_with_failing_dependencies_are_blocked(
    drv: Seq<char>,
    closure: Seq<Seq<char>>,
    failing: Set<Seq<char>>,
    outputs: Map<Seq<char>, Vec<String>>,
    invalid: Set<Seq<char>>,
    dep: Seq<char>,
    verified: StringMap<Vec<String>>,
)
    requires
        closure.contains(dep),
        failing.contains(dep),
        dep != drv,
        !listed_valid(outputs, dep, invalid),
        verified.wf(),
        text::lists(verified@) == still_failing(
            suspects_in(closure, failing, Some(drv)),
            outputs,
            invalid,
        ),
    ensures
        leftover_fact(drv, false, verified) is Some,
        leftover_fact(drv, false, verified)->0.outcome == Outcome::DepFailed,
        leftover_fact(drv, false, verified)->0.drv == drv,
        exists|c: Seq<char>|
            closure.contains(c) && #[trigger] failing.contains(c) && c != drv && !listed_valid(
                outputs,
                c,
                invalid,
            ) && (outputs.contains_key(c) ==> leftover_fact(drv, false, verified)->0.blocker
                == text::texts(outputs[c]@)),
{
    let suspects = suspects_in(closure, failing, Some(drv));
    let found = still_failing(suspects, outputs, invalid);
    law_failing_dependencies_are_suspects(closure, failing, drv, dep);
    law_validity_decides_success(Seq::empty(), suspects, outputs, invalid, dep);
    assert(found.contains_key(dep));
    assert(text::lists(verified@).contains_key(dep));
    assert(verified@.contains_key(dep));
    assert(verified.keys().contains(dep));
    verified.lemma_entries();
    assert(verified.keys().len() > 0);
    let c = verified.keys()[0];
    assert(verified@.contains_key(c) && verified@[c] == verified.values()[0]);
    assert(text::lists(verified@).contains_key(c));
    assert(found.contains_key(c));
    assert(text::lists(verified@)[c] == text::texts(verified.values()[0]@));
    law_validity_decides_success(Seq::empty(), suspects, outputs, invalid, c);
    law_failing_dependencies_are_suspects(closure, failing, drv, c);
    assert(failing.contains(c));
}

/// The culprit of a block is the first of the closure that still fails and is not
/// the target, and there is one wherever any does.
pub proof fn law_the_first_failing_dependency_is_the_culprit(
    drv: Seq<char>,
    closure: Seq<Seq<char>>,
    verified: Set<Seq<char>>,
    k: int,
)
    requires
        0 <= k < closure.len(),
        closure[k] != drv,
        verified.contains(closure[k]),
        forall|j: int|
            0 <= j < k ==> #[trigger] closure[j] == drv || !verified.contains(closure[j]),
    ensures
        culprit_from(drv, closure, verified, 0) == Some(closure[k]),
{
    lemma_first_culprit(drv, closure, verified, k, 0);
}

proof fn lemma_first_culprit(
    drv: Seq<char>,
    closure: Seq<Seq<char>>,
    verified: Set<Seq<char>>,
    k: int,
    i: int,
)
    requires
        0 <= i <= k < closure.len(),
        closure[k] != drv,
        verified.contains(closure[k]),
        forall|j: int|
            0 <= j < k ==> #[trigger] closure[j] == drv || !verified.contains(closure[j]),
    ensures
        culprit_from(drv, closure, verified, i) == Some(closure[k]),
    decreases k - i,
{
    if i < k {
        assert(closure[i] == drv || !verified.contains(closure[i]));
        lemma_first_culprit(drv, closure, verified, k, i + 1);
    }
}

/// The paths in force of an outcome are those of the latest fact with that outcome
/// that recorded any, however many others came since; without one there are none.
pub proof fn law_the_latest_recorded_paths_count(history: Seq<Fact>, outcome: Outcome, i: int)
    requires
        forall|j: int|
            i < j < history.len() && 0 <= j ==> !((#[trigger] history[j]).outcome == outcome
                && history[j].blocker.len() > 0),
    ensures
        0 <= i < history.len() && history[i].outcome == outcome && history[i].blocker.len() > 0
            ==> last_blocker(history, outcome) == Some(history[i].blocker),
        i < 0 ==> last_blocker(history, outcome) is None,
    decreases history.len(),
{
    if history.len() > 0 && i < history.len() - 1 {
        let h = history.drop_last();
        assert(history[history.len() - 1] == history.last());
        assert forall|j: int| i < j < h.len() && 0 <= j implies !((#[trigger] h[j]).outcome
            == outcome && h[j].blocker.len() > 0) by {
            assert(h[j] == history[j]);
        }
        law_the_latest_recorded_paths_count(h, outcome, i);
        if 0 <= i {
            assert(h[i] == history[i]);
        }
    }
}

/// A dependency block is stale exactly when every path that the latest block
/// recorded is valid; one that recorded none never is.
pub proof fn law_blocks_are_stale_once_their_paths_are_valid(
    history: Seq<Fact>,
    invalid: Set<Seq<char>>,
    i: int,
)
    requires
        forall|j: int|
            i < j < history.len() && 0 <= j ==> !((#[trigger] history[j]).outcome
                == Outcome::DepFailed && history[j].blocker.len() > 0),
    ensures
        0 <= i < history.len() && history[i].outcome == Outcome::DepFailed
            && history[i].blocker.len() > 0 ==> (block_is_stale(history, invalid) <==> forall|p: int|
            0 <= p < history[i].blocker.len() ==> !invalid.contains(
                #[trigger] history[i].blocker[p],
            )),
        i < 0 ==> !block_is_stale(history, invalid),
{
    law_the_latest_recorded_paths_count(history, Outcome::DepFailed, i);
}

proof fn lemma_block_paths(
    drvs: Seq<Seq<char>>,
    m: Map<Seq<char>, Vec<Observation>>,
    n: int,
    i: int,
    p: Seq<char>,
)
    requires
        0 <= i < n <= drvs.len(),
        last_blocker(known(m, drvs[i]), Outcome::DepFailed) is Some,
        last_blocker(known(m, drvs[i]), Outcome::DepFailed)->0.contains(p),
    ensures
        block_paths(drvs, m, n).contains(p),
    decreases n,
{
    let before = block_paths(drvs, m, n - 1);
    let own = match last_blocker(known(m, drvs[n - 1]), Outcome::DepFailed) {
        Some(b) => b,
        None => Seq::empty(),
    };
    if i == n - 1 {
        let k = choose|k: int| 0 <= k < own.len() && own[k] == p;
        assert((before + own)[before.len() + k] == p);
    } else {
        lemma_block_paths(drvs, m, n - 1, i, p);
        let k = choose|k: int| 0 <= k < before.len() && before[k] == p;
        assert((before + own)[k] == p);
    }
}

/// All paths by which the blocks of the targets are decided are asked about; and
/// each target with such a block gets its verdict, by its own paths.
pub proof fn law_all_paths_of_blocks_are_asked_about(
    drvs: Seq<Seq<char>>,
    m: Map<Seq<char>, Vec<Observation>>,
    invalid: Set<Seq<char>>,
    i: int,
)
    requires
        0 <= i < drvs.len(),
    ensures
        match last_blocker(known(m, drvs[i]), Outcome::DepFailed) {
            Some(b) => {
                &&& forall|p: int|
                    0 <= p < b.len() ==> block_paths(drvs, m, drvs.len() as int).contains(
                        #[trigger] b[p],
                    )
                &&& stale_blocks(drvs, m, invalid).contains_key(drvs[i])
                &&& stale_blocks(drvs, m, invalid)[drvs[i]] <==> forall|p: int|
                    0 <= p < b.len() ==> !invalid.contains(#[trigger] b[p])
            },
            None => !stale_blocks(drvs, m, invalid).contains_key(drvs[i]),
        },
{
    assert(drvs.contains(drvs[i]));
    if last_blocker(known(m, drvs[i]), Outcome::DepFailed) is Some {
        let b = last_blocker(known(m, drvs[i]), Outcome::DepFailed)->0;
        assert forall|p: int| 0 <= p < b.len() implies block_paths(
            drvs,
            m,
            drvs.len() as int,
        ).contains(#[trigger] b[p]) by {
            assert(b.contains(b[p]));
            lemma_block_paths(drvs, m, drvs.len() as int, i, b[p]);
        }
    }
}

/// The target `i` is built exactly where the policy says so of what is known of it;
/// the targets to build are in the order of the targets, each once.
pub proof fn law_targets_are_built_by_the_policy(
    retry: bool,
    drvs: Seq<Seq<char>>,
    m: Map<Seq<char>, Vec<Observation>>,
    invalid: Set<Seq<char>>,
    i: usize,
)
    requires
        i < drvs.len() <= usize::MAX,
    ensures
        build_set(retry, drvs, m, invalid, drvs.len() as int).contains(i) <==> model::decision(
            retry,
            known(m, drvs[i as int]),
            block_is_stale(known(m, drvs[i as int]), invalid),
        ) == Decision::Build,
        known(m, drvs[i as int]).len() == 0 ==> build_set(
            retry,
            drvs,
            m,
            invalid,
            drvs.len() as int,
        ).contains(i),
        retry && (forall|k: int|
            0 <= k < known(m, drvs[i as int]).len() ==> (#[trigger] known(
                m,
                drvs[i as int],
            )[k]).outcome != Outcome::Built) ==> build_set(
            retry,
            drvs,
            m,
            invalid,
            drvs.len() as int,
        ).contains(i),
        forall|a: int, b: int|
            0 <= a < b < build_set(retry, drvs, m, invalid, drvs.len() as int).len() ==> (
            #[trigger] build_set(retry, drvs, m, invalid, drvs.len() as int)[a]) < (
            #[trigger] build_set(retry, drvs, m, invalid, drvs.len() as int)[b]),
{
    lemma_build_set(retry, drvs, m, invalid, drvs.len() as int);
    lemma_build_order(retry, drvs, m, invalid, drvs.len() as int);
}

proof fn lemma_build_order(
    retry: bool,
    drvs: Seq<Seq<char>>,
    m: Map<Seq<char>, Vec<Observation>>,
    invalid: Set<Seq<char>>,
    n: int,
)
    requires
        0 <= n <= drvs.len() <= usize::MAX,
    ensures
        forall|a: int|
            0 <= a < build_set(retry, drvs, m, invalid, n).len() ==> (#[trigger] build_set(
                retry,
                drvs,
                m,
                invalid,
                n,
            )[a]) < n,
        forall|a: int, b: int|
            0 <= a < b < build_set(retry, drvs, m, invalid, n).len() ==> (#[trigger] build_set(
                retry,
                drvs,
                m,
                invalid,
                n,
            )[a]) < (#[trigger] build_set(retry, drvs, m, invalid, n)[b]),
    decreases n,
{
    if n > 0 {
        lemma_build_order(retry, drvs, m, invalid, n - 1);
        let before = build_set(retry, drvs, m, invalid, n - 1);
        let now = build_set(retry, drvs, m, invalid, n);
        assert forall|a: int| 0 <= a < now.len() implies (#[trigger] now[a]) < n by {
            if a < before.len() {
                assert(now[a] == before[a]);
            }
        }
        assert forall|a: int, b: int| 0 <= a < b < now.len() implies (#[trigger] now[a]) < (
        #[trigger] now[b]) by {
            assert(now[a] == before[a]);
            if b < before.len() {
                assert(now[b] == before[b]);
            }
        }
    }
}

/// A failure is decided anew by the outputs that the latest failure with outputs
/// recorded, else by those of the recipe: it healed where there are some and all
/// are valid. Nothing heals that was built, or that never failed of its own.
pub proof fn law_failures_heal_by_their_outputs(
    history: Seq<Fact>,
    resolved: Seq<Seq<char>>,
    invalid: Set<Seq<char>>,
    f: int,
)
    requires
        0 <= f < history.len(),
        history[f].outcome == Outcome::Failed,
        forall|i: int| 0 <= i < history.len() ==> (#[trigger] history[i]).outcome != Outcome::Built,
    ensures
        match last_blocker(history, Outcome::Failed) {
            Some(b) => (heals(history, resolved, invalid) <==> forall|p: int|
                0 <= p < b.len() ==> !invalid.contains(#[trigger] b[p])) && !is_news(
                history,
                resolved,
                invalid,
            ) && !must_resolve(history),
            None => (heals(history, resolved, invalid) <==> resolved.len() > 0 && forall|p: int|
                0 <= p < resolved.len() ==> !invalid.contains(#[trigger] resolved[p])) && (is_news(
                history,
                resolved,
                invalid,
            ) <==> exists|p: int|
                0 <= p < resolved.len() && invalid.contains(#[trigger] resolved[p]))
                && must_resolve(history) && lacks_outputs(history),
        },
{
    assert(model::seen(history, Outcome::Failed));
}

/// Without a direct failure, or with a success, nothing is decided anew, asked for
/// or recorded.
pub proof fn law_only_failures_are_decided_anew(
    history: Seq<Fact>,
    resolved: Seq<Seq<char>>,
    invalid: Set<Seq<char>>,
    i: int,
)
    requires
        (0 <= i < history.len() && history[i].outcome == Outcome::Built) || (forall|k: int|
            0 <= k < history.len() ==> (#[trigger] history[k]).outcome != Outcome::Failed),
    ensures
        !heals(history, resolved, invalid),
        !is_news(history, resolved, invalid),
        !must_resolve(history),
{
}

proof fn lemma_to_resolve(drvs: Seq<Seq<char>>, m: Map<Seq<char>, Vec<Observation>>, n: int)
    requires
        0 <= n <= drvs.len(),
    ensures
        forall|i: int|
            0 <= i < n && must_resolve(known(m, #[trigger] drvs[i])) ==> to_resolve(
                drvs,
                m,
                n,
            ).contains(drvs[i]),
        forall|d: Seq<char>| #[trigger]
            to_resolve(drvs, m, n).contains(d) ==> must_resolve(known(m, d)) && drvs.contains(d),
    decreases n,
{
    if n > 0 {
        lemma_to_resolve(drvs, m, n - 1);
        let before = to_resolve(drvs, m, n - 1);
        let now = to_resolve(drvs, m, n);
        assert forall|i: int| 0 <= i < n && must_resolve(known(m, #[trigger] drvs[i])) implies now.contains(
            drvs[i],
        ) by {
            if i < n - 1 {
                let k = choose|k: int| 0 <= k < before.len() && before[k] == drvs[i];
                assert(now[k] == drvs[i]);
            } else {
                assert(now[before.len() as int] == drvs[i]);
            }
        }
        assert forall|d: Seq<char>| #[trigger] now.contains(d) implies must_resolve(known(m, d))
            && drvs.contains(d) by {
            let k = choose|k: int| 0 <= k < now.len() && now[k] == d;
            if k < before.len() {
                assert(before[k] == d);
                assert(before.contains(d));
            } else {
                assert(d == drvs[n - 1]);
            }
        }
    }
}

proof fn lemma_recheck_outputs(
    drvs: Seq<Seq<char>>,
    m: Map<Seq<char>, Vec<Observation>>,
    outputs: Map<Seq<char>, Vec<String>>,
    n: int,
    i: int,
    p: Seq<char>,
)
    requires
        0 <= i < n <= drvs.len(),
        match recheckable(known(m, drvs[i]), resolved_outputs(outputs, drvs[i])) {
            Some((outs, _)) => outs.contains(p),
            None => false,
        },
    ensures
        recheck_outputs(drvs, m, outputs, n).contains(p),
    decreases n,
{
    let before = recheck_outputs(drvs, m, outputs, n - 1);
    let own = match recheckable(known(m, drvs[n - 1]), resolved_outputs(outputs, drvs[n - 1])) {
        Some((outs, _)) => outs,
        None => Seq::empty(),
    };
    if i == n - 1 {
        let k = choose|k: int| 0 <= k < own.len() && own[k] == p;
        assert((before + own)[before.len() + k] == p);
    } else {
        lemma_recheck_outputs(drvs, m, outputs, n - 1, i, p);
        let k = choose|k: int| 0 <= k < before.len() && before[k] == p;
        assert((before + own)[k] == p);
    }
}

proof fn lemma_news(
    drvs: Seq<Seq<char>>,
    m: Map<Seq<char>, Vec<Observation>>,
    outputs: Map<Seq<char>, Vec<String>>,
    invalid: Set<Seq<char>>,
    n: int,
)
    requires
        0 <= n <= drvs.len(),
    ensures
        forall|i: int|
            0 <= i < n && is_news(
                known(m, #[trigger] drvs[i]),
                resolved_outputs(outputs, drvs[i]),
                invalid,
            ) ==> news(drvs, m, outputs, invalid, n).contains(
                (drvs[i], resolved_outputs(outputs, drvs[i])),
            ),
        forall|p: (Seq<char>, Seq<Seq<char>>)| #[trigger]
            news(drvs, m, outputs, invalid, n).contains(p) ==> drvs.contains(p.0) && p.1
                == resolved_outputs(outputs, p.0) && is_news(known(m, p.0), p.1, invalid),
    decreases n,
{
    if n > 0 {
        lemma_news(drvs, m, outputs, invalid, n - 1);
        let before = news(drvs, m, outputs, invalid, n - 1);
        let now = news(drvs, m, outputs, invalid, n);
        assert forall|i: int|
            0 <= i < n && is_news(
                known(m, #[trigger] drvs[i]),
                resolved_outputs(outputs, drvs[i]),
                invalid,
            ) implies now.contains((drvs[i], resolved_outputs(outputs, drvs[i]))) by {
            let p = (drvs[i], resolved_outputs(outputs, drvs[i]));
            if i < n - 1 {
                let k = choose|k: int| 0 <= k < before.len() && before[k] == p;
                assert(now[k] == p);
            } else {
                assert(now[before.len() as int] == p);
            }
        }
        assert forall|p: (Seq<char>, Seq<Seq<char>>)| #[trigger] now.contains(p) implies drvs.contains(
            p.0,
        ) && p.1 == resolved_outputs(outputs, p.0) && is_news(known(m, p.0), p.1, invalid) by {
            let k = choose|k: int| 0 <= k < now.len() && now[k] == p;
            if k < before.len() {
                assert(before[k] == p);
                assert(before.contains(p));
            } else {
                assert(p.0 == drvs[n - 1]);
            }
        }
    }
}

/// Of the targets, exactly those with an undecided failure that recorded no outputs
/// are asked for their outputs, all outputs that decide one are looked at, and
/// exactly those that healed, or are still failures with outputs new to the log, are
/// reported as such.
pub proof fn law_all_failures_of_targets_are_decided_anew(
    drvs: Seq<Seq<char>>,
    m: Map<Seq<char>, Vec<Observation>>,
    outputs: Map<Seq<char>, Vec<String>>,
    invalid: Set<Seq<char>>,
    d: Seq<char>,
)
    ensures
        to_resolve(drvs, m, drvs.len() as int).contains(d) <==> drvs.contains(d) && must_resolve(
            known(m, d),
        ),
        healed(drvs, m, outputs, invalid).contains(d) <==> drvs.contains(d) && heals(
            known(m, d),
            resolved_outputs(outputs, d),
            invalid,
        ),
        news(drvs, m, outputs, invalid, drvs.len() as int).contains(
            (d, resolved_outputs(outputs, d)),
        ) <==> drvs.contains(d) && is_news(known(m, d), resolved_outputs(outputs, d), invalid),
        drvs.contains(d) ==> match recheckable(known(m, d), resolved_outputs(outputs, d)) {
            Some((outs, _)) => forall|p: int|
                0 <= p < outs.len() ==> recheck_outputs(
                    drvs,
                    m,
                    outputs,
                    drvs.len() as int,
                ).contains(#[trigger] outs[p]),
            None => true,
        },
{
    let n = drvs.len() as int;
    lemma_to_resolve(drvs, m, n);
    lemma_news(drvs, m, outputs, invalid, n);
    if drvs.contains(d) {
        let i = choose|i: int| 0 <= i < drvs.len() && drvs[i] == d;
        assert(drvs[i] == d);
        if let Some((outs, _)) = recheckable(known(m, d), resolved_outputs(outputs, d)) {
            assert forall|p: int| 0 <= p < outs.len() implies recheck_outputs(
                drvs,
                m,
                outputs,
                n,
            ).contains(#[trigger] outs[p]) by {
                assert(outs.contains(outs[p]));
                lemma_recheck_outputs(drvs, m, outputs, n, i, outs[p]);
            }
        }
    }
}

/// A failure that recorded no outputs needs its recipe even where it is not built
/// again, and so does everything that is built; a success never does.
pub proof fn law_recipes_are_needed_to_build_or_to_recheck(
    retry: bool,
    history: Seq<Fact>,
    invalid: Set<Seq<char>>,
    i: int,
)
    ensures
        0 <= i < history.len() && history[i].outcome == Outcome::Built ==> !needs_recipe(
            retry,
            history,
            invalid,
        ),
        history.len() == 0 ==> needs_recipe(retry, history, invalid),
        0 <= i < history.len() && history[i].outcome == Outcome::Failed && (forall|k: int|
            0 <= k < history.len() ==> (#[trigger] history[k]).outcome != Outcome::Built)
            && last_blocker(history, Outcome::Failed) is None ==> needs_recipe(
            retry,
            history,
            invalid,
        ),
        !retry && 0 <= i < history.len() && history[i].outcome == Outcome::Failed && last_blocker(
            history,
            Outcome::Failed,
        ) is Some ==> !needs_recipe(retry, history, invalid),
{
    if 0 <= i < history.len() && history[i].outcome == Outcome::Failed {
        assert(model::seen(history, Outcome::Failed));
    }
}

/// The recipes needed are those of the targets that need theirs.
pub proof fn law_recipes_are_of_targets(
    retry: bool,
    drvs: Seq<Seq<char>>,
    m: Map<Seq<char>, Vec<Observation>>,
    invalid: Set<Seq<char>>,
    d: Seq<char>,
)
    ensures
        recipes_needed(retry, drvs, m, invalid).contains(d) <==> drvs.contains(d) && needs_recipe(
            retry,
            known(m, d),
            invalid,
        ),
{
}

/// The hits of a batch are the derivations with a yes, in their order; a no is
/// never one.
pub proof fn law_hits_are_the_yes_answers(
    a: Seq<(String, bool)>,
    x: (String, bool),
    b: Seq<(String, bool)>,
)
    ensures
        hits_of(a + b) == hits_of(a) + hits_of(b),
        hits_of(seq![x]) == (if x.1 {
            seq![x.0@]
        } else {
            Seq::empty()
        }),
    decreases b.len(),
{
    if b.len() == 0 {
        assert(a + b =~= a);
        assert(hits_of(a) + hits_of(b) =~= hits_of(a));
    } else {
        assert((a + b).drop_last() =~= a + b.drop_last());
        law_hits_are_the_yes_answers(a, x, b.drop_last());
        assert(hits_of(a + b) =~= hits_of(a) + hits_of(b));
    }
    assert(seq![x].drop_last() =~= Seq::<(String, bool)>::empty());
    assert(hits_of(seq![x].drop_last()) =~= Seq::<Seq<char>>::empty());
    if x.1 {
        assert(hits_of(seq![x]) =~= seq![x.0@]);
    }
}

/// A build that stopped is recorded as what it is: a failure always, with the
/// outputs of its derivation; a success only of what was asked for, and without any
/// paths.
pub proof fn law_stopped_builds_are_recorded(
    requested: bool,
    drv: Seq<char>,
    outs: Seq<Seq<char>>,
)
    ensures
        stop_fact(requested, drv, false, outs) == Some(
            Fact { drv, outcome: Outcome::Failed, blocker: outs },
        ),
        stop_fact(true, drv, true, outs) is Some,
        stop_fact(true, drv, true, outs)->0.drv == drv,
        stop_fact(true, drv, true, outs)->0.outcome == Outcome::Built,
        stop_fact(true, drv, true, outs)->0.blocker.len() == 0,
        stop_fact(false, drv, true, outs) is None,
{
}

/// What never stopped is recorded as built where it is, whatever else fails; as
/// blocked where it is not and a dependency still fails, with the outputs of such a
/// dependency; and not at all otherwise.
pub proof fn law_leftovers_are_recorded(
    drv: Seq<char>,
    verified: StringMap<Vec<String>>,
)
    requires
        verified.wf(),
    ensures
        leftover_fact(drv, true, verified) is Some,
        leftover_fact(drv, true, verified)->0.drv == drv,
        leftover_fact(drv, true, verified)->0.outcome == Outcome::Built,
        leftover_fact(drv, true, verified)->0.blocker.len() == 0,
        verified.keys().len() == 0 ==> leftover_fact(drv, false, verified) is None,
        verified.keys().len() > 0 ==> leftover_fact(drv, false, verified) is Some && leftover_fact(
            drv,
            false,
            verified,
        )->0.drv == drv && leftover_fact(drv, false, verified)->0.outcome == Outcome::DepFailed
            && exists|c: Seq<char>| #[trigger]
            verified@.contains_key(c) && leftover_fact(drv, false, verified)->0.blocker
                == text::texts(verified@[c]@),
{
    verified.lemma_entries();
    if verified.keys().len() > 0 {
        let c = verified.keys()[0];
        assert(verified@.contains_key(c));
        assert(verified@[c] == verified.values()[0]);
    }
}

/// A line of the log is an event exactly where it begins with the mark, and the
/// event is all that follows.
pub proof fn law_events_follow_their_mark(line: Seq<char>, rest: Seq<char>)
    ensures
        event_text(seq!['@', 'n', 'i', 'x', ' '] + rest) == Some(rest),
        event_text(line) is Some ==> line == seq!['@', 'n', 'i', 'x', ' '] + event_text(line)->0,
{
    reveal_strlit("@nix ");
    let mark = seq!['@', 'n', 'i', 'x', ' '];
    assert("@nix "@ =~= mark);
    text::law_prefixes_and_suffixes(line, mark, rest);
    assert((mark + rest).skip(5) =~= rest);
}

/// A batch builds all outputs of each of its derivations, in their order, and goes
/// on when one fails.
pub proof fn law_batches_build_every_derivation(drvs: Seq<Seq<char>>, i: int)
    ensures
        batch_command(drvs).len() == drvs.len() + 8,
        batch_command(drvs)[0] == "build"@,
        0 <= i < drvs.len() ==> batch_command(drvs)[i + 1] == drvs[i] + seq!['^', '*'],
        batch_command(drvs).contains("--keep-going"@),
        batch_command(drvs).contains("--no-link"@),
        exists|k: int|
            0 <= k < batch_command(drvs).len() - 1 && #[trigger] batch_command(drvs)[k]
                == "--log-format"@ && batch_command(drvs)[k + 1] == "internal-json"@,
{
    reveal_strlit("^*");
    assert("^*"@ =~= seq!['^', '*']);
    let n = drvs.len() as int;
    let c = batch_command(drvs);
    assert(c[n + 1] == "--keep-going"@);
    assert(c[n + 2] == "--no-link"@);
    assert(c[n + 3] == "--log-format"@);
    assert(c[n + 4] == "internal-json"@);
    if 0 <= i < drvs.len() {
        assert(c[i + 1] == drvs[i] + "^*"@);
    }
}

/// What is known of a derivation is its list of observations, one fact for each, in
/// order; of one without a list nothing is known.
pub proof fn law_known_are_the_observations(
    m: Map<Seq<char>, Vec<Observation>>,
    d: Seq<char>,
    i: int,
)
    ensures
        !m.contains_key(d) ==> known(m, d).len() == 0,
        m.contains_key(d) ==> known(m, d).len() == m[d]@.len(),
        m.contains_key(d) && 0 <= i < m[d]@.len() ==> known(m, d)[i].drv == m[d]@[i].drv_path@
            && known(m, d)[i].outcome == m[d]@[i].outcome && known(m, d)[i].blocker == text::texts(
            m[d]@[i].blocker@,
        ),
{
}

/// The derivations of targets are one for each, in order, and so are those picked.
pub proof fn law_targets_have_their_derivations(targets: Seq<Target>, at: Seq<usize>, i: int)
    ensures
        target_drvs(targets).len() == targets.len(),
        0 <= i < targets.len() ==> target_drvs(targets)[i] == targets[i].drv_path@,
        picked(target_drvs(targets), at).len() == at.len(),
        0 <= i < at.len() ==> picked(target_drvs(targets), at)[i] == target_drvs(
            targets,
        )[at[i] as int],
{
}

/// The paths that decide which candidates still fail are all outputs of all of them.
pub proof fn law_all_outputs_of_candidates_are_asked_about(
    members: Seq<Seq<char>>,
    outputs: Map<Seq<char>, Vec<String>>,
    n: int,
    c: int,
    o: int,
)
    requires
        0 <= c < n <= members.len(),
        outputs.contains_key(members[c]),
        0 <= o < outputs[members[c]]@.len(),
    ensures
        outputs_in_order(members, outputs, n).contains(outputs[members[c]]@[o]@),
    decreases n,
{
    let before = outputs_in_order(members, outputs, n - 1);
    let own = resolved_outputs(outputs, members[n - 1]);
    let p = outputs[members[c]]@[o]@;
    if c == n - 1 {
        assert(own[o] == p);
        assert((before + own)[before.len() + o] == p);
    } else {
        law_all_outputs_of_candidates_are_asked_about(members, outputs, n - 1, c, o);
        let k = choose|k: int| 0 <= k < before.len() && before[k] == p;
        assert((before + own)[k] == p);
    }
}

/// A build is the activity of the kind that nix numbers so.
pub proof fn law_builds_have_their_number()
    ensures
        ACT_BUILD == 105,
{
}

/// Where one node changes, nothing else of the tree does.
pub proof fn law_one_node_changes_alone(
    before: Tree,
    after: Tree,
    id: int,
    n: live::NodeData,
    k: int,
)
    requires
        only_node(before, after, id, n),
        0 <= id < before.nodes().len(),
    ensures
        after.nodes().len() == before.nodes().len(),
        after.nodes()[id] == n,
        0 <= k < before.nodes().len() && k != id ==> after.nodes()[k] == before.nodes()[k],
        after.order() == before.order(),
{
}

/// Lists of paths keep their derivations and their paths, one for one and in their order.
pub proof fn law_lists_keep_their_paths(v: Seq<(String, Vec<String>)>, i: int, j: int)
    ensures
        path_lists(v).len() == v.len(),
        0 <= i < v.len() ==> path_lists(v)[i].0 == v[i].0@ && path_lists(v)[i].1.len()
            == v[i].1@.len(),
        0 <= i < v.len() && 0 <= j < v[i].1@.len() ==> path_lists(v)[i].1[j] == v[i].1@[j]@,
{
}

/// A log can be read for some derivations exactly where every row of theirs has a code that
/// stands for an outcome.
pub proof fn law_logs_are_readable_by_their_codes(log: Seq<store::LogData>, drvs: Seq<Seq<char>>)
    ensures
        readable(log, drvs) <==> forall|i: int, j: int|
            #![trigger log[i], drvs[j]]
            0 <= i < log.len() && 0 <= j < drvs.len() && log[i].drv == evalfile::stripped(drvs[j])
                ==> 0 <= log[i].outcome <= 2,
{
    let stored = store::stored_all(drvs);
    let n = log.len() as int;
    assert forall|i: int, j: int|
        #![trigger log[i], drvs[j]]
        0 <= i < n && 0 <= j < drvs.len() && log[i].drv == evalfile::stripped(drvs[j]) && readable(
            log,
            drvs,
        ) implies 0 <= log[i].outcome <= 2 by {
        assert(stored[j] == log[i].drv);
        if !(0 <= log[i].outcome <= 2) {
            store::lemma_unknown_found(log, stored, n, i);
        }
    }
    if forall|i: int, j: int|
        #![trigger log[i], drvs[j]]
        0 <= i < n && 0 <= j < drvs.len() && log[i].drv == evalfile::stripped(drvs[j]) ==> 0
            <= log[i].outcome <= 2 {
        assert forall|k: int| 0 <= k < n && k < n implies !(stored.contains(
            (#[trigger] log[k]).drv,
        ) && !(0 <= log[k].outcome <= 2)) by {
            if stored.contains(log[k].drv) {
                let j = choose|j: int| 0 <= j < stored.len() && stored[j] == log[k].drv;
                assert(drvs[j] == drvs[j]);
            }
        }
        store::law_the_first_unreadable_row_is_reported(log, stored, n, n);
    }
}

} // verus!
