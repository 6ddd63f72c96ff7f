//! From a change to its report: which revisions and systems are looked at,
//! what is to be built, and what the report says of each changed attr.

use vstd::prelude::*;
use vstd::string::*;
use vstd::utf8::*;

use crate::driver::Target;
use crate::eval;
use crate::eval::InstRequest;
use crate::evalfile;
use crate::evalfile::ChangedAttr;
use crate::model;
use crate::model::{Fact, Observation, Outcome, Rev};
use crate::ordered::StringSet;
use crate::report;
use crate::report::{Entry, Sighting, Source, State};
use crate::store;
use crate::store::{Store, StoreError};
use crate::table::Table;
use crate::text;

verus! {

// --- revisions and systems ---------------------------------------------------

/// The nix name of a system.
pub open spec fn system_name(arch: Seq<char>, os: Seq<char>) -> Seq<char> {
    arch + "-"@ + (if os == "macos"@ {
        "darwin"@
    } else {
        os
    })
}

/// The nix name of the system of a machine, such as `aarch64-linux`.
pub fn host_system(arch: &str, os: &str) -> (r: String)
    ensures
        r@ == system_name(arch@, os@),
{
    let mut s = arch.to_owned();
    s.append("-");
    if text::same(os, "macos") {
        s.append("darwin");
    } else {
        s.append(os);
    }
    s
}

/// The systems to report on: those that were given, else that of the machine.
pub fn resolve_systems(given: Vec<String>, host: String) -> (r: Vec<String>)
    ensures
        r@ == (if given@.len() == 0 {
            seq![host]
        } else {
            given@
        }),
{
    if given.len() == 0 {
        let mut r: Vec<String> = Vec::new();
        r.push(host);
        assert(r@ =~= seq![host]);
        r
    } else {
        given
    }
}

/// Where the base of a change comes from.
#[derive(Debug, PartialEq, Eq)]
pub enum BaseFrom {
    /// A revision that was given.
    Revision(String),
    /// The merge base of the head with this branch.
    MergeBase(String),
}

/// The revisions of a change: the head is `HEAD` unless it is given, and the
/// base is the merge base of the head with `master` unless it is given.
pub fn resolve_base_head(base: Option<String>, head: Option<String>) -> (r: (BaseFrom, String))
    ensures
        r.1@ == (match head {
            Some(h) => h@,
            None => "HEAD"@,
        }),
        match base {
            Some(b) => r.0 == BaseFrom::Revision(b),
            None => r.0 is MergeBase && r.0->MergeBase_0@ == "master"@,
        },
{
    let h = match head {
        Some(h) => h,
        None => "HEAD".to_owned(),
    };
    let b = match base {
        Some(b) => BaseFrom::Revision(b),
        None => BaseFrom::MergeBase("master".to_owned()),
    };
    (b, h)
}

/// What git is asked to resolve for a revision: the commit that it names.
pub fn commit_query(rev: &str) -> (r: String)
    ensures
        r@ == rev@ + "^{commit}"@,
{
    let mut s = rev.to_owned();
    s.append("^{commit}");
    s
}

/// The commit that git prints: its output without the white space around it,
/// if it is UTF-8.
pub fn commit_of(stdout: Vec<u8>) -> (r: Option<String>)
    ensures
        match r {
            Some(c) => valid_utf8(stdout@) && c@ == text::trimmed(decode_utf8(stdout@)),
            None => !valid_utf8(stdout@),
        },
{
    match text::from_utf8(stdout) {
        Some(s) => {
            proof {
                encode_utf8_decode_utf8(s@);
                encode_utf8_valid_utf8(s@);
            }
            Some(text::trim(s.as_str()))
        },
        None => None,
    }
}

// --- targets -----------------------------------------------------------------

/// A derivation to build, for an attr on a system.
#[derive(Debug, PartialEq, Eq)]
pub struct SystemTarget {
    pub attr: String,
    pub system: String,
    pub drv_path: String,
}

/// A derivation to build as plain data: the attr, the system, the derivation.
pub type TargetData = (Seq<char>, Seq<char>, Seq<char>);

/// Targets as plain data.
pub open spec fn target_data(v: Seq<SystemTarget>) -> Seq<TargetData> {
    v.map_values(|t: SystemTarget| (t.attr@, t.system@, t.drv_path@))
}

/// Whether a derivation is among the targets for a system.
pub open spec fn targeted(list: Seq<TargetData>, system: Seq<char>, drv: Seq<char>) -> bool {
    exists|i: int| 0 <= i < list.len() && (#[trigger] list[i]).1 == system && list[i].2 == drv
}

/// The targets with one side of a changed attr, unless it is there already.
pub open spec fn with_side(
    list: Seq<TargetData>,
    attr: Seq<char>,
    system: Seq<char>,
    drv: Option<Seq<char>>,
) -> Seq<TargetData> {
    match drv {
        Some(d) => if targeted(list, system, d) {
            list
        } else {
            list.push((attr, system, d))
        },
        None => list,
    }
}

/// The targets with the first `n` changed attrs of a system, the base of each
/// before its head.
pub open spec fn with_changes(
    list: Seq<TargetData>,
    system: Seq<char>,
    changed: Seq<ChangedAttr>,
    n: int,
) -> Seq<TargetData>
    decreases n,
{
    if n <= 0 {
        list
    } else {
        let before = with_changes(list, system, changed, n - 1);
        let c = changed[n - 1]@;
        with_side(with_side(before, c.attr, system, c.base), c.attr, system, c.head)
    }
}

/// The targets of the first `n` systems.
pub open spec fn all_targets(per_system: Seq<(String, Vec<ChangedAttr>)>, n: int) -> Seq<TargetData>
    decreases n,
{
    if n <= 0 {
        Seq::empty()
    } else {
        with_changes(
            all_targets(per_system, n - 1),
            per_system[n - 1].0@,
            per_system[n - 1].1@,
            per_system[n - 1].1@.len() as int,
        )
    }
}

/// The system and the derivation as a key.
pub open spec fn pair_key(system: Seq<char>, drv: Seq<char>) -> Seq<Seq<char>> {
    seq![system, drv]
}

/// Whether `seen` holds exactly what is among the targets.
spec fn tells(seen: Map<Seq<Seq<char>>, ()>, list: Seq<TargetData>) -> bool {
    forall|s: Seq<char>, d: Seq<char>| #[trigger]
        seen.contains_key(pair_key(s, d)) <==> targeted(list, s, d)
}

fn add_side(
    list: &mut Vec<SystemTarget>,
    seen: &mut Table<()>,
    attr: &str,
    system: &str,
    drv: &Option<String>,
)
    requires
        old(seen).wf(),
        tells(old(seen)@, target_data(old(list)@)),
    ensures
        final(seen).wf(),
        tells(final(seen)@, target_data(final(list)@)),
        target_data(final(list)@) == with_side(
            target_data(old(list)@),
            attr@,
            system@,
            text::opt(*drv),
        ),
{
    if let Some(d) = drv {
        let mut key: Vec<String> = Vec::new();
        key.push(system.to_owned());
        key.push(d.clone());
        let ghost k = pair_key(system@, d@);
        assert(text::texts(key@) =~= k);
        let known = match seen.get(key.as_slice()) {
            Some(_) => true,
            None => false,
        };
        if !known {
            let ghost was = target_data(list@);
            let ghost seen0 = seen@;
            seen.put(key, ());
            let t = SystemTarget {
                attr: attr.to_owned(),
                system: system.to_owned(),
                drv_path: d.clone(),
            };
            list.push(t);
            proof {
                let now = target_data(list@);
                assert(now =~= was.push((attr@, system@, d@)));
                assert forall|s: Seq<char>, x: Seq<char>| #[trigger]
                    seen@.contains_key(pair_key(s, x)) <==> targeted(now, s, x) by {
                    assert(pair_key(s, x)[0] == s && pair_key(s, x)[1] == x);
                    assert(k[0] == system@ && k[1] == d@);
                    assert(seen@.contains_key(pair_key(s, x)) == (seen0.contains_key(
                        pair_key(s, x),
                    ) || pair_key(s, x) == k));
                    if targeted(was, s, x) {
                        let i = choose|i: int|
                            0 <= i < was.len() && (#[trigger] was[i]).1 == s && was[i].2 == x;
                        assert(now[i].1 == s && now[i].2 == x);
                    }
                    if s == system@ && x == d@ {
                        assert(now[was.len() as int].1 == s);
                    }
                    if targeted(now, s, x) && !(s == system@ && x == d@) {
                        let i = choose|i: int|
                            0 <= i < now.len() && (#[trigger] now[i]).1 == s && now[i].2 == x;
                        assert(was[i].1 == s && was[i].2 == x);
                    }
                }
            }
        }
    }
}

/// What is to be built for a report: both sides of every changed attr, each
/// derivation once for each system.
pub fn targets_of(per_system: &[(String, Vec<ChangedAttr>)]) -> (r: Vec<SystemTarget>)
    ensures
        target_data(r@) == all_targets(per_system@, per_system@.len() as int),
{
    let mut r: Vec<SystemTarget> = Vec::new();
    let mut seen: Table<()> = Table::new();
    let mut i: usize = 0;
    assert(target_data(r@) =~= all_targets(per_system@, 0));
    while i < per_system.len()
        invariant
            i <= per_system@.len(),
            seen.wf(),
            tells(seen@, target_data(r@)),
            target_data(r@) == all_targets(per_system@, i as int),
        decreases per_system@.len() - i,
    {
        let system = per_system[i].0.as_str();
        let changed = &per_system[i].1;
        let ghost start = target_data(r@);
        let mut k: usize = 0;
        while k < changed.len()
            invariant
                k <= changed@.len(),
                seen.wf(),
                tells(seen@, target_data(r@)),
                target_data(r@) == with_changes(start, system@, changed@, k as int),
            decreases changed@.len() - k,
        {
            let c = &changed[k];
            add_side(&mut r, &mut seen, c.attr.as_str(), system, &c.base_drv);
            add_side(&mut r, &mut seen, c.attr.as_str(), system, &c.head_drv);
            k = k + 1;
        }
        i = i + 1;
    }
    r
}

/// The derivations of some targets, as the driver takes them.
pub fn plain_targets(list: &[SystemTarget]) -> (r: Vec<Target>)
    ensures
        crate::driver::target_drvs(r@) == target_data(list@).map_values(|t: TargetData| t.2),
{
    let ghost want = target_data(list@).map_values(|t: TargetData| t.2);
    let mut r: Vec<Target> = Vec::new();
    let mut i: usize = 0;
    assert(crate::driver::target_drvs(r@) =~= want.take(0));
    while i < list.len()
        invariant
            i <= list@.len(),
            want == target_data(list@).map_values(|t: TargetData| t.2),
            crate::driver::target_drvs(r@) == want.take(i as int),
        decreases list@.len() - i,
    {
        let ghost was = crate::driver::target_drvs(r@);
        let t = Target { drv_path: list[i].drv_path.clone() };
        let ghost d = t.drv_path@;
        r.push(t);
        proof {
            assert(crate::driver::target_drvs(r@) =~= was.push(d));
            assert(want[i as int] == d);
            assert(want.take(i + 1) =~= want.take(i as int).push(want[i as int]));
        }
        i = i + 1;
    }
    assert(want.take(i as int) =~= want);
    r
}

// --- instantiation -----------------------------------------------------------

/// The derivation of a changed attr on one side.
pub open spec fn side_drv(c: evalfile::Change, of_base: bool) -> Option<Seq<char>> {
    if of_base {
        c.base
    } else {
        c.head
    }
}

/// The attrs, among the first `n` changed ones, whose recipes on one side are
/// to be written, with their derivations.
pub open spec fn to_write(
    changed: Seq<ChangedAttr>,
    of_base: bool,
    absent: Set<Seq<char>>,
    n: int,
) -> Seq<(Seq<char>, Seq<char>)>
    decreases n,
{
    if n <= 0 {
        Seq::empty()
    } else {
        let before = to_write(changed, of_base, absent, n - 1);
        match side_drv(changed[n - 1]@, of_base) {
            Some(d) if absent.contains(d) => before.push((changed[n - 1]@.attr, d)),
            _ => before,
        }
    }
}

/// Attrs with their derivations as texts.
pub open spec fn text_pairs(v: Seq<(String, String)>) -> Seq<(Seq<char>, Seq<char>)> {
    v.map_values(|p: (String, String)| (p.0@, p.1@))
}

/// Whether a request is for one side of a system.
pub open spec fn requests_side(
    r: InstRequest,
    rev: Rev,
    system: Seq<char>,
    changed: Seq<ChangedAttr>,
    of_base: bool,
    absent: Set<Seq<char>>,
) -> bool {
    &&& eval::same_rev(r.rev, rev)
    &&& r.system@ == system
    &&& text_pairs(r.attrs@) == to_write(changed, of_base, absent, changed.len() as int)
}

fn request_side(
    rev: &Rev,
    system: &str,
    changed: &[ChangedAttr],
    of_base: bool,
    absent: &StringSet,
) -> (r: InstRequest)
    requires
        absent.wf(),
    ensures
        requests_side(r, *rev, system@, changed@, of_base, absent@),
{
    let mut attrs: Vec<(String, String)> = Vec::new();
    let mut i: usize = 0;
    assert(text_pairs(attrs@) =~= to_write(changed@, of_base, absent@, 0));
    while i < changed.len()
        invariant
            i <= changed@.len(),
            absent.wf(),
            text_pairs(attrs@) == to_write(changed@, of_base, absent@, i as int),
        decreases changed@.len() - i,
    {
        let ghost was = text_pairs(attrs@);
        let c = &changed[i];
        let drv = if of_base {
            &c.base_drv
        } else {
            &c.head_drv
        };
        if let Some(d) = drv {
            if absent.contains(d.as_str()) {
                attrs.push((c.attr.clone(), d.clone()));
                assert(text_pairs(attrs@) =~= was.push((c.attr@, d@)));
            }
        }
        i = i + 1;
    }
    InstRequest { rev: eval::copy_rev(rev), system: system.to_owned(), attrs }
}

/// What has to be instantiated: for each system the base and then the head, and
/// on each side the changed attrs whose recipes are absent.
pub fn inst_requests(
    base: &Rev,
    head: &Rev,
    per_system: &[(String, Vec<ChangedAttr>)],
    absent: &StringSet,
) -> (r: Vec<InstRequest>)
    requires
        absent.wf(),
    ensures
        r@.len() == 2 * per_system@.len(),
        forall|i: int|
            0 <= i < per_system@.len() ==> requests_side(
                #[trigger] r@[2 * i],
                *base,
                per_system@[i].0@,
                per_system@[i].1@,
                true,
                absent@,
            ),
        forall|i: int|
            0 <= i < per_system@.len() ==> requests_side(
                #[trigger] r@[2 * i + 1],
                *head,
                per_system@[i].0@,
                per_system@[i].1@,
                false,
                absent@,
            ),
{
    let mut r: Vec<InstRequest> = Vec::new();
    let mut i: usize = 0;
    while i < per_system.len()
        invariant
            i <= per_system@.len(),
            absent.wf(),
            r@.len() == 2 * i,
            forall|k: int|
                0 <= k < i ==> requests_side(
                    #[trigger] r@[2 * k],
                    *base,
                    per_system@[k].0@,
                    per_system@[k].1@,
                    true,
                    absent@,
                ),
            forall|k: int|
                0 <= k < i ==> requests_side(
                    #[trigger] r@[2 * k + 1],
                    *head,
                    per_system@[k].0@,
                    per_system@[k].1@,
                    false,
                    absent@,
                ),
        decreases per_system@.len() - i,
    {
        let system = per_system[i].0.as_str();
        let changed = per_system[i].1.as_slice();
        r.push(request_side(base, system, changed, true, absent));
        r.push(request_side(head, system, changed, false, absent));
        i = i + 1;
    }
    r
}

/// Every recipe that is absent and stands on a side of a changed attr is
/// requested for that side.
pub proof fn law_absent_recipes_are_requested(
    changed: Seq<ChangedAttr>,
    of_base: bool,
    absent: Set<Seq<char>>,
    i: int,
    n: int,
)
    requires
        0 <= i < n <= changed.len(),
        side_drv(changed[i]@, of_base) is Some,
        absent.contains(side_drv(changed[i]@, of_base)->0),
    ensures
        to_write(changed, of_base, absent, n).contains(
            (changed[i]@.attr, side_drv(changed[i]@, of_base)->0),
        ),
    decreases n,
{
    let want = (changed[i]@.attr, side_drv(changed[i]@, of_base)->0);
    let now = to_write(changed, of_base, absent, n);
    if i < n - 1 {
        law_absent_recipes_are_requested(changed, of_base, absent, i, n - 1);
        let before = to_write(changed, of_base, absent, n - 1);
        let k = choose|k: int| 0 <= k < before.len() && before[k] == want;
        assert(now[k] == want);
    } else {
        assert(now[now.len() - 1] == want);
    }
}

// --- entries -----------------------------------------------------------------

/// The state of a side from the facts about its derivation: a success counts
/// first, then a failure of its own, then one of a dependency.
pub open spec fn state_from(has_drv: bool, facts: Seq<Fact>) -> State {
    if !has_drv {
        State::Absent
    } else if model::seen(facts, Outcome::Built) {
        State::Built
    } else if model::seen(facts, Outcome::Failed) {
        State::Failed
    } else if model::seen(facts, Outcome::DepFailed) {
        State::Blocked
    } else {
        State::Unknown
    }
}

/// The state of a side of a changed attr, by the log.
pub open spec fn side_from(log: Seq<store::LogData>, drv: Option<Seq<char>>) -> State {
    match drv {
        Some(d) => state_from(true, store::facts_about(log, d)),
        None => State::Absent,
    }
}

/// The observations of a derivation as sightings on this machine.
fn sightings(obs: &[Observation]) -> (r: Vec<Sighting>)
    ensures
        forall|o: Outcome| #[trigger]
            report::sighted(r@, Source::Local, o) == model::seen(model::facts(obs@), o),
        forall|o: Outcome| !#[trigger] report::sighted(r@, Source::Cache, o),
{
    let ghost h = model::facts(obs@);
    let mut r: Vec<Sighting> = Vec::new();
    let mut i: usize = 0;
    while i < obs.len()
        invariant
            i <= obs@.len(),
            h == model::facts(obs@),
            r@.len() == i,
            forall|k: int|
                0 <= k < i ==> (#[trigger] r@[k]).source == Source::Local && r@[k].outcome
                    == h[k].outcome,
        decreases obs@.len() - i,
    {
        assert(h[i as int] == obs@[i as int]@);
        r.push(
            Sighting {
                drv_path: obs[i].drv_path.clone(),
                source: Source::Local,
                outcome: obs[i].outcome,
                when: 0,
                system: None,
                duration_s: None,
                machine: None,
            },
        );
        i = i + 1;
    }
    proof {
        assert forall|o: Outcome| #[trigger]
            report::sighted(r@, Source::Local, o) == model::seen(h, o) by {
            if report::sighted(r@, Source::Local, o) {
                let k = choose|k: int|
                    0 <= k < r@.len() && (#[trigger] r@[k]).source == Source::Local && r@[k].outcome
                        == o;
                assert(h[k].outcome == o);
            }
            if model::seen(h, o) {
                let k = choose|k: int| 0 <= k < h.len() && (#[trigger] h[k]).outcome == o;
                assert(r@[k].outcome == o);
            }
        }
    }
    r
}

/// The first code without a meaning that the histories of two sides hold.
pub open spec fn unreadable(
    log: Seq<store::LogData>,
    base: Option<Seq<char>>,
    head: Option<Seq<char>>,
) -> Option<i64> {
    let b = side_unreadable(log, base);
    if b is Some {
        b
    } else {
        side_unreadable(log, head)
    }
}

/// The first code without a meaning that the history of a side holds.
pub open spec fn side_unreadable(log: Seq<store::LogData>, drv: Option<Seq<char>>) -> Option<i64> {
    match drv {
        Some(d) => store::first_unknown(log, seq![evalfile::stripped(d)], log.len() as int),
        None => None,
    }
}

/// The first code without a meaning in the way of the entries of the first `n`
/// changed attrs.
pub open spec fn first_unreadable(
    log: Seq<store::LogData>,
    changed: Seq<ChangedAttr>,
    n: int,
) -> Option<i64>
    decreases n,
{
    if n <= 0 {
        None
    } else {
        match first_unreadable(log, changed, n - 1) {
            Some(c) => Some(c),
            None => unreadable(log, changed[n - 1]@.base, changed[n - 1]@.head),
        }
    }
}

fn side_of(store: &Store, drv: &Option<String>) -> (r: Result<State, StoreError>)
    ensures
        match r {
            Ok(s) => side_unreadable(store.log(), text::opt(*drv)) is None && s == side_from(
                store.log(),
                text::opt(*drv),
            ),
            Err(StoreError::UnknownOutcome(c)) => side_unreadable(store.log(), text::opt(*drv))
                == Some(c),
        },
{
    match drv {
        Some(d) => match store.load_observations(d.as_str()) {
            Ok(obs) => {
                let seen = sightings(obs.as_slice());
                assert(report::state_of(true, false, seen@) == state_from(
                    true,
                    model::facts(obs@),
                ));
                Ok(report::side_state(drv, false, seen.as_slice()))
            },
            Err(e) => Err(e),
        },
        None => {
            let none: Vec<Sighting> = Vec::new();
            Ok(report::side_state(drv, false, none.as_slice()))
        },
    }
}

/// Whether an entry of the report is about a changed attr, with the states
/// that the log gives its sides.
pub open spec fn entry_for(e: Entry, c: evalfile::Change, log: Seq<store::LogData>) -> bool {
    &&& e.attr@ == c.attr
    &&& text::opt(e.base_drv) == c.base
    &&& text::opt(e.head_drv) == c.head
    &&& e.base == side_from(log, c.base)
    &&& e.head == side_from(log, c.head)
}

/// The entries of the report on the changed attrs of a system, by the log.
pub fn entries_of(store: &Store, changed: &[ChangedAttr]) -> (r: Result<Vec<Entry>, StoreError>)
    ensures
        match r {
            Ok(v) => {
                &&& first_unreadable(store.log(), changed@, changed@.len() as int) is None
                &&& v@.len() == changed@.len()
                &&& forall|i: int|
                    0 <= i < v@.len() ==> entry_for(#[trigger] v@[i], changed@[i]@, store.log())
            },
            Err(StoreError::UnknownOutcome(c)) => first_unreadable(
                store.log(),
                changed@,
                changed@.len() as int,
            ) == Some(c),
        },
{
    let ghost log = store.log();
    let mut v: Vec<Entry> = Vec::new();
    let mut i: usize = 0;
    while i < changed.len()
        invariant
            i <= changed@.len(),
            log == store.log(),
            v@.len() == i,
            first_unreadable(log, changed@, i as int) is None,
            forall|k: int| 0 <= k < i ==> entry_for(#[trigger] v@[k], changed@[k]@, log),
        decreases changed@.len() - i,
    {
        let c = &changed[i];
        let base = match side_of(store, &c.base_drv) {
            Ok(s) => s,
            Err(e) => {
                proof {
                    lemma_unreadable_stays(log, changed@, i + 1, changed@.len() as int);
                }
                return Err(e);
            },
        };
        let head = match side_of(store, &c.head_drv) {
            Ok(s) => s,
            Err(e) => {
                proof {
                    lemma_unreadable_stays(log, changed@, i + 1, changed@.len() as int);
                }
                return Err(e);
            },
        };
        v.push(
            Entry {
                attr: c.attr.clone(),
                base_drv: text::copy_opt(&c.base_drv),
                head_drv: text::copy_opt(&c.head_drv),
                base,
                head,
            },
        );
        i = i + 1;
    }
    Ok(v)
}

proof fn lemma_unreadable_stays(
    log: Seq<store::LogData>,
    changed: Seq<ChangedAttr>,
    i: int,
    n: int,
)
    requires
        i <= n,
        first_unreadable(log, changed, i) is Some,
    ensures
        first_unreadable(log, changed, n) == first_unreadable(log, changed, i),
    decreases n - i,
{
    if i < n {
        lemma_unreadable_stays(log, changed, i, n - 1);
    }
}

// --- laws --------------------------------------------------------------------

/// A report shows a side as built exactly where the build policy trusts a
/// success of it, and as failed or blocked only where it was seen to fail.
pub proof fn law_report_agrees_with_the_policy(facts: Seq<Fact>, retry: bool, stale: bool)
    ensures
        state_from(true, facts) == State::Built <==> model::decision(retry, facts, stale)
            == model::Decision::SkipOk,
        model::decision(retry, facts, stale) == model::Decision::SkipFail ==> state_from(
            true,
            facts,
        ) == State::Failed || state_from(true, facts) == State::Blocked,
{
}

proof fn lemma_side_kept(
    list: Seq<TargetData>,
    attr: Seq<char>,
    system: Seq<char>,
    drv: Option<Seq<char>>,
    s: Seq<char>,
    d: Seq<char>,
)
    ensures
        targeted(with_side(list, attr, system, drv), s, d) == (targeted(list, s, d) || (s == system
            && drv == Some(d))),
{
    let now = with_side(list, attr, system, drv);
    if targeted(list, s, d) {
        let i = choose|i: int|
            0 <= i < list.len() && (#[trigger] list[i]).1 == s && list[i].2 == d;
        assert(now[i].1 == s && now[i].2 == d);
    }
    if s == system && drv == Some(d) && !targeted(list, s, d) {
        assert(now[list.len() as int].1 == s);
    }
    if targeted(now, s, d) && !targeted(list, s, d) {
        let i = choose|i: int| 0 <= i < now.len() && (#[trigger] now[i]).1 == s && now[i].2 == d;
        if i < list.len() {
            assert(list[i].1 == s);
        }
    }
}

/// Whether one of the first `n` changed attrs has a derivation on a side.
pub open spec fn has_side(changed: Seq<ChangedAttr>, drv: Seq<char>, n: int) -> bool {
    exists|i: int|
        0 <= i < n && ((#[trigger] changed[i])@.base == Some(drv) || changed[i]@.head == Some(drv))
}

proof fn lemma_changes_kept(
    list: Seq<TargetData>,
    system: Seq<char>,
    changed: Seq<ChangedAttr>,
    n: int,
    s: Seq<char>,
    d: Seq<char>,
)
    requires
        0 <= n <= changed.len(),
    ensures
        targeted(with_changes(list, system, changed, n), s, d) == (targeted(list, s, d) || (s
            == system && has_side(changed, d, n))),
    decreases n,
{
    if n > 0 {
        lemma_changes_kept(list, system, changed, n - 1, s, d);
        let before = with_changes(list, system, changed, n - 1);
        let c = changed[n - 1]@;
        lemma_side_kept(before, c.attr, system, c.base, s, d);
        lemma_side_kept(
            with_side(before, c.attr, system, c.base),
            c.attr,
            system,
            c.head,
            s,
            d,
        );
        if has_side(changed, d, n - 1) {
            let i = choose|i: int|
                0 <= i < n - 1 && ((#[trigger] changed[i])@.base == Some(d) || changed[i]@.head
                    == Some(d));
            assert(changed[i]@.base == Some(d) || changed[i]@.head == Some(d));
        }
        if c.base == Some(d) || c.head == Some(d) {
            assert(changed[n - 1]@.base == Some(d) || changed[n - 1]@.head == Some(d));
        }
    }
}

/// What is built for a report is exactly what stands on a side of a changed
/// attr.
pub proof fn law_both_sides_are_built(
    per_system: Seq<(String, Vec<ChangedAttr>)>,
    n: int,
    system: Seq<char>,
    drv: Seq<char>,
)
    requires
        0 <= n <= per_system.len(),
    ensures
        targeted(all_targets(per_system, n), system, drv) <==> exists|i: int|
            0 <= i < n && (#[trigger] per_system[i]).0@ == system && has_side(
                per_system[i].1@,
                drv,
                per_system[i].1@.len() as int,
            ),
    decreases n,
{
    if n > 0 {
        law_both_sides_are_built(per_system, n - 1, system, drv);
        let last = per_system[n - 1];
        lemma_changes_kept(
            all_targets(per_system, n - 1),
            last.0@,
            last.1@,
            last.1@.len() as int,
            system,
            drv,
        );
        if targeted(all_targets(per_system, n - 1), system, drv) {
            let i = choose|i: int|
                0 <= i < n - 1 && (#[trigger] per_system[i]).0@ == system && has_side(
                    per_system[i].1@,
                    drv,
                    per_system[i].1@.len() as int,
                );
            assert(per_system[i].0@ == system);
        }
    }
}

/// A system is named by the architecture and the operating system, of which only
/// one has another name in nix.
pub proof fn law_systems_are_named_for_nix(arch: Seq<char>, os: Seq<char>)
    ensures
        os != "macos"@ ==> system_name(arch, os) == arch + seq!['-'] + os,
        system_name(arch, "macos"@) == arch + seq!['-'] + "darwin"@,
{
    reveal_strlit("-");
    assert("-"@ =~= seq!['-']);
}

/// A side is built, failed or blocked by the facts about its derivation: a success
/// beats every failure, a failure of its own one of a dependency; without facts it
/// is unknown, and without a derivation absent.
pub proof fn law_sides_show_the_facts(facts: Seq<Fact>, at: int)
    ensures
        state_from(false, facts) == State::Absent,
        facts.len() == 0 ==> state_from(true, facts) == State::Unknown,
        0 <= at < facts.len() && facts[at].outcome == Outcome::Built ==> state_from(true, facts)
            == State::Built,
        0 <= at < facts.len() && facts[at].outcome == Outcome::Failed && (forall|i: int|
            0 <= i < facts.len() ==> (#[trigger] facts[i]).outcome != Outcome::Built) ==> state_from(
            true,
            facts,
        ) == State::Failed,
        0 <= at < facts.len() && (forall|i: int|
            0 <= i < facts.len() ==> (#[trigger] facts[i]).outcome == Outcome::DepFailed)
            ==> state_from(true, facts) == State::Blocked,
{
    if 0 <= at < facts.len() {
        assert(facts[at].outcome == Outcome::Built || facts[at].outcome == Outcome::Failed
            || facts[at].outcome == Outcome::DepFailed);
    }
}

/// An entry of the report takes its attr and its derivations from the change, and
/// the state of each side from the facts about the derivation on that side.
pub proof fn law_entries_show_their_change(
    e: Entry,
    c: evalfile::Change,
    log: Seq<store::LogData>,
)
    requires
        entry_for(e, c, log),
    ensures
        e.attr@ == c.attr,
        c.base is None ==> e.base_drv is None && e.base == State::Absent,
        c.head is None ==> e.head_drv is None && e.head == State::Absent,
        c.base is Some ==> e.base_drv is Some && e.base_drv->0@ == c.base->0 && e.base
            == state_from(true, store::facts_about(log, c.base->0)),
        c.head is Some ==> e.head_drv is Some && e.head_drv->0@ == c.head->0 && e.head
            == state_from(true, store::facts_about(log, c.head->0)),
{
}

/// No derivation is built twice for one system, and each is built under an attr and
/// a system that it stands in.
pub proof fn law_each_derivation_is_built_once(
    per_system: Seq<(String, Vec<ChangedAttr>)>,
    n: int,
)
    requires
        0 <= n <= per_system.len(),
    ensures
        forall|i: int, j: int|
            0 <= i < j < all_targets(per_system, n).len() ==> (#[trigger] all_targets(
                per_system,
                n,
            )[i]).1 != (#[trigger] all_targets(per_system, n)[j]).1 || all_targets(per_system, n)[i].2
                != all_targets(per_system, n)[j].2,
        forall|i: int|
            0 <= i < all_targets(per_system, n).len() ==> stands_in(
                per_system,
                n,
                #[trigger] all_targets(per_system, n)[i],
            ),
    decreases n,
{
    if n > 0 {
        law_each_derivation_is_built_once(per_system, n - 1);
        let before = all_targets(per_system, n - 1);
        let changed = per_system[n - 1].1@;
        assert forall|i: int| 0 <= i < before.len() implies stands_in(
            per_system,
            n,
            #[trigger] before[i],
        ) by {
            let (s, c) = choose|s: int, c: int|
                0 <= s < n - 1 && 0 <= c < per_system[s].1@.len() && #[trigger] stands_at(
                    per_system,
                    s,
                    c,
                    before[i],
                );
            assert(stands_at(per_system, s, c, before[i]));
        }
        lemma_changes_once(per_system, n, before, changed.len() as int);
    }
}

/// Whether a target stands on a side of the changed attr `c` of the system `s`.
pub open spec fn stands_at(
    per_system: Seq<(String, Vec<ChangedAttr>)>,
    s: int,
    c: int,
    t: TargetData,
) -> bool {
    let x = per_system[s].1@[c]@;
    t.0 == x.attr && t.1 == per_system[s].0@ && (x.base == Some(t.2) || x.head == Some(t.2))
}

/// Whether a target stands on a side of a changed attr of the first `n` systems.
pub open spec fn stands_in(
    per_system: Seq<(String, Vec<ChangedAttr>)>,
    n: int,
    t: TargetData,
) -> bool {
    exists|s: int, c: int|
        0 <= s < n && 0 <= c < per_system[s].1@.len() && #[trigger] stands_at(per_system, s, c, t)
}

proof fn lemma_side_once(
    per_system: Seq<(String, Vec<ChangedAttr>)>,
    n: int,
    c: int,
    list: Seq<TargetData>,
    drv: Option<Seq<char>>,
)
    requires
        0 < n <= per_system.len(),
        0 <= c < per_system[n - 1].1@.len(),
        drv == per_system[n - 1].1@[c]@.base || drv == per_system[n - 1].1@[c]@.head,
        forall|i: int, j: int|
            0 <= i < j < list.len() ==> (#[trigger] list[i]).1 != (#[trigger] list[j]).1 || list[i].2
                != list[j].2,
        forall|i: int| 0 <= i < list.len() ==> stands_in(per_system, n, #[trigger] list[i]),
    ensures
        ({
            let now = with_side(
                list,
                per_system[n - 1].1@[c]@.attr,
                per_system[n - 1].0@,
                drv,
            );
            &&& forall|i: int, j: int|
                0 <= i < j < now.len() ==> (#[trigger] now[i]).1 != (#[trigger] now[j]).1 || now[i].2
                    != now[j].2
            &&& forall|i: int| 0 <= i < now.len() ==> stands_in(per_system, n, #[trigger] now[i])
        }),
{
    let system = per_system[n - 1].0@;
    let attr = per_system[n - 1].1@[c]@.attr;
    let now = with_side(list, attr, system, drv);
    if now.len() > list.len() {
        let t = (attr, system, drv->0);
        assert(stands_at(per_system, n - 1, c, t));
        assert(stands_in(per_system, n, t));
        assert forall|i: int, j: int| 0 <= i < j < now.len() implies (#[trigger] now[i]).1 != (
        #[trigger] now[j]).1 || now[i].2 != now[j].2 by {
            assert(now[i] == list[i]);
            if j < list.len() {
                assert(now[j] == list[j]);
            }
        }
        assert forall|i: int| 0 <= i < now.len() implies stands_in(
            per_system,
            n,
            #[trigger] now[i],
        ) by {
            if i < list.len() {
                assert(now[i] == list[i]);
            }
        }
    }
}

proof fn lemma_changes_once(
    per_system: Seq<(String, Vec<ChangedAttr>)>,
    n: int,
    list: Seq<TargetData>,
    k: int,
)
    requires
        0 < n <= per_system.len(),
        0 <= k <= per_system[n - 1].1@.len(),
        forall|i: int, j: int|
            0 <= i < j < list.len() ==> (#[trigger] list[i]).1 != (#[trigger] list[j]).1 || list[i].2
                != list[j].2,
        forall|i: int| 0 <= i < list.len() ==> stands_in(per_system, n, #[trigger] list[i]),
    ensures
        ({
            let now = with_changes(list, per_system[n - 1].0@, per_system[n - 1].1@, k);
            &&& forall|i: int, j: int|
                0 <= i < j < now.len() ==> (#[trigger] now[i]).1 != (#[trigger] now[j]).1 || now[i].2
                    != now[j].2
            &&& forall|i: int| 0 <= i < now.len() ==> stands_in(per_system, n, #[trigger] now[i])
        }),
    decreases k,
{
    if k > 0 {
        lemma_changes_once(per_system, n, list, k - 1);
        let system = per_system[n - 1].0@;
        let before = with_changes(list, system, per_system[n - 1].1@, k - 1);
        let c = per_system[n - 1].1@[k - 1]@;
        lemma_side_once(per_system, n, k - 1, before, c.base);
        let mid = with_side(before, c.attr, system, c.base);
        lemma_side_once(per_system, n, k - 1, mid, c.head);
    }
}

/// What is to be written for a side is exactly what stands on that side of a changed
/// attr and is absent from the store.
pub proof fn law_only_absent_recipes_of_the_side_are_written(
    changed: Seq<ChangedAttr>,
    of_base: bool,
    absent: Set<Seq<char>>,
    n: int,
    attr: Seq<char>,
    d: Seq<char>,
)
    requires
        0 <= n <= changed.len(),
    ensures
        to_write(changed, of_base, absent, n).contains((attr, d)) <==> exists|i: int|
            0 <= i < n && (#[trigger] changed[i]).attr@ == attr && absent.contains(d) && (if of_base {
                text::opt(changed[i].base_drv)
            } else {
                text::opt(changed[i].head_drv)
            }) == Some(d),
    decreases n,
{
    if n > 0 {
        law_only_absent_recipes_of_the_side_are_written(changed, of_base, absent, n - 1, attr, d);
        let before = to_write(changed, of_base, absent, n - 1);
        let now = to_write(changed, of_base, absent, n);
        if before.contains((attr, d)) {
            let k = choose|k: int| 0 <= k < before.len() && before[k] == (attr, d);
            assert(now[k] == (attr, d));
        }
        if now.len() > before.len() {
            assert(now[before.len() as int] == (
                changed[n - 1].attr@,
                side_drv(changed[n - 1]@, of_base)->0,
            ));
        }
        if now.contains((attr, d)) && !before.contains((attr, d)) {
            let k = choose|k: int| 0 <= k < now.len() && now[k] == (attr, d);
            if k < before.len() {
                assert(before[k] == (attr, d));
            }
            assert(changed[n - 1].attr@ == attr);
        }
        if exists|i: int|
            0 <= i < n && (#[trigger] changed[i]).attr@ == attr && absent.contains(d) && (if of_base {
                text::opt(changed[i].base_drv)
            } else {
                text::opt(changed[i].head_drv)
            }) == Some(d) {
            let i = choose|i: int|
                0 <= i < n && (#[trigger] changed[i]).attr@ == attr && absent.contains(d) && (
                if of_base {
                    text::opt(changed[i].base_drv)
                } else {
                    text::opt(changed[i].head_drv)
                }) == Some(d);
            if i < n - 1 {
                assert(before.contains((attr, d)));
            }
        }
    }
}

/// A request is for one revision on one system, and for what is to be written there.
pub proof fn law_requests_name_their_side(
    r: InstRequest,
    rev: Rev,
    system: Seq<char>,
    changed: Seq<ChangedAttr>,
    of_base: bool,
    absent: Set<Seq<char>>,
)
    requires
        requests_side(r, rev, system, changed, of_base, absent),
    ensures
        r.rev.tree@ == rev.tree@,
        r.rev.commit@ == rev.commit@,
        r.rev.label@ == rev.label@,
        r.rev.display@ == rev.display@,
        r.system@ == system,
        r.attrs@.len() == to_write(changed, of_base, absent, changed.len() as int).len(),
        forall|i: int|
            0 <= i < r.attrs@.len() ==> ((#[trigger] r.attrs@[i]).0@, r.attrs@[i].1@) == to_write(
                changed,
                of_base,
                absent,
                changed.len() as int,
            )[i],
{
    assert forall|i: int| 0 <= i < r.attrs@.len() implies ((#[trigger] r.attrs@[i]).0@, r.attrs@[i].1@)
        == to_write(changed, of_base, absent, changed.len() as int)[i] by {
        assert(text_pairs(r.attrs@)[i] == (r.attrs@[i].0@, r.attrs@[i].1@));
    }
}

/// The report on some changes fails exactly where a row about a derivation on one of
/// their sides has a code that stands for nothing.
pub proof fn law_reports_fail_on_unreadable_rows_alone(
    log: Seq<store::LogData>,
    changed: Seq<ChangedAttr>,
    n: int,
)
    requires
        0 <= n <= changed.len(),
    ensures
        first_unreadable(log, changed, n) is None <==> forall|i: int|
            0 <= i < n ==> side_unreadable(log, (#[trigger] changed[i])@.base) is None
                && side_unreadable(log, changed[i]@.head) is None,
    decreases n,
{
    if n > 0 {
        law_reports_fail_on_unreadable_rows_alone(log, changed, n - 1);
        if first_unreadable(log, changed, n) is None {
            assert forall|i: int| 0 <= i < n implies side_unreadable(log, (#[trigger] changed[i])@.base)
                is None && side_unreadable(log, changed[i]@.head) is None by {
                if i == n - 1 {
                    assert(unreadable(log, changed[i]@.base, changed[i]@.head) is None);
                }
            }
        }
    }
}

/// A side without a derivation can always be read; one with a derivation exactly
/// where the codes of all rows about it stand for something.
pub proof fn law_sides_are_readable_by_their_rows(log: Seq<store::LogData>, d: Seq<char>)
    ensures
        side_unreadable(log, None) is None,
        side_unreadable(log, Some(d)) is None <==> forall|i: int|
            0 <= i < log.len() && (#[trigger] log[i]).drv == evalfile::stripped(d) ==> 0
                <= log[i].outcome <= 2,
{
    let stored = seq![evalfile::stripped(d)];
    let n = log.len() as int;
    if forall|i: int|
        0 <= i < n && (#[trigger] log[i]).drv == evalfile::stripped(d) ==> 0 <= log[i].outcome <= 2 {
        assert forall|k: int| 0 <= k < n implies !(stored.contains((#[trigger] log[k]).drv) && !(0
            <= log[k].outcome <= 2)) by {}
        store::law_the_first_unreadable_row_is_reported(log, stored, n, n);
    } else {
        let i = choose|i: int|
            0 <= i < n && (#[trigger] log[i]).drv == evalfile::stripped(d) && !(0 <= log[i].outcome
                <= 2);
        assert(stored[0] == log[i].drv);
        store::lemma_unknown_found(log, stored, n, i);
    }
}

/// Every derivation on a side of a changed attr is among the targets for its system.
pub proof fn law_every_side_has_a_target(
    per_system: Seq<(String, Vec<ChangedAttr>)>,
    s: int,
    c: int,
    d: Seq<char>,
)
    requires
        0 <= s < per_system.len(),
        0 <= c < per_system[s].1@.len(),
        text::opt(per_system[s].1@[c].base_drv) == Some(d) || text::opt(per_system[s].1@[c].head_drv)
            == Some(d),
    ensures
        exists|i: int|
            0 <= i < all_targets(per_system, per_system.len() as int).len() && (
            #[trigger] all_targets(per_system, per_system.len() as int)[i]).1 == per_system[s].0@
                && all_targets(per_system, per_system.len() as int)[i].2 == d,
{
    let n = per_system.len() as int;
    let changed = per_system[s].1@;
    assert(changed[c]@.base == Some(d) || changed[c]@.head == Some(d));
    assert(has_side(changed, d, changed.len() as int));
    law_both_sides_are_built(per_system, n, per_system[s].0@, d);
}

/// Targets keep their attr, system and derivation, one for one and in their order.
pub proof fn law_targets_say_what_their_fields_hold(v: Seq<SystemTarget>, i: int)
    ensures
        target_data(v).len() == v.len(),
        0 <= i < v.len() ==> target_data(v)[i].0 == v[i].attr@ && target_data(v)[i].1
            == v[i].system@ && target_data(v)[i].2 == v[i].drv_path@,
{
}

/// A target that stands in the changes has the attr of a change of its system, and the
/// derivation of one of that change's sides.
pub proof fn law_targets_stand_in_a_change(
    per_system: Seq<(String, Vec<ChangedAttr>)>,
    t: TargetData,
)
    requires
        stands_in(per_system, per_system.len() as int, t),
    ensures
        exists|s: int, c: int|
            0 <= s < per_system.len() && 0 <= c < per_system[s].1@.len() && t.1
                == per_system[s].0@ && t.0 == (#[trigger] per_system[s].1@[c]).attr@ && (
            text::opt(per_system[s].1@[c].base_drv) == Some(t.2) || text::opt(
                per_system[s].1@[c].head_drv,
            ) == Some(t.2)),
{
    let (s, c) = choose|s: int, c: int|
        0 <= s < per_system.len() && 0 <= c < per_system[s].1@.len() && #[trigger] stands_at(
            per_system,
            s,
            c,
            t,
        );
    assert(per_system[s].1@[c]@.attr == t.0);
}

} // verus!
