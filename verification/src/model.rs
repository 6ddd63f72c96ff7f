//! The data the rest of the library is organised around.
//!
//! Build facts are keyed on the derivation path, the stable identity of a
//! build recipe: it survives failures, unlike an output path, and commits that
//! share a recipe share it. Nothing here performs I/O.

use vstd::prelude::*;
use vstd::string::*;

use crate::text;

verus! {

/// A revision to evaluate.
///
/// An evaluation depends on the source tree alone, not on the commit that
/// carries it, so caches key on `tree`; `commit` realises that tree for
/// fetching, `label` identifies the side, and `display` is its human name.
#[derive(Debug, Clone, PartialEq, Eq)]
pub struct Rev {
    /// The git tree hash, the evaluation cache key.
    pub tree: String,
    /// A commit that realises `tree`.
    pub commit: String,
    /// A commit sha, or `worktree` for a synthetic working-tree head.
    pub label: String,
    /// The name of this side in the progress display.
    pub display: String,
}

/// Which meta-blocked packages an evaluation allows rather than throws on.
///
/// The profile is part of the evaluation cache key, by way of
/// [`Profile::qualify`], so evaluations under different profiles never collide.
#[derive(Debug, Clone, Copy, PartialEq, Eq, Structural)]
pub struct Profile {
    pub broken: bool,
    pub unsupported: bool,
    pub insecure: bool,
}

/// The letter of an allowed axis, or a dash.
pub open spec fn axis(on: bool, letter: char) -> char {
    if on {
        letter
    } else {
        '-'
    }
}

impl Profile {
    /// The three characters that name the profile.
    pub open spec fn token_text(self) -> Seq<char> {
        seq![axis(self.unsupported, 'u'), axis(self.broken, 'b'), axis(self.insecure, 'i')]
    }

    /// The storage key of an evaluation on `system` under this profile.
    pub open spec fn qualified(self, system: Seq<char>) -> Seq<char> {
        self.token_text() + seq!['/'] + system
    }

    /// One position each for unsupported, broken and insecure: its letter when
    /// allowed, else a dash. Strict is `---`, allow-everything `ubi`.
    pub fn token(&self) -> (r: String)
        ensures
            r@ == self.token_text(),
    {
        let mut r = String::new();
        r.push(if self.unsupported { 'u' } else { '-' });
        r.push(if self.broken { 'b' } else { '-' });
        r.push(if self.insecure { 'i' } else { '-' });
        assert(r@ =~= self.token_text());
        r
    }

    /// `<token>/<system>`: the directory of the evaluation files, and the
    /// system column of the evaluation keys.
    pub fn qualify(&self, system: &str) -> (r: String)
        ensures
            r@ == self.qualified(system@),
    {
        let mut r = self.token();
        r.push('/');
        r.append(system);
        assert(r@ =~= self.qualified(system@));
        r
    }
}

/// Two profiles share a storage key only if they and the systems are the same.
pub proof fn law_qualified_keys_never_collide(p: Profile, q: Profile, s: Seq<char>, t: Seq<char>)
    ensures
        p.qualified(s) == q.qualified(t) <==> p == q && s == t,
{
    let a = p.qualified(s);
    let b = q.qualified(t);
    assert(a[0] == axis(p.unsupported, 'u') && a[1] == axis(p.broken, 'b') && a[2] == axis(
        p.insecure,
        'i',
    ));
    assert(b[0] == axis(q.unsupported, 'u') && b[1] == axis(q.broken, 'b') && b[2] == axis(
        q.insecure,
        'i',
    ));
    assert(a.skip(4) =~= s);
    assert(b.skip(4) =~= t);
}

/// What a review covers. Attrs are matched exactly: no subtrees, no globs.
#[derive(Debug, Clone, PartialEq, Eq)]
pub enum Coverage {
    /// The whole changed set.
    All,
    /// The changed set minus these attrs.
    Except(Vec<String>),
    /// Exactly these attrs, resolved on both trees.
    Only(Vec<String>),
}

impl Default for Coverage {
    fn default() -> (r: Coverage)
        ensures
            r == Coverage::All,
    {
        Coverage::All
    }
}

impl Coverage {
    /// Whether an attr of the changed set survives.
    pub open spec fn keeps_attr(self, attr: Seq<char>) -> bool {
        match self {
            Coverage::Except(attrs) => !text::texts(attrs@).contains(attr),
            _ => true,
        }
    }

    /// The attrs a selection named, or `None` for a review of the changes.
    pub fn only(&self) -> (r: Option<&[String]>)
        ensures
            match *self {
                Coverage::Only(attrs) => r is Some && r->0@ == attrs@,
                _ => r is None,
            },
    {
        match self {
            Coverage::Only(attrs) => Some(attrs.as_slice()),
            _ => None,
        }
    }

    /// Whether this attr of the changed set survives: always, unless it was
    /// named to be left out.
    pub fn keeps(&self, attr: &str) -> (r: bool)
        ensures
            r == self.keeps_attr(attr@),
    {
        match self {
            Coverage::Except(attrs) => !text::has(attrs.as_slice(), attr),
            _ => true,
        }
    }
}

/// What one named attr evaluates to: a derivation; none, but it threw; or
/// nothing at that path at all.
#[derive(Debug, Clone, PartialEq, Eq)]
pub struct Resolved {
    pub drv_path: Option<String>,
    pub threw: bool,
}

impl Resolved {
    /// Nothing at that attr path on this tree.
    pub fn absent() -> (r: Resolved)
        ensures
            r.drv_path is None,
            !r.threw,
    {
        Resolved { drv_path: None, threw: false }
    }
}

/// The evaluation of one attr: `drv_path` is `None` when the attr threw.
#[derive(Debug, PartialEq, Eq)]
pub struct AttrEval {
    pub attr: String,
    pub drv_path: Option<String>,
}

impl AttrEval {
    /// The attr and the derivation, as texts.
    pub open spec fn view(self) -> (Seq<char>, Option<Seq<char>>) {
        (self.attr@, text::opt(self.drv_path))
    }
}

impl Clone for AttrEval {
    fn clone(&self) -> (r: AttrEval)
        ensures
            r@ == self@,
    {
        AttrEval { attr: self.attr.clone(), drv_path: text::copy_opt(&self.drv_path) }
    }
}

/// One entry of a package's tests: `drv_path` is `None` when the test errored.
#[derive(Debug, PartialEq, Eq)]
pub struct TestJob {
    /// The package the test hangs off.
    pub pkg_attr: String,
    /// The full `<pkg>.tests.<name>` label.
    pub test_attr: String,
    pub drv_path: Option<String>,
}

impl TestJob {
    /// The package, the label and the derivation, as texts.
    pub open spec fn view(self) -> (Seq<char>, Seq<char>, Option<Seq<char>>) {
        (self.pkg_attr@, self.test_attr@, text::opt(self.drv_path))
    }
}

impl Clone for TestJob {
    fn clone(&self) -> (r: TestJob)
        ensures
            r@ == self@,
    {
        TestJob {
            pkg_attr: self.pkg_attr.clone(),
            test_attr: self.test_attr.clone(),
            drv_path: text::copy_opt(&self.drv_path),
        }
    }
}

/// The result of a single build attempt or observation.
#[derive(Debug, Clone, Copy, PartialEq, Eq, Structural)]
pub enum Outcome {
    /// The outputs were seen valid: built here, or held by a substituter.
    Built,
    /// The derivation itself failed to build.
    Failed,
    /// A dependency failed; this derivation never ran.
    DepFailed,
}

/// One append-only fact about one derivation.
///
/// `blocker` holds the output paths whose validity decides a failure anew: the
/// culprit's outputs for a `DepFailed`, the derivation's own for a `Failed`.
#[derive(Debug, PartialEq)]
pub struct Observation {
    pub drv_path: String,
    pub outcome: Outcome,
    pub blocker: Vec<String>,
}

/// An observation as plain data.
#[verifier::ext_equal]
pub struct Fact {
    pub drv: Seq<char>,
    pub outcome: Outcome,
    pub blocker: Seq<Seq<char>>,
}

impl Observation {
    /// The observation as plain data.
    pub open spec fn view(self) -> Fact {
        Fact { drv: self.drv_path@, outcome: self.outcome, blocker: text::texts(self.blocker@) }
    }
}

impl Clone for Observation {
    fn clone(&self) -> (r: Observation)
        ensures
            r@ == self@,
    {
        Observation {
            drv_path: self.drv_path.clone(),
            outcome: self.outcome,
            blocker: text::copy_all(self.blocker.as_slice()),
        }
    }
}

/// A list of observations as plain data.
pub open spec fn facts(v: Seq<Observation>) -> Seq<Fact> {
    v.map_values(|o: Observation| o@)
}

/// What the build policy says to do about a derivation.
#[derive(Debug, Clone, Copy, PartialEq, Eq, Structural)]
pub enum Decision {
    /// Attempt it.
    Build,
    /// A success is recorded: do not rebuild.
    SkipOk,
    /// Only failures are recorded: do not waste time.
    SkipFail,
}

/// Turns the history of a derivation into an action.
#[derive(Debug, Clone, Copy, PartialEq, Eq, Structural)]
pub struct BuildPolicy {
    /// Attempt a derivation again that failed before.
    pub retry: bool,
}

impl Default for BuildPolicy {
    fn default() -> (r: BuildPolicy)
        ensures
            !r.retry,
    {
        BuildPolicy { retry: false }
    }
}

/// Whether `outcome` was ever observed.
pub open spec fn seen(history: Seq<Fact>, outcome: Outcome) -> bool {
    exists|i: int| 0 <= i < history.len() && (#[trigger] history[i]).outcome == outcome
}

/// The action for a history: a success is trusted; a direct failure is sticky;
/// a dependency block holds until it is stale; `retry` overrides failures.
pub open spec fn decision(retry: bool, history: Seq<Fact>, dep_block_stale: bool) -> Decision {
    if seen(history, Outcome::Built) {
        Decision::SkipOk
    } else if retry {
        Decision::Build
    } else if seen(history, Outcome::Failed) {
        Decision::SkipFail
    } else if seen(history, Outcome::DepFailed) && !dep_block_stale {
        Decision::SkipFail
    } else {
        Decision::Build
    }
}

/// Whether one of the observations has the outcome.
pub fn any_outcome(observations: &[Observation], outcome: Outcome) -> (r: bool)
    ensures
        r == seen(facts(observations@), outcome),
{
    let mut i: usize = 0;
    while i < observations.len()
        invariant
            i <= observations.len(),
            forall|j: int| 0 <= j < i ==> (#[trigger] facts(observations@)[j]).outcome != outcome,
        decreases observations.len() - i,
    {
        if observations[i].outcome == outcome {
            assert(facts(observations@)[i as int].outcome == outcome);
            return true;
        }
        i = i + 1;
    }
    false
}

impl BuildPolicy {
    /// Decides whether to build a derivation, given its observations and
    /// whether its dependency block is known to be stale.
    pub fn decide(&self, observations: &[Observation], dep_block_stale: bool) -> (d: Decision)
        ensures
            d == decision(self.retry, facts(observations@), dep_block_stale),
    {
        if any_outcome(observations, Outcome::Built) {
            return Decision::SkipOk;
        }
        if !self.retry {
            if any_outcome(observations, Outcome::Failed) {
                return Decision::SkipFail;
            }
            if any_outcome(observations, Outcome::DepFailed) && !dep_block_stale {
                return Decision::SkipFail;
            }
        }
        Decision::Build
    }
}

/// A recorded success decides, whatever else the history holds, and goes on
/// deciding whatever is observed later.
pub proof fn law_success_wins(
    history: Seq<Fact>,
    later: Seq<Fact>,
    at: int,
    retry: bool,
    dep_block_stale: bool,
)
    requires
        0 <= at < history.len(),
        history[at].outcome == Outcome::Built,
    ensures
        decision(retry, history + later, dep_block_stale) == Decision::SkipOk,
{
    assert((history + later)[at].outcome == Outcome::Built);
}

/// A direct failure without a success stays a reason to skip, however stale a
/// dependency block beside it is; only `retry` gets past it.
pub proof fn law_direct_failure_is_sticky(history: Seq<Fact>, dep_block_stale: bool)
    requires
        seen(history, Outcome::Failed),
        !seen(history, Outcome::Built),
    ensures
        decision(false, history, dep_block_stale) == Decision::SkipFail,
        decision(true, history, dep_block_stale) == Decision::Build,
{
}

/// A dependency block alone is trusted exactly while it is not stale.
pub proof fn law_dependency_block_heals(history: Seq<Fact>)
    requires
        seen(history, Outcome::DepFailed),
        !seen(history, Outcome::Failed),
        !seen(history, Outcome::Built),
    ensures
        decision(false, history, false) == Decision::SkipFail,
        decision(false, history, true) == Decision::Build,
{
}

/// The order in which facts were observed does not matter.
pub proof fn law_decision_ignores_order(
    a: Seq<Fact>,
    b: Seq<Fact>,
    retry: bool,
    dep_block_stale: bool,
)
    requires
        a.to_multiset() == b.to_multiset(),
    ensures
        decision(retry, a, dep_block_stale) == decision(retry, b, dep_block_stale),
{
    broadcast use vstd::seq_lib::group_to_multiset_ensures;

    assert forall|o: Outcome| seen(a, o) == seen(b, o) by {
        if seen(a, o) {
            let i = choose|i: int| 0 <= i < a.len() && (#[trigger] a[i]).outcome == o;
            assert(a.contains(a[i]));
            assert(a.to_multiset().count(a[i]) > 0);
            assert(b.contains(a[i]));
        }
        if seen(b, o) {
            let i = choose|i: int| 0 <= i < b.len() && (#[trigger] b[i]).outcome == o;
            assert(b.contains(b[i]));
            assert(b.to_multiset().count(b[i]) > 0);
            assert(a.contains(b[i]));
        }
    }
}

/// With a retry, everything that never was built is attempted, whatever failures
/// are recorded, with or without a culprit, stale or not.
pub proof fn law_retry_attempts_all_that_never_built(history: Seq<Fact>, dep_block_stale: bool)
    requires
        forall|i: int| 0 <= i < history.len() ==> (#[trigger] history[i]).outcome != Outcome::Built,
    ensures
        decision(true, history, dep_block_stale) == Decision::Build,
{
}

/// Without a retry, what never was built is skipped for one direct failure, be
/// that the first fact or the last, and for one dependency block only while that
/// is not stale.
pub proof fn law_one_failure_is_enough_to_skip(
    history: Seq<Fact>,
    at: int,
    dep_block_stale: bool,
)
    requires
        forall|i: int| 0 <= i < history.len() ==> (#[trigger] history[i]).outcome != Outcome::Built,
        0 <= at < history.len(),
    ensures
        history[at].outcome == Outcome::Failed ==> decision(false, history, dep_block_stale)
            == Decision::SkipFail,
        !dep_block_stale ==> decision(false, history, dep_block_stale) == Decision::SkipFail,
        dep_block_stale && (forall|i: int|
            0 <= i < history.len() ==> (#[trigger] history[i]).outcome != Outcome::Failed)
            ==> decision(false, history, dep_block_stale) == Decision::Build,
{
    assert(history[at].outcome == Outcome::Failed || history[at].outcome == Outcome::DepFailed);
}

/// What was never observed is attempted, and only a success is trusted as one.
pub proof fn law_nothing_is_trusted_unseen(history: Seq<Fact>, retry: bool, dep_block_stale: bool)
    ensures
        history.len() == 0 ==> decision(retry, history, dep_block_stale) == Decision::Build,
        decision(retry, history, dep_block_stale) == Decision::SkipOk ==> exists|i: int|
            0 <= i < history.len() && (#[trigger] history[i]).outcome == Outcome::Built,
        retry ==> decision(retry, history, dep_block_stale) != Decision::SkipFail,
{
}

/// What else a fact holds, its derivation and its paths, does not count: only the
/// outcomes decide.
pub proof fn law_only_outcomes_decide(
    a: Seq<Fact>,
    b: Seq<Fact>,
    retry: bool,
    dep_block_stale: bool,
)
    requires
        a.len() == b.len(),
        forall|i: int|
            0 <= i < a.len() ==> (#[trigger] a[i]).outcome == (#[trigger] b[i]).outcome,
    ensures
        decision(retry, a, dep_block_stale) == decision(retry, b, dep_block_stale),
{
    assert forall|o: Outcome| seen(a, o) == seen(b, o) by {
        if seen(a, o) {
            let i = choose|i: int| 0 <= i < a.len() && (#[trigger] a[i]).outcome == o;
            assert(b[i].outcome == o);
        }
        if seen(b, o) {
            let i = choose|i: int| 0 <= i < b.len() && (#[trigger] b[i]).outcome == o;
            assert(a[i].outcome == o);
        }
    }
}

/// The name of a profile has a place for each axis, which shows its letter exactly
/// where the axis is allowed; a storage key is that name, a slash and the system.
pub proof fn law_names_spell_the_profile(p: Profile, system: Seq<char>)
    ensures
        p.token_text().len() == 3,
        p.token_text()[0] == 'u' <==> p.unsupported,
        p.token_text()[1] == 'b' <==> p.broken,
        p.token_text()[2] == 'i' <==> p.insecure,
        p.token_text()[0] == '-' <==> !p.unsupported,
        p.token_text()[1] == '-' <==> !p.broken,
        p.token_text()[2] == '-' <==> !p.insecure,
        p.qualified(system).take(3) == p.token_text(),
        p.qualified(system)[3] == '/',
        p.qualified(system).skip(4) == system,
{
    assert(p.qualified(system).take(3) =~= p.token_text());
    assert(p.qualified(system).skip(4) =~= system);
}

/// A review leaves out exactly the attrs that were named to be left out, letter
/// for letter, and a review of anything else leaves out none.
pub proof fn law_only_named_attrs_are_left_out(attrs: Vec<String>, i: int, attr: Seq<char>)
    ensures
        Coverage::All.keeps_attr(attr),
        Coverage::Only(attrs).keeps_attr(attr),
        0 <= i < attrs@.len() ==> !Coverage::Except(attrs).keeps_attr(attrs@[i]@),
        (forall|k: int| 0 <= k < attrs@.len() ==> (#[trigger] attrs@[k])@ != attr)
            ==> Coverage::Except(attrs).keeps_attr(attr),
{
    let all = text::texts(attrs@);
    if 0 <= i < attrs@.len() {
        assert(all[i] == attrs@[i]@);
        assert(all.contains(attrs@[i]@));
    }
    if !Coverage::Except(attrs).keeps_attr(attr) {
        let k = choose|k: int| 0 <= k < all.len() && all[k] == attr;
        assert(attrs@[k]@ == attr);
    }
}

/// What is said of an evaluation, a test and an observation is what their fields hold.
pub proof fn law_values_say_what_their_fields_hold(e: AttrEval, t: TestJob, o: Observation, i: int)
    ensures
        e@.0 == e.attr@,
        e@.1 is Some <==> e.drv_path is Some,
        e.drv_path is Some ==> e@.1->0 == e.drv_path->0@,
        t@.0 == t.pkg_attr@,
        t@.1 == t.test_attr@,
        t@.2 is Some <==> t.drv_path is Some,
        t.drv_path is Some ==> t@.2->0 == t.drv_path->0@,
        o@.drv == o.drv_path@,
        o@.outcome == o.outcome,
        o@.blocker.len() == o.blocker@.len(),
        0 <= i < o.blocker@.len() ==> o@.blocker[i] == o.blocker@[i]@,
{
}

/// The facts of observations are theirs, one for one and in their order.
pub proof fn law_facts_are_those_of_the_observations(v: Seq<Observation>, i: int)
    ensures
        facts(v).len() == v.len(),
        0 <= i < v.len() ==> facts(v)[i].drv == v[i].drv_path@ && facts(v)[i].outcome
            == v[i].outcome && facts(v)[i].blocker == text::texts(v[i].blocker@),
{
}

} // verus!
