//! The fact store: the append-only log of observations, and the caches of what
//! evaluating tests, checking attrs and applying patches gave.
//!
//! The store holds its rows in the form in which they are kept on disk; a row
//! is decoded when it is read.

use vstd::prelude::*;
use vstd::string::*;

use crate::evalfile;
use crate::model;
use crate::model::{Fact, Observation, Outcome};
use crate::ordered::{StringMap, StringSet};
use crate::table;
use crate::table::{Key, Table};
use crate::text;

verus! {

/// Why a read failed.
#[derive(Debug, Clone, Copy, PartialEq, Eq, Structural)]
pub enum StoreError {
    /// A row of the log has an outcome code that stands for nothing.
    UnknownOutcome(i64),
}

// --- how an observation is kept ----------------------------------------------

/// The code of an outcome. Codes are fixed for good: what one version wrote,
/// another reads.
pub open spec fn code_of(o: Outcome) -> i64 {
    match o {
        Outcome::Built => 0,
        Outcome::Failed => 1,
        Outcome::DepFailed => 2,
    }
}

/// The outcome that a code stands for.
pub open spec fn outcome_of(c: i64) -> Option<Outcome> {
    if c == 0 {
        Some(Outcome::Built)
    } else if c == 1 {
        Some(Outcome::Failed)
    } else if c == 2 {
        Some(Outcome::DepFailed)
    } else {
        None
    }
}

/// The code of an outcome.
pub fn outcome_code(o: Outcome) -> (c: i64)
    ensures
        c == code_of(o),
{
    match o {
        Outcome::Built => 0,
        Outcome::Failed => 1,
        Outcome::DepFailed => 2,
    }
}

/// The outcome that a code stands for.
pub fn outcome_from_code(c: i64) -> (r: Result<Outcome, StoreError>)
    ensures
        match r {
            Ok(o) => outcome_of(c) == Some(o),
            Err(e) => outcome_of(c) is None && e == StoreError::UnknownOutcome(c),
        },
{
    if c == 0 {
        Ok(Outcome::Built)
    } else if c == 1 {
        Ok(Outcome::Failed)
    } else if c == 2 {
        Ok(Outcome::DepFailed)
    } else {
        Err(StoreError::UnknownOutcome(c))
    }
}

/// Every outcome comes back from its code, and no two share one.
pub proof fn law_outcomes_come_back(o: Outcome, c: i64)
    ensures
        outcome_of(code_of(o)) == Some(o),
        outcome_of(c) == Some(o) ==> code_of(o) == c,
{
}

/// An output path without `/nix/store/` in front.
pub open spec fn stripped_out(p: Seq<char>) -> Seq<char> {
    if text::begins(p, "/nix/store/"@) {
        p.skip("/nix/store/"@.len() as int)
    } else {
        p
    }
}

/// An output path with `/nix/store/` in front.
pub open spec fn restored_out(p: Seq<char>) -> Seq<char> {
    "/nix/store/"@ + p
}

/// The stored form of an output path.
pub fn strip_out(p: &str) -> (r: String)
    ensures
        r@ == stripped_out(p@),
{
    let v = text::chars_of(p);
    let s = text::chars_of("/nix/store/");
    assert(v@.skip(0) =~= v@);
    if text::stands_at(v.as_slice(), s.as_slice(), 0) {
        let r = text::string_between(v.as_slice(), s.len(), v.len());
        assert(r@ =~= p@.skip(s@.len() as int));
        r
    } else {
        text::copy(p)
    }
}

/// The output path of a stored one.
pub fn restore_out(p: &str) -> (r: String)
    ensures
        r@ == restored_out(p@),
{
    let mut r = "/nix/store/".to_owned();
    r.append(p);
    r
}

/// A row of the log as it is kept: the derivation in stored form, the code of
/// the outcome, and the blocking paths in stored form, each on a line, where
/// there are any.
#[derive(Debug, PartialEq, Eq)]
pub struct LogRow {
    pub drv: String,
    pub outcome: i64,
    pub blocker: Option<String>,
}

/// A row of the log as plain data.
#[verifier::ext_equal]
pub struct LogData {
    pub drv: Seq<char>,
    pub outcome: i64,
    pub blocker: Option<Seq<char>>,
}

impl LogRow {
    /// The row as plain data.
    pub open spec fn view(self) -> LogData {
        LogData { drv: self.drv@, outcome: self.outcome, blocker: text::opt(self.blocker) }
    }
}

/// The blocking paths on their lines, where there are any.
pub open spec fn blocker_column(paths: Seq<Seq<char>>) -> Option<Seq<char>> {
    if paths.len() == 0 {
        None
    } else {
        Some(text::joined(paths.map_values(|p: Seq<char>| stripped_out(p)), "\n"@))
    }
}

/// The blocking paths of a column.
pub open spec fn blocker_paths(column: Option<Seq<char>>) -> Seq<Seq<char>> {
    match column {
        Some(s) if s.len() > 0 => text::split_on(s, '\n').map_values(
            |p: Seq<char>| restored_out(p),
        ),
        _ => Seq::empty(),
    }
}

/// How a fact is kept.
pub open spec fn encoded(f: Fact) -> LogData {
    LogData {
        drv: evalfile::stripped(f.drv),
        outcome: code_of(f.outcome),
        blocker: blocker_column(f.blocker),
    }
}

/// The fact that a row stands for, unless its code stands for nothing.
pub open spec fn decoded(r: LogData) -> Option<Fact> {
    match outcome_of(r.outcome) {
        Some(o) => Some(
            Fact { drv: evalfile::restored(r.drv), outcome: o, blocker: blocker_paths(r.blocker) },
        ),
        None => None,
    }
}

/// Whether a fact comes back as it was: its derivation is of the store's shape,
/// and its blocking paths are below the store, without line feeds, and not a
/// single one with nothing below.
pub open spec fn keepable(f: Fact) -> bool {
    &&& evalfile::store_drv(f.drv)
    &&& forall|i: int|
        0 <= i < f.blocker.len() ==> text::begins(#[trigger] f.blocker[i], "/nix/store/"@)
            && text::lacks(f.blocker[i], '\n')
    &&& f.blocker.len() == 1 ==> f.blocker[0].len() > "/nix/store/"@.len()
}

/// A fact that is kept comes back as it was.
pub proof fn law_facts_come_back(f: Fact)
    requires
        keepable(f),
    ensures
        decoded(encoded(f)) == Some(f),
{
    evalfile::law_strip_then_restore(f.drv);
    let paths = f.blocker;
    let p = "/nix/store/"@;
    if paths.len() == 0 {
        assert(blocker_paths(blocker_column(paths)) =~= paths);
    } else {
        let parts = paths.map_values(|p: Seq<char>| stripped_out(p));
        assert forall|i: int| 0 <= i < parts.len() implies text::lacks(#[trigger] parts[i], '\n')
            by {
            assert(text::begins(paths[i], p));
            assert forall|k: int| 0 <= k < parts[i].len() implies parts[i][k] != '\n' by {
                assert(parts[i][k] == paths[i][k + p.len()]);
            }
        }
        text::lemma_split_of_joined(parts, '\n');
        let col = text::joined(parts, "\n"@);
        reveal_strlit("\n");
        assert("\n"@ =~= seq!['\n']);
        assert(col.len() > 0) by {
            text::lemma_joined_first(parts, "\n"@);
            if paths.len() == 1 {
                assert(text::begins(paths[0], p));
                assert(parts[0].len() > 0);
            }
        }
        let back = text::split_on(col, '\n').map_values(|p: Seq<char>| restored_out(p));
        assert forall|i: int| 0 <= i < paths.len() implies back[i] == paths[i] by {
            assert(text::begins(paths[i], p));
            assert(paths[i].take(p.len() as int) == p);
            assert(restored_out(stripped_out(paths[i])) =~= paths[i]) by {
                assert(paths[i] =~= paths[i].take(p.len() as int) + paths[i].skip(p.len() as int));
            }
        }
        assert(back =~= paths);
    }
    assert(decoded(encoded(f))->0 =~= f);
}

/// The row in which an observation is kept.
pub fn log_row(o: &Observation) -> (r: LogRow)
    ensures
        r@ == encoded(o@),
{
    let blocker = if o.blocker.len() == 0 {
        None
    } else {
        let ghost all = text::texts(o.blocker@);
        let ghost want = all.map_values(|p: Seq<char>| stripped_out(p));
        let mut parts: Vec<String> = Vec::new();
        let mut i: usize = 0;
        while i < o.blocker.len()
            invariant
                i <= o.blocker@.len(),
                all == text::texts(o.blocker@),
                want == all.map_values(|p: Seq<char>| stripped_out(p)),
                text::texts(parts@) == want.take(i as int),
            decreases o.blocker@.len() - i,
        {
            let p = strip_out(o.blocker[i].as_str());
            proof {
                text::lemma_texts_push(parts@, p);
                assert(want.take(i + 1) =~= want.take(i as int).push(want[i as int]));
            }
            parts.push(p);
            i = i + 1;
        }
        assert(want.take(i as int) =~= want);
        Some(text::join(parts.as_slice(), "\n"))
    };
    assert(text::texts(o.blocker@).len() == o.blocker@.len());
    LogRow {
        drv: evalfile::strip_drv(o.drv_path.as_str()),
        outcome: outcome_code(o.outcome),
        blocker,
    }
}

/// The observation that a row stands for.
pub fn observation_of(row: &LogRow) -> (r: Result<Observation, StoreError>)
    ensures
        match r {
            Ok(o) => decoded(row@) == Some(o@),
            Err(e) => decoded(row@) is None && e == StoreError::UnknownOutcome(row.outcome),
        },
{
    let outcome = match outcome_from_code(row.outcome) {
        Ok(o) => o,
        Err(e) => return Err(e),
    };
    let mut blocker: Vec<String> = Vec::new();
    assert(text::texts(blocker@) =~= Seq::<Seq<char>>::empty());
    if let Some(s) = &row.blocker {
        if s.as_str().unicode_len() > 0 {
            let parts = text::split(s.as_str(), '\n');
            let ghost all = text::texts(parts@);
            let ghost want = all.map_values(|p: Seq<char>| restored_out(p));
            let mut i: usize = 0;
            assert(text::texts(blocker@) =~= want.take(0));
            while i < parts.len()
                invariant
                    i <= parts@.len(),
                    all == text::texts(parts@),
                    want == all.map_values(|p: Seq<char>| restored_out(p)),
                    text::texts(blocker@) == want.take(i as int),
                decreases parts@.len() - i,
            {
                let p = restore_out(parts[i].as_str());
                proof {
                    text::lemma_texts_push(blocker@, p);
                    assert(want.take(i + 1) =~= want.take(i as int).push(want[i as int]));
                }
                blocker.push(p);
                i = i + 1;
            }
            assert(want.take(i as int) =~= want);
        }
    }
    let o = Observation { drv_path: evalfile::restore_path(row.drv.as_str()), outcome, blocker };
    assert(o@ =~= decoded(row@)->0);
    Ok(o)
}

// --- the log -----------------------------------------------------------------

/// Whether a row is about one of some derivations, given in stored form.
pub open spec fn about(row: LogData, stored: Seq<Seq<char>>) -> bool {
    stored.contains(row.drv)
}

/// The first row about one of some derivations whose code stands for nothing.
pub open spec fn first_unknown(log: Seq<LogData>, stored: Seq<Seq<char>>, n: int) -> Option<i64>
    decreases n,
{
    if n <= 0 {
        None
    } else {
        match first_unknown(log, stored, n - 1) {
            Some(c) => Some(c),
            None => if about(log[n - 1], stored) && decoded(log[n - 1]) is None {
                Some(log[n - 1].outcome)
            } else {
                None
            },
        }
    }
}

/// The facts about a derivation, given in stored form, among the first `n`
/// rows, the oldest first.
pub open spec fn history(log: Seq<LogData>, stored: Seq<char>, n: int) -> Seq<Fact>
    decreases n,
{
    if n <= 0 {
        Seq::empty()
    } else if log[n - 1].drv == stored && decoded(log[n - 1]) is Some {
        history(log, stored, n - 1).push(decoded(log[n - 1])->0)
    } else {
        history(log, stored, n - 1)
    }
}

/// Whether the log says anything about a derivation, given in stored form,
/// among the first `n` rows.
pub open spec fn mentioned(log: Seq<LogData>, stored: Seq<char>, n: int) -> bool {
    exists|i: int| 0 <= i < n && (#[trigger] log[i]).drv == stored
}

/// Derivations in stored form.
pub open spec fn stored_all(drvs: Seq<Seq<char>>) -> Seq<Seq<char>> {
    drvs.map_values(|d: Seq<char>| evalfile::stripped(d))
}

/// Whether a derivation, given in stored form, has failures only among the
/// first `n` rows: at least one row, and none that says it was built.
pub open spec fn only_fails(log: Seq<LogData>, stored: Seq<char>, n: int) -> bool {
    mentioned(log, stored, n) && forall|i: int|
        0 <= i < n && (#[trigger] log[i]).drv == stored ==> log[i].outcome != code_of(
            Outcome::Built,
        )
}

/// The store.
pub struct Store {
    log: Vec<LogRow>,
    test_pkgs: Table<()>,
    test_drvs: Table<(String, bool)>,
    blocks: Table<bool>,
    patches: Table<String>,
}

/// Which facts a map from derivations to histories is to hold: every
/// derivation asked for that the log mentions, with its whole history.
pub open spec fn holds_histories(
    m: Map<Seq<char>, Vec<Observation>>,
    log: Seq<LogData>,
    stored: Seq<Seq<char>>,
    n: int,
) -> bool {
    &&& forall|k: Seq<char>|
        #![trigger m.contains_key(k)]
        m.contains_key(k) <==> exists|i: int|
            0 <= i < n && about(#[trigger] log[i], stored) && k == evalfile::restored(log[i].drv)
    &&& forall|i: int|
        0 <= i < n && about(#[trigger] log[i], stored) ==> model::facts(
            m[evalfile::restored(log[i].drv)]@,
        ) == history(log, log[i].drv, n)
}

proof fn lemma_restored_injective(a: Seq<char>, b: Seq<char>)
    requires
        evalfile::restored(a) == evalfile::restored(b),
    ensures
        a == b,
{
    evalfile::law_restore_then_strip(a);
    evalfile::law_restore_then_strip(b);
}

impl Store {
    /// The rows of the log, the oldest first.
    pub closed spec fn log(self) -> Seq<LogData> {
        self.log@.map_values(|r: LogRow| r@)
    }

    /// The packages whose tests were evaluated: by tree, system and package.
    pub closed spec fn test_pkgs(self) -> Map<Key, ()> {
        self.test_pkgs@
    }

    /// The tests: by tree, system, package and test, the derivation in stored
    /// form and whether the test is skipped.
    pub closed spec fn test_drvs(self) -> Map<Key, (String, bool)> {
        self.test_drvs@
    }

    /// The verdicts on attrs: by tree, system and attr.
    pub closed spec fn blocks(self) -> Map<Key, bool> {
        self.blocks@
    }

    /// The trees that patches gave: by the commit and the patch.
    pub closed spec fn patches(self) -> Map<Key, String> {
        self.patches@
    }

    /// How many tests are kept under some columns.
    pub open spec fn tests_under(self, prefix: Key) -> nat {
        self.test_drvs().dom().filter(|k: Key| table::under(k, prefix)).len()
    }

    /// The tables are in order.
    pub closed spec fn wf(self) -> bool {
        &&& self.test_pkgs.wf()
        &&& self.test_drvs.wf()
        &&& self.blocks.wf()
        &&& self.patches.wf()
    }

    /// Whether everything but the log is as in another store.
    pub open spec fn caches_as(self, other: Store) -> bool {
        &&& self.test_pkgs() == other.test_pkgs()
        &&& self.test_drvs() == other.test_drvs()
        &&& self.blocks() == other.blocks()
        &&& self.patches() == other.patches()
    }

    /// An empty store.
    pub fn new() -> (r: Store)
        ensures
            r.wf(),
            r.log() == Seq::<LogData>::empty(),
            r.test_pkgs() == Map::<Key, ()>::empty(),
            r.test_drvs() == Map::<Key, (String, bool)>::empty(),
            r.blocks() == Map::<Key, bool>::empty(),
            r.patches() == Map::<Key, String>::empty(),
    {
        let r = Store {
            log: Vec::new(),
            test_pkgs: Table::new(),
            test_drvs: Table::new(),
            blocks: Table::new(),
            patches: Table::new(),
        };
        assert(r.log() =~= Seq::<LogData>::empty());
        r
    }

    /// Puts a row that was kept back into the log, behind those that are there.
    pub fn restore_row(&mut self, row: LogRow)
        requires
            old(self).wf(),
        ensures
            final(self).wf(),
            final(self).log() == old(self).log().push(row@),
            final(self).caches_as(*old(self)),
    {
        let ghost was = self.log();
        self.log.push(row);
        assert(self.log() =~= was.push(row@));
    }

    /// How many rows the log has.
    pub fn log_len(&self) -> (n: usize)
        ensures
            n == self.log().len(),
    {
        self.log.len()
    }

    /// One row of the log.
    pub fn row(&self, i: usize) -> (r: &LogRow)
        requires
            i < self.log().len(),
        ensures
            r@ == self.log()[i as int],
    {
        &self.log[i]
    }

    /// Appends an observation to the log. Nothing in the log ever changes.
    pub fn add_observation(&mut self, o: &Observation)
        requires
            old(self).wf(),
        ensures
            final(self).wf(),
            final(self).log() == old(self).log().push(encoded(o@)),
            final(self).caches_as(*old(self)),
    {
        self.restore_row(log_row(o));
    }

    /// Appends a success for each of some derivations, as a substituter has
    /// them.
    pub fn record_cache_hits(&mut self, drvs: &[String])
        requires
            old(self).wf(),
        ensures
            final(self).wf(),
            final(self).log() == old(self).log() + text::texts(drvs@).map_values(
                |d: Seq<char>| encoded(built(d)),
            ),
            final(self).caches_as(*old(self)),
    {
        let ghost all = text::texts(drvs@);
        let ghost rows = all.map_values(|d: Seq<char>| encoded(built(d)));
        let ghost was = self.log();
        let mut i: usize = 0;
        assert(was + rows.take(0) =~= was);
        while i < drvs.len()
            invariant
                i <= drvs@.len(),
                all == text::texts(drvs@),
                rows == all.map_values(|d: Seq<char>| encoded(built(d))),
                self.wf(),
                self.log() == was + rows.take(i as int),
                self.caches_as(*old(self)),
            decreases drvs@.len() - i,
        {
            let o = Observation {
                drv_path: drvs[i].clone(),
                outcome: Outcome::Built,
                blocker: Vec::new(),
            };
            assert(o@ =~= built(all[i as int]));
            self.add_observation(&o);
            assert(self.log() =~= was + rows.take(i + 1));
            i = i + 1;
        }
        assert(rows.take(i as int) =~= rows);
    }

    /// The histories of some derivations, each with the oldest observation
    /// first. A derivation that the log does not mention is not in the map.
    pub fn load_observations_many(&self, drvs: &[String]) -> (r: Result<
        StringMap<Vec<Observation>>,
        StoreError,
    >)
        ensures
            match r {
                Ok(m) => {
                    let stored = stored_all(text::texts(drvs@));
                    let n = self.log().len() as int;
                    &&& m.wf()
                    &&& first_unknown(self.log(), stored, n) is None
                    &&& holds_histories(m@, self.log(), stored, n)
                },
                Err(StoreError::UnknownOutcome(c)) => first_unknown(
                    self.log(),
                    stored_all(text::texts(drvs@)),
                    self.log().len() as int,
                ) == Some(c),
            },
    {
        let ghost stored = stored_all(text::texts(drvs@));
        let ghost log = self.log();
        let mut wanted: Vec<String> = Vec::new();
        let mut k: usize = 0;
        while k < drvs.len()
            invariant
                k <= drvs@.len(),
                stored == stored_all(text::texts(drvs@)),
                text::texts(wanted@) == stored.take(k as int),
            decreases drvs@.len() - k,
        {
            let d = evalfile::strip_drv(drvs[k].as_str());
            proof {
                text::lemma_texts_push(wanted@, d);
                assert(stored.take(k + 1) =~= stored.take(k as int).push(stored[k as int]));
            }
            wanted.push(d);
            k = k + 1;
        }
        assert(stored.take(k as int) =~= stored);
        let mut m: StringMap<Vec<Observation>> = StringMap::new();
        let mut i: usize = 0;
        while i < self.log.len()
            invariant
                i <= self.log@.len(),
                log == self.log(),
                log.len() == self.log@.len(),
                stored == stored_all(text::texts(drvs@)),
                text::texts(wanted@) == stored,
                m.wf(),
                first_unknown(log, stored, i as int) is None,
                holds_histories(m@, log, stored, i as int),
            decreases self.log@.len() - i,
        {
            let row = &self.log[i];
            assert(log[i as int] == row@);
            let ghost was = m@;
            if text::has(wanted.as_slice(), row.drv.as_str()) {
                match observation_of(row) {
                    Err(e) => {
                        proof {
                            lemma_unknown_stays(log, stored, i + 1, log.len() as int);
                        }
                        return Err(e);
                    },
                    Ok(o) => {
                        let key = o.drv_path.clone();
                        let ghost fact = o@;
                        m.append(key.as_str(), o);
                        proof {
                            lemma_history_step(was, m@, log, stored, i as int, fact, o);
                        }
                    },
                }
            } else {
                proof {
                    lemma_history_skip(m@, log, stored, i as int);
                }
            }
            i = i + 1;
        }
        Ok(m)
    }
}

/// A success without anything more.
pub open spec fn built(drv: Seq<char>) -> Fact {
    Fact { drv, outcome: Outcome::Built, blocker: Seq::empty() }
}

proof fn lemma_unknown_stays(log: Seq<LogData>, stored: Seq<Seq<char>>, i: int, n: int)
    requires
        i <= n,
        first_unknown(log, stored, i) is Some,
    ensures
        first_unknown(log, stored, n) == first_unknown(log, stored, i),
    decreases n - i,
{
    if i < n {
        lemma_unknown_stays(log, stored, i, n - 1);
    }
}

proof fn lemma_history_skip(
    m: Map<Seq<char>, Vec<Observation>>,
    log: Seq<LogData>,
    stored: Seq<Seq<char>>,
    i: int,
)
    requires
        0 <= i < log.len(),
        !about(log[i], stored),
        holds_histories(m, log, stored, i),
    ensures
        holds_histories(m, log, stored, i + 1),
{
    assert forall|k: Seq<char>|
        #![trigger m.contains_key(k)]
        m.contains_key(k) <==> exists|j: int|
            0 <= j < i + 1 && about(#[trigger] log[j], stored) && k == evalfile::restored(
                log[j].drv,
            ) by {
        if m.contains_key(k) {
            let j = choose|j: int|
                0 <= j < i && about(#[trigger] log[j], stored) && k == evalfile::restored(log[j].drv);
            assert(about(log[j], stored));
        }
    }
    assert forall|j: int| 0 <= j < i + 1 && about(#[trigger] log[j], stored) implies model::facts(
        m[evalfile::restored(log[j].drv)]@,
    ) == history(log, log[j].drv, i + 1) by {
        assert(log[j].drv != log[i].drv);
    }
}

proof fn lemma_history_step(
    was: Map<Seq<char>, Vec<Observation>>,
    m: Map<Seq<char>, Vec<Observation>>,
    log: Seq<LogData>,
    stored: Seq<Seq<char>>,
    i: int,
    fact: Fact,
    o: Observation,
)
    requires
        0 <= i < log.len(),
        about(log[i], stored),
        decoded(log[i]) == Some(fact),
        o@ == fact,
        holds_histories(was, log, stored, i),
        m.dom() == was.dom().insert(fact.drv),
        m[fact.drv]@ == crate::ordered::listed(was, fact.drv).push(o),
        forall|k: Seq<char>| k != fact.drv && was.contains_key(k) ==> #[trigger] m[k] == was[k],
    ensures
        holds_histories(m, log, stored, i + 1),
{
    let key = fact.drv;
    assert(key == evalfile::restored(log[i].drv));
    assert forall|k: Seq<char>|
        #![trigger m.contains_key(k)]
        m.contains_key(k) <==> exists|j: int|
            0 <= j < i + 1 && about(#[trigger] log[j], stored) && k == evalfile::restored(
                log[j].drv,
            ) by {
        assert(m.contains_key(k) == (was.contains_key(k) || k == key));
        if was.contains_key(k) {
            let j = choose|j: int|
                0 <= j < i && about(#[trigger] log[j], stored) && k == evalfile::restored(log[j].drv);
            assert(about(log[j], stored));
        }
        if exists|j: int|
            0 <= j < i + 1 && about(#[trigger] log[j], stored) && k == evalfile::restored(log[j].drv) {
            let j = choose|j: int|
                0 <= j < i + 1 && about(#[trigger] log[j], stored) && k == evalfile::restored(
                    log[j].drv,
                );
            if j < i {
                assert(was.contains_key(k));
            }
        }
    }
    assert forall|j: int| 0 <= j < i + 1 && about(#[trigger] log[j], stored) implies model::facts(
        m[evalfile::restored(log[j].drv)]@,
    ) == history(log, log[j].drv, i + 1) by {
        let k = evalfile::restored(log[j].drv);
        if log[j].drv == log[i].drv {
            let before = crate::ordered::listed(was, key);
            assert(model::facts(before) =~= history(log, log[i].drv, i)) by {
                if was.contains_key(key) {
                    let w = choose|w: int|
                        0 <= w < i && about(#[trigger] log[w], stored) && key == evalfile::restored(
                            log[w].drv,
                        );
                    lemma_restored_injective(log[w].drv, log[i].drv);
                } else {
                    lemma_no_history(log, stored, log[i].drv, was, i, i);
                    assert(model::facts(before) =~= Seq::<Fact>::empty());
                }
            }
            assert(model::facts(before.push(o)) =~= model::facts(before).push(fact));
        } else {
            if k == key {
                lemma_restored_injective(log[j].drv, log[i].drv);
            }
            assert(j < i);
            assert(was.contains_key(k));
        }
    }
}

proof fn lemma_no_history(
    log: Seq<LogData>,
    stored: Seq<Seq<char>>,
    drv: Seq<char>,
    m: Map<Seq<char>, Vec<Observation>>,
    i: int,
    n: int,
)
    requires
        0 <= n <= i <= log.len(),
        stored.contains(drv),
        holds_histories(m, log, stored, i),
        !m.contains_key(evalfile::restored(drv)),
    ensures
        history(log, drv, n) == Seq::<Fact>::empty(),
    decreases n,
{
    if n > 0 {
        lemma_no_history(log, stored, drv, m, i, n - 1);
        if log[n - 1].drv == drv {
            assert(about(log[n - 1], stored));
            assert(m.contains_key(evalfile::restored(log[n - 1].drv)));
        }
    }
}

/// All facts about a derivation, the oldest first. There are none about what
/// is no path of a recipe in the store.
pub open spec fn facts_about(log: Seq<LogData>, drv: Seq<char>) -> Seq<Fact> {
    if evalfile::restored(evalfile::stripped(drv)) == drv {
        history(log, evalfile::stripped(drv), log.len() as int)
    } else {
        Seq::empty()
    }
}

/// A map of histories holds all facts about each derivation asked for.
pub proof fn lemma_histories(
    m: Map<Seq<char>, Vec<Observation>>,
    log: Seq<LogData>,
    drvs: Seq<Seq<char>>,
    drv: Seq<char>,
)
    requires
        holds_histories(m, log, stored_all(drvs), log.len() as int),
        drvs.contains(drv),
    ensures
        model::facts(crate::ordered::listed(m, drv)) == facts_about(log, drv),
{
    let n = log.len() as int;
    let stored = stored_all(drvs);
    let s = evalfile::stripped(drv);
    let k = choose|k: int| 0 <= k < drvs.len() && drvs[k] == drv;
    assert(stored[k] == s);
    assert(stored.contains(s));
    if m.contains_key(drv) {
        let i = choose|i: int|
            0 <= i < n && about(#[trigger] log[i], stored) && drv == evalfile::restored(log[i].drv);
        evalfile::law_restore_then_strip(log[i].drv);
        assert(log[i].drv == s);
    } else {
        assert(model::facts(crate::ordered::listed(m, drv)) =~= Seq::<Fact>::empty());
        if evalfile::restored(s) == drv {
            lemma_no_history(log, stored, s, m, n, n);
        }
    }
}

impl Store {
    /// The observations of a derivation, the oldest first.
    pub fn load_observations(&self, drv_path: &str) -> (r: Result<Vec<Observation>, StoreError>)
        ensures
            match r {
                Ok(v) => {
                    let stored = evalfile::stripped(drv_path@);
                    let n = self.log().len() as int;
                    &&& first_unknown(self.log(), seq![stored], n) is None
                    &&& model::facts(v@) == facts_about(self.log(), drv_path@)
                },
                Err(StoreError::UnknownOutcome(c)) => first_unknown(
                    self.log(),
                    seq![evalfile::stripped(drv_path@)],
                    self.log().len() as int,
                ) == Some(c),
            },
    {
        let mut one: Vec<String> = Vec::new();
        one.push(text::copy(drv_path));
        let ghost stored = evalfile::stripped(drv_path@);
        let ghost n = self.log().len() as int;
        assert(stored_all(text::texts(one@)) =~= seq![stored]);
        let m = match self.load_observations_many(one.as_slice()) {
            Ok(m) => m,
            Err(e) => return Err(e),
        };
        match m.get(drv_path) {
            Some(v) => {
                proof {
                    let i = choose|i: int|
                        0 <= i < n && about(#[trigger] self.log()[i], seq![stored]) && drv_path@
                            == evalfile::restored(self.log()[i].drv);
                    assert(self.log()[i].drv == stored);
                }
                Ok(copy_observations(v.as_slice()))
            },
            None => {
                let v: Vec<Observation> = Vec::new();
                proof {
                    assert(model::facts(v@) =~= Seq::<Fact>::empty());
                    if evalfile::restored(stored) == drv_path@ {
                        assert(seq![stored][0] == stored);
                        assert(seq![stored].contains(stored));
                        lemma_no_history(self.log(), seq![stored], stored, m@, n, n);
                    }
                }
                Ok(v)
            },
        }
    }

    /// Every derivation with failures only.
    pub fn failing_drvs(&self) -> (r: StringSet)
        ensures
            r.wf(),
            forall|d: Seq<char>| #[trigger]
                r@.contains(d) <==> exists|i: int|
                    0 <= i < self.log().len() && d == evalfile::restored(
                        (#[trigger] self.log()[i]).drv,
                    ) && only_fails(self.log(), self.log()[i].drv, self.log().len() as int),
    {
        let ghost log = self.log();
        let mut r = StringSet::new();
        let mut i: usize = 0;
        while i < self.log.len()
            invariant
                i <= self.log@.len(),
                log == self.log(),
                log.len() == self.log@.len(),
                r.wf(),
                forall|d: Seq<char>| #[trigger]
                    r@.contains(d) <==> exists|k: int|
                        0 <= k < i && d == evalfile::restored((#[trigger] log[k]).drv) && only_fails(
                            log,
                            log[k].drv,
                            log.len() as int,
                        ),
            decreases self.log@.len() - i,
        {
            assert(log[i as int] == self.log@[i as int]@);
            let ghost was = r@;
            let fails = !self.ever_built(self.log[i].drv.as_str());
            assert(fails == only_fails(log, log[i as int].drv, log.len() as int));
            if fails {
                r.insert(evalfile::restore_path(self.log[i].drv.as_str()));
            }
            proof {
                assert forall|d: Seq<char>| #[trigger] r@.contains(d) <==> exists|k: int|
                    0 <= k < i + 1 && d == evalfile::restored((#[trigger] log[k]).drv)
                        && only_fails(log, log[k].drv, log.len() as int) by {
                    if was.contains(d) {
                        let k = choose|k: int|
                            0 <= k < i && d == evalfile::restored((#[trigger] log[k]).drv)
                                && only_fails(log, log[k].drv, log.len() as int);
                        assert(d == evalfile::restored(log[k].drv));
                    }
                }
            }
            i = i + 1;
        }
        r
    }

    fn ever_built(&self, stored: &str) -> (r: bool)
        ensures
            r == exists|i: int|
                0 <= i < self.log().len() && (#[trigger] self.log()[i]).drv == stored@
                    && self.log()[i].outcome == code_of(Outcome::Built),
    {
        let mut i: usize = 0;
        while i < self.log.len()
            invariant
                i <= self.log@.len(),
                forall|k: int|
                    0 <= k < i ==> !((#[trigger] self.log()[k]).drv == stored@ && self.log()[k].outcome
                        == code_of(Outcome::Built)),
            decreases self.log@.len() - i,
        {
            assert(self.log()[i as int] == self.log@[i as int]@);
            if self.log[i].outcome == outcome_code(Outcome::Built) && text::same(
                self.log[i].drv.as_str(),
                stored,
            ) {
                return true;
            }
            i = i + 1;
        }
        false
    }
}

/// A copy of observations.
pub fn copy_observations(v: &[Observation]) -> (r: Vec<Observation>)
    ensures
        model::facts(r@) == model::facts(v@),
{
    let ghost all = model::facts(v@);
    let mut r: Vec<Observation> = Vec::new();
    let mut i: usize = 0;
    while i < v.len()
        invariant
            i <= v@.len(),
            all == model::facts(v@),
            model::facts(r@) == all.take(i as int),
        decreases v@.len() - i,
    {
        let o = v[i].clone();
        let ghost was = model::facts(r@);
        r.push(o);
        proof {
            assert(model::facts(r@) =~= was.push(o@));
            assert(all.take(i + 1) =~= all.take(i as int).push(all[i as int]));
        }
        i = i + 1;
    }
    assert(all.take(i as int) =~= all);
    r
}

// --- what the log promises ---------------------------------------------------

/// Appending an observation adds it to the end of its derivation's history and
/// leaves every other history as it was.
pub proof fn law_log_is_append_only(log: Seq<LogData>, f: Fact, stored: Seq<char>)
    requires
        keepable(f),
    ensures
        history(log.push(encoded(f)), stored, log.len() as int + 1) == (if stored
            == evalfile::stripped(f.drv) {
            history(log, stored, log.len() as int).push(f)
        } else {
            history(log, stored, log.len() as int)
        }),
{
    law_facts_come_back(f);
    lemma_history_prefix(log, encoded(f), stored, log.len() as int);
}

proof fn lemma_history_prefix(log: Seq<LogData>, row: LogData, stored: Seq<char>, n: int)
    requires
        0 <= n <= log.len(),
    ensures
        history(log.push(row), stored, n) == history(log, stored, n),
    decreases n,
{
    if n > 0 {
        lemma_history_prefix(log, row, stored, n - 1);
        assert(log.push(row)[n - 1] == log[n - 1]);
    }
}

proof fn lemma_history_seen(log: Seq<LogData>, stored: Seq<char>, n: int, o: Outcome)
    requires
        0 <= n <= log.len(),
    ensures
        model::seen(history(log, stored, n), o) <==> exists|i: int|
            0 <= i < n && (#[trigger] log[i]).drv == stored && outcome_of(log[i].outcome) == Some(o),
    decreases n,
{
    if n > 0 {
        lemma_history_seen(log, stored, n - 1, o);
        let before = history(log, stored, n - 1);
        let now = history(log, stored, n);
        if log[n - 1].drv == stored && decoded(log[n - 1]) is Some {
            let last = decoded(log[n - 1])->0;
            if model::seen(now, o) {
                let k = choose|k: int| 0 <= k < now.len() && (#[trigger] now[k]).outcome == o;
                if k < before.len() {
                    assert(before[k].outcome == o);
                    let i = choose|i: int|
                        0 <= i < n - 1 && (#[trigger] log[i]).drv == stored && outcome_of(
                            log[i].outcome,
                        ) == Some(o);
                    assert(log[i].drv == stored);
                } else {
                    assert(log[n - 1].drv == stored);
                }
            }
            if exists|i: int|
                0 <= i < n && (#[trigger] log[i]).drv == stored && outcome_of(log[i].outcome)
                    == Some(o) {
                let i = choose|i: int|
                    0 <= i < n && (#[trigger] log[i]).drv == stored && outcome_of(log[i].outcome)
                        == Some(o);
                if i < n - 1 {
                    assert(model::seen(before, o));
                    let k = choose|k: int|
                        0 <= k < before.len() && (#[trigger] before[k]).outcome == o;
                    assert(now[k].outcome == o);
                } else {
                    assert(now[before.len() as int].outcome == o);
                }
            }
        }
    }
}

/// A derivation whose rows can all be read is failing exactly when its history is
/// one that the policy skips as a failure, as long as its dependency block is not stale and no
/// retry is asked for.
pub proof fn law_failing_is_what_the_policy_skips(log: Seq<LogData>, stored: Seq<char>)
    requires
        forall|i: int|
            0 <= i < log.len() && (#[trigger] log[i]).drv == stored ==> decoded(log[i]) is Some,
    ensures
        only_fails(log, stored, log.len() as int) <==> model::decision(
            false,
            history(log, stored, log.len() as int),
            false,
        ) == model::Decision::SkipFail,
{
    let n = log.len() as int;
    lemma_history_seen(log, stored, n, Outcome::Built);
    lemma_history_seen(log, stored, n, Outcome::Failed);
    lemma_history_seen(log, stored, n, Outcome::DepFailed);
    if only_fails(log, stored, n) {
        let i = choose|i: int| 0 <= i < n && (#[trigger] log[i]).drv == stored;
        assert(decoded(log[i]) is Some);
        assert(log[i].outcome != code_of(Outcome::Built));
        assert(outcome_of(log[i].outcome) == Some(Outcome::Failed) || outcome_of(log[i].outcome)
            == Some(Outcome::DepFailed));
    }
    if model::decision(false, history(log, stored, n), false) == model::Decision::SkipFail {
        let o = if model::seen(history(log, stored, n), Outcome::Failed) {
            Outcome::Failed
        } else {
            Outcome::DepFailed
        };
        let i = choose|i: int|
            0 <= i < n && (#[trigger] log[i]).drv == stored && outcome_of(log[i].outcome) == Some(o);
        assert(log[i].drv == stored);
        assert forall|k: int| 0 <= k < n && (#[trigger] log[k]).drv == stored implies log[k].outcome
            != code_of(Outcome::Built) by {
            if log[k].outcome == code_of(Outcome::Built) {
                assert(outcome_of(log[k].outcome) == Some(Outcome::Built));
            }
        }
    }
}

// --- the cache of test evaluations -------------------------------------------

/// One test as it was evaluated: without a derivation where it errored.
#[derive(Debug, PartialEq, Eq)]
pub struct TestFact {
    pub pkg_attr: String,
    pub test_attr: String,
    pub drv_path: Option<String>,
    pub skipped: bool,
}

/// A key of three columns.
pub open spec fn key3(a: Seq<char>, b: Seq<char>, c: Seq<char>) -> Key {
    seq![a, b, c]
}

/// A key of four columns.
pub open spec fn key4(a: Seq<char>, b: Seq<char>, c: Seq<char>, d: Seq<char>) -> Key {
    seq![a, b, c, d]
}

fn key_of3(a: &str, b: &str, c: &str) -> (r: Vec<String>)
    ensures
        text::texts(r@) == key3(a@, b@, c@),
{
    let mut r: Vec<String> = Vec::new();
    r.push(text::copy(a));
    r.push(text::copy(b));
    r.push(text::copy(c));
    assert(text::texts(r@) =~= key3(a@, b@, c@));
    r
}

fn key_of4(a: &str, b: &str, c: &str, d: &str) -> (r: Vec<String>)
    ensures
        text::texts(r@) == key4(a@, b@, c@, d@),
{
    let mut r: Vec<String> = Vec::new();
    r.push(text::copy(a));
    r.push(text::copy(b));
    r.push(text::copy(c));
    r.push(text::copy(d));
    assert(text::texts(r@) =~= key4(a@, b@, c@, d@));
    r
}

fn key_of2(a: &str, b: &str) -> (r: Vec<String>)
    ensures
        text::texts(r@) == seq![a@, b@],
{
    let mut r: Vec<String> = Vec::new();
    r.push(text::copy(a));
    r.push(text::copy(b));
    assert(text::texts(r@) =~= seq![a@, b@]);
    r
}

/// The packages marked as evaluated after the first `n` of `pkgs` are.
pub open spec fn marked(
    m: Map<Key, ()>,
    tree: Seq<char>,
    system: Seq<char>,
    pkgs: Seq<Seq<char>>,
    n: int,
) -> Map<Key, ()>
    decreases n,
{
    if n <= 0 {
        m
    } else {
        marked(m, tree, system, pkgs, n - 1).insert(key3(tree, system, pkgs[n - 1]), ())
    }
}

/// The tests kept after the first `n` jobs are: those with a derivation, each
/// in place of what had its key.
pub open spec fn with_tests(
    m: Map<Key, (Seq<char>, bool)>,
    tree: Seq<char>,
    system: Seq<char>,
    jobs: Seq<TestFact>,
    n: int,
) -> Map<Key, (Seq<char>, bool)>
    decreases n,
{
    if n <= 0 {
        m
    } else {
        let before = with_tests(m, tree, system, jobs, n - 1);
        let j = jobs[n - 1];
        match j.drv_path {
            Some(d) => before.insert(
                key4(tree, system, j.pkg_attr@, j.test_attr@),
                (evalfile::stripped(d@), j.skipped),
            ),
            None => before,
        }
    }
}

/// The tests with their derivations as texts.
pub open spec fn test_texts(m: Map<Key, (String, bool)>) -> Map<Key, (Seq<char>, bool)> {
    m.map_values(|v: (String, bool)| (v.0@, v.1))
}

impl Store {
    /// Which of `pkgs` have had their tests evaluated for this tree and system.
    /// A package that is not among them never has; one that is may have none.
    pub fn tests_cached_pkgs(&self, tree: &str, system: &str, pkgs: &[String]) -> (r: StringSet)
        requires
            self.wf(),
        ensures
            r.wf(),
            forall|p: Seq<char>| #[trigger]
                r@.contains(p) <==> text::texts(pkgs@).contains(p) && self.test_pkgs().contains_key(
                    key3(tree@, system@, p),
                ),
    {
        let ghost all = text::texts(pkgs@);
        let mut r = StringSet::new();
        let mut i: usize = 0;
        while i < pkgs.len()
            invariant
                i <= pkgs@.len(),
                all == text::texts(pkgs@),
                self.wf(),
                r.wf(),
                forall|p: Seq<char>| #[trigger]
                    r@.contains(p) <==> all.take(i as int).contains(p)
                        && self.test_pkgs().contains_key(key3(tree@, system@, p)),
            decreases pkgs@.len() - i,
        {
            let key = key_of3(tree, system, pkgs[i].as_str());
            let known = self.test_pkgs.get(key.as_slice()).is_some();
            let ghost was = r@;
            if known {
                r.insert(pkgs[i].clone());
            }
            proof {
                let x = all[i as int];
                assert forall|p: Seq<char>| #[trigger] r@.contains(p) <==> all.take(
                    i + 1,
                ).contains(p) && self.test_pkgs().contains_key(key3(tree@, system@, p)) by {
                    lemma_take_contains(all, i as int, p);
                    assert(was.contains(p) <==> all.take(i as int).contains(p)
                        && self.test_pkgs().contains_key(key3(tree@, system@, p)));
                }
            }
            i = i + 1;
        }
        assert(all.take(i as int) =~= all);
        r
    }

    /// Keeps an evaluation of the tests of `pkgs`: every package is marked, with
    /// tests or without, and every job with a derivation is kept.
    pub fn cache_test_eval(&mut self, tree: &str, system: &str, pkgs: &[String], jobs: &[TestFact])
        requires
            old(self).wf(),
        ensures
            final(self).wf(),
            final(self).test_pkgs() == marked(
                old(self).test_pkgs(),
                tree@,
                system@,
                text::texts(pkgs@),
                pkgs@.len() as int,
            ),
            test_texts(final(self).test_drvs()) == with_tests(
                test_texts(old(self).test_drvs()),
                tree@,
                system@,
                jobs@,
                jobs@.len() as int,
            ),
            final(self).log() == old(self).log(),
            final(self).blocks() == old(self).blocks(),
            final(self).patches() == old(self).patches(),
    {
        let ghost all = text::texts(pkgs@);
        let ghost marks0 = self.test_pkgs();
        let mut i: usize = 0;
        while i < pkgs.len()
            invariant
                i <= pkgs@.len(),
                all == text::texts(pkgs@),
                self.wf(),
                self.test_pkgs() == marked(marks0, tree@, system@, all, i as int),
                self.test_drvs() == old(self).test_drvs(),
                self.log() == old(self).log(),
                self.blocks() == old(self).blocks(),
                self.patches() == old(self).patches(),
            decreases pkgs@.len() - i,
        {
            assert(all[i as int] == pkgs@[i as int]@);
            let key = key_of3(tree, system, pkgs[i].as_str());
            self.test_pkgs.put(key, ());
            i = i + 1;
        }
        let ghost tests0 = test_texts(self.test_drvs());
        let mut k: usize = 0;
        while k < jobs.len()
            invariant
                k <= jobs@.len(),
                self.wf(),
                self.test_pkgs() == marked(marks0, tree@, system@, all, all.len() as int),
                test_texts(self.test_drvs()) == with_tests(
                    tests0,
                    tree@,
                    system@,
                    jobs@,
                    k as int,
                ),
                self.log() == old(self).log(),
                self.blocks() == old(self).blocks(),
                self.patches() == old(self).patches(),
            decreases jobs@.len() - k,
        {
            let j = &jobs[k];
            if let Some(d) = &j.drv_path {
                let ghost was = self.test_drvs();
                let key = key_of4(tree, system, j.pkg_attr.as_str(), j.test_attr.as_str());
                let drv = evalfile::strip_drv(d.as_str());
                let ghost kk = text::texts(key@);
                let ghost dd = drv@;
                let skipped = j.skipped;
                self.test_drvs.put(key, (drv, skipped));
                assert(test_texts(self.test_drvs()) =~= test_texts(was).insert(
                    kk,
                    (dd, skipped),
                ));
            }
            k = k + 1;
        }
    }

    /// The kept tests of `pkgs` for this tree and system: by test, the
    /// derivation and whether the test is skipped.
    pub fn tests_drvs_for(&self, tree: &str, system: &str, pkgs: &[String]) -> (r: StringMap<
        (String, bool),
    >)
        requires
            self.wf(),
        ensures
            r.wf(),
            forall|t: Seq<char>| #[trigger]
                r@.contains_key(t) <==> exists|p: Seq<char>|
                    text::texts(pkgs@).contains(p) && #[trigger] self.test_drvs().contains_key(
                        key4(tree@, system@, p, t),
                    ),
            forall|t: Seq<char>| #[trigger]
                r@.contains_key(t) ==> exists|p: Seq<char>|
                    text::texts(pkgs@).contains(p) && #[trigger] self.test_drvs().contains_key(
                        key4(tree@, system@, p, t),
                    ) && r@[t].0@ == evalfile::restored(
                        self.test_drvs()[key4(tree@, system@, p, t)].0@,
                    ) && r@[t].1 == self.test_drvs()[key4(tree@, system@, p, t)].1,
    {
        let ghost all = text::texts(pkgs@);
        let ghost keys = self.test_drvs.keys();
        let ghost tests = self.test_drvs();
        let mut r: StringMap<(String, bool)> = StringMap::new();
        let n = self.test_drvs.len();
        let mut i: usize = 0;
        proof {
            self.test_drvs.lemma_rows();
        }
        while i < n
            invariant
                i <= n,
                n == keys.len(),
                keys == self.test_drvs.keys(),
                tests == self.test_drvs(),
                all == text::texts(pkgs@),
                self.wf(),
                r.wf(),
                forall|k: int| 0 <= k < keys.len() ==> tests.contains_key(#[trigger] keys[k]),
                forall|t: Seq<char>| #[trigger]
                    r@.contains_key(t) ==> exists|p: Seq<char>|
                        all.contains(p) && #[trigger] tests.contains_key(
                            key4(tree@, system@, p, t),
                        ) && r@[t].0@ == evalfile::restored(
                            tests[key4(tree@, system@, p, t)].0@,
                        ) && r@[t].1 == tests[key4(tree@, system@, p, t)].1,
                forall|k: int, p: Seq<char>, t: Seq<char>|
                    0 <= k < i && #[trigger] keys[k] == #[trigger] key4(tree@, system@, p, t)
                        && all.contains(p) ==> r@.contains_key(t),
            decreases n - i,
        {
            let key = self.test_drvs.key_at(i);
            let ghost kt = text::texts(key@);
            assert(kt.len() == key@.len());
            let ghost was = r@;
            if key.len() == 4 && text::same(key[0].as_str(), tree) && text::same(
                key[1].as_str(),
                system,
            ) && text::has(pkgs, key[2].as_str()) {
                let v = self.test_drvs.value_at(i);
                let drv = evalfile::restore_path(v.0.as_str());
                let test = key[3].clone();
                let ghost p = key@[2]@;
                let ghost t = test@;
                assert(kt =~= key4(tree@, system@, p, t));
                let skipped = v.1;
                r.insert(test, (drv, skipped));
                proof {
                    assert(tests.contains_key(key4(tree@, system@, p, t)));
                    assert forall|x: Seq<char>| #[trigger] r@.contains_key(x) implies exists|
                        q: Seq<char>,
                    |
                        all.contains(q) && #[trigger] tests.contains_key(
                            key4(tree@, system@, q, x),
                        ) && r@[x].0@ == evalfile::restored(
                            tests[key4(tree@, system@, q, x)].0@,
                        ) && r@[x].1 == tests[key4(tree@, system@, q, x)].1 by {
                        if x != t {
                            assert(was.contains_key(x));
                        }
                    }
                }
            }
            proof {
                assert forall|k: int, p: Seq<char>, t: Seq<char>|
                    0 <= k < i + 1 && #[trigger] keys[k] == #[trigger] key4(tree@, system@, p, t)
                        && all.contains(p) implies r@.contains_key(t) by {
                    if k == i {
                        assert(kt[0] == tree@ && kt[1] == system@ && kt[2] == p && kt[3] == t);
                        assert(kt[0] == key@[0]@ && kt[1] == key@[1]@ && kt[2] == key@[2]@ && kt[3]
                            == key@[3]@);
                    } else {
                        assert(was.contains_key(t));
                    }
                }
            }
            i = i + 1;
        }
        proof {
            assert forall|t: Seq<char>| #[trigger] r@.contains_key(t) <==> exists|p: Seq<char>|
                all.contains(p) && #[trigger] tests.contains_key(key4(tree@, system@, p, t)) by {
                if exists|p: Seq<char>|
                    all.contains(p) && #[trigger] tests.contains_key(key4(tree@, system@, p, t)) {
                    let p = choose|p: Seq<char>|
                        all.contains(p) && #[trigger] tests.contains_key(
                            key4(tree@, system@, p, t),
                        );
                    assert(keys.contains(key4(tree@, system@, p, t)));
                    let k = choose|k: int|
                        0 <= k < keys.len() && keys[k] == key4(tree@, system@, p, t);
                    assert(keys[k] == key4(tree@, system@, p, t));
                }
            }
        }
        r
    }
}

proof fn lemma_take_contains(s: Seq<Seq<char>>, i: int, x: Seq<char>)
    requires
        0 <= i < s.len(),
    ensures
        s.take(i + 1).contains(x) <==> s.take(i).contains(x) || s[i] == x,
{
    let a = s.take(i);
    let b = s.take(i + 1);
    if b.contains(x) {
        let k = choose|k: int| 0 <= k < b.len() && b[k] == x;
        if k < i {
            assert(a[k] == x);
        }
    }
    if a.contains(x) {
        let k = choose|k: int| 0 <= k < a.len() && a[k] == x;
        assert(b[k] == x);
    }
    if s[i] == x {
        assert(b[i] == x);
    }
}

// --- the cache of verdicts, patches, and eviction ----------------------------

/// The verdicts kept after the first `n` are.
pub open spec fn with_verdicts(
    m: Map<Key, bool>,
    tree: Seq<char>,
    system: Seq<char>,
    verdicts: Seq<(String, bool)>,
    n: int,
) -> Map<Key, bool>
    decreases n,
{
    if n <= 0 {
        m
    } else {
        with_verdicts(m, tree, system, verdicts, n - 1).insert(
            key3(tree, system, verdicts[n - 1].0@),
            verdicts[n - 1].1,
        )
    }
}

impl Store {
    /// The kept verdicts on `attrs` for this tree and system. An attr that is
    /// not among them was never checked.
    pub fn blocked_verdicts(&self, tree: &str, system: &str, attrs: &[String]) -> (r: StringMap<
        bool,
    >)
        requires
            self.wf(),
        ensures
            r.wf(),
            forall|a: Seq<char>| #[trigger]
                r@.contains_key(a) <==> text::texts(attrs@).contains(a) && self.blocks().contains_key(
                    key3(tree@, system@, a),
                ),
            forall|a: Seq<char>| #[trigger]
                r@.contains_key(a) ==> r@[a] == self.blocks()[key3(tree@, system@, a)],
    {
        let ghost all = text::texts(attrs@);
        let mut r: StringMap<bool> = StringMap::new();
        let mut i: usize = 0;
        while i < attrs.len()
            invariant
                i <= attrs@.len(),
                all == text::texts(attrs@),
                self.wf(),
                r.wf(),
                forall|a: Seq<char>| #[trigger]
                    r@.contains_key(a) <==> all.take(i as int).contains(a)
                        && self.blocks().contains_key(key3(tree@, system@, a)),
                forall|a: Seq<char>| #[trigger]
                    r@.contains_key(a) ==> r@[a] == self.blocks()[key3(tree@, system@, a)],
            decreases attrs@.len() - i,
        {
            let key = key_of3(tree, system, attrs[i].as_str());
            let ghost was = r@;
            let ghost x = all[i as int];
            if let Some(b) = self.blocks.get(key.as_slice()) {
                r.insert(attrs[i].clone(), *b);
            }
            proof {
                assert forall|a: Seq<char>| #[trigger] r@.contains_key(a) <==> all.take(
                    i + 1,
                ).contains(a) && self.blocks().contains_key(key3(tree@, system@, a)) by {
                    lemma_take_contains(all, i as int, a);
                    assert(was.contains_key(a) <==> all.take(i as int).contains(a)
                        && self.blocks().contains_key(key3(tree@, system@, a)));
                }
                assert forall|a: Seq<char>| #[trigger] r@.contains_key(a) implies r@[a]
                    == self.blocks()[key3(tree@, system@, a)] by {
                    if a != x {
                        assert(was.contains_key(a));
                    }
                }
            }
            i = i + 1;
        }
        assert(all.take(i as int) =~= all);
        r
    }

    /// Keeps verdicts on attrs, each in place of the one before.
    pub fn cache_blocked(&mut self, tree: &str, system: &str, verdicts: &[(String, bool)])
        requires
            old(self).wf(),
        ensures
            final(self).wf(),
            final(self).blocks() == with_verdicts(
                old(self).blocks(),
                tree@,
                system@,
                verdicts@,
                verdicts@.len() as int,
            ),
            final(self).log() == old(self).log(),
            final(self).test_pkgs() == old(self).test_pkgs(),
            final(self).test_drvs() == old(self).test_drvs(),
            final(self).patches() == old(self).patches(),
    {
        let mut i: usize = 0;
        while i < verdicts.len()
            invariant
                i <= verdicts@.len(),
                self.wf(),
                self.blocks() == with_verdicts(
                    old(self).blocks(),
                    tree@,
                    system@,
                    verdicts@,
                    i as int,
                ),
                self.log() == old(self).log(),
                self.test_pkgs() == old(self).test_pkgs(),
                self.test_drvs() == old(self).test_drvs(),
                self.patches() == old(self).patches(),
            decreases verdicts@.len() - i,
        {
            let key = key_of3(tree, system, verdicts[i].0.as_str());
            self.blocks.put(key, verdicts[i].1);
            i = i + 1;
        }
    }

    /// Drops everything kept for one tree and system: the marks, the tests and
    /// the verdicts. Says how many tests that were.
    pub fn purge_tests(&mut self, tree: &str, system: &str) -> (n: usize)
        requires
            old(self).wf(),
        ensures
            final(self).wf(),
            n == old(self).tests_under(seq![tree@, system@]),
            final(self).log() == old(self).log(),
            final(self).patches() == old(self).patches(),
            forall|k: Key| #[trigger]
                final(self).test_pkgs().contains_key(k) <==> old(self).test_pkgs().contains_key(k)
                    && !table::under(k, seq![tree@, system@]),
            forall|k: Key| #[trigger]
                final(self).test_drvs().contains_key(k) <==> old(self).test_drvs().contains_key(k)
                    && !table::under(k, seq![tree@, system@]),
            forall|k: Key| #[trigger]
                final(self).test_drvs().contains_key(k) ==> final(self).test_drvs()[k]
                    == old(self).test_drvs()[k],
            forall|k: Key| #[trigger]
                final(self).blocks().contains_key(k) <==> old(self).blocks().contains_key(k)
                    && !table::under(k, seq![tree@, system@]),
            forall|k: Key| #[trigger]
                final(self).blocks().contains_key(k) ==> final(self).blocks()[k]
                    == old(self).blocks()[k],
    {
        let prefix = key_of2(tree, system);
        let n = self.test_drvs.remove_under(prefix.as_slice());
        self.test_pkgs.remove_under(prefix.as_slice());
        self.blocks.remove_under(prefix.as_slice());
        n
    }

    /// The tree that applying the patch `expr` to the commit `anchor` gave, if
    /// that is known.
    pub fn patch_tree(&self, anchor: &str, expr: &str) -> (r: Option<String>)
        requires
            self.wf(),
        ensures
            text::opt(r) == (if self.patches().contains_key(seq![anchor@, expr@]) {
                Some(self.patches()[seq![anchor@, expr@]]@)
            } else {
                None
            }),
    {
        let key = key_of2(anchor, expr);
        match self.patches.get(key.as_slice()) {
            Some(t) => Some(t.clone()),
            None => None,
        }
    }

    /// Keeps the tree that applying the patch `expr` to the commit `anchor`
    /// gave.
    pub fn put_patch_tree(&mut self, anchor: &str, expr: &str, tree: &str)
        requires
            old(self).wf(),
        ensures
            final(self).wf(),
            final(self).patches().contains_key(seq![anchor@, expr@]),
            final(self).patches()[seq![anchor@, expr@]]@ == tree@,
            forall|k: Key|
                k != seq![anchor@, expr@] ==> (#[trigger] final(self).patches().contains_key(k)
                    <==> old(self).patches().contains_key(k)) && (old(
                    self,
                ).patches().contains_key(k) ==> final(self).patches()[k] == old(self).patches()[k]),
            final(self).log() == old(self).log(),
            final(self).test_pkgs() == old(self).test_pkgs(),
            final(self).test_drvs() == old(self).test_drvs(),
            final(self).blocks() == old(self).blocks(),
    {
        let key = key_of2(anchor, expr);
        self.patches.put(key, text::copy(tree));
    }
}

// --- what the caches promise -------------------------------------------------

/// Whether one of the first `n` packages has a key.
pub open spec fn marks(
    tree: Seq<char>,
    system: Seq<char>,
    pkgs: Seq<Seq<char>>,
    n: int,
    k: Key,
) -> bool {
    exists|i: int| 0 <= i < n && k == key3(tree, system, #[trigger] pkgs[i])
}

proof fn lemma_marked(
    m: Map<Key, ()>,
    tree: Seq<char>,
    system: Seq<char>,
    pkgs: Seq<Seq<char>>,
    n: int,
    k: Key,
)
    requires
        0 <= n <= pkgs.len(),
    ensures
        marked(m, tree, system, pkgs, n).contains_key(k) <==> m.contains_key(k) || marks(
            tree,
            system,
            pkgs,
            n,
            k,
        ),
    decreases n,
{
    if n > 0 {
        lemma_marked(m, tree, system, pkgs, n - 1, k);
        if marks(tree, system, pkgs, n - 1, k) {
            let i = choose|i: int| 0 <= i < n - 1 && k == key3(tree, system, #[trigger] pkgs[i]);
            assert(k == key3(tree, system, pkgs[i]));
        }
        if k == key3(tree, system, pkgs[n - 1]) {
            assert(marks(tree, system, pkgs, n, k));
        }
        if marks(tree, system, pkgs, n, k) {
            let i = choose|i: int| 0 <= i < n && k == key3(tree, system, #[trigger] pkgs[i]);
            if i < n - 1 {
                assert(k == key3(tree, system, pkgs[i]));
            }
        }
    }
}

/// What the first `n` jobs say of a key: the last one that has it counts.
pub open spec fn said_of_test(
    tree: Seq<char>,
    system: Seq<char>,
    jobs: Seq<TestFact>,
    n: int,
    k: Key,
) -> Option<(Seq<char>, bool)>
    decreases n,
{
    if n <= 0 {
        None
    } else {
        let j = jobs[n - 1];
        if j.drv_path is Some && k == key4(tree, system, j.pkg_attr@, j.test_attr@) {
            Some((evalfile::stripped(j.drv_path->0@), j.skipped))
        } else {
            said_of_test(tree, system, jobs, n - 1, k)
        }
    }
}

proof fn lemma_with_tests(
    m: Map<Key, (Seq<char>, bool)>,
    tree: Seq<char>,
    system: Seq<char>,
    jobs: Seq<TestFact>,
    n: int,
    k: Key,
)
    requires
        0 <= n <= jobs.len(),
    ensures
        ({
            let r = with_tests(m, tree, system, jobs, n);
            match said_of_test(tree, system, jobs, n, k) {
                Some(v) => r.contains_key(k) && r[k] == v,
                None => (r.contains_key(k) <==> m.contains_key(k)) && (m.contains_key(k) ==> r[k]
                    == m[k]),
            }
        }),
    decreases n,
{
    if n > 0 {
        lemma_with_tests(m, tree, system, jobs, n - 1, k);
    }
}

/// What the first `n` verdicts say of a key.
pub open spec fn said_of_attr(
    tree: Seq<char>,
    system: Seq<char>,
    verdicts: Seq<(String, bool)>,
    n: int,
    k: Key,
) -> Option<bool>
    decreases n,
{
    if n <= 0 {
        None
    } else if k == key3(tree, system, verdicts[n - 1].0@) {
        Some(verdicts[n - 1].1)
    } else {
        said_of_attr(tree, system, verdicts, n - 1, k)
    }
}

proof fn lemma_with_verdicts(
    m: Map<Key, bool>,
    tree: Seq<char>,
    system: Seq<char>,
    verdicts: Seq<(String, bool)>,
    n: int,
    k: Key,
)
    requires
        0 <= n <= verdicts.len(),
    ensures
        ({
            let r = with_verdicts(m, tree, system, verdicts, n);
            match said_of_attr(tree, system, verdicts, n, k) {
                Some(v) => r.contains_key(k) && r[k] == v,
                None => (r.contains_key(k) <==> m.contains_key(k)) && (m.contains_key(k) ==> r[k]
                    == m[k]),
            }
        }),
    decreases n,
{
    if n > 0 {
        lemma_with_verdicts(m, tree, system, verdicts, n - 1, k);
    }
}

/// An evaluation of tests marks every package in it, also one without tests,
/// and no other.
pub proof fn law_evaluated_packages_are_marked(
    kept: Map<Key, ()>,
    tree: Seq<char>,
    system: Seq<char>,
    pkgs: Seq<Seq<char>>,
    p: Seq<char>,
)
    ensures
        marked(kept, tree, system, pkgs, pkgs.len() as int).contains_key(key3(tree, system, p))
            <==> pkgs.contains(p) || kept.contains_key(key3(tree, system, p)),
{
    let k = key3(tree, system, p);
    lemma_marked(kept, tree, system, pkgs, pkgs.len() as int, k);
    if pkgs.contains(p) {
        let a = choose|a: int| 0 <= a < pkgs.len() && pkgs[a] == p;
        assert(k == key3(tree, system, pkgs[a]));
    }
    if marks(tree, system, pkgs, pkgs.len() as int, k) {
        let a = choose|a: int| 0 <= a < pkgs.len() && k == key3(tree, system, #[trigger] pkgs[a]);
        assert(k[2] == p && key3(tree, system, pkgs[a])[2] == pkgs[a]);
    }
}

/// A test that was evaluated comes back with its derivation as it was, unless a
/// later job of the evaluation is about the same test.
pub proof fn law_evaluated_tests_come_back(
    kept: Map<Key, (Seq<char>, bool)>,
    tree: Seq<char>,
    system: Seq<char>,
    jobs: Seq<TestFact>,
    i: int,
)
    requires
        0 <= i < jobs.len(),
        jobs[i].drv_path is Some,
        evalfile::store_drv(jobs[i].drv_path->0@),
        forall|l: int|
            i < l < jobs.len() && (#[trigger] jobs[l]).drv_path is Some ==> jobs[l].pkg_attr@
                != jobs[i].pkg_attr@ || jobs[l].test_attr@ != jobs[i].test_attr@,
    ensures
        ({
            let now = with_tests(kept, tree, system, jobs, jobs.len() as int);
            let k = key4(tree, system, jobs[i].pkg_attr@, jobs[i].test_attr@);
            &&& now.contains_key(k)
            &&& evalfile::restored(now[k].0) == jobs[i].drv_path->0@
            &&& now[k].1 == jobs[i].skipped
        }),
{
    let k = key4(tree, system, jobs[i].pkg_attr@, jobs[i].test_attr@);
    lemma_last_said(tree, system, jobs, jobs.len() as int, i);
    lemma_with_tests(kept, tree, system, jobs, jobs.len() as int, k);
    evalfile::law_strip_then_restore(jobs[i].drv_path->0@);
}

proof fn lemma_last_said(
    tree: Seq<char>,
    system: Seq<char>,
    jobs: Seq<TestFact>,
    n: int,
    i: int,
)
    requires
        0 <= i < n <= jobs.len(),
        jobs[i].drv_path is Some,
        forall|l: int|
            i < l < n && (#[trigger] jobs[l]).drv_path is Some ==> jobs[l].pkg_attr@
                != jobs[i].pkg_attr@ || jobs[l].test_attr@ != jobs[i].test_attr@,
    ensures
        said_of_test(
            tree,
            system,
            jobs,
            n,
            key4(tree, system, jobs[i].pkg_attr@, jobs[i].test_attr@),
        ) == Some((evalfile::stripped(jobs[i].drv_path->0@), jobs[i].skipped)),
    decreases n,
{
    if i < n - 1 {
        let k = key4(tree, system, jobs[i].pkg_attr@, jobs[i].test_attr@);
        let other = key4(tree, system, jobs[n - 1].pkg_attr@, jobs[n - 1].test_attr@);
        assert(k[2] == jobs[i].pkg_attr@ && k[3] == jobs[i].test_attr@);
        assert(other[2] == jobs[n - 1].pkg_attr@ && other[3] == jobs[n - 1].test_attr@);
        lemma_last_said(tree, system, jobs, n - 1, i);
    }
}

/// A verdict that is kept comes back, unless a later one kept with it is on the
/// same attr.
pub proof fn law_verdicts_come_back(
    kept: Map<Key, bool>,
    tree: Seq<char>,
    system: Seq<char>,
    verdicts: Seq<(String, bool)>,
    i: int,
)
    requires
        0 <= i < verdicts.len(),
        forall|l: int| i < l < verdicts.len() ==> (#[trigger] verdicts[l]).0@ != verdicts[i].0@,
    ensures
        ({
            let now = with_verdicts(kept, tree, system, verdicts, verdicts.len() as int);
            let k = key3(tree, system, verdicts[i].0@);
            now.contains_key(k) && now[k] == verdicts[i].1
        }),
{
    let n = verdicts.len() as int;
    lemma_last_verdict(tree, system, verdicts, n, i);
    lemma_with_verdicts(kept, tree, system, verdicts, n, key3(tree, system, verdicts[i].0@));
}

/// Keeping verdicts says nothing about an attr that is not among them.
pub proof fn law_unchecked_attrs_stay_unknown(
    kept: Map<Key, bool>,
    tree: Seq<char>,
    system: Seq<char>,
    verdicts: Seq<(String, bool)>,
    attr: Seq<char>,
)
    requires
        forall|l: int| 0 <= l < verdicts.len() ==> (#[trigger] verdicts[l]).0@ != attr,
    ensures
        ({
            let now = with_verdicts(kept, tree, system, verdicts, verdicts.len() as int);
            let k = key3(tree, system, attr);
            &&& now.contains_key(k) <==> kept.contains_key(k)
            &&& kept.contains_key(k) ==> now[k] == kept[k]
        }),
{
    let n = verdicts.len() as int;
    lemma_no_verdict(tree, system, verdicts, n, attr);
    lemma_with_verdicts(kept, tree, system, verdicts, n, key3(tree, system, attr));
}

proof fn lemma_last_verdict(
    tree: Seq<char>,
    system: Seq<char>,
    verdicts: Seq<(String, bool)>,
    n: int,
    i: int,
)
    requires
        0 <= i < n <= verdicts.len(),
        forall|l: int| i < l < n ==> (#[trigger] verdicts[l]).0@ != verdicts[i].0@,
    ensures
        said_of_attr(tree, system, verdicts, n, key3(tree, system, verdicts[i].0@)) == Some(
            verdicts[i].1,
        ),
    decreases n,
{
    if i < n - 1 {
        assert(key3(tree, system, verdicts[i].0@)[2] == verdicts[i].0@);
        assert(key3(tree, system, verdicts[n - 1].0@)[2] == verdicts[n - 1].0@);
        lemma_last_verdict(tree, system, verdicts, n - 1, i);
    }
}

proof fn lemma_no_verdict(
    tree: Seq<char>,
    system: Seq<char>,
    verdicts: Seq<(String, bool)>,
    n: int,
    attr: Seq<char>,
)
    requires
        n <= verdicts.len(),
        forall|l: int| 0 <= l < n ==> (#[trigger] verdicts[l]).0@ != attr,
    ensures
        said_of_attr(tree, system, verdicts, n, key3(tree, system, attr)) is None,
    decreases n,
{
    if n > 0 {
        assert(key3(tree, system, attr)[2] == attr);
        assert(key3(tree, system, verdicts[n - 1].0@)[2] == verdicts[n - 1].0@);
        lemma_no_verdict(tree, system, verdicts, n - 1, attr);
    }
}

/// Keeping an evaluation of tests again changes nothing.
pub proof fn law_caching_tests_again_changes_nothing(
    pkgs_kept: Map<Key, ()>,
    tests_kept: Map<Key, (Seq<char>, bool)>,
    tree: Seq<char>,
    system: Seq<char>,
    pkgs: Seq<Seq<char>>,
    jobs: Seq<TestFact>,
)
    ensures
        ({
            let p = marked(pkgs_kept, tree, system, pkgs, pkgs.len() as int);
            let t = with_tests(tests_kept, tree, system, jobs, jobs.len() as int);
            &&& marked(p, tree, system, pkgs, pkgs.len() as int) == p
            &&& with_tests(t, tree, system, jobs, jobs.len() as int) == t
        }),
{
    let p = marked(pkgs_kept, tree, system, pkgs, pkgs.len() as int);
    let q = marked(p, tree, system, pkgs, pkgs.len() as int);
    assert forall|k: Key| q.contains_key(k) == p.contains_key(k) by {
        lemma_marked(pkgs_kept, tree, system, pkgs, pkgs.len() as int, k);
        lemma_marked(p, tree, system, pkgs, pkgs.len() as int, k);
    }
    assert(q =~= p);
    let t = with_tests(tests_kept, tree, system, jobs, jobs.len() as int);
    let u = with_tests(t, tree, system, jobs, jobs.len() as int);
    assert forall|k: Key| #[trigger] u.contains_key(k) == t.contains_key(k) by {
        lemma_with_tests(tests_kept, tree, system, jobs, jobs.len() as int, k);
        lemma_with_tests(t, tree, system, jobs, jobs.len() as int, k);
    }
    assert forall|k: Key| u.contains_key(k) implies #[trigger] u[k] == t[k] by {
        lemma_with_tests(tests_kept, tree, system, jobs, jobs.len() as int, k);
        lemma_with_tests(t, tree, system, jobs, jobs.len() as int, k);
    }
    assert(u.dom() =~= t.dom());
    assert(u =~= t);
}

/// Keeping verdicts again changes nothing.
pub proof fn law_caching_verdicts_again_changes_nothing(
    kept: Map<Key, bool>,
    tree: Seq<char>,
    system: Seq<char>,
    verdicts: Seq<(String, bool)>,
)
    ensures
        ({
            let v = with_verdicts(kept, tree, system, verdicts, verdicts.len() as int);
            with_verdicts(v, tree, system, verdicts, verdicts.len() as int) == v
        }),
{
    let v = with_verdicts(kept, tree, system, verdicts, verdicts.len() as int);
    let u = with_verdicts(v, tree, system, verdicts, verdicts.len() as int);
    assert forall|k: Key| #[trigger] u.contains_key(k) == v.contains_key(k) by {
        lemma_with_verdicts(kept, tree, system, verdicts, verdicts.len() as int, k);
        lemma_with_verdicts(v, tree, system, verdicts, verdicts.len() as int, k);
    }
    assert forall|k: Key| u.contains_key(k) implies #[trigger] u[k] == v[k] by {
        lemma_with_verdicts(kept, tree, system, verdicts, verdicts.len() as int, k);
        lemma_with_verdicts(v, tree, system, verdicts, verdicts.len() as int, k);
    }
    assert(u.dom() =~= v.dom());
    assert(u =~= v);
}

/// An evaluation of tests under one tree and system leaves what is kept under
/// any other as it was.
pub proof fn law_other_trees_share_nothing(
    pkgs_kept: Map<Key, ()>,
    tests_kept: Map<Key, (Seq<char>, bool)>,
    tree: Seq<char>,
    system: Seq<char>,
    pkgs: Seq<Seq<char>>,
    jobs: Seq<TestFact>,
    k: Key,
)
    requires
        !table::under(k, seq![tree, system]),
    ensures
        marked(pkgs_kept, tree, system, pkgs, pkgs.len() as int).contains_key(k)
            <==> pkgs_kept.contains_key(k),
        with_tests(tests_kept, tree, system, jobs, jobs.len() as int).contains_key(k)
            <==> tests_kept.contains_key(k),
        tests_kept.contains_key(k) ==> with_tests(
            tests_kept,
            tree,
            system,
            jobs,
            jobs.len() as int,
        )[k] == tests_kept[k],
{
    lemma_marked(pkgs_kept, tree, system, pkgs, pkgs.len() as int, k);
    lemma_with_tests(tests_kept, tree, system, jobs, jobs.len() as int, k);
    if marks(tree, system, pkgs, pkgs.len() as int, k) {
        assert(k.take(2) =~= seq![tree, system]);
    }
    lemma_said_under(tree, system, jobs, jobs.len() as int, k);
}

proof fn lemma_said_under(
    tree: Seq<char>,
    system: Seq<char>,
    jobs: Seq<TestFact>,
    n: int,
    k: Key,
)
    ensures
        said_of_test(tree, system, jobs, n, k) is Some ==> table::under(k, seq![tree, system]),
    decreases n,
{
    if n > 0 {
        lemma_said_under(tree, system, jobs, n - 1, k);
        let j = jobs[n - 1];
        if k == key4(tree, system, j.pkg_attr@, j.test_attr@) {
            assert(k.take(2) =~= seq![tree, system]);
        }
    }
}

/// The codes of the outcomes are fixed for good, and no other code stands for one.
pub proof fn law_codes_are_fixed(c: i64)
    ensures
        code_of(Outcome::Built) == 0,
        code_of(Outcome::Failed) == 1,
        code_of(Outcome::DepFailed) == 2,
        outcome_of(c) is Some <==> 0 <= c <= 2,
{
}

/// Keys are the same only if all their columns are.
pub proof fn law_keys_tell_their_columns(
    a: Seq<char>,
    b: Seq<char>,
    c: Seq<char>,
    d: Seq<char>,
    e: Seq<char>,
    f: Seq<char>,
    g: Seq<char>,
    h: Seq<char>,
)
    ensures
        key3(a, b, c) == key3(e, f, g) ==> a == e && b == f && c == g,
        key4(a, b, c, d) == key4(e, f, g, h) ==> a == e && b == f && c == g && d == h,
        key3(a, b, c) != key4(e, f, g, h),
{
    let k = key3(a, b, c);
    let l = key3(e, f, g);
    assert(k[0] == a && k[1] == b && k[2] == c);
    assert(l[0] == e && l[1] == f && l[2] == g);
    let m = key4(a, b, c, d);
    let n = key4(e, f, g, h);
    assert(m[0] == a && m[1] == b && m[2] == c && m[3] == d);
    assert(n[0] == e && n[1] == f && n[2] == g && n[3] == h);
    assert(k.len() != n.len());
}

/// A column of paths is empty exactly where there are none, and an output path is
/// kept without the directory of the store.
pub proof fn law_paths_are_kept_without_the_store(p: Seq<char>, paths: Seq<Seq<char>>)
    ensures
        stripped_out("/nix/store/"@ + p) == p,
        restored_out(p) == "/nix/store/"@ + p,
        !text::begins(p, "/nix/store/"@) ==> stripped_out(p) == p,
        blocker_column(paths) is None <==> paths.len() == 0,
        blocker_paths(None).len() == 0,
{
    let full = "/nix/store/"@ + p;
    text::law_prefixes_and_suffixes(full, "/nix/store/"@, p);
    assert(full.skip("/nix/store/"@.len() as int) =~= p);
}

/// A fact that is added becomes the last of the facts about its derivation, and
/// changes nothing that is known of any other.
pub proof fn law_facts_are_added_to_their_derivation(log: Seq<LogData>, f: Fact, drv: Seq<char>)
    requires
        keepable(f),
    ensures
        facts_about(log.push(encoded(f)), drv) == (if drv == f.drv {
            facts_about(log, drv).push(f)
        } else {
            facts_about(log, drv)
        }),
        facts_about(Seq::empty(), drv).len() == 0,
{
    evalfile::law_strip_then_restore(f.drv);
    law_log_is_append_only(log, f, evalfile::stripped(drv));
}

proof fn lemma_history_rows(log: Seq<LogData>, stored: Seq<char>, n: int, f: Fact)
    requires
        0 <= n <= log.len(),
    ensures
        history(log, stored, n).contains(f) <==> exists|i: int|
            0 <= i < n && (#[trigger] log[i]).drv == stored && decoded(log[i]) == Some(f),
    decreases n,
{
    if n > 0 {
        lemma_history_rows(log, stored, n - 1, f);
        let before = history(log, stored, n - 1);
        let now = history(log, stored, n);
        if before.contains(f) {
            let k = choose|k: int| 0 <= k < before.len() && before[k] == f;
            assert(now[k] == f);
        }
        if now.len() > before.len() {
            assert(now[before.len() as int] == decoded(log[n - 1])->0);
        }
        if now.contains(f) && !before.contains(f) {
            let k = choose|k: int| 0 <= k < now.len() && now[k] == f;
            if k < before.len() {
                assert(before[k] == f);
            }
            assert(log[n - 1].drv == stored);
        }
        if exists|i: int|
            0 <= i < n && (#[trigger] log[i]).drv == stored && decoded(log[i]) == Some(f) {
            let i = choose|i: int|
                0 <= i < n && (#[trigger] log[i]).drv == stored && decoded(log[i]) == Some(f);
            if i < n - 1 {
                assert(before.contains(f));
            }
        }
    }
}

/// The facts about a derivation of the store are those of its rows in the log, and
/// they are about that derivation.
pub proof fn law_facts_are_those_of_the_rows(log: Seq<LogData>, drv: Seq<char>, f: Fact)
    requires
        evalfile::store_drv(drv),
    ensures
        facts_about(log, drv).contains(f) <==> exists|i: int|
            0 <= i < log.len() && decoded(#[trigger] log[i]) == Some(f) && f.drv == drv,
{
    evalfile::law_strip_then_restore(drv);
    let stored = evalfile::stripped(drv);
    lemma_history_rows(log, stored, log.len() as int, f);
    if facts_about(log, drv).contains(f) {
        let i = choose|i: int|
            0 <= i < log.len() && (#[trigger] log[i]).drv == stored && decoded(log[i]) == Some(f);
        assert(decoded(log[i]) == Some(f));
    }
    if exists|i: int| 0 <= i < log.len() && decoded(#[trigger] log[i]) == Some(f) && f.drv == drv {
        let i = choose|i: int|
            0 <= i < log.len() && decoded(#[trigger] log[i]) == Some(f) && f.drv == drv;
        evalfile::law_restore_then_strip(log[i].drv);
        assert(log[i].drv == stored);
    }
}

/// A derivation fails, as far as the log knows, exactly where it has a row and none
/// with the code of a success.
pub proof fn law_failing_has_rows_and_no_success(log: Seq<LogData>, stored: Seq<char>, i: int)
    ensures
        0 <= i < log.len() && log[i].drv == stored && log[i].outcome == 0 ==> !only_fails(
            log,
            stored,
            log.len() as int,
        ),
        0 <= i < log.len() && log[i].drv == stored && (forall|k: int|
            0 <= k < log.len() && (#[trigger] log[k]).drv == stored ==> log[k].outcome != 0)
            ==> only_fails(log, stored, log.len() as int),
        (forall|k: int| 0 <= k < log.len() ==> (#[trigger] log[k]).drv != stored) ==> !only_fails(
            log,
            stored,
            log.len() as int,
        ),
{
}

/// A read fails on the first row about what is read whose code stands for nothing,
/// and on no other; without such a row it does not fail.
pub proof fn law_the_first_unreadable_row_is_reported(
    log: Seq<LogData>,
    stored: Seq<Seq<char>>,
    n: int,
    i: int,
)
    requires
        0 <= n <= log.len(),
        forall|k: int|
            0 <= k < i && k < n ==> !(stored.contains((#[trigger] log[k]).drv) && !(0
                <= log[k].outcome <= 2)),
    ensures
        0 <= i < n && stored.contains(log[i].drv) && !(0 <= log[i].outcome <= 2) ==> first_unknown(
            log,
            stored,
            n,
        ) == Some(log[i].outcome),
        i >= n ==> first_unknown(log, stored, n) is None,
    decreases n,
{
    if n > 0 {
        law_the_first_unreadable_row_is_reported(log, stored, n - 1, i);
        law_codes_are_fixed(log[n - 1].outcome);
    }
}

/// Tests without a derivation are not kept: whatever is kept was kept before, or
/// comes from a job with one.
pub proof fn law_tests_without_derivations_are_not_kept(
    kept: Map<Key, (Seq<char>, bool)>,
    tree: Seq<char>,
    system: Seq<char>,
    jobs: Seq<TestFact>,
    n: int,
    k: Key,
)
    requires
        0 <= n <= jobs.len(),
        with_tests(kept, tree, system, jobs, n).contains_key(k),
        !kept.contains_key(k),
    ensures
        exists|i: int|
            0 <= i < n && (#[trigger] jobs[i]).drv_path is Some && k == seq![
                tree,
                system,
                jobs[i].pkg_attr@,
                jobs[i].test_attr@,
            ],
    decreases n,
{
    if n > 0 {
        if with_tests(kept, tree, system, jobs, n - 1).contains_key(k) {
            law_tests_without_derivations_are_not_kept(kept, tree, system, jobs, n - 1, k);
            let i = choose|i: int|
                0 <= i < n - 1 && (#[trigger] jobs[i]).drv_path is Some && k == seq![
                    tree,
                    system,
                    jobs[i].pkg_attr@,
                    jobs[i].test_attr@,
                ];
            assert(jobs[i].drv_path is Some);
        } else {
            assert(jobs[n - 1].drv_path is Some);
        }
    }
}

/// Purging a tree and a system reaches exactly the keys that begin with them.
pub proof fn law_keys_are_under_their_first_columns(
    tree: Seq<char>,
    system: Seq<char>,
    a: Seq<char>,
    b: Seq<char>,
    t: Seq<char>,
    s: Seq<char>,
)
    ensures
        table::under(key3(t, s, a), seq![tree, system]) <==> t == tree && s == system,
        table::under(key4(t, s, a, b), seq![tree, system]) <==> t == tree && s == system,
{
    let p = seq![tree, system];
    let x = key3(t, s, a).take(2);
    let y = key4(t, s, a, b).take(2);
    assert(x =~= seq![t, s]);
    assert(y =~= seq![t, s]);
    assert(p[0] == tree && p[1] == system);
    assert(seq![t, s][0] == t && seq![t, s][1] == s);
}

/// A row about what is read whose code stands for nothing is found.
pub proof fn lemma_unknown_found(log: Seq<LogData>, stored: Seq<Seq<char>>, n: int, i: int)
    requires
        0 <= i < n <= log.len(),
        stored.contains(log[i].drv),
        !(0 <= log[i].outcome <= 2),
    ensures
        first_unknown(log, stored, n) is Some,
    decreases n,
{
    if i < n - 1 {
        lemma_unknown_found(log, stored, n - 1, i);
    }
}

/// Where the caches are as in another store, every one of them is.
pub proof fn law_caches_are_kept_together(a: Store, b: Store)
    requires
        a.caches_as(b),
    ensures
        a.test_pkgs() == b.test_pkgs(),
        a.test_drvs() == b.test_drvs(),
        a.blocks() == b.blocks(),
        a.patches() == b.patches(),
{
}

/// What is said of a row of the log is what its columns hold.
pub proof fn law_rows_say_what_their_columns_hold(r: LogRow, drvs: Seq<Seq<char>>, i: int)
    ensures
        r@.drv == r.drv@,
        r@.outcome == r.outcome,
        r@.blocker is Some <==> r.blocker is Some,
        r.blocker is Some ==> r@.blocker->0 == r.blocker->0@,
        stored_all(drvs).len() == drvs.len(),
        0 <= i < drvs.len() ==> stored_all(drvs)[i] == evalfile::stripped(drvs[i]),
{
}

/// What is loaded for many derivations is, for each of them, what the log says of it: it is
/// there exactly where the log has a row of it, and all of them in the log's order.
pub proof fn law_loaded_observations_are_those_of_the_log(
    m: Map<Seq<char>, Vec<Observation>>,
    log: Seq<LogData>,
    drvs: Seq<Seq<char>>,
    i: int,
)
    requires
        holds_histories(m, log, stored_all(drvs), log.len() as int),
        0 <= i < drvs.len(),
        evalfile::store_drv(drvs[i]),
    ensures
        m.contains_key(drvs[i]) <==> exists|j: int|
            0 <= j < log.len() && "/nix/store/"@ + (#[trigger] log[j]).drv + ".drv"@ == drvs[i],
        m.contains_key(drvs[i]) ==> model::facts(m[drvs[i]]@) == facts_about(log, drvs[i]),
{
    let d = drvs[i];
    let stored = stored_all(drvs);
    evalfile::law_strip_then_restore(d);
    assert(stored[i] == evalfile::stripped(d));
    assert forall|j: int|
        0 <= j < log.len() && "/nix/store/"@ + (#[trigger] log[j]).drv + ".drv"@
            == d implies about(log[j], stored) && evalfile::restored(log[j].drv) == d by {
        lemma_restored_injective(log[j].drv, evalfile::stripped(d));
    }
    if m.contains_key(d) {
        let j = choose|j: int|
            0 <= j < log.len() && about(#[trigger] log[j], stored) && d == evalfile::restored(
                log[j].drv,
            );
        lemma_restored_injective(log[j].drv, evalfile::stripped(d));
    }
}

impl Store {
    /// The tests that are purged are counted: they are those of the tree and the system.
    pub proof fn law_purged_tests_are_counted(self, tree: Seq<char>, system: Seq<char>)
        ensures
            self.tests_under(seq![tree, system]) == self.test_drvs().dom().filter(
                |k: Key| k.len() >= 2 && k[0] == tree && k[1] == system,
            ).len(),
    {
        let a = self.test_drvs().dom().filter(|k: Key| table::under(k, seq![tree, system]));
        let b = self.test_drvs().dom().filter(
            |k: Key| k.len() >= 2 && k[0] == tree && k[1] == system,
        );
        assert forall|k: Key| a.contains(k) == b.contains(k) by {
            if k.len() >= 2 {
                let t = k.take(2);
                assert(t[0] == k[0] && t[1] == k[1]);
                if k[0] == tree && k[1] == system {
                    assert(t =~= seq![tree, system]);
                }
            }
        }
        assert(a =~= b);
    }
}

} // verus!
