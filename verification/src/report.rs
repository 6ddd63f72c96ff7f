//! The Markdown report of a change from `base` to `head`.
//!
//! Each attr of the changed set has a state on either side, reduced from the
//! log. The report has a section for each pair of states that occurs, the worst
//! first; within a section, attrs that share their derivations share a line.

use vstd::prelude::*;
use vstd::relations::*;
use vstd::string::*;
use vstd::utf8::*;

use crate::model::Outcome;
use crate::ordered;
use crate::ordered::Ranked;
use crate::text;

verus! {

// --- states ------------------------------------------------------------------

/// Where an observation comes from.
#[derive(Debug, Clone, Copy, PartialEq, Eq, Structural)]
pub enum Source {
    /// A build on this machine.
    Local,
    /// A substituter.
    Cache,
    /// A job of the build farm.
    HydraJob,
}

/// An observation with its source and circumstances.
#[derive(Debug, Clone, PartialEq, Eq)]
pub struct Sighting {
    pub drv_path: String,
    pub source: Source,
    pub outcome: Outcome,
    pub when: i64,
    pub system: Option<String>,
    pub duration_s: Option<u64>,
    pub machine: Option<String>,
}

/// What became of one side.
#[derive(Clone, Copy, PartialEq, Eq, Hash, Debug, Structural)]
pub enum State {
    /// It built, or a substituter has it.
    Built,
    /// Its own build failed.
    Failed,
    /// A dependency failed, so it never ran.
    Blocked,
    /// It is marked broken, unsupported or insecure, and was not attempted.
    Broken,
    /// There is no derivation on this side.
    Absent,
    /// There is a derivation, but nothing is known of it.
    Unknown,
}

impl State {
    /// The sign of a state.
    pub open spec fn sign(self) -> Seq<char> {
        match self {
            State::Built => "✅"@,
            State::Failed => "❌"@,
            State::Blocked => "🚫"@,
            State::Broken => "🚧"@,
            State::Absent => "➖"@,
            State::Unknown => "❓"@,
        }
    }

    /// The sign of a state.
    pub fn glyph(self) -> (r: &'static str)
        ensures
            r@ == self.sign(),
    {
        match self {
            State::Built => "✅",
            State::Failed => "❌",
            State::Blocked => "🚫",
            State::Broken => "🚧",
            State::Absent => "➖",
            State::Unknown => "❓",
        }
    }
}

/// Whether an outcome was observed at a source.
pub open spec fn sighted(obs: Seq<Sighting>, source: Source, outcome: Outcome) -> bool {
    exists|i: int|
        0 <= i < obs.len() && (#[trigger] obs[i]).source == source && obs[i].outcome == outcome
}

/// The state of a side: what was observed on this machine counts first, a
/// success before a failure and a failure of its own before one of a
/// dependency; then what a substituter has; then a mark.
pub open spec fn state_of(has_drv: bool, broken: bool, obs: Seq<Sighting>) -> State {
    if !has_drv {
        State::Absent
    } else if sighted(obs, Source::Local, Outcome::Built) {
        State::Built
    } else if sighted(obs, Source::Local, Outcome::Failed) {
        State::Failed
    } else if sighted(obs, Source::Local, Outcome::DepFailed) {
        State::Blocked
    } else if sighted(obs, Source::Cache, Outcome::Built) {
        State::Built
    } else if broken {
        State::Broken
    } else {
        State::Unknown
    }
}

fn any_sighted(obs: &[Sighting], source: Source, outcome: Outcome) -> (r: bool)
    ensures
        r == sighted(obs@, source, outcome),
{
    let mut i: usize = 0;
    while i < obs.len()
        invariant
            i <= obs@.len(),
            forall|k: int|
                0 <= k < i ==> !((#[trigger] obs@[k]).source == source && obs@[k].outcome == outcome),
        decreases obs@.len() - i,
    {
        if obs[i].source == source && obs[i].outcome == outcome {
            return true;
        }
        i = i + 1;
    }
    false
}

/// The state of a side: its derivation, whether it is marked broken, and what
/// was observed of the derivation.
pub fn side_state(drv: &Option<String>, broken: bool, obs: &[Sighting]) -> (r: State)
    ensures
        r == state_of(drv is Some, broken, obs@),
{
    if drv.is_none() {
        return State::Absent;
    }
    if any_sighted(obs, Source::Local, Outcome::Built) {
        State::Built
    } else if any_sighted(obs, Source::Local, Outcome::Failed) {
        State::Failed
    } else if any_sighted(obs, Source::Local, Outcome::DepFailed) {
        State::Blocked
    } else if any_sighted(obs, Source::Cache, Outcome::Built) {
        State::Built
    } else if broken {
        State::Broken
    } else {
        State::Unknown
    }
}

/// A mark shows only where nothing is known of the build.
pub proof fn law_facts_outrank_marks(obs: Seq<Sighting>)
    ensures
        state_of(true, true, obs) != State::Broken ==> state_of(true, false, obs) == state_of(
            true,
            true,
            obs,
        ),
        state_of(true, true, obs) == State::Broken <==> state_of(true, false, obs)
            == State::Unknown,
{
}

/// What was observed on this machine outranks what a substituter has.
pub proof fn law_local_facts_outrank_the_cache(obs: Seq<Sighting>, broken: bool)
    requires
        sighted(obs, Source::Local, Outcome::Failed),
        !sighted(obs, Source::Local, Outcome::Built),
    ensures
        state_of(true, broken, obs) == State::Failed,
{
}

// --- sections ----------------------------------------------------------------

/// The section of a pair of states: its place among the sections, the worse
/// the earlier; a noun to count with; and a phrase.
pub open spec fn section_of(base: State, head: State) -> (usize, &'static str, &'static str) {
    match (base, head) {
        (State::Built, State::Failed) => (0, "regression", "build on the base, fail here"),
        (State::Built, State::Blocked) => (1, "blocked package", "build on the base, a dependency fails here"),
        (State::Absent, State::Failed) => (2, "new failure", "added here, fail to build"),
        (State::Absent, State::Blocked) => (3, "new blocked package", "added here, blocked by a failed dependency"),
        (State::Unknown, State::Failed) => (4, "failure", "fail here; base status unknown"),
        (State::Unknown, State::Blocked) => (5, "blocked package", "blocked here; base status unknown"),
        (State::Broken, State::Failed) => (6, "failure", "marked broken on the base, fail here"),
        (State::Broken, State::Blocked) => (7, "blocked package", "marked broken on the base, a dependency fails here"),
        (State::Failed, State::Failed) => (8, "pre-existing failure", "fail on the base and here"),
        (State::Failed, State::Blocked) => (9, "pre-existing failure", "fail on the base, blocked here"),
        (State::Blocked, State::Failed) => (10, "pre-existing failure", "blocked on the base, fail here"),
        (State::Blocked, State::Blocked) => (11, "pre-existing blocked package", "blocked on the base and here"),
        (State::Built, State::Broken) => (12, "newly broken package", "build on the base, marked broken here (not attempted)"),
        (State::Failed, State::Broken) => (13, "newly broken package", "fail on the base, marked broken here (not attempted)"),
        (State::Blocked, State::Broken) => (14, "newly broken package", "blocked on the base, marked broken here (not attempted)"),
        (State::Absent, State::Broken) => (15, "new broken package", "added here already marked broken (not attempted)"),
        (State::Unknown, State::Broken) => (16, "broken package", "marked broken here (not attempted); base status unknown"),
        (State::Broken, State::Broken) => (17, "pre-existing broken package", "marked broken on the base and here (not attempted)"),
        (State::Built, State::Absent) => (18, "dropped package", "build on the base, gone here"),
        (State::Failed, State::Absent) => (19, "removed package", "failed on the base, gone here"),
        (State::Blocked, State::Absent) => (20, "removed package", "blocked on the base, gone here"),
        (State::Broken, State::Absent) => (21, "removed broken package", "marked broken on the base, gone here"),
        (State::Failed, State::Built) => (22, "fixed package", "fail on the base, build here"),
        (State::Blocked, State::Built) => (23, "fixed package", "blocked on the base, build here"),
        (State::Broken, State::Built) => (24, "unbroken package", "marked broken on the base, build here"),
        (State::Absent, State::Built) => (25, "new package", "new here, build"),
        (State::Unknown, State::Built) => (26, "built package", "build here; base status unknown"),
        (State::Built, State::Built) => (27, "unchanged package", "build on the base and here"),
        _ => (28, "package", "see the before → after glyphs"),
    }
}

/// The section of a pair of states.
pub fn cell(base: State, head: State) -> (r: (usize, &'static str, &'static str))
    ensures
        r == section_of(base, head),
{
    match (base, head) {
        (State::Built, State::Failed) => (0, "regression", "build on the base, fail here"),
        (State::Built, State::Blocked) => (1, "blocked package", "build on the base, a dependency fails here"),
        (State::Absent, State::Failed) => (2, "new failure", "added here, fail to build"),
        (State::Absent, State::Blocked) => (3, "new blocked package", "added here, blocked by a failed dependency"),
        (State::Unknown, State::Failed) => (4, "failure", "fail here; base status unknown"),
        (State::Unknown, State::Blocked) => (5, "blocked package", "blocked here; base status unknown"),
        (State::Broken, State::Failed) => (6, "failure", "marked broken on the base, fail here"),
        (State::Broken, State::Blocked) => (7, "blocked package", "marked broken on the base, a dependency fails here"),
        (State::Failed, State::Failed) => (8, "pre-existing failure", "fail on the base and here"),
        (State::Failed, State::Blocked) => (9, "pre-existing failure", "fail on the base, blocked here"),
        (State::Blocked, State::Failed) => (10, "pre-existing failure", "blocked on the base, fail here"),
        (State::Blocked, State::Blocked) => (11, "pre-existing blocked package", "blocked on the base and here"),
        (State::Built, State::Broken) => (12, "newly broken package", "build on the base, marked broken here (not attempted)"),
        (State::Failed, State::Broken) => (13, "newly broken package", "fail on the base, marked broken here (not attempted)"),
        (State::Blocked, State::Broken) => (14, "newly broken package", "blocked on the base, marked broken here (not attempted)"),
        (State::Absent, State::Broken) => (15, "new broken package", "added here already marked broken (not attempted)"),
        (State::Unknown, State::Broken) => (16, "broken package", "marked broken here (not attempted); base status unknown"),
        (State::Broken, State::Broken) => (17, "pre-existing broken package", "marked broken on the base and here (not attempted)"),
        (State::Built, State::Absent) => (18, "dropped package", "build on the base, gone here"),
        (State::Failed, State::Absent) => (19, "removed package", "failed on the base, gone here"),
        (State::Blocked, State::Absent) => (20, "removed package", "blocked on the base, gone here"),
        (State::Broken, State::Absent) => (21, "removed broken package", "marked broken on the base, gone here"),
        (State::Failed, State::Built) => (22, "fixed package", "fail on the base, build here"),
        (State::Blocked, State::Built) => (23, "fixed package", "blocked on the base, build here"),
        (State::Broken, State::Built) => (24, "unbroken package", "marked broken on the base, build here"),
        (State::Absent, State::Built) => (25, "new package", "new here, build"),
        (State::Unknown, State::Built) => (26, "built package", "build here; base status unknown"),
        (State::Built, State::Built) => (27, "unchanged package", "build on the base and here"),
        _ => (28, "package", "see the before → after glyphs"),
    }
}

/// No two pairs of states share a place, but for those that have no section of
/// their own, which come last.
pub proof fn law_sections_are_distinct(a: State, b: State, c: State, d: State)
    requires
        section_of(a, b).0 == section_of(c, d).0,
        section_of(a, b).0 < 28,
    ensures
        a == c && b == d,
{
}

/// Every section about a failure here comes before every section about a
/// success here.
pub proof fn law_failures_come_before_successes(a: State, b: State, c: State)
    requires
        b == State::Failed || b == State::Blocked,
    ensures
        section_of(a, b).0 < section_of(c, State::Built).0,
{
}

// --- lines -------------------------------------------------------------------

/// One attr of the changed set.
#[derive(Debug, PartialEq, Eq)]
pub struct Entry {
    pub attr: String,
    pub base_drv: Option<String>,
    pub head_drv: Option<String>,
    pub base: State,
    pub head: State,
}

/// The derivations of an attr on the two sides.
pub type Drvs = (Option<Seq<char>>, Option<Seq<char>>);

/// The derivations of an entry.
pub open spec fn drvs_of(e: Entry) -> Drvs {
    (text::opt(e.base_drv), text::opt(e.head_drv))
}

/// Whether an attr may stand before another on a line: the one with fewer
/// bytes, else in lexicographic order.
pub open spec fn shorter_upto(a: Seq<char>, b: Seq<char>) -> bool {
    encode_utf8(a).len() < encode_utf8(b).len() || (encode_utf8(a).len() == encode_utf8(b).len()
        && text::lex_upto(a, b))
}

/// An attr on a line.
struct LineAttr {
    name: String,
}

impl Ranked for LineAttr {
    type Key = Seq<char>;

    closed spec fn key(self) -> Seq<char> {
        self.name@
    }

    open spec fn upto(a: Seq<char>, b: Seq<char>) -> bool {
        shorter_upto(a, b)
    }

    proof fn order_is_total() {
        let rel = |a: Seq<char>, b: Seq<char>| Self::upto(a, b);
        assert forall|a: Seq<char>, b: Seq<char>, c: Seq<char>| #[trigger]
            rel(a, b) && #[trigger] rel(b, c) implies rel(a, c) by {
            text::lemma_lex_order(a, b, c);
        }
        assert forall|a: Seq<char>, b: Seq<char>| #[trigger]
            rel(a, b) && #[trigger] rel(b, a) implies a == b by {
            text::lemma_lex_order(a, b, a);
        }
        assert forall|a: Seq<char>, b: Seq<char>| #[trigger] rel(a, b) || #[trigger] rel(b, a) by {
            text::lemma_lex_order(a, b, a);
        }
        assert(reflexive(rel));
        assert(total_ordering(rel));
        assert(rel =~= (|a: Self::Key, b: Self::Key| Self::upto(a, b)));
    }

    fn ranks_upto(&self, other: &Self) -> (r: bool) {
        let n: usize = self.name.as_str().as_bytes().len();
        let m: usize = other.name.as_str().as_bytes().len();
        proof {
            text::lemma_lex_order(self.name@, other.name@, self.name@);
        }
        if n < m {
            true
        } else if m < n {
            false
        } else {
            !text::before(other.name.as_str(), self.name.as_str())
        }
    }
}

/// Attrs in the order of a line.
pub open spec fn line_order(attrs: Seq<Seq<char>>) -> Seq<Seq<char>> {
    attrs.sort_by(|a: Seq<char>, b: Seq<char>| shorter_upto(a, b))
}

/// An attr in a code span.
pub open spec fn code_span(a: Seq<char>) -> Seq<char> {
    "`"@ + a + "`"@
}

/// The line of attrs that share their derivations.
pub open spec fn line_text(attrs: Seq<Seq<char>>) -> Seq<char> {
    text::joined(line_order(attrs).map_values(|a: Seq<char>| code_span(a)), " = "@)
}

fn make_line(attrs: Vec<String>) -> (r: String)
    ensures
        r@ == line_text(text::texts(attrs@)),
{
    let ghost all = text::texts(attrs@);
    let mut list: Vec<LineAttr> = Vec::new();
    let mut i: usize = 0;
    while i < attrs.len()
        invariant
            i <= attrs@.len(),
            all == text::texts(attrs@),
            ordered::keys_of(list@) == all.take(i as int),
        decreases attrs@.len() - i,
    {
        let ghost was = ordered::keys_of(list@);
        let a = LineAttr { name: attrs[i].clone() };
        list.push(a);
        proof {
            assert(ordered::keys_of(list@) =~= was.push(a.name@));
            assert(all.take(i + 1) =~= all.take(i as int).push(all[i as int]));
        }
        i = i + 1;
    }
    assert(all.take(i as int) =~= all);
    let sorted = ordered::sort(list);
    let ghost names = ordered::keys_of(sorted@);
    let ghost want = names.map_values(|a: Seq<char>| code_span(a));
    proof {
        assert(ordered::order_of::<LineAttr>() =~= (|a: Seq<char>, b: Seq<char>|
            shorter_upto(a, b)));
    }
    let mut spans: Vec<String> = Vec::new();
    let mut k: usize = 0;
    while k < sorted.len()
        invariant
            k <= sorted@.len(),
            names == ordered::keys_of(sorted@),
            want == names.map_values(|a: Seq<char>| code_span(a)),
            text::texts(spans@) == want.take(k as int),
        decreases sorted@.len() - k,
    {
        let mut s = "`".to_owned();
        s.append(sorted[k].name.as_str());
        s.append("`");
        proof {
            assert(names[k as int] == sorted@[k as int].name@);
            text::lemma_texts_push(spans@, s);
            assert(want.take(k + 1) =~= want.take(k as int).push(want[k as int]));
        }
        spans.push(s);
        k = k + 1;
    }
    assert(want.take(k as int) =~= want);
    text::join(spans.as_slice(), " = ")
}

/// The pairs of derivations of the first `n` entries, in the order they are
/// first seen.
pub open spec fn drvs_seen(entries: Seq<Entry>, n: int) -> Seq<Drvs>
    decreases n,
{
    if n <= 0 {
        Seq::empty()
    } else {
        let before = drvs_seen(entries, n - 1);
        if before.contains(drvs_of(entries[n - 1])) {
            before
        } else {
            before.push(drvs_of(entries[n - 1]))
        }
    }
}

/// The attrs of those of the first `n` entries that have a pair of
/// derivations.
pub open spec fn attrs_with(entries: Seq<Entry>, d: Drvs, n: int) -> Seq<Seq<char>>
    decreases n,
{
    if n <= 0 {
        Seq::empty()
    } else if drvs_of(entries[n - 1]) == d {
        attrs_with(entries, d, n - 1).push(entries[n - 1].attr@)
    } else {
        attrs_with(entries, d, n - 1)
    }
}

/// The lines of a section, in lexicographic order.
pub open spec fn section_lines(entries: Seq<Entry>) -> Seq<Seq<char>> {
    let n = entries.len() as int;
    ordered::in_order(
        drvs_seen(entries, n).map_values(|d: Drvs| line_text(attrs_with(entries, d, n))),
    )
}

/// The lines of a section as list items.
pub open spec fn bullets(lines: Seq<Seq<char>>, n: int) -> Seq<char>
    decreases n,
{
    if n <= 0 {
        Seq::empty()
    } else {
        bullets(lines, n - 1) + "- "@ + lines[n - 1] + "\n"@
    }
}

/// A section: how many builds there are of a kind, how many attrs where that
/// differs, and a line for each build.
pub open spec fn section_text(base: State, head: State, entries: Seq<Entry>) -> Seq<char> {
    let groups = drvs_seen(entries, entries.len() as int).len();
    let (_, noun, phrase) = section_of(base, head);
    let lines = section_lines(entries);
    "<details><summary>"@ + base.sign() + " → "@ + head.sign() + " · <b>"@ + text::decimal(groups)
        + " "@ + noun@ + (if groups == 1 {
        Seq::empty()
    } else {
        "s"@
    }) + "</b>"@ + (if entries.len() != groups {
        " ("@ + text::decimal(entries.len()) + " attrs)"@
    } else {
        Seq::empty()
    }) + " — "@ + phrase@ + "</summary>\n\n"@ + bullets(lines, lines.len() as int)
        + "</details>\n\n"@
}

/// The entries at some positions.
pub open spec fn chosen(entries: Seq<Entry>, at: Seq<usize>) -> Seq<Entry> {
    Seq::new(at.len(), |i: int| entries[at[i] as int])
}

proof fn lemma_drvs_seen(entries: Seq<Entry>, n: int)
    requires
        0 <= n <= entries.len(),
    ensures
        forall|i: int|
            0 <= i < n ==> drvs_seen(entries, n).contains(drvs_of(#[trigger] entries[i])),
        drvs_seen(entries, n).no_duplicates(),
    decreases n,
{
    if n > 0 {
        lemma_drvs_seen(entries, n - 1);
        let before = drvs_seen(entries, n - 1);
        let now = drvs_seen(entries, n);
        assert forall|i: int| 0 <= i < n implies now.contains(drvs_of(#[trigger] entries[i])) by {
            if i < n - 1 {
                assert(before.contains(drvs_of(entries[i])));
                let k = choose|k: int| 0 <= k < before.len() && before[k] == drvs_of(entries[i]);
                assert(now[k] == drvs_of(entries[i]));
            } else if !before.contains(drvs_of(entries[i])) {
                assert(now[before.len() as int] == drvs_of(entries[i]));
            }
        }
    }
}

/// The lines of the entries at the positions `at`: one for each pair of
/// derivations, with how many that are.
fn collect_lines(entries: &[Entry], at: &[usize]) -> (r: Vec<String>)
    requires
        forall|i: int| 0 <= i < at@.len() ==> #[trigger] at@[i] < entries@.len(),
    ensures
        text::texts(r@) == section_lines(chosen(entries@, at@)),
        r@.len() == drvs_seen(chosen(entries@, at@), at@.len() as int).len(),
{
    let ghost all = chosen(entries@, at@);
    let ghost n = at@.len() as int;
    // The first entry with each pair of derivations.
    let mut firsts: Vec<usize> = Vec::new();
    let mut i: usize = 0;
    while i < at.len()
        invariant
            i <= at@.len(),
            all == chosen(entries@, at@),
            forall|i: int| 0 <= i < at@.len() ==> #[trigger] at@[i] < entries@.len(),
            forall|k: int| 0 <= k < firsts@.len() ==> #[trigger] firsts@[k] < entries@.len(),
            firsts@.map_values(|f: usize| drvs_of(entries@[f as int])) == drvs_seen(all, i as int),
        decreases at@.len() - i,
    {
        let e = &entries[at[i]];
        let ghost seen_now = firsts@.map_values(|f: usize| drvs_of(entries@[f as int]));
        let mut known = false;
        let mut k: usize = 0;
        while k < firsts.len()
            invariant
                k <= firsts@.len(),
                forall|k: int| 0 <= k < firsts@.len() ==> #[trigger] firsts@[k] < entries@.len(),
                known == exists|m: int|
                    0 <= m < k && drvs_of(entries@[#[trigger] firsts@[m] as int]) == drvs_of(*e),
            decreases firsts@.len() - k,
        {
            let f = &entries[firsts[k]];
            if text::same_opt(&f.base_drv, &e.base_drv) && text::same_opt(&f.head_drv, &e.head_drv) {
                assert(drvs_of(entries@[firsts@[k as int] as int]) == drvs_of(*e));
                known = true;
            }
            k = k + 1;
        }
        proof {
            assert(all[i as int] == *e);
            assert(known == seen_now.contains(drvs_of(*e))) by {
                if known {
                    let m = choose|m: int|
                        0 <= m < firsts@.len() && drvs_of(entries@[#[trigger] firsts@[m] as int])
                            == drvs_of(*e);
                    assert(seen_now[m] == drvs_of(*e));
                }
                if seen_now.contains(drvs_of(*e)) {
                    let m = choose|m: int| 0 <= m < seen_now.len() && seen_now[m] == drvs_of(*e);
                    assert(drvs_of(entries@[firsts@[m] as int]) == drvs_of(*e));
                }
            }
        }
        if !known {
            firsts.push(at[i]);
            assert(firsts@.map_values(|f: usize| drvs_of(entries@[f as int])) =~= seen_now.push(
                drvs_of(*e),
            ));
        }
        i = i + 1;
    }
    let ghost seen = drvs_seen(all, n);
    let ghost want = seen.map_values(|d: Drvs| line_text(attrs_with(all, d, n)));
    assert(seen.len() == firsts@.len());
    let mut lines: Vec<String> = Vec::new();
    let mut g: usize = 0;
    while g < firsts.len()
        invariant
            g <= firsts@.len(),
            n == at@.len(),
            all == chosen(entries@, at@),
            forall|i: int| 0 <= i < at@.len() ==> #[trigger] at@[i] < entries@.len(),
            forall|k: int| 0 <= k < firsts@.len() ==> #[trigger] firsts@[k] < entries@.len(),
            seen == firsts@.map_values(|f: usize| drvs_of(entries@[f as int])),
            want == seen.map_values(|d: Drvs| line_text(attrs_with(all, d, n))),
            text::texts(lines@) == want.take(g as int),
        decreases firsts@.len() - g,
    {
        let f = &entries[firsts[g]];
        let ghost d = drvs_of(*f);
        let mut attrs: Vec<String> = Vec::new();
        let mut k: usize = 0;
        assert(text::texts(attrs@) =~= Seq::<Seq<char>>::empty());
        while k < at.len()
            invariant
                k <= at@.len(),
                all == chosen(entries@, at@),
                d == drvs_of(*f),
                forall|i: int| 0 <= i < at@.len() ==> #[trigger] at@[i] < entries@.len(),
                text::texts(attrs@) == attrs_with(all, d, k as int),
            decreases at@.len() - k,
        {
            let e = &entries[at[k]];
            assert(all[k as int] == *e);
            if text::same_opt(&f.base_drv, &e.base_drv) && text::same_opt(&f.head_drv, &e.head_drv) {
                let a = e.attr.clone();
                proof {
                    text::lemma_texts_push(attrs@, a);
                }
                attrs.push(a);
            }
            k = k + 1;
        }
        let line = make_line(attrs);
        proof {
            text::lemma_texts_push(lines@, line);
            assert(seen[g as int] == d);
            assert(want.take(g + 1) =~= want.take(g as int).push(want[g as int]));
        }
        lines.push(line);
        g = g + 1;
    }
    assert(want.take(g as int) =~= want);
    assert(text::texts(lines@).len() == lines@.len());
    let ghost before = lines@;
    let r = ordered::sort_strings(lines);
    proof {
        assert(r@.len() == before.len()) by {
            broadcast use vstd::seq_lib::group_to_multiset_ensures;

            assert(r@.to_multiset().len() == before.to_multiset().len());
        }
    }
    r
}

/// A section of the report.
fn render_section(base: State, head: State, entries: &[Entry], at: &[usize]) -> (r: String)
    requires
        forall|i: int| 0 <= i < at@.len() ==> #[trigger] at@[i] < entries@.len(),
    ensures
        r@ == section_text(base, head, chosen(entries@, at@)),
{
    let ghost all = chosen(entries@, at@);
    let lines = collect_lines(entries, at);
    let groups = lines.len();
    let (_, noun, phrase) = cell(base, head);
    let mut s = "<details><summary>".to_owned();
    s.append(base.glyph());
    s.append(" → ");
    s.append(head.glyph());
    s.append(" · <b>");
    let d = text::decimal_usize(groups);
    s.append(d.as_str());
    s.append(" ");
    s.append(noun);
    let ghost s0 = s@;
    if groups != 1 {
        s.append("s");
    }
    assert(s@ =~= s0 + (if groups == 1 {
        Seq::empty()
    } else {
        "s"@
    }));
    s.append("</b>");
    let ghost s1 = s@;
    if at.len() != groups {
        s.append(" (");
        let d = text::decimal_usize(at.len());
        s.append(d.as_str());
        s.append(" attrs)");
    }
    assert(s@ =~= s1 + (if all.len() != groups {
        " ("@ + text::decimal(all.len()) + " attrs)"@
    } else {
        Seq::empty()
    }));
    s.append(" — ");
    s.append(phrase);
    s.append("</summary>\n\n");
    let ghost s2 = s@;
    let ghost texts = text::texts(lines@);
    let mut i: usize = 0;
    assert(s@ =~= s2 + bullets(texts, 0));
    while i < lines.len()
        invariant
            i <= lines@.len(),
            texts == text::texts(lines@),
            s@ == s2 + bullets(texts, i as int),
        decreases lines@.len() - i,
    {
        s.append("- ");
        s.append(lines[i].as_str());
        s.append("\n");
        proof {
            assert(texts[i as int] == lines@[i as int]@);
            assert(s@ =~= s2 + bullets(texts, i + 1));
        }
        i = i + 1;
    }
    s.append("</details>\n\n");
    assert(texts.len() == lines@.len());
    s
}

// --- the report --------------------------------------------------------------

/// The pairs of states of the first `n` entries, in the order they are first
/// seen.
pub open spec fn pairs_seen(entries: Seq<Entry>, n: int) -> Seq<(State, State)>
    decreases n,
{
    if n <= 0 {
        Seq::empty()
    } else {
        let before = pairs_seen(entries, n - 1);
        let pair = (entries[n - 1].base, entries[n - 1].head);
        if before.contains(pair) {
            before
        } else {
            before.push(pair)
        }
    }
}

/// Whether a section may stand before another: by its place, then by which
/// was seen first.
pub open spec fn ranks_upto(a: (int, int), b: (int, int)) -> bool {
    a.0 < b.0 || (a.0 == b.0 && a.1 <= b.1)
}

/// The ranks of the sections, in the order of the report: the place of each
/// among the sections, and its number among those seen.
pub open spec fn section_ranks(pairs: Seq<(State, State)>) -> Seq<(int, int)> {
    Seq::new(pairs.len(), |i: int| (section_of(pairs[i].0, pairs[i].1).0 as int, i)).sort_by(
        |a: (int, int), b: (int, int)| ranks_upto(a, b),
    )
}

/// The pairs of states that occur, in the order of their sections.
pub open spec fn section_order(entries: Seq<Entry>) -> Seq<(State, State)> {
    let pairs = pairs_seen(entries, entries.len() as int);
    section_ranks(pairs).map_values(|k: (int, int)| pairs[k.1])
}

/// The entries with a pair of states.
pub open spec fn with_states(entries: Seq<Entry>, pair: (State, State)) -> Seq<Entry> {
    entries.filter(|e: Entry| (e.base, e.head) == pair)
}

/// The first `n` sections of an order.
pub open spec fn sections_text(
    entries: Seq<Entry>,
    order: Seq<(State, State)>,
    n: int,
) -> Seq<char>
    decreases n,
{
    if n <= 0 {
        Seq::empty()
    } else {
        sections_text(entries, order, n - 1) + section_text(
            order[n - 1].0,
            order[n - 1].1,
            with_states(entries, order[n - 1]),
        )
    }
}

/// The part of the report on one system.
pub open spec fn system_text(system: Seq<char>, entries: Seq<Entry>) -> Seq<char> {
    "\n### `"@ + system + "`\n\n"@ + (if entries.len() == 0 {
        "_No changed attrs._\n"@
    } else {
        let order = section_order(entries);
        sections_text(entries, order, order.len() as int)
    })
}

/// The parts of the report on the first `n` systems.
pub open spec fn systems_text(per_system: Seq<(String, Vec<Entry>)>, n: int) -> Seq<char>
    decreases n,
{
    if n <= 0 {
        Seq::empty()
    } else {
        systems_text(per_system, n - 1) + system_text(
            per_system[n - 1].0@,
            per_system[n - 1].1@,
        )
    }
}

/// The report.
pub open spec fn report_text(
    base: Seq<char>,
    head: Seq<char>,
    per_system: Seq<(String, Vec<Entry>)>,
) -> Seq<char> {
    "## `npd` report: "@ + base + " → "@ + head + "\n"@ + systems_text(
        per_system,
        per_system.len() as int,
    )
}

/// A section to come.
struct Bucket {
    index: usize,
    at: usize,
}

impl Ranked for Bucket {
    type Key = (int, int);

    closed spec fn key(self) -> (int, int) {
        (self.index as int, self.at as int)
    }

    open spec fn upto(a: (int, int), b: (int, int)) -> bool {
        ranks_upto(a, b)
    }

    proof fn order_is_total() {
        let rel = |a: (int, int), b: (int, int)| Self::upto(a, b);
        assert(total_ordering(rel));
        assert(rel =~= (|a: Self::Key, b: Self::Key| Self::upto(a, b)));
    }

    fn ranks_upto(&self, other: &Self) -> (r: bool) {
        self.index < other.index || (self.index == other.index && self.at <= other.at)
    }
}

/// The pairs of states of the entries, in the order they are first seen.
fn collect_pairs(entries: &[Entry]) -> (r: Vec<(State, State)>)
    ensures
        r@ == pairs_seen(entries@, entries@.len() as int),
{
    let mut pairs: Vec<(State, State)> = Vec::new();
    let mut i: usize = 0;
    while i < entries.len()
        invariant
            i <= entries@.len(),
            pairs@ == pairs_seen(entries@, i as int),
        decreases entries@.len() - i,
    {
        let pair = (entries[i].base, entries[i].head);
        let mut known = false;
        let mut k: usize = 0;
        while k < pairs.len()
            invariant
                k <= pairs@.len(),
                known == exists|m: int| 0 <= m < k && #[trigger] pairs@[m] == pair,
            decreases pairs@.len() - k,
        {
            if pairs[k].0 == pair.0 && pairs[k].1 == pair.1 {
                assert(pairs@[k as int] == pair);
                known = true;
            }
            k = k + 1;
        }
        assert(known == pairs@.contains(pair));
        if !known {
            pairs.push(pair);
        }
        i = i + 1;
    }
    pairs
}

/// The positions of the entries with a pair of states.
fn positions(entries: &[Entry], pair: (State, State)) -> (r: Vec<usize>)
    ensures
        forall|i: int| 0 <= i < r@.len() ==> #[trigger] r@[i] < entries@.len(),
        chosen(entries@, r@) == with_states(entries@, pair),
{
    let mut at: Vec<usize> = Vec::new();
    let ghost keep = |e: Entry| (e.base, e.head) == pair;
    let mut i: usize = 0;
    proof {
        reveal(Seq::filter);
        assert(chosen(entries@, at@) =~= entries@.take(0).filter(keep));
    }
    while i < entries.len()
        invariant
            i <= entries@.len(),
            keep == (|e: Entry| (e.base, e.head) == pair),
            forall|k: int| 0 <= k < at@.len() ==> #[trigger] at@[k] < entries@.len(),
            chosen(entries@, at@) == entries@.take(i as int).filter(keep),
        decreases entries@.len() - i,
    {
        let ghost was = at@;
        proof {
            reveal(Seq::filter);
            assert(entries@.take(i + 1).drop_last() =~= entries@.take(i as int));
        }
        if entries[i].base == pair.0 && entries[i].head == pair.1 {
            at.push(i);
            assert(chosen(entries@, at@) =~= chosen(entries@, was).push(entries@[i as int]));
        }
        i = i + 1;
    }
    assert(entries@.take(i as int) =~= entries@);
    at
}

/// The part of the report on one system.
fn render_system(system: &str, entries: &[Entry]) -> (r: String)
    ensures
        r@ == system_text(system@, entries@),
{
    let mut out = "\n### `".to_owned();
    out.append(system);
    out.append("`\n\n");
    if entries.len() == 0 {
        out.append("_No changed attrs._\n");
        return out;
    }
    let pairs = collect_pairs(entries);
    let ghost raw = Seq::new(
        pairs@.len(),
        |i: int| (section_of(pairs@[i].0, pairs@[i].1).0 as int, i),
    );
    let mut buckets: Vec<Bucket> = Vec::new();
    let mut i: usize = 0;
    while i < pairs.len()
        invariant
            i <= pairs@.len(),
            raw == Seq::new(
                pairs@.len(),
                |i: int| (section_of(pairs@[i].0, pairs@[i].1).0 as int, i),
            ),
            ordered::keys_of(buckets@) == raw.take(i as int),
        decreases pairs@.len() - i,
    {
        let (index, _, _) = cell(pairs[i].0, pairs[i].1);
        let ghost was = ordered::keys_of(buckets@);
        let b = Bucket { index, at: i };
        buckets.push(b);
        proof {
            assert(ordered::keys_of(buckets@) =~= was.push((index as int, i as int)));
            assert(raw.take(i + 1) =~= raw.take(i as int).push(raw[i as int]));
        }
        i = i + 1;
    }
    assert(raw.take(i as int) =~= raw);
    let ghost given = buckets@;
    let sorted = ordered::sort(buckets);
    let ghost order = section_order(entries@);
    let ghost ranks = section_ranks(pairs@);
    proof {
        assert(ordered::order_of::<Bucket>() =~= (|a: (int, int), b: (int, int)| ranks_upto(a, b)));
        assert(ordered::keys_of(sorted@) == ranks);
        assert forall|k: int| 0 <= k < sorted@.len() implies #[trigger] sorted@[k].at
            < pairs@.len() by {
            broadcast use vstd::seq_lib::group_to_multiset_ensures;

            assert(sorted@.contains(sorted@[k]));
            assert(sorted@.to_multiset().count(sorted@[k]) > 0);
            assert(given.contains(sorted@[k]));
            let m = choose|m: int| 0 <= m < given.len() && given[m] == sorted@[k];
            assert(ordered::keys_of(given)[m] == raw[m]);
        }
    }
    let ghost head_text = out@;
    let mut k: usize = 0;
    assert(out@ =~= head_text + sections_text(entries@, order, 0));
    while k < sorted.len()
        invariant
            k <= sorted@.len(),
            pairs@ == pairs_seen(entries@, entries@.len() as int),
            ranks == section_ranks(pairs@),
            ranks == ordered::keys_of(sorted@),
            order == section_order(entries@),
            forall|k: int| 0 <= k < sorted@.len() ==> #[trigger] sorted@[k].at < pairs@.len(),
            out@ == head_text + sections_text(entries@, order, k as int),
        decreases sorted@.len() - k,
    {
        let pair = pairs[sorted[k].at];
        let at = positions(entries, pair);
        let s = render_section(pair.0, pair.1, entries, at.as_slice());
        out.append(s.as_str());
        proof {
            assert(ranks[k as int] == sorted@[k as int].key());
            assert(order[k as int] == pair);
            assert(out@ =~= head_text + sections_text(entries@, order, k + 1));
        }
        k = k + 1;
    }
    assert(order.len() == sorted@.len());
    out
}

/// The report: for each system, the changed attrs by their states, the worst
/// first.
pub fn render(base: &str, head: &str, per_system: &[(String, Vec<Entry>)]) -> (r: String)
    ensures
        r@ == report_text(base@, head@, per_system@),
{
    let mut out = "## `npd` report: ".to_owned();
    out.append(base);
    out.append(" → ");
    out.append(head);
    out.append("\n");
    let ghost head_text = out@;
    let mut i: usize = 0;
    assert(out@ =~= head_text + systems_text(per_system@, 0));
    while i < per_system.len()
        invariant
            i <= per_system@.len(),
            out@ == head_text + systems_text(per_system@, i as int),
        decreases per_system@.len() - i,
    {
        let s = render_system(per_system[i].0.as_str(), per_system[i].1.as_slice());
        out.append(s.as_str());
        assert(out@ =~= head_text + systems_text(per_system@, i + 1));
        i = i + 1;
    }
    out
}

proof fn lemma_pairs_seen(entries: Seq<Entry>, n: int)
    requires
        0 <= n <= entries.len(),
    ensures
        pairs_seen(entries, n).no_duplicates(),
        forall|i: int|
            0 <= i < n ==> pairs_seen(entries, n).contains(
                ((#[trigger] entries[i]).base, entries[i].head),
            ),
        forall|p: (State, State)| #[trigger]
            pairs_seen(entries, n).contains(p) ==> exists|i: int|
                0 <= i < n && (#[trigger] entries[i]).base == p.0 && entries[i].head == p.1,
    decreases n,
{
    if n > 0 {
        lemma_pairs_seen(entries, n - 1);
        let before = pairs_seen(entries, n - 1);
        let now = pairs_seen(entries, n);
        let last = (entries[n - 1].base, entries[n - 1].head);
        assert forall|i: int| 0 <= i < n implies now.contains(
            ((#[trigger] entries[i]).base, entries[i].head),
        ) by {
            let pair = (entries[i].base, entries[i].head);
            if before.contains(pair) {
                let k = choose|k: int| 0 <= k < before.len() && before[k] == pair;
                assert(now[k] == pair);
            } else {
                assert(i == n - 1);
                assert(now[before.len() as int] == pair);
            }
        }
        assert forall|p: (State, State)| #[trigger] now.contains(p) implies exists|i: int|
            0 <= i < n && (#[trigger] entries[i]).base == p.0 && entries[i].head == p.1 by {
            if !before.contains(p) {
                assert(p == last);
                assert(entries[n - 1].base == p.0);
            } else {
                let i = choose|i: int|
                    0 <= i < n - 1 && (#[trigger] entries[i]).base == p.0 && entries[i].head == p.1;
                assert(entries[i].base == p.0);
            }
        }
    }
}

proof fn lemma_section_ranks(pairs: Seq<(State, State)>)
    ensures
        section_ranks(pairs).len() == pairs.len(),
        forall|k: int|
            #![trigger section_ranks(pairs)[k]]
            0 <= k < pairs.len() ==> {
                let r = section_ranks(pairs)[k];
                0 <= r.1 < pairs.len() && r.0 == section_of(pairs[r.1].0, pairs[r.1].1).0
            },
        forall|i: int, j: int|
            0 <= i < j < pairs.len() ==> ranks_upto(
                #[trigger] section_ranks(pairs)[i],
                #[trigger] section_ranks(pairs)[j],
            ) && section_ranks(pairs)[i] != section_ranks(pairs)[j],
        forall|m: int|
            0 <= m < pairs.len() ==> section_ranks(pairs).contains(
                (section_of((#[trigger] pairs[m]).0, pairs[m].1).0 as int, m),
            ),
{
    broadcast use vstd::seq_lib::group_to_multiset_ensures;

    let raw = Seq::new(pairs.len(), |i: int| (section_of(pairs[i].0, pairs[i].1).0 as int, i));
    let rel = |a: (int, int), b: (int, int)| ranks_upto(a, b);
    let ranks = section_ranks(pairs);
    assert(total_ordering(rel));
    raw.lemma_sort_by_ensures(rel);
    assert(ranks.to_multiset() == raw.to_multiset());
    assert(ranks.to_multiset().len() == ranks.len());
    assert(raw.to_multiset().len() == raw.len());
    assert(raw.no_duplicates());
    raw.lemma_multiset_has_no_duplicates();
    ranks.lemma_multiset_has_no_duplicates_conv();
    assert forall|k: int| #![trigger ranks[k]] 0 <= k < pairs.len() implies {
        let r = ranks[k];
        0 <= r.1 < pairs.len() && r.0 == section_of(pairs[r.1].0, pairs[r.1].1).0
    } by {
        assert(ranks.contains(ranks[k]));
        assert(raw.contains(ranks[k]));
        let m = choose|m: int| 0 <= m < raw.len() && raw[m] == ranks[k];
    }
    assert forall|i: int, j: int| 0 <= i < j < pairs.len() implies ranks_upto(
        #[trigger] ranks[i],
        #[trigger] ranks[j],
    ) by {
        assert(rel(ranks[i], ranks[j]));
    }
    assert forall|m: int| 0 <= m < pairs.len() implies ranks.contains(
        (section_of((#[trigger] pairs[m]).0, pairs[m].1).0 as int, m),
    ) by {
        assert(raw[m] == (section_of(pairs[m].0, pairs[m].1).0 as int, m));
        assert(raw.contains(raw[m]));
        assert(raw.to_multiset().count(raw[m]) > 0);
        assert(ranks.contains(raw[m]));
    }
}

/// The sections of a system come worst first.
pub proof fn law_sections_come_worst_first(entries: Seq<Entry>, i: int, j: int)
    requires
        0 <= i < j < section_order(entries).len(),
    ensures
        section_of(section_order(entries)[i].0, section_order(entries)[i].1).0 <= section_of(
            section_order(entries)[j].0,
            section_order(entries)[j].1,
        ).0,
{
    let pairs = pairs_seen(entries, entries.len() as int);
    lemma_section_ranks(pairs);
    assert(ranks_upto(section_ranks(pairs)[i], section_ranks(pairs)[j]));
}

/// Every entry has a section, no section comes twice, and none is empty.
pub proof fn law_every_entry_has_one_section(entries: Seq<Entry>)
    ensures
        forall|i: int|
            0 <= i < entries.len() ==> section_order(entries).contains(
                ((#[trigger] entries[i]).base, entries[i].head),
            ) && with_states(entries, (entries[i].base, entries[i].head)).contains(entries[i]),
        section_order(entries).no_duplicates(),
        forall|k: int|
            0 <= k < section_order(entries).len() ==> with_states(
                entries,
                #[trigger] section_order(entries)[k],
            ).len() > 0,
{
    let n = entries.len() as int;
    let pairs = pairs_seen(entries, n);
    let order = section_order(entries);
    let ranks = section_ranks(pairs);
    lemma_pairs_seen(entries, n);
    lemma_section_ranks(pairs);
    assert forall|i: int| 0 <= i < n implies order.contains(
        ((#[trigger] entries[i]).base, entries[i].head),
    ) && with_states(entries, (entries[i].base, entries[i].head)).contains(entries[i]) by {
        let pair = (entries[i].base, entries[i].head);
        assert(pairs.contains(pair));
        let m = choose|m: int| 0 <= m < pairs.len() && pairs[m] == pair;
        let rank = (section_of(pairs[m].0, pairs[m].1).0 as int, m);
        assert(ranks.contains(rank));
        let k = choose|k: int| 0 <= k < ranks.len() && ranks[k] == rank;
        assert(order[k] == pair);
        entries.lemma_filter_contains(|e: Entry| (e.base, e.head) == pair, i);
    }
    assert forall|i: int, j: int|
        0 <= i < order.len() && 0 <= j < order.len() && i != j implies order[i] != order[j] by {
        if i < j {
            assert(ranks[i] != ranks[j]);
        } else {
            assert(ranks[j] != ranks[i]);
        }
    }
    assert forall|k: int| 0 <= k < order.len() implies with_states(
        entries,
        #[trigger] order[k],
    ).len() > 0 by {
        let pair = order[k];
        assert(pair == pairs[ranks[k].1]);
        assert(pairs.contains(pair));
        let i = choose|i: int|
            0 <= i < n && (#[trigger] entries[i]).base == pair.0 && entries[i].head == pair.1;
        entries.lemma_filter_contains(|e: Entry| (e.base, e.head) == pair, i);
    }
}

/// Within a section, every attr stands on the line of its derivations, and no
/// two lines are of the same derivations.
pub proof fn law_every_attr_has_one_line(entries: Seq<Entry>)
    ensures
        forall|i: int|
            0 <= i < entries.len() ==> drvs_seen(entries, entries.len() as int).contains(
                drvs_of(#[trigger] entries[i]),
            ) && attrs_with(entries, drvs_of(entries[i]), entries.len() as int).contains(
                entries[i].attr@,
            ),
        drvs_seen(entries, entries.len() as int).no_duplicates(),
{
    let n = entries.len() as int;
    lemma_drvs_seen(entries, n);
    assert forall|i: int| 0 <= i < n implies drvs_seen(entries, n).contains(
        drvs_of(#[trigger] entries[i]),
    ) && attrs_with(entries, drvs_of(entries[i]), n).contains(entries[i].attr@) by {
        lemma_attrs_with(entries, i, n);
    }
}

proof fn lemma_attrs_with(entries: Seq<Entry>, i: int, n: int)
    requires
        0 <= i < n <= entries.len(),
    ensures
        attrs_with(entries, drvs_of(entries[i]), n).contains(entries[i].attr@),
    decreases n,
{
    let d = drvs_of(entries[i]);
    let now = attrs_with(entries, d, n);
    if i < n - 1 {
        lemma_attrs_with(entries, i, n - 1);
        let before = attrs_with(entries, d, n - 1);
        let k = choose|k: int| 0 <= k < before.len() && before[k] == entries[i].attr@;
        assert(now[k] == entries[i].attr@);
    } else {
        assert(now[now.len() - 1] == entries[i].attr@);
    }
}

// --- what the report promises ------------------------------------------------

/// Whether nothing of a kind was observed.
pub open spec fn none_sighted(obs: Seq<Sighting>, source: Source, outcome: Outcome) -> bool {
    forall|i: int|
        0 <= i < obs.len() ==> !((#[trigger] obs[i]).source == source && obs[i].outcome == outcome)
}

/// The state of a side follows from its facts: a success on this machine beats
/// everything, then a failure of its own, then one of a dependency; what a
/// substituter has counts only where this machine knows nothing, and a mark only
/// where that knows nothing either. The farm does not count at all.
pub proof fn law_states_follow_the_facts(broken: bool, obs: Seq<Sighting>, at: int)
    requires
        0 <= at < obs.len(),
    ensures
        state_of(false, broken, obs) == State::Absent,
        obs[at].source == Source::Local && obs[at].outcome == Outcome::Built ==> state_of(
            true,
            broken,
            obs,
        ) == State::Built,
        none_sighted(obs, Source::Local, Outcome::Built) && obs[at].source == Source::Local
            && obs[at].outcome == Outcome::Failed ==> state_of(true, broken, obs) == State::Failed,
        none_sighted(obs, Source::Local, Outcome::Built) && none_sighted(
            obs,
            Source::Local,
            Outcome::Failed,
        ) && obs[at].source == Source::Local ==> state_of(true, broken, obs) == State::Blocked,
        (forall|i: int| 0 <= i < obs.len() ==> (#[trigger] obs[i]).source != Source::Local)
            && obs[at].source == Source::Cache && obs[at].outcome == Outcome::Built ==> state_of(
            true,
            broken,
            obs,
        ) == State::Built,
        (forall|i: int| 0 <= i < obs.len() ==> (#[trigger] obs[i]).source != Source::Local)
            && none_sighted(obs, Source::Cache, Outcome::Built) ==> state_of(true, broken, obs) == (
        if broken {
            State::Broken
        } else {
            State::Unknown
        }),
{
    assert(obs[at].outcome == Outcome::Built || obs[at].outcome == Outcome::Failed
        || obs[at].outcome == Outcome::DepFailed);
}

/// A side of which nothing was observed is unknown, or shows its mark.
pub proof fn law_unobserved_sides_are_unknown(broken: bool)
    ensures
        state_of(true, broken, Seq::empty()) == (if broken {
            State::Broken
        } else {
            State::Unknown
        }),
{
}

/// Whether a side does not build: its own build fails, or a dependency.
pub open spec fn fails(s: State) -> bool {
    s == State::Failed || s == State::Blocked
}

/// What a section about a failure here is called says since when: a regression
/// built before, a new failure was not there before, a pre-existing one failed
/// before, and of any other nothing is known from before.
pub proof fn law_failures_are_named_by_what_was_before(base: State, head: State)
    requires
        fails(head),
    ensures
        base == State::Built && head == State::Failed ==> section_of(base, head).1@
            == "regression"@,
        base == State::Absent && head == State::Failed ==> section_of(base, head).1@
            == "new failure"@,
        base == State::Absent && head == State::Blocked ==> section_of(base, head).1@
            == "new blocked package"@,
        fails(base) && (base == State::Failed || head == State::Failed) ==> section_of(
            base,
            head,
        ).1@ == "pre-existing failure"@,
        base == State::Blocked && head == State::Blocked ==> section_of(base, head).1@
            == "pre-existing blocked package"@,
        (base == State::Unknown || base == State::Broken) && head == State::Failed ==> section_of(
            base,
            head,
        ).1@ == "failure"@,
        (base == State::Unknown || base == State::Broken || base == State::Built) && head
            == State::Blocked ==> section_of(base, head).1@ == "blocked package"@,
{
}

/// What a section about anything but a failure here is called: what builds now is
/// fixed, unbroken, new, unchanged or just built, by what it was; what is marked now
/// is newly so, new, or was so before; and what is gone was dropped if it built, and
/// removed if it did not.
pub proof fn law_changes_are_named_by_what_was_before(base: State)
    ensures
        fails(base) ==> section_of(base, State::Built).1@ == "fixed package"@,
        base == State::Broken ==> section_of(base, State::Built).1@ == "unbroken package"@,
        base == State::Absent ==> section_of(base, State::Built).1@ == "new package"@,
        base == State::Built ==> section_of(base, State::Built).1@ == "unchanged package"@,
        base == State::Unknown ==> section_of(base, State::Built).1@ == "built package"@,
        fails(base) || base == State::Built ==> section_of(base, State::Broken).1@
            == "newly broken package"@,
        base == State::Absent ==> section_of(base, State::Broken).1@ == "new broken package"@,
        base == State::Broken ==> section_of(base, State::Broken).1@
            == "pre-existing broken package"@,
        base == State::Unknown ==> section_of(base, State::Broken).1@ == "broken package"@,
        base == State::Built ==> section_of(base, State::Absent).1@ == "dropped package"@,
        fails(base) ==> section_of(base, State::Absent).1@ == "removed package"@,
        base == State::Broken ==> section_of(base, State::Absent).1@ == "removed broken package"@,
        base == State::Absent || base == State::Unknown ==> section_of(base, State::Absent).1@
            == "package"@,
        section_of(base, State::Unknown).1@ == "package"@,
{
}

/// Only what is not on the base is ever called new, and only what already failed or
/// was marked there is ever called pre-existing.
pub proof fn law_new_means_not_on_the_base(base: State, head: State)
    ensures
        text::begins(section_of(base, head).1@, "new "@) <==> base == State::Absent && head
            != State::Absent && head != State::Unknown,
        text::begins(section_of(base, head).1@, "pre-existing "@) <==> (fails(base) && fails(head))
            || (base == State::Broken && head == State::Broken),
{
    lemma_nouns_apart();
}

proof fn lemma_begins_first(s: Seq<char>, p: Seq<char>)
    requires
        s.len() > 0,
        p.len() > 0,
        s[0] != p[0],
    ensures
        !text::begins(s, p),
{
    if text::begins(s, p) {
        assert(s.take(p.len() as int)[0] == s[0]);
    }
}

proof fn lemma_nouns_apart()
    ensures
        forall|base: State, head: State|
            #![trigger section_of(base, head)]
            (text::begins(section_of(base, head).1@, "new "@) <==> base == State::Absent && head
                != State::Absent && head != State::Unknown) && (text::begins(
                section_of(base, head).1@,
                "pre-existing "@,
            ) <==> (fails(base) && fails(head)) || (base == State::Broken && head
                == State::Broken)),
{
    let n = "new "@;
    let p = "pre-existing "@;
    reveal_strlit("new ");
    reveal_strlit("pre-existing ");
    reveal_strlit("regression");
    lemma_begins_first("regression"@, n);
    lemma_begins_first("regression"@, p);
    reveal_strlit("blocked package");
    lemma_begins_first("blocked package"@, n);
    lemma_begins_first("blocked package"@, p);
    reveal_strlit("failure");
    lemma_begins_first("failure"@, n);
    lemma_begins_first("failure"@, p);
    reveal_strlit("broken package");
    lemma_begins_first("broken package"@, n);
    lemma_begins_first("broken package"@, p);
    reveal_strlit("dropped package");
    lemma_begins_first("dropped package"@, n);
    lemma_begins_first("dropped package"@, p);
    reveal_strlit("removed package");
    lemma_begins_first("removed package"@, n);
    lemma_begins_first("removed package"@, p);
    reveal_strlit("removed broken package");
    lemma_begins_first("removed broken package"@, n);
    lemma_begins_first("removed broken package"@, p);
    reveal_strlit("fixed package");
    lemma_begins_first("fixed package"@, n);
    lemma_begins_first("fixed package"@, p);
    reveal_strlit("unbroken package");
    lemma_begins_first("unbroken package"@, n);
    lemma_begins_first("unbroken package"@, p);
    reveal_strlit("built package");
    lemma_begins_first("built package"@, n);
    lemma_begins_first("built package"@, p);
    reveal_strlit("unchanged package");
    lemma_begins_first("unchanged package"@, n);
    lemma_begins_first("unchanged package"@, p);
    reveal_strlit("package");
    lemma_begins_first("package"@, n);
    assert("package"@.len() < p.len());
    reveal_strlit("newly broken package");
    lemma_begins_first("newly broken package"@, p);
    assert(!text::begins("newly broken package"@, n)) by {
        assert("newly broken package"@.take(4)[3] == 'l');
        assert(n[3] == ' ');
    }
    reveal_strlit("new failure");
    lemma_begins_first("new failure"@, p);
    assert("new failure"@.take(4) =~= n);
    reveal_strlit("new blocked package");
    lemma_begins_first("new blocked package"@, p);
    assert("new blocked package"@.take(4) =~= n);
    reveal_strlit("new broken package");
    lemma_begins_first("new broken package"@, p);
    assert("new broken package"@.take(4) =~= n);
    reveal_strlit("new package");
    lemma_begins_first("new package"@, p);
    assert("new package"@.take(4) =~= n);
    reveal_strlit("pre-existing failure");
    lemma_begins_first("pre-existing failure"@, n);
    assert("pre-existing failure"@.take(13) =~= p);
    reveal_strlit("pre-existing blocked package");
    lemma_begins_first("pre-existing blocked package"@, n);
    assert("pre-existing blocked package"@.take(13) =~= p);
    reveal_strlit("pre-existing broken package");
    lemma_begins_first("pre-existing broken package"@, n);
    assert("pre-existing broken package"@.take(13) =~= p);
}

/// The sections come by what is here: failures, marks, what is gone, what builds,
/// and last what has no section of its own. Failures come by what was before: what
/// built, what was not there, what is not known, what was marked, what failed and
/// what was blocked; and of one kind, failures before blocks.
pub proof fn law_sections_are_placed_by_their_states(base: State, other: State, head: State)
    ensures
        fails(head) ==> section_of(base, head).0 < 12,
        head == State::Broken ==> 12 <= section_of(base, head).0 < 18,
        head == State::Absent && base != State::Absent && base != State::Unknown ==> 18
            <= section_of(base, head).0 < 22,
        head == State::Built ==> 22 <= section_of(base, head).0 < 28,
        head == State::Unknown || (head == State::Absent && (base == State::Absent || base
            == State::Unknown)) ==> section_of(base, head).0 == 28,
        section_of(base, State::Failed).0 < section_of(base, State::Blocked).0,
        section_of(State::Built, State::Blocked).0 < section_of(State::Absent, State::Failed).0,
        section_of(State::Absent, State::Blocked).0 < section_of(State::Unknown, State::Failed).0,
        section_of(State::Unknown, State::Blocked).0 < section_of(State::Broken, State::Failed).0,
        section_of(State::Broken, State::Blocked).0 < section_of(State::Failed, State::Failed).0,
        section_of(State::Failed, State::Blocked).0 < section_of(State::Blocked, State::Failed).0,
{
}

/// The sign tells the state.
pub proof fn law_signs_tell_states_apart(a: State, b: State)
    requires
        a.sign() == b.sign(),
    ensures
        a == b,
{
    reveal_strlit("✅");
    reveal_strlit("❌");
    reveal_strlit("🚫");
    reveal_strlit("🚧");
    reveal_strlit("➖");
    reveal_strlit("❓");
    assert("✅"@[0] as u32 == 0x2705);
    assert("❌"@[0] as u32 == 0x274c);
    assert("🚫"@[0] as u32 == 0x1f6ab);
    assert("🚧"@[0] as u32 == 0x1f6a7);
    assert("➖"@[0] as u32 == 0x2796);
    assert("❓"@[0] as u32 == 0x2753);
    assert(a.sign()[0] as u32 == b.sign()[0] as u32);
}

/// What a section says of the base begins its phrase, or ends it where nothing is
/// known of the base.
pub proof fn law_phrases_say_what_was_before(base: State, head: State)
    requires
        section_of(base, head).0 < 28,
    ensures
        base == State::Built ==> text::begins(section_of(base, head).2@, "build on the base"@),
        base == State::Failed ==> text::begins(section_of(base, head).2@, "fail"@),
        base == State::Blocked ==> text::begins(section_of(base, head).2@, "blocked on the base"@),
        base == State::Broken ==> text::begins(
            section_of(base, head).2@,
            "marked broken on the base"@,
        ),
        base == State::Unknown ==> text::ends(section_of(base, head).2@, "base status unknown"@),
        base == State::Absent ==> text::begins(
            section_of(base, head).2@,
            if head == State::Built {
                "new here"@
            } else {
                "added here"@
            },
        ),
{
    lemma_phrases();
}

/// What a section says of this side ends its phrase, or begins it where nothing is
/// known of the base.
pub proof fn law_phrases_say_what_is_here(base: State, head: State)
    requires
        section_of(base, head).0 < 28,
    ensures
        base == State::Unknown ==> text::begins(
            section_of(base, head).2@,
            match head {
                State::Built => "build here"@,
                State::Failed => "fail here"@,
                State::Blocked => "blocked here"@,
                _ => "marked broken here (not attempted)"@,
            },
        ),
        head == State::Absent ==> text::ends(section_of(base, head).2@, "gone here"@),
        head == State::Broken && base != State::Unknown ==> text::ends(
            section_of(base, head).2@,
            "(not attempted)"@,
        ),
        head == base && head != State::Broken ==> text::ends(section_of(base, head).2@, "and here"@),
        head == State::Built && (fails(base) || base == State::Broken) ==> text::ends(
            section_of(base, head).2@,
            "build here"@,
        ),
        head == State::Failed && (base == State::Built || base == State::Blocked || base
            == State::Broken) ==> text::ends(section_of(base, head).2@, "fail here"@),
        head == State::Blocked && (base == State::Built || base == State::Broken) ==> text::ends(
            section_of(base, head).2@,
            "a dependency fails here"@,
        ),
        head == State::Blocked && base == State::Failed ==> text::ends(
            section_of(base, head).2@,
            "blocked here"@,
        ),
        base == State::Absent && head == State::Built ==> text::ends(
            section_of(base, head).2@,
            ", build"@,
        ),
        base == State::Absent && head == State::Failed ==> text::ends(
            section_of(base, head).2@,
            "fail to build"@,
        ),
        base == State::Absent && head == State::Blocked ==> text::ends(
            section_of(base, head).2@,
            "blocked by a failed dependency"@,
        ),
{
    lemma_phrases();
}

#[verifier::spinoff_prover]
proof fn lemma_phrases()
    ensures
        text::begins("build on the base, fail here"@, "build on the base"@),
        text::ends("build on the base, fail here"@, "fail here"@),
        text::begins("build on the base, a dependency fails here"@, "build on the base"@),
        text::ends("build on the base, a dependency fails here"@, "a dependency fails here"@),
        text::begins("added here, fail to build"@, "added here"@),
        text::ends("added here, fail to build"@, "fail to build"@),
        text::begins("added here, blocked by a failed dependency"@, "added here"@),
        text::ends("added here, blocked by a failed dependency"@, "blocked by a failed dependency"@),
        text::ends("fail here; base status unknown"@, "base status unknown"@),
        text::begins("fail here; base status unknown"@, "fail here"@),
        text::ends("blocked here; base status unknown"@, "base status unknown"@),
        text::begins("blocked here; base status unknown"@, "blocked here"@),
        text::begins("marked broken on the base, fail here"@, "marked broken on the base"@),
        text::ends("marked broken on the base, fail here"@, "fail here"@),
        text::begins("marked broken on the base, a dependency fails here"@, "marked broken on the base"@),
        text::ends("marked broken on the base, a dependency fails here"@, "a dependency fails here"@),
        text::begins("fail on the base and here"@, "fail"@),
        text::ends("fail on the base and here"@, "and here"@),
        text::begins("fail on the base, blocked here"@, "fail"@),
        text::ends("fail on the base, blocked here"@, "blocked here"@),
        text::begins("blocked on the base, fail here"@, "blocked on the base"@),
        text::ends("blocked on the base, fail here"@, "fail here"@),
        text::begins("blocked on the base and here"@, "blocked on the base"@),
        text::ends("blocked on the base and here"@, "and here"@),
        text::begins("build on the base, marked broken here (not attempted)"@, "build on the base"@),
        text::ends("build on the base, marked broken here (not attempted)"@, "(not attempted)"@),
        text::begins("fail on the base, marked broken here (not attempted)"@, "fail"@),
        text::ends("fail on the base, marked broken here (not attempted)"@, "(not attempted)"@),
        text::begins("blocked on the base, marked broken here (not attempted)"@, "blocked on the base"@),
        text::ends("blocked on the base, marked broken here (not attempted)"@, "(not attempted)"@),
        text::begins("added here already marked broken (not attempted)"@, "added here"@),
        text::ends("added here already marked broken (not attempted)"@, "(not attempted)"@),
        text::ends("marked broken here (not attempted); base status unknown"@, "base status unknown"@),
        text::begins("marked broken here (not attempted); base status unknown"@, "marked broken here (not attempted)"@),
        text::begins("marked broken on the base and here (not attempted)"@, "marked broken on the base"@),
        text::ends("marked broken on the base and here (not attempted)"@, "(not attempted)"@),
        text::begins("build on the base, gone here"@, "build on the base"@),
        text::ends("build on the base, gone here"@, "gone here"@),
        text::begins("failed on the base, gone here"@, "fail"@),
        text::ends("failed on the base, gone here"@, "gone here"@),
        text::begins("blocked on the base, gone here"@, "blocked on the base"@),
        text::ends("blocked on the base, gone here"@, "gone here"@),
        text::begins("marked broken on the base, gone here"@, "marked broken on the base"@),
        text::ends("marked broken on the base, gone here"@, "gone here"@),
        text::begins("fail on the base, build here"@, "fail"@),
        text::ends("fail on the base, build here"@, "build here"@),
        text::begins("blocked on the base, build here"@, "blocked on the base"@),
        text::ends("blocked on the base, build here"@, "build here"@),
        text::begins("marked broken on the base, build here"@, "marked broken on the base"@),
        text::ends("marked broken on the base, build here"@, "build here"@),
        text::begins("new here, build"@, "new here"@),
        text::ends("new here, build"@, ", build"@),
        text::ends("build here; base status unknown"@, "base status unknown"@),
        text::begins("build here; base status unknown"@, "build here"@),
        text::begins("build on the base and here"@, "build on the base"@),
        text::ends("build on the base and here"@, "and here"@),
{
    reveal_strlit("(not attempted)");
    reveal_strlit(", build");
    reveal_strlit("a dependency fails here");
    reveal_strlit("added here");
    reveal_strlit("added here already marked broken (not attempted)");
    reveal_strlit("added here, blocked by a failed dependency");
    reveal_strlit("added here, fail to build");
    reveal_strlit("and here");
    reveal_strlit("base status unknown");
    reveal_strlit("blocked by a failed dependency");
    reveal_strlit("blocked here");
    reveal_strlit("blocked here; base status unknown");
    reveal_strlit("blocked on the base");
    reveal_strlit("blocked on the base and here");
    reveal_strlit("blocked on the base, build here");
    reveal_strlit("blocked on the base, fail here");
    reveal_strlit("blocked on the base, gone here");
    reveal_strlit("blocked on the base, marked broken here (not attempted)");
    reveal_strlit("build here");
    reveal_strlit("build here; base status unknown");
    reveal_strlit("build on the base");
    reveal_strlit("build on the base and here");
    reveal_strlit("build on the base, a dependency fails here");
    reveal_strlit("build on the base, fail here");
    reveal_strlit("build on the base, gone here");
    reveal_strlit("build on the base, marked broken here (not attempted)");
    reveal_strlit("fail");
    reveal_strlit("fail here");
    reveal_strlit("fail here; base status unknown");
    reveal_strlit("fail on the base and here");
    reveal_strlit("fail on the base, blocked here");
    reveal_strlit("fail on the base, build here");
    reveal_strlit("fail on the base, marked broken here (not attempted)");
    reveal_strlit("fail to build");
    reveal_strlit("failed on the base, gone here");
    reveal_strlit("gone here");
    reveal_strlit("marked broken here (not attempted)");
    reveal_strlit("marked broken here (not attempted); base status unknown");
    reveal_strlit("marked broken on the base");
    reveal_strlit("marked broken on the base and here (not attempted)");
    reveal_strlit("marked broken on the base, a dependency fails here");
    reveal_strlit("marked broken on the base, build here");
    reveal_strlit("marked broken on the base, fail here");
    reveal_strlit("marked broken on the base, gone here");
    reveal_strlit("new here");
    reveal_strlit("new here, build");
    assert("build on the base, fail here"@.take(17) =~= "build on the base"@);
    assert("build on the base, fail here"@.skip(19) =~= "fail here"@);
    assert("build on the base, a dependency fails here"@.take(17) =~= "build on the base"@);
    assert("build on the base, a dependency fails here"@.skip(19) =~= "a dependency fails here"@);
    assert("added here, fail to build"@.take(10) =~= "added here"@);
    assert("added here, fail to build"@.skip(12) =~= "fail to build"@);
    assert("added here, blocked by a failed dependency"@.take(10) =~= "added here"@);
    assert("added here, blocked by a failed dependency"@.skip(12) =~= "blocked by a failed dependency"@);
    assert("fail here; base status unknown"@.skip(11) =~= "base status unknown"@);
    assert("fail here; base status unknown"@.take(9) =~= "fail here"@);
    assert("blocked here; base status unknown"@.skip(14) =~= "base status unknown"@);
    assert("blocked here; base status unknown"@.take(12) =~= "blocked here"@);
    assert("marked broken on the base, fail here"@.take(25) =~= "marked broken on the base"@);
    assert("marked broken on the base, fail here"@.skip(27) =~= "fail here"@);
    assert("marked broken on the base, a dependency fails here"@.take(25) =~= "marked broken on the base"@);
    assert("marked broken on the base, a dependency fails here"@.skip(27) =~= "a dependency fails here"@);
    assert("fail on the base and here"@.take(4) =~= "fail"@);
    assert("fail on the base and here"@.skip(17) =~= "and here"@);
    assert("fail on the base, blocked here"@.take(4) =~= "fail"@);
    assert("fail on the base, blocked here"@.skip(18) =~= "blocked here"@);
    assert("blocked on the base, fail here"@.take(19) =~= "blocked on the base"@);
    assert("blocked on the base, fail here"@.skip(21) =~= "fail here"@);
    assert("blocked on the base and here"@.take(19) =~= "blocked on the base"@);
    assert("blocked on the base and here"@.skip(20) =~= "and here"@);
    assert("build on the base, marked broken here (not attempted)"@.take(17) =~= "build on the base"@);
    assert("build on the base, marked broken here (not attempted)"@.skip(38) =~= "(not attempted)"@);
    assert("fail on the base, marked broken here (not attempted)"@.take(4) =~= "fail"@);
    assert("fail on the base, marked broken here (not attempted)"@.skip(37) =~= "(not attempted)"@);
    assert("blocked on the base, marked broken here (not attempted)"@.take(19) =~= "blocked on the base"@);
    assert("blocked on the base, marked broken here (not attempted)"@.skip(40) =~= "(not attempted)"@);
    assert("added here already marked broken (not attempted)"@.take(10) =~= "added here"@);
    assert("added here already marked broken (not attempted)"@.skip(33) =~= "(not attempted)"@);
    assert("marked broken here (not attempted); base status unknown"@.skip(36) =~= "base status unknown"@);
    assert("marked broken here (not attempted); base status unknown"@.take(34) =~= "marked broken here (not attempted)"@);
    assert("marked broken on the base and here (not attempted)"@.take(25) =~= "marked broken on the base"@);
    assert("marked broken on the base and here (not attempted)"@.skip(35) =~= "(not attempted)"@);
    assert("build on the base, gone here"@.take(17) =~= "build on the base"@);
    assert("build on the base, gone here"@.skip(19) =~= "gone here"@);
    assert("failed on the base, gone here"@.take(4) =~= "fail"@);
    assert("failed on the base, gone here"@.skip(20) =~= "gone here"@);
    assert("blocked on the base, gone here"@.take(19) =~= "blocked on the base"@);
    assert("blocked on the base, gone here"@.skip(21) =~= "gone here"@);
    assert("marked broken on the base, gone here"@.take(25) =~= "marked broken on the base"@);
    assert("marked broken on the base, gone here"@.skip(27) =~= "gone here"@);
    assert("fail on the base, build here"@.take(4) =~= "fail"@);
    assert("fail on the base, build here"@.skip(18) =~= "build here"@);
    assert("blocked on the base, build here"@.take(19) =~= "blocked on the base"@);
    assert("blocked on the base, build here"@.skip(21) =~= "build here"@);
    assert("marked broken on the base, build here"@.take(25) =~= "marked broken on the base"@);
    assert("marked broken on the base, build here"@.skip(27) =~= "build here"@);
    assert("new here, build"@.take(8) =~= "new here"@);
    assert("new here, build"@.skip(8) =~= ", build"@);
    assert("build here; base status unknown"@.skip(12) =~= "base status unknown"@);
    assert("build here; base status unknown"@.take(10) =~= "build here"@);
    assert("build on the base and here"@.take(17) =~= "build on the base"@);
    assert("build on the base and here"@.skip(18) =~= "and here"@);
}

/// On a line the attrs come shortest first, by bytes, each of them once, and those
/// of one length in lexicographic order.
pub proof fn law_short_attrs_come_first(attrs: Seq<Seq<char>>, i: int, j: int)
    ensures
        line_order(attrs).to_multiset() == attrs.to_multiset(),
        line_order(attrs).len() == attrs.len(),
        0 <= i < j < attrs.len() ==> encode_utf8(line_order(attrs)[i]).len() <= encode_utf8(
            line_order(attrs)[j],
        ).len(),
        0 <= i < j < attrs.len() && encode_utf8(line_order(attrs)[i]).len() == encode_utf8(
            line_order(attrs)[j],
        ).len() ==> line_order(attrs)[i] == line_order(attrs)[j] || text::lex_before(
            line_order(attrs)[i],
            line_order(attrs)[j],
        ),
{
    broadcast use vstd::seq_lib::group_to_multiset_ensures;

    let rel = |a: Seq<char>, b: Seq<char>| shorter_upto(a, b);
    LineAttr::order_is_total();
    assert(rel =~= (|a: Seq<char>, b: Seq<char>| LineAttr::upto(a, b)));
    attrs.lemma_sort_by_ensures(rel);
    let sorted = line_order(attrs);
    assert(sorted.to_multiset().len() == sorted.len());
    assert(attrs.to_multiset().len() == attrs.len());
    if 0 <= i < j < attrs.len() {
        assert(rel(sorted[i], sorted[j]));
    }
}

proof fn lemma_joined_occurs(parts: Seq<Seq<char>>, sep: Seq<char>, i: int)
    requires
        0 <= i < parts.len(),
    ensures
        text::occurs(text::joined(parts, sep), parts[i]),
    decreases parts.len(),
{
    let e = Seq::<char>::empty();
    let all = text::joined(parts, sep);
    if parts.len() == 1 {
        assert(all =~= e + parts[0] + e);
    } else if i == parts.len() - 1 {
        assert(all =~= (text::joined(parts.drop_last(), sep) + sep) + parts.last() + e);
    } else {
        lemma_joined_occurs(parts.drop_last(), sep, i);
        assert(parts.drop_last()[i] == parts[i]);
        assert(all =~= e + text::joined(parts.drop_last(), sep) + (sep + parts.last()));
        text::lemma_occurs_within(
            all,
            e,
            text::joined(parts.drop_last(), sep),
            sep + parts.last(),
            parts[i],
        );
    }
}

/// A line shows every attr that it is about, in a code span.
pub proof fn law_lines_show_their_attrs(attrs: Seq<Seq<char>>, i: int)
    requires
        0 <= i < attrs.len(),
    ensures
        text::occurs(line_text(attrs), seq!['`'] + attrs[i] + seq!['`']),
{
    broadcast use vstd::seq_lib::group_to_multiset_ensures;

    reveal_strlit("`");
    law_short_attrs_come_first(attrs, 0, 0);
    let sorted = line_order(attrs);
    assert(attrs.contains(attrs[i]));
    assert(attrs.to_multiset().count(attrs[i]) > 0);
    assert(sorted.contains(attrs[i]));
    let k = choose|k: int| 0 <= k < sorted.len() && sorted[k] == attrs[i];
    let spans = sorted.map_values(|a: Seq<char>| code_span(a));
    assert(spans[k] =~= seq!['`'] + attrs[i] + seq!['`']);
    lemma_joined_occurs(spans, " = "@, k);
}

proof fn lemma_bullets_occur(lines: Seq<Seq<char>>, n: int, i: int)
    requires
        0 <= i < n <= lines.len(),
    ensures
        text::occurs(bullets(lines, n), "- "@ + lines[i] + "\n"@),
    decreases n,
{
    let all = bullets(lines, n);
    let e = Seq::<char>::empty();
    if i == n - 1 {
        assert(all =~= bullets(lines, n - 1) + ("- "@ + lines[i] + "\n"@) + e);
    } else {
        lemma_bullets_occur(lines, n - 1, i);
        let rest = "- "@ + lines[n - 1] + "\n"@;
        assert(all =~= e + bullets(lines, n - 1) + rest);
        text::lemma_occurs_within(
            all,
            e,
            bullets(lines, n - 1),
            rest,
            "- "@ + lines[i] + "\n"@,
        );
    }
}

/// The pairs of derivations that a section counts are those of its entries, each
/// counted once.
pub proof fn law_builds_are_counted_once(entries: Seq<Entry>)
    ensures
        drvs_seen(entries, entries.len() as int).to_set() == entries.map_values(
            |e: Entry| drvs_of(e),
        ).to_set(),
        drvs_seen(entries, entries.len() as int).len() == entries.map_values(
            |e: Entry| drvs_of(e),
        ).to_set().len(),
{
    let n = entries.len() as int;
    let seen = drvs_seen(entries, n);
    let all = entries.map_values(|e: Entry| drvs_of(e));
    lemma_drvs_seen(entries, n);
    lemma_drvs_of_entries(entries, n);
    assert forall|d: Drvs| seen.to_set().contains(d) == all.to_set().contains(d) by {
        if seen.contains(d) {
            let i = choose|i: int| 0 <= i < n && drvs_of(#[trigger] entries[i]) == d;
            assert(all[i] == d);
        }
        if all.contains(d) {
            let i = choose|i: int| 0 <= i < all.len() && all[i] == d;
            assert(drvs_of(entries[i]) == d);
        }
    }
    assert(seen.to_set() =~= all.to_set());
    seen.unique_seq_to_set();
}

proof fn lemma_drvs_of_entries(entries: Seq<Entry>, n: int)
    requires
        0 <= n <= entries.len(),
    ensures
        forall|d: Drvs| #[trigger]
            drvs_seen(entries, n).contains(d) ==> exists|i: int|
                0 <= i < n && drvs_of(#[trigger] entries[i]) == d,
    decreases n,
{
    if n > 0 {
        lemma_drvs_of_entries(entries, n - 1);
        let before = drvs_seen(entries, n - 1);
        assert forall|d: Drvs| #[trigger] drvs_seen(entries, n).contains(d) implies exists|i: int|
            0 <= i < n && drvs_of(#[trigger] entries[i]) == d by {
            if before.contains(d) {
                let i = choose|i: int| 0 <= i < n - 1 && drvs_of(#[trigger] entries[i]) == d;
                assert(drvs_of(entries[i]) == d);
            } else {
                assert(drvs_of(entries[n - 1]) == d);
            }
        }
    }
}

/// A line holds the attrs with its derivations and no others.
pub proof fn law_lines_hold_no_other_attrs(entries: Seq<Entry>, d: Drvs, n: int, a: Seq<char>)
    requires
        0 <= n <= entries.len(),
        attrs_with(entries, d, n).contains(a),
    ensures
        exists|i: int|
            0 <= i < n && (#[trigger] entries[i]).attr@ == a && text::opt(entries[i].base_drv)
                == d.0 && text::opt(entries[i].head_drv) == d.1,
    decreases n,
{
    if n > 0 {
        let before = attrs_with(entries, d, n - 1);
        if before.contains(a) {
            law_lines_hold_no_other_attrs(entries, d, n - 1, a);
            let i = choose|i: int|
                0 <= i < n - 1 && (#[trigger] entries[i]).attr@ == a && text::opt(
                    entries[i].base_drv,
                ) == d.0 && text::opt(entries[i].head_drv) == d.1;
            assert(entries[i].attr@ == a);
        } else {
            assert(entries[n - 1].attr@ == a);
        }
    }
}

/// A section begins with the signs of its states and the number of its builds, with
/// the noun in the plural unless that is one; and it names the number of attrs where
/// that is another.
pub proof fn law_sections_begin_with_their_counts(base: State, head: State, entries: Seq<Entry>)
    ensures
        ({
            let n = entries.map_values(|e: Entry| drvs_of(e)).to_set().len();
            &&& text::begins(
                section_text(base, head, entries),
                "<details><summary>"@ + base.sign() + " → "@ + head.sign() + " · <b>"@
                    + text::decimal(n) + " "@ + section_of(base, head).1@ + (if n == 1 {
                    Seq::empty()
                } else {
                    "s"@
                }) + "</b>"@ + (if entries.len() == n {
                    " — "@
                } else {
                    " ("@ + text::decimal(entries.len()) + " attrs)"@
                }),
            )
            &&& text::occurs(section_text(base, head, entries), section_of(base, head).2@)
        }),
{
    law_builds_are_counted_once(entries);
    let n = drvs_seen(entries, entries.len() as int).len();
    let (_, noun, phrase) = section_of(base, head);
    let lines = section_lines(entries);
    let front = "<details><summary>"@ + base.sign() + " → "@ + head.sign() + " · <b>"@
        + text::decimal(n) + " "@ + noun@ + (if n == 1 {
        Seq::empty()
    } else {
        "s"@
    }) + "</b>"@;
    let note = if entries.len() != n {
        " ("@ + text::decimal(entries.len()) + " attrs)"@
    } else {
        Seq::empty()
    };
    let rest = phrase@ + "</summary>\n\n"@ + bullets(lines, lines.len() as int) + "</details>\n\n"@;
    let t = section_text(base, head, entries);
    assert(t =~= front + note + " — "@ + rest);
    if entries.len() == n {
        assert(t =~= (front + " — "@) + rest);
        text::law_prefixes_and_suffixes(t, front + " — "@, rest);
    } else {
        assert(t =~= (front + note) + (" — "@ + rest));
        text::law_prefixes_and_suffixes(t, front + note, " — "@ + rest);
    }
    assert(t =~= (front + note + " — "@) + phrase@ + ("</summary>\n\n"@ + bullets(
        lines,
        lines.len() as int,
    ) + "</details>\n\n"@));
}

proof fn lemma_section_lines(entries: Seq<Entry>, d: Drvs)
    requires
        drvs_seen(entries, entries.len() as int).contains(d),
    ensures
        section_lines(entries).contains(line_text(attrs_with(entries, d, entries.len() as int))),
{
    broadcast use vstd::seq_lib::group_to_multiset_ensures;

    let n = entries.len() as int;
    let raw = drvs_seen(entries, n).map_values(|d: Drvs| line_text(attrs_with(entries, d, n)));
    ordered::law_sorting_orders_and_keeps(raw, 0, 0);
    let k = choose|k: int|
        0 <= k < drvs_seen(entries, n).len() && drvs_seen(entries, n)[k] == d;
    let line = line_text(attrs_with(entries, d, n));
    assert(raw[k] == line);
    assert(raw.contains(line));
    assert(raw.to_multiset().count(line) > 0);
    assert(section_lines(entries).to_multiset().count(line) > 0);
}

/// A section shows each of its entries: on a line of its own that names the attr.
pub proof fn law_sections_show_their_entries(base: State, head: State, entries: Seq<Entry>, i: int)
    requires
        0 <= i < entries.len(),
    ensures
        exists|line: Seq<char>|
            #![trigger text::occurs(line, seq!['`'] + entries[i].attr@ + seq!['`'])]
            text::occurs(line, seq!['`'] + entries[i].attr@ + seq!['`']) && text::occurs(
                section_text(base, head, entries),
                "- "@ + line + "\n"@,
            ),
{
    let n = entries.len() as int;
    let d = drvs_of(entries[i]);
    law_every_attr_has_one_line(entries);
    assert(drvs_seen(entries, n).contains(drvs_of(entries[i])));
    let attrs = attrs_with(entries, d, n);
    assert(attrs.contains(entries[i].attr@));
    let k = choose|k: int| 0 <= k < attrs.len() && attrs[k] == entries[i].attr@;
    law_lines_show_their_attrs(attrs, k);
    lemma_section_lines(entries, d);
    let line = line_text(attrs);
    let lines = section_lines(entries);
    let m = choose|m: int| 0 <= m < lines.len() && lines[m] == line;
    lemma_bullets_occur(lines, lines.len() as int, m);
    let t = section_text(base, head, entries);
    let groups = drvs_seen(entries, n).len();
    let (_, noun, phrase) = section_of(base, head);
    let front = "<details><summary>"@ + base.sign() + " → "@ + head.sign() + " · <b>"@
        + text::decimal(groups) + " "@ + noun@ + (if groups == 1 {
        Seq::empty()
    } else {
        "s"@
    }) + "</b>"@ + (if entries.len() != groups {
        " ("@ + text::decimal(entries.len()) + " attrs)"@
    } else {
        Seq::empty()
    }) + " — "@ + phrase@ + "</summary>\n\n"@;
    let all = bullets(lines, lines.len() as int);
    assert(t == front + all + "</details>\n\n"@);
    text::lemma_occurs_within(t, front, all, "</details>\n\n"@, "- "@ + line + "\n"@);
    assert(text::occurs(line, seq!['`'] + entries[i].attr@ + seq!['`']));
}

proof fn lemma_sections_occur(entries: Seq<Entry>, order: Seq<(State, State)>, n: int, i: int)
    requires
        0 <= i < n <= order.len(),
    ensures
        text::occurs(
            sections_text(entries, order, n),
            section_text(order[i].0, order[i].1, with_states(entries, order[i])),
        ),
    decreases n,
{
    let all = sections_text(entries, order, n);
    let e = Seq::<char>::empty();
    let last = section_text(order[n - 1].0, order[n - 1].1, with_states(entries, order[n - 1]));
    let before = sections_text(entries, order, n - 1);
    if i == n - 1 {
        assert(all =~= before + last + e);
    } else {
        lemma_sections_occur(entries, order, n - 1, i);
        assert(all =~= e + before + last);
        text::lemma_occurs_within(
            all,
            e,
            before,
            last,
            section_text(order[i].0, order[i].1, with_states(entries, order[i])),
        );
    }
}

proof fn lemma_systems_occur(per_system: Seq<(String, Vec<Entry>)>, n: int, k: int)
    requires
        0 <= k < n <= per_system.len(),
    ensures
        text::occurs(
            systems_text(per_system, n),
            system_text(per_system[k].0@, per_system[k].1@),
        ),
    decreases n,
{
    let all = systems_text(per_system, n);
    let e = Seq::<char>::empty();
    let last = system_text(per_system[n - 1].0@, per_system[n - 1].1@);
    let before = systems_text(per_system, n - 1);
    if k == n - 1 {
        assert(all =~= before + last + e);
    } else {
        lemma_systems_occur(per_system, n - 1, k);
        assert(all =~= e + before + last);
        text::lemma_occurs_within(
            all,
            e,
            before,
            last,
            system_text(per_system[k].0@, per_system[k].1@),
        );
    }
}

/// The report begins with the two revisions, has a part for every system under its
/// name, and in that part the section of every pair of states that occurs there,
/// with all entries that have that pair.
pub proof fn law_report_has_every_section(
    base: Seq<char>,
    head: Seq<char>,
    per_system: Seq<(String, Vec<Entry>)>,
    k: int,
    i: int,
)
    requires
        0 <= k < per_system.len(),
    ensures
        text::begins(
            report_text(base, head, per_system),
            "## `npd` report: "@ + base + " → "@ + head + "\n"@,
        ),
        text::occurs(
            report_text(base, head, per_system),
            "\n### `"@ + per_system[k].0@ + "`\n\n"@,
        ),
        per_system[k].1@.len() == 0 ==> text::occurs(
            report_text(base, head, per_system),
            "\n### `"@ + per_system[k].0@ + "`\n\n"@ + "_No changed attrs._\n"@,
        ),
        0 <= i < per_system[k].1@.len() ==> ({
            let e = per_system[k].1@[i];
            &&& text::occurs(
                report_text(base, head, per_system),
                section_text(e.base, e.head, with_states(per_system[k].1@, (e.base, e.head))),
            )
            &&& with_states(per_system[k].1@, (e.base, e.head)).contains(e)
        }),
{
    let e = Seq::<char>::empty();
    let front = "## `npd` report: "@ + base + " → "@ + head + "\n"@;
    let entries = per_system[k].1@;
    let name = "\n### `"@ + per_system[k].0@ + "`\n\n"@;
    let part = system_text(per_system[k].0@, entries);
    let n = per_system.len() as int;
    let all = report_text(base, head, per_system);
    text::law_prefixes_and_suffixes(all, front, systems_text(per_system, n));
    lemma_systems_occur(per_system, n, k);
    assert(all =~= front + systems_text(per_system, n) + e);
    text::lemma_occurs_within(all, front, systems_text(per_system, n), e, part);
    let (x, y) = choose|x: Seq<char>, y: Seq<char>| all == #[trigger] (x + part + y);
    let none = "_No changed attrs._\n"@;
    if entries.len() == 0 {
        assert(part =~= e + name + none);
        assert(part =~= e + (name + none) + e);
        text::lemma_occurs_within(all, x, part, y, name + none);
    } else {
        let order = section_order(entries);
        let sections = sections_text(entries, order, order.len() as int);
        assert(part =~= e + name + sections);
        if 0 <= i < entries.len() {
            let pair = (entries[i].base, entries[i].head);
            law_every_entry_has_one_section(entries);
            assert(order.contains((entries[i].base, entries[i].head)));
            let m = choose|m: int| 0 <= m < order.len() && order[m] == pair;
            lemma_sections_occur(entries, order, order.len() as int, m);
            let s = section_text(pair.0, pair.1, with_states(entries, pair));
            assert(part =~= name + sections + e);
            text::lemma_occurs_within(part, name, sections, e, s);
            text::lemma_occurs_within(all, x, part, y, s);
        }
    }
    text::lemma_occurs_within(all, x, part, y, name);
}

/// A section holds entries with its own pair of states only.
pub proof fn law_sections_hold_no_other_states(entries: Seq<Entry>, pair: (State, State), i: int)
    requires
        0 <= i < with_states(entries, pair).len(),
    ensures
        with_states(entries, pair)[i].base == pair.0,
        with_states(entries, pair)[i].head == pair.1,
        entries.contains(with_states(entries, pair)[i]),
{
    let keep = |e: Entry| (e.base, e.head) == pair;
    entries.lemma_filter_pred(keep, i);
    assert(entries.filter(keep).contains(with_states(entries, pair)[i]));
    entries.lemma_filter_contains_rev(keep, with_states(entries, pair)[i]);
}

/// On a line, neighbours stand with an equals sign between them, and nothing else
/// does.
pub proof fn law_lines_are_joined_by_equals_signs(attrs: Seq<Seq<char>>)
    ensures
        attrs.len() == 1 ==> line_text(attrs) == seq!['`'] + attrs[0] + seq!['`'],
        attrs.len() == 2 ==> line_text(attrs) == seq!['`'] + line_order(attrs)[0] + seq!['`']
            + seq![' ', '=', ' '] + (seq!['`'] + line_order(attrs)[1] + seq!['`']),
        line_text(attrs).len() + 3 >= 5 * attrs.len(),
{
    reveal_strlit("`");
    reveal_strlit(" = ");
    assert(" = "@ =~= seq![' ', '=', ' ']);
    law_short_attrs_come_first(attrs, 0, 0);
    let sorted = line_order(attrs);
    let spans = sorted.map_values(|a: Seq<char>| code_span(a));
    assert forall|i: int| 0 <= i < spans.len() implies #[trigger] spans[i] =~= seq!['`'] + sorted[i]
        + seq!['`'] by {}
    if attrs.len() == 1 {
        broadcast use vstd::seq_lib::group_to_multiset_ensures;

        assert(attrs.contains(attrs[0]));
        assert(attrs.to_multiset().count(attrs[0]) > 0);
        assert(sorted.contains(attrs[0]));
        assert(sorted[0] == attrs[0]);
        assert(spans[0] == seq!['`'] + attrs[0] + seq!['`']);
    }
    if attrs.len() == 2 {
        assert(spans.drop_last() =~= seq![spans[0]]);
        assert(text::joined(seq![spans[0]], " = "@) == spans[0]);
        assert(spans.last() == spans[1]);
    }
    lemma_joined_long(spans, " = "@);
}

proof fn lemma_joined_long(parts: Seq<Seq<char>>, sep: Seq<char>)
    requires
        sep.len() == 3,
        forall|i: int| 0 <= i < parts.len() ==> (#[trigger] parts[i]).len() >= 2,
    ensures
        text::joined(parts, sep).len() + 3 >= 5 * parts.len(),
    decreases parts.len(),
{
    if parts.len() > 1 {
        assert forall|i: int| 0 <= i < parts.drop_last().len() implies (
        #[trigger] parts.drop_last()[i]).len() >= 2 by {
            assert(parts.drop_last()[i] == parts[i]);
        }
        lemma_joined_long(parts.drop_last(), sep);
        assert(parts[parts.len() - 1] == parts.last());
    } else if parts.len() == 1 {
        assert(parts[0].len() >= 2);
    }
}

/// The lines of a section are one for each of its builds, in lexicographic order.
pub proof fn law_lines_of_a_section_are_in_order(entries: Seq<Entry>, i: int, j: int)
    ensures
        section_lines(entries).len() == drvs_seen(entries, entries.len() as int).len(),
        0 <= i < j < section_lines(entries).len() ==> section_lines(entries)[i] == section_lines(
            entries,
        )[j] || text::lex_before(section_lines(entries)[i], section_lines(entries)[j]),
{
    let n = entries.len() as int;
    let raw = drvs_seen(entries, n).map_values(|d: Drvs| line_text(attrs_with(entries, d, n)));
    ordered::law_sorting_orders_and_keeps(raw, i, j);
}

/// The lines of a section, the sections of a system and the systems of a report come
/// one right after the other, with nothing between them.
pub proof fn law_reports_are_put_together_in_order(
    lines: Seq<Seq<char>>,
    entries: Seq<Entry>,
    order: Seq<(State, State)>,
    per_system: Seq<(String, Vec<Entry>)>,
)
    ensures
        bullets(lines, lines.len() as int) == lines.map_values(
            |l: Seq<char>| "- "@ + l + "\n"@,
        ).flatten(),
        sections_text(entries, order, order.len() as int) == order.map_values(
            |p: (State, State)| section_text(p.0, p.1, with_states(entries, p)),
        ).flatten(),
        systems_text(per_system, per_system.len() as int) == per_system.map_values(
            |s: (String, Vec<Entry>)| system_text(s.0@, s.1@),
        ).flatten(),
{
    lemma_bullets_flatten(lines, lines.len() as int);
    assert(lines.take(lines.len() as int) =~= lines);
    lemma_sections_flatten(entries, order, order.len() as int);
    assert(order.take(order.len() as int) =~= order);
    lemma_systems_flatten(per_system, per_system.len() as int);
    assert(per_system.take(per_system.len() as int) =~= per_system);
}

proof fn lemma_bullets_flatten(lines: Seq<Seq<char>>, n: int)
    requires
        0 <= n <= lines.len(),
    ensures
        bullets(lines, n) == lines.take(n).map_values(
            |l: Seq<char>| "- "@ + l + "\n"@,
        ).flatten(),
    decreases n,
{
    let f = |l: Seq<char>| "- "@ + l + "\n"@;
    if n > 0 {
        lemma_bullets_flatten(lines, n - 1);
        let before = lines.take(n - 1).map_values(f);
        before.lemma_flatten_push(f(lines[n - 1]));
        assert(lines.take(n).map_values(f) =~= before.push(f(lines[n - 1])));
        assert(bullets(lines, n) =~= before.flatten() + f(lines[n - 1]));
    } else {
        assert(lines.take(n).map_values(f) =~= Seq::<Seq<char>>::empty());
    }
}

proof fn lemma_sections_flatten(entries: Seq<Entry>, order: Seq<(State, State)>, n: int)
    requires
        0 <= n <= order.len(),
    ensures
        sections_text(entries, order, n) == order.take(n).map_values(
            |p: (State, State)| section_text(p.0, p.1, with_states(entries, p)),
        ).flatten(),
    decreases n,
{
    let f = |p: (State, State)| section_text(p.0, p.1, with_states(entries, p));
    if n > 0 {
        lemma_sections_flatten(entries, order, n - 1);
        let before = order.take(n - 1).map_values(f);
        before.lemma_flatten_push(f(order[n - 1]));
        assert(order.take(n).map_values(f) =~= before.push(f(order[n - 1])));
    } else {
        assert(order.take(n).map_values(f) =~= Seq::<Seq<char>>::empty());
    }
}

proof fn lemma_systems_flatten(per_system: Seq<(String, Vec<Entry>)>, n: int)
    requires
        0 <= n <= per_system.len(),
    ensures
        systems_text(per_system, n) == per_system.take(n).map_values(
            |s: (String, Vec<Entry>)| system_text(s.0@, s.1@),
        ).flatten(),
    decreases n,
{
    let f = |s: (String, Vec<Entry>)| system_text(s.0@, s.1@);
    if n > 0 {
        lemma_systems_flatten(per_system, n - 1);
        let before = per_system.take(n - 1).map_values(f);
        before.lemma_flatten_push(f(per_system[n - 1]));
        assert(per_system.take(n).map_values(f) =~= before.push(f(per_system[n - 1])));
    } else {
        assert(per_system.take(n).map_values(f) =~= Seq::<Seq<char>>::empty());
    }
}

/// Choosing entries by their positions gives those entries, in the order of the positions.
pub proof fn law_chosen_entries_are_at_their_positions(entries: Seq<Entry>, at: Seq<usize>, i: int)
    ensures
        chosen(entries, at).len() == at.len(),
        0 <= i < at.len() ==> chosen(entries, at)[i] == entries[at[i] as int],
{
}

} // verus!
