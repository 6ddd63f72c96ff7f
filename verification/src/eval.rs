//! Evaluating revisions: what the evaluator reports, how much of it the machine
//! can run at once, and which evaluations a run needs.
//!
//! An evaluation is a fact about a tree, a system and a profile; it is computed
//! at most once. The work is cut into shards (see [`crate::shards`]), each of
//! which is one run of the evaluator on its own.

use vstd::prelude::*;
use vstd::string::*;

use crate::live;
use crate::live::{NodeData, Tree};
use crate::model::{AttrEval, Rev, TestJob};
use crate::ordered::StringSet;
use crate::runs;
use crate::shards;
use crate::shards::Scheduler;
use crate::text;

verus! {

// --- what the evaluator reports ----------------------------------------------

/// One job line of the evaluator.
#[derive(Debug, PartialEq, Eq)]
pub struct RawJob {
    /// The attr path in one piece, an element with a dot in quotes.
    pub attr: String,
    /// The elements of the attr path, without quotes.
    pub attr_path: Vec<String>,
    /// `None` when evaluating the attr threw.
    pub drv_path: Option<String>,
}

/// A job of the whole package set.
pub fn raw_to_attr_eval(raw: RawJob) -> (r: AttrEval)
    ensures
        r@ == (raw.attr@, text::opt(raw.drv_path)),
{
    AttrEval { attr: raw.attr, drv_path: raw.drv_path }
}

/// A test job: the package is the first element of the path, and the label the
/// whole path with dots between its elements.
pub fn raw_to_test_job(raw: RawJob) -> (r: TestJob)
    ensures
        r@ == (
            if raw.attr_path@.len() > 0 {
                raw.attr_path@[0]@
            } else {
                Seq::empty()
            },
            text::joined(text::texts(raw.attr_path@), "."@),
            text::opt(raw.drv_path),
        ),
{
    let pkg_attr = if raw.attr_path.len() > 0 {
        raw.attr_path[0].clone()
    } else {
        String::new()
    };
    let test_attr = text::join(raw.attr_path.as_slice(), ".");
    TestJob { pkg_attr, test_attr, drv_path: raw.drv_path }
}

/// The names of the package set without the key that only marks a set to be
/// walked.
pub open spec fn walked(names: Seq<Seq<char>>) -> Seq<Seq<char>> {
    names.filter(|n: Seq<char>| n != "recurseForDerivations"@)
}

/// The names of the package set to be evaluated.
pub fn enumerate_names(names: Vec<String>) -> (r: Vec<String>)
    ensures
        text::texts(r@) == walked(text::texts(names@)),
{
    let ghost all = text::texts(names@);
    let mut r: Vec<String> = Vec::new();
    let mut i: usize = 0;
    assert(all.take(0).filter(|n: Seq<char>| n != "recurseForDerivations"@) =~= Seq::<
        Seq<char>,
    >::empty()) by {
        reveal(Seq::filter);
    }
    while i < names.len()
        invariant
            i <= names@.len(),
            all == text::texts(names@),
            text::texts(r@) == walked(all.take(i as int)),
        decreases names@.len() - i,
    {
        proof {
            assert(all.take(i + 1).drop_last() =~= all.take(i as int));
            assert(all.take(i + 1).last() == names@[i as int]@);
            reveal(Seq::filter);
        }
        if !text::same(names[i].as_str(), "recurseForDerivations") {
            let n = names[i].clone();
            proof {
                text::lemma_texts_push(r@, n);
            }
            r.push(n);
        }
        i = i + 1;
    }
    assert(all.take(i as int) =~= all);
    r
}

/// An error of the JSON parser.
#[verifier::external_type_specification]
#[verifier::external_body]
pub struct ExJsonError(serde_json::Error);

/// The names of the package set could not be read.
#[derive(Debug, Clone, Copy, PartialEq, Eq, Structural)]
pub struct BadNames;

/// The texts in the JSON list of texts that bytes hold; none, where they hold
/// anything else.
pub uninterp spec fn json_texts(bytes: Seq<u8>) -> Option<Seq<Seq<char>>>;

/// `serde_json::from_slice` for a list of strings: what it reads is a function
/// of the bytes, and an error where they are no JSON list of strings.
#[verifier::external_body]
fn parse_texts(bytes: &[u8]) -> (r: Result<Vec<String>, serde_json::Error>)
    ensures
        json_texts(bytes@) == (match r {
            Ok(v) => Some(text::texts(v@)),
            Err(_) => None,
        }),
{
    serde_json::from_slice::<Vec<String>>(bytes)
}

/// The names of the package set to be evaluated, from what the evaluator prints
/// of them.
pub fn read_names(stdout: &[u8]) -> (r: Result<Vec<String>, BadNames>)
    ensures
        match r {
            Ok(v) => json_texts(stdout@) is Some && text::texts(v@) == walked(
                json_texts(stdout@)->0,
            ),
            Err(_) => json_texts(stdout@) is None,
        },
{
    match parse_texts(stdout) {
        Ok(names) => Ok(enumerate_names(names)),
        Err(_) => Err(BadNames),
    }
}

/// The arguments of one run of the evaluator.
pub open spec fn evaluator_args(
    workers: nat,
    per_worker_mb: nat,
    instantiate: bool,
    expr_file: Seq<char>,
) -> Seq<Seq<char>> {
    let head = seq![
        "--workers"@,
        text::decimal(workers),
        "--max-memory-size"@,
        text::decimal(per_worker_mb),
    ];
    if instantiate {
        head.push(expr_file)
    } else {
        head.push("--no-instantiate"@).push(expr_file)
    }
}

/// The arguments of one run of the evaluator: how many workers, the heap each
/// may reach, and whether the derivations are written to the store.
pub fn eval_jobs_args(workers: usize, per_worker_mb: u64, instantiate: bool, expr_file: &str) -> (r:
    Vec<String>)
    ensures
        text::texts(r@) == evaluator_args(
            workers as nat,
            per_worker_mb as nat,
            instantiate,
            expr_file@,
        ),
{
    let mut r: Vec<String> = Vec::new();
    r.push(text::copy("--workers"));
    r.push(text::decimal_usize(workers));
    r.push(text::copy("--max-memory-size"));
    r.push(text::decimal_u64(per_worker_mb));
    if !instantiate {
        r.push(text::copy("--no-instantiate"));
    }
    r.push(text::copy(expr_file));
    assert(text::texts(r@) =~= evaluator_args(
        workers as nat,
        per_worker_mb as nat,
        instantiate,
        expr_file@,
    ));
    r
}

/// How many lines of the evaluator's diagnostics are kept.
pub const KEEP_LINES: usize = 20;

/// The last lines of a stream.
pub open spec fn tail_of(lines: Seq<Seq<char>>) -> Seq<Seq<char>> {
    if lines.len() > KEEP_LINES {
        lines.skip(lines.len() - KEEP_LINES)
    } else {
        lines
    }
}

/// The last lines of a stream, as they come.
#[derive(Debug, PartialEq, Eq)]
pub struct LineRing {
    lines: Vec<String>,
}

impl LineRing {
    /// The lines held.
    pub closed spec fn view(self) -> Seq<Seq<char>> {
        text::texts(self.lines@)
    }

    /// No more lines are held than are kept.
    pub open spec fn wf(self) -> bool {
        self@.len() <= KEEP_LINES
    }

    /// No line yet.
    pub fn new() -> (r: LineRing)
        ensures
            r@ == Seq::<Seq<char>>::empty(),
            r.wf(),
    {
        let r = LineRing { lines: Vec::new() };
        assert(r@ =~= Seq::<Seq<char>>::empty());
        r
    }

    /// One more line; where enough are held, the oldest one goes.
    pub fn push(&mut self, line: String)
        requires
            old(self).wf(),
        ensures
            final(self).wf(),
            final(self)@ == tail_of(old(self)@.push(line@)),
    {
        let ghost was = self@;
        if self.lines.len() == KEEP_LINES {
            self.lines.remove(0);
            assert(self@ =~= was.skip(1));
        }
        let ghost mid = self@;
        self.lines.push(line);
        assert(self@ =~= mid.push(line@));
        assert(self@ =~= tail_of(was.push(line@)));
    }

    /// The lines held, in one piece.
    pub fn text(&self) -> (r: String)
        ensures
            r@ == text::joined(self@, "\n"@),
    {
        text::join(self.lines.as_slice(), "\n")
    }
}

/// Pushing the lines of a stream one by one keeps exactly its last ones.
pub proof fn law_ring_holds_the_last_lines(lines: Seq<Seq<char>>, line: Seq<char>)
    ensures
        tail_of(tail_of(lines).push(line)) == tail_of(lines.push(line)),
{
    assert(tail_of(tail_of(lines).push(line)) =~= tail_of(lines.push(line)));
}

// --- aborts ------------------------------------------------------------------

/// The evaluator exited with an error: its output is truncated and of no use.
#[derive(Debug, PartialEq, Eq)]
pub struct EvalAborted {
    /// How it exited.
    pub status: String,
    /// How many jobs had been streamed.
    pub streamed: usize,
    /// The last lines of its diagnostics.
    pub stderr_tail: String,
}

/// An abort as plain data.
#[verifier::ext_equal]
pub struct AbortData {
    pub status: Seq<char>,
    pub streamed: nat,
    pub stderr_tail: Seq<char>,
}

/// The last line that is not blank, without the white space around it.
pub open spec fn last_words(lines: Seq<Seq<char>>) -> Option<Seq<char>>
    decreases lines.len(),
{
    if lines.len() == 0 {
        None
    } else if text::trimmed(lines.last()).len() > 0 {
        Some(text::trimmed(lines.last()))
    } else {
        last_words(lines.drop_last())
    }
}

impl EvalAborted {
    /// The abort as plain data.
    pub open spec fn view(self) -> AbortData {
        AbortData {
            status: self.status@,
            streamed: self.streamed as nat,
            stderr_tail: self.stderr_tail@,
        }
    }

    /// The cause on one line: how the evaluator exited, and the last line of its
    /// diagnostics that is not blank.
    pub open spec fn cause(self) -> Seq<char> {
        match last_words(text::lines_of(self.stderr_tail@)) {
            Some(l) => self.status@ + " — "@ + l,
            None => self.status@,
        }
    }

    /// The cause on one line.
    pub fn summary(&self) -> (r: String)
        ensures
            r@ == self.cause(),
    {
        let lines = text::split_lines(self.stderr_tail.as_str());
        let ghost all = text::texts(lines@);
        let mut i: usize = lines.len();
        assert(all.take(i as int) =~= all);
        while i > 0
            invariant
                i <= lines@.len(),
                all == text::texts(lines@),
                all == text::lines_of(self.stderr_tail@),
                last_words(all.take(i as int)) == last_words(all),
            decreases i,
        {
            let t = text::trim(lines[i - 1].as_str());
            proof {
                assert(all.take(i as int).last() == all[i - 1]);
                assert(all.take(i as int).drop_last() =~= all.take(i - 1));
            }
            if t.as_str().unicode_len() > 0 {
                let mut r = self.status.clone();
                r.append(" — ");
                r.append(t.as_str());
                return r;
            }
            i = i - 1;
        }
        self.status.clone()
    }

    /// The whole account of the abort.
    pub fn message(&self) -> (r: String)
        ensures
            r@ == self.status@ + " after streaming "@ + text::decimal(self.streamed as nat)
                + " job(s), so the result is truncated and will NOT be cached. A worker died; the exit status above and this stderr tail are what it reported, not a guess:\n"@
                + self.stderr_tail@,
    {
        let mut r = self.status.clone();
        r.append(" after streaming ");
        let n = text::decimal_usize(self.streamed);
        r.append(n.as_str());
        r.append(
            " job(s), so the result is truncated and will NOT be cached. A worker died; the exit status above and this stderr tail are what it reported, not a guess:\n",
        );
        r.append(self.stderr_tail.as_str());
        r
    }
}

/// What a run of the evaluator is worth once it has exited: its rows if it
/// exited well, and nothing at all otherwise, since rows may be missing.
pub fn integrity_gate<T>(
    success: bool,
    status: String,
    rows: Vec<T>,
    stderr_tail: String,
) -> (r: Result<Vec<T>, EvalAborted>)
    ensures
        match r {
            Ok(v) => success && v == rows,
            Err(e) => !success && e.status == status && e.streamed == rows@.len() && e.stderr_tail
                == stderr_tail,
        },
{
    if success {
        Ok(rows)
    } else {
        Err(EvalAborted { status, streamed: rows.len(), stderr_tail })
    }
}

/// The message in front of an abort.
pub fn unfinished(label: &str) -> (r: String)
    ensures
        r@ == "nix-eval-jobs did not finish evaluating "@ + label@,
{
    let mut r = "nix-eval-jobs did not finish evaluating ".to_owned();
    r.append(label);
    r
}

// --- the machine -------------------------------------------------------------

/// The heap a worker may reach before it is restarted.
pub const DEFAULT_WORKER_MEM_MB: u64 = 4096;

/// The memory counted for a slot of a whole evaluation.
pub const SLOT_MEM_MB: u64 = 2048;

/// The memory counted for a slot of the heavier targeted evaluations.
pub const TESTS_SLOT_MEM_MB: u64 = 4096;

/// How many top-level names make a shard.
pub const NAMES_PER_SHARD: usize = 1024;

/// How many slots `cores` cores and `mem_mb` MiB give, counting `per_slot_mb`
/// MiB for each: the fewer of the cores and of what fits into memory, which is
/// counted as one at least.
pub open spec fn slots_for(cores: nat, mem_mb: nat, per_slot_mb: nat) -> nat {
    let per = if per_slot_mb == 0 {
        1
    } else {
        per_slot_mb
    };
    let fit = if mem_mb / per < 1 {
        1
    } else {
        mem_mb / per
    };
    if cores <= fit {
        cores
    } else {
        fit
    }
}

/// How many shards to run at once at first.
pub fn eval_slots(cores: usize, mem_mb: u64, per_slot_mb: u64) -> (n: usize)
    ensures
        n == slots_for(cores as nat, mem_mb as nat, per_slot_mb as nat),
{
    let per: u64 = if per_slot_mb == 0 {
        1
    } else {
        per_slot_mb
    };
    let mut fit: u64 = mem_mb / per;
    if fit < 1 {
        fit = 1;
    }
    if cores as u64 <= fit {
        cores
    } else {
        fit as usize
    }
}

/// Where there is a core there is a slot; there are never more slots than
/// cores, nor, beyond the first, more than fit into memory.
pub proof fn law_slots_are_bounded(cores: nat, mem_mb: nat, per_slot_mb: nat)
    requires
        cores > 0,
    ensures
        1 <= slots_for(cores, mem_mb, per_slot_mb) <= cores,
        slots_for(cores, mem_mb, per_slot_mb) > 1 ==> slots_for(cores, mem_mb, per_slot_mb)
            * per_slot_mb <= mem_mb,
{
    let n = slots_for(cores, mem_mb, per_slot_mb);
    let q = mem_mb / per_slot_mb;
    if per_slot_mb == 0 {
        assert(n * per_slot_mb == 0) by (nonlinear_arith)
            requires
                per_slot_mb == 0,
        ;
    } else if n > 1 {
        assert(n * per_slot_mb <= q * per_slot_mb) by (nonlinear_arith)
            requires
                n <= q,
        ;
        assert(q * per_slot_mb <= mem_mb) by (nonlinear_arith)
            requires
                q == mem_mb / per_slot_mb,
                per_slot_mb > 0,
        ;
    }
}

/// The memory of the machine in MiB, given its physical memory and the limit
/// that the process runs under.
pub fn total_mem_mb(physical_mb: u64, limit_mb: Option<u64>) -> (r: u64)
    ensures
        r == (match limit_mb {
            Some(l) if l < physical_mb => l,
            _ => physical_mb,
        }),
{
    match limit_mb {
        Some(l) => if l < physical_mb {
            l
        } else {
            physical_mb
        },
        None => physical_mb,
    }
}

/// The first line with a prefix, behind the prefix.
pub open spec fn after_prefix(lines: Seq<Seq<char>>, prefix: Seq<char>) -> Option<Seq<char>>
    decreases lines.len(),
{
    if lines.len() == 0 {
        None
    } else if text::begins(lines[0], prefix) {
        Some(lines[0].skip(prefix.len() as int))
    } else {
        after_prefix(lines.skip(1), prefix)
    }
}

fn find_prefixed(s: &str, prefix: &str) -> (r: Option<String>)
    ensures
        text::opt(r) == after_prefix(text::lines_of(s@), prefix@),
{
    let lines = text::split_lines(s);
    let p = text::chars_of(prefix);
    let ghost all = text::texts(lines@);
    let mut i: usize = 0;
    assert(all.skip(0) =~= all);
    while i < lines.len()
        invariant
            i <= lines@.len(),
            p@ == prefix@,
            all == text::texts(lines@),
            all == text::lines_of(s@),
            after_prefix(all.skip(i as int), prefix@) == after_prefix(all, prefix@),
        decreases lines@.len() - i,
    {
        let l = text::chars_of(lines[i].as_str());
        proof {
            assert(all.skip(i as int)[0] == l@);
            assert(l@.skip(0) =~= l@);
            assert(all.skip(i as int).skip(1) =~= all.skip(i + 1));
        }
        if text::stands_at(l.as_slice(), p.as_slice(), 0) {
            let r = text::string_between(l.as_slice(), p.len(), l.len());
            assert(r@ =~= l@.skip(p@.len() as int));
            return Some(r);
        }
        i = i + 1;
    }
    None
}

/// The group of the process in the unified hierarchy, from the text of
/// `/proc/self/cgroup`.
pub fn cgroup_of(s: &str) -> (r: Option<String>)
    ensures
        text::opt(r) == (match after_prefix(text::lines_of(s@), "0::"@) {
            Some(l) => Some(text::trimmed(l)),
            None => None,
        }),
{
    match find_prefixed(s, "0::") {
        Some(l) => Some(text::trim(l.as_str())),
        None => None,
    }
}

/// The components of a path: what stands between its separators, without empty
/// pieces and lone dots.
pub open spec fn components(path: Seq<char>) -> Seq<Seq<char>> {
    text::split_on(path, '/').filter(|c: Seq<char>| c.len() > 0 && c != "."@)
}

/// The root of the control groups, as components.
pub open spec fn cgroup_root() -> Seq<Seq<char>> {
    seq!["sys"@, "fs"@, "cgroup"@]
}

/// The directories of a group, from its own up to the last below the root.
pub open spec fn group_dirs(comps: Seq<Seq<char>>) -> Seq<Seq<char>>
    decreases comps.len(),
{
    if comps.len() <= 3 || comps.take(3) != cgroup_root() {
        Seq::empty()
    } else {
        seq!["/"@ + text::joined(comps, "/"@)] + group_dirs(comps.drop_last())
    }
}

fn path_components(path: &str) -> (r: Vec<String>)
    ensures
        text::texts(r@) == components(path@),
{
    let parts = text::split(path, '/');
    let ghost all = text::texts(parts@);
    let mut r: Vec<String> = Vec::new();
    let mut i: usize = 0;
    assert(text::texts(r@) =~= all.take(0).filter(|c: Seq<char>| c.len() > 0 && c != "."@)) by {
        reveal(Seq::filter);
    }
    while i < parts.len()
        invariant
            i <= parts@.len(),
            all == text::texts(parts@),
            text::texts(r@) == all.take(i as int).filter(
                |c: Seq<char>| c.len() > 0 && c != "."@,
            ),
        decreases parts@.len() - i,
    {
        proof {
            assert(all.take(i + 1).drop_last() =~= all.take(i as int));
            assert(all.take(i + 1).last() == parts@[i as int]@);
            reveal(Seq::filter);
        }
        if parts[i].as_str().unicode_len() > 0 && !text::same(parts[i].as_str(), ".") {
            let c = parts[i].clone();
            proof {
                text::lemma_texts_push(r@, c);
            }
            r.push(c);
        }
        i = i + 1;
    }
    assert(all.take(i as int) =~= all);
    r
}

/// The directories whose memory limits bind a process in the group `rel`.
pub fn cgroup_dirs(rel: &str) -> (r: Vec<String>)
    ensures
        text::texts(r@) == group_dirs(components("/sys/fs/cgroup"@ + rel@)),
{
    let mut path = "/sys/fs/cgroup".to_owned();
    path.append(rel);
    let mut comps = path_components(path.as_str());
    let ghost want = group_dirs(text::texts(comps@));
    let mut r: Vec<String> = Vec::new();
    assert(text::texts(r@) + group_dirs(text::texts(comps@)) =~= want);
    while comps.len() > 3
        invariant
            want == group_dirs(components("/sys/fs/cgroup"@ + rel@)),
            text::texts(r@) + group_dirs(text::texts(comps@)) == want,
        decreases comps@.len(),
    {
        let ghost c = text::texts(comps@);
        let rooted = text::same(comps[0].as_str(), "sys") && text::same(comps[1].as_str(), "fs")
            && text::same(comps[2].as_str(), "cgroup");
        proof {
            assert(c[0] == comps@[0]@ && c[1] == comps@[1]@ && c[2] == comps@[2]@);
            assert(rooted ==> c.take(3) =~= cgroup_root());
            if c.take(3) == cgroup_root() {
                assert(c.take(3)[0] == "sys"@ && c.take(3)[1] == "fs"@ && c.take(3)[2]
                    == "cgroup"@);
            }
        }
        if !rooted {
            assert(text::texts(r@) + group_dirs(c) =~= text::texts(r@));
            return r;
        }
        let mut dir = "/".to_owned();
        let j = text::join(comps.as_slice(), "/");
        dir.append(j.as_str());
        let ghost was = text::texts(r@);
        proof {
            text::lemma_texts_push(r@, dir);
        }
        r.push(dir);
        comps.pop();
        proof {
            assert(text::texts(comps@) =~= c.drop_last());
            assert(was.push(dir@) + group_dirs(c.drop_last()) =~= was + (seq![dir@] + group_dirs(
                c.drop_last(),
            )));
        }
    }
    assert(text::texts(r@) + group_dirs(text::texts(comps@)) =~= text::texts(r@));
    r
}

/// The least of the limits that are numbers, in bytes.
pub open spec fn least_limit(values: Seq<Seq<char>>) -> Option<nat>
    decreases values.len(),
{
    if values.len() == 0 {
        None
    } else {
        let before = least_limit(values.drop_last());
        match text::number(text::trimmed(values.last())) {
            Some(n) if n <= u64::MAX => match before {
                Some(m) if m <= n => Some(m),
                _ => Some(n),
            },
            _ => before,
        }
    }
}

/// The tightest of the memory limits, in MiB, given what the limit files hold;
/// `max` in one of them is no limit.
pub fn cgroup_mem_limit_mb(values: &[String]) -> (r: Option<u64>)
    ensures
        match least_limit(text::texts(values@)) {
            Some(b) => r is Some && r->0 == b / 1024 / 1024,
            None => r is None,
        },
{
    let ghost all = text::texts(values@);
    let mut least: Option<u64> = None;
    let mut i: usize = 0;
    while i < values.len()
        invariant
            i <= values@.len(),
            all == text::texts(values@),
            match least_limit(all.take(i as int)) {
                Some(b) => least is Some && least->0 == b,
                None => least is None,
            },
        decreases values@.len() - i,
    {
        proof {
            assert(all.take(i + 1).drop_last() =~= all.take(i as int));
            assert(all.take(i + 1).last() == values@[i as int]@);
        }
        let t = text::trim(values[i].as_str());
        if let Some(n) = text::parse_number(t.as_str(), u64::MAX) {
            least = match least {
                Some(m) => if m <= n {
                    Some(m)
                } else {
                    Some(n)
                },
                None => Some(n),
            };
        }
        i = i + 1;
    }
    assert(all.take(i as int) =~= all);
    match least {
        Some(b) => Some(b / 1024 / 1024),
        None => None,
    }
}

/// The number of KiB on the line of the total memory.
pub open spec fn mem_total(s: Seq<char>) -> Option<nat> {
    match mem_line(text::lines_of(s)) {
        Some(l) => {
            let w = text::words(l);
            if w.len() > 1 {
                match text::number(w[1]) {
                    Some(n) if n <= u64::MAX => Some(n),
                    _ => None,
                }
            } else {
                None
            }
        },
        None => None,
    }
}

/// The line of the total memory.
pub open spec fn mem_line(lines: Seq<Seq<char>>) -> Option<Seq<char>>
    decreases lines.len(),
{
    if lines.len() == 0 {
        None
    } else if text::begins(lines[0], "MemTotal:"@) {
        Some(lines[0])
    } else {
        mem_line(lines.skip(1))
    }
}

fn meminfo_kb(s: &str) -> (r: Option<u64>)
    ensures
        match mem_total(s@) {
            Some(n) => r is Some && r->0 == n,
            None => r is None,
        },
{
    let lines = text::split_lines(s);
    let p = text::chars_of("MemTotal:");
    let ghost all = text::texts(lines@);
    let mut i: usize = 0;
    assert(all.skip(0) =~= all);
    while i < lines.len()
        invariant
            i <= lines@.len(),
            p@ == "MemTotal:"@,
            all == text::texts(lines@),
            all == text::lines_of(s@),
            mem_line(all.skip(i as int)) == mem_line(all),
        decreases lines@.len() - i,
    {
        let l = text::chars_of(lines[i].as_str());
        proof {
            assert(all.skip(i as int)[0] == l@);
            assert(l@.skip(0) =~= l@);
            assert(all.skip(i as int).skip(1) =~= all.skip(i + 1));
        }
        if text::stands_at(l.as_slice(), p.as_slice(), 0) {
            let w = text::split_words(lines[i].as_str());
            if w.len() > 1 {
                assert(text::texts(w@)[1] == w@[1]@);
                return text::parse_number(w[1].as_str(), u64::MAX);
            }
            return None;
        }
        i = i + 1;
    }
    None
}

/// The physical memory in MiB: what `/proc/meminfo` says; else what the
/// `hw.memsize` of the system says, where it exited well with UTF-8; else eight
/// GiB.
pub fn physical_mem_mb(meminfo: Option<&str>, sysctl: Option<&str>) -> (r: u64)
    ensures
        r == (match meminfo {
            Some(s) if mem_total(s@) is Some => mem_total(s@)->0 / 1024,
            _ => match sysctl {
                Some(t) => match text::number(text::trimmed(t@)) {
                    Some(b) if b <= u64::MAX => b / 1024 / 1024,
                    _ => 8192nat,
                },
                None => 8192nat,
            },
        }),
{
    if let Some(s) = meminfo {
        if let Some(kb) = meminfo_kb(s) {
            return kb / 1024;
        }
    }
    if let Some(t) = sysctl {
        let t = text::trim(t);
        if let Some(b) = text::parse_number(t.as_str(), u64::MAX) {
            return b / 1024 / 1024;
        }
    }
    8192
}

// --- phases in the tree ------------------------------------------------------

/// What the leaves of a phase show: a state only, a count, or a percentage.
#[derive(Debug, Clone, Copy, PartialEq, Eq, Structural)]
pub enum Leaf {
    Plain,
    Count,
    Percent,
}

/// A leaf of a phase.
pub open spec fn leaf_node(leaf: Leaf, label: Seq<char>) -> NodeData {
    match leaf {
        Leaf::Plain => live::fresh(label, 2, false, false, -1i64, 0),
        Leaf::Count => live::fresh(label, 2, true, false, -1i64, 0),
        Leaf::Percent => live::fresh(label, 2, true, true, -1i64, 0),
    }
}

/// A group of a phase: the system and the name of the side.
pub type Place = (Seq<char>, Seq<char>);

/// Groups as texts.
pub open spec fn places(groups: Seq<(String, String)>) -> Seq<Place> {
    groups.map_values(|g: (String, String)| (g.0@, g.1@))
}

/// The systems of the first `n` groups, in the order they are first seen.
pub open spec fn systems_seen(groups: Seq<Place>, n: int) -> Seq<Seq<char>>
    decreases n,
{
    if n <= 0 {
        Seq::empty()
    } else {
        let before = systems_seen(groups, n - 1);
        if before.contains(groups[n - 1].0) {
            before
        } else {
            before.push(groups[n - 1].0)
        }
    }
}

/// The rows of a phase, and which row is the leaf of each group.
#[verifier::ext_equal]
pub struct Layout {
    pub rows: Seq<NodeData>,
    pub at: Map<int, int>,
}

/// The layout with the leaves of those of the first `n` groups that are on a
/// system.
pub open spec fn with_leaves(
    l: Layout,
    groups: Seq<Place>,
    system: Seq<char>,
    leaf: Leaf,
    n: int,
) -> Layout
    decreases n,
{
    if n <= 0 {
        l
    } else {
        let before = with_leaves(l, groups, system, leaf, n - 1);
        if groups[n - 1].0 == system {
            Layout {
                rows: before.rows.push(leaf_node(leaf, groups[n - 1].1)),
                at: before.at.insert(n - 1, before.rows.len() as int),
            }
        } else {
            before
        }
    }
}

/// The layout of a phase: the phase, and for each of the first `k` systems the
/// system with the leaves of its groups.
pub open spec fn layout(
    phase: Seq<char>,
    groups: Seq<Place>,
    systems: Seq<Seq<char>>,
    leaf: Leaf,
    k: int,
) -> Layout
    decreases k,
{
    if k <= 0 {
        Layout { rows: seq![live::fresh(phase, 0, false, false, -1i64, 0)], at: Map::empty() }
    } else {
        let before = layout(phase, groups, systems, leaf, k - 1);
        with_leaves(
            Layout {
                rows: before.rows.push(live::fresh(systems[k - 1], 1, false, false, -1i64, 0)),
                at: before.at,
            },
            groups,
            systems[k - 1],
            leaf,
            groups.len() as int,
        )
    }
}

/// The whole layout of a phase.
pub open spec fn phase_layout(phase: Seq<char>, groups: Seq<Place>, leaf: Leaf) -> Layout {
    let systems = systems_seen(groups, groups.len() as int);
    layout(phase, groups, systems, leaf, systems.len() as int)
}

proof fn lemma_systems_seen(groups: Seq<Place>, n: int)
    requires
        0 <= n <= groups.len(),
    ensures
        forall|i: int| 0 <= i < n ==> systems_seen(groups, n).contains((#[trigger] groups[i]).0),
    decreases n,
{
    if n > 0 {
        lemma_systems_seen(groups, n - 1);
        let before = systems_seen(groups, n - 1);
        let now = systems_seen(groups, n);
        assert forall|i: int| 0 <= i < n implies now.contains((#[trigger] groups[i]).0) by {
            if i < n - 1 {
                assert(before.contains(groups[i].0));
                let k = choose|k: int| 0 <= k < before.len() && before[k] == groups[i].0;
                assert(now[k] == groups[i].0);
            } else if !before.contains(groups[i].0) {
                assert(now[now.len() - 1] == groups[i].0);
            }
        }
    }
}

proof fn lemma_with_leaves(
    l: Layout,
    groups: Seq<Place>,
    system: Seq<char>,
    leaf: Leaf,
    n: int,
)
    requires
        0 <= n <= groups.len(),
        forall|i: int|
            #[trigger] l.at.contains_key(i) ==> 0 <= i < groups.len() && 0 <= l.at[i] < l.rows.len()
                && l.rows[l.at[i]] == leaf_node(leaf, groups[i].1),
    ensures
        ({
            let m = with_leaves(l, groups, system, leaf, n);
            &&& m.rows.len() >= l.rows.len()
            &&& forall|i: int|
                #[trigger] m.at.contains_key(i) ==> 0 <= i < groups.len() && 0 <= m.at[i]
                    < m.rows.len() && m.rows[m.at[i]] == leaf_node(leaf, groups[i].1)
            &&& forall|i: int| #[trigger] l.at.contains_key(i) ==> m.at.contains_key(i)
            &&& forall|i: int|
                0 <= i < n && (#[trigger] groups[i]).0 == system ==> m.at.contains_key(i)
        }),
    decreases n,
{
    if n > 0 {
        lemma_with_leaves(l, groups, system, leaf, n - 1);
        let before = with_leaves(l, groups, system, leaf, n - 1);
        let m = with_leaves(l, groups, system, leaf, n);
        assert forall|i: int| #[trigger] m.at.contains_key(i) implies 0 <= i < groups.len() && 0
            <= m.at[i] < m.rows.len() && m.rows[m.at[i]] == leaf_node(leaf, groups[i].1) by {
            if groups[n - 1].0 == system && i == n - 1 {
            } else {
                assert(before.at.contains_key(i));
            }
        }
        assert forall|i: int| #[trigger] l.at.contains_key(i) implies m.at.contains_key(i) by {
            assert(before.at.contains_key(i));
        }
        assert forall|i: int| 0 <= i < n && (#[trigger] groups[i]).0 == system implies m.at.contains_key(
            i,
        ) by {
            if i < n - 1 {
                assert(before.at.contains_key(i));
            }
        }
    }
}

proof fn lemma_layout(
    phase: Seq<char>,
    groups: Seq<Place>,
    systems: Seq<Seq<char>>,
    leaf: Leaf,
    k: int,
)
    requires
        0 <= k <= systems.len(),
    ensures
        ({
            let m = layout(phase, groups, systems, leaf, k);
            &&& forall|i: int|
                #[trigger] m.at.contains_key(i) ==> 0 <= i < groups.len() && 0 <= m.at[i]
                    < m.rows.len() && m.rows[m.at[i]] == leaf_node(leaf, groups[i].1)
            &&& forall|i: int, j: int|
                0 <= i < groups.len() && 0 <= j < k && (#[trigger] groups[i]).0 == (
                #[trigger] systems[j]) ==> m.at.contains_key(i)
        }),
    decreases k,
{
    if k > 0 {
        lemma_layout(phase, groups, systems, leaf, k - 1);
        let before = layout(phase, groups, systems, leaf, k - 1);
        let l = Layout {
            rows: before.rows.push(live::fresh(systems[k - 1], 1, false, false, -1i64, 0)),
            at: before.at,
        };
        assert forall|i: int| #[trigger] l.at.contains_key(i) implies 0 <= i < groups.len() && 0
            <= l.at[i] < l.rows.len() && l.rows[l.at[i]] == leaf_node(leaf, groups[i].1) by {
            assert(before.at.contains_key(i));
        }
        lemma_with_leaves(l, groups, systems[k - 1], leaf, groups.len() as int);
        let m = layout(phase, groups, systems, leaf, k);
        assert forall|i: int, j: int|
            0 <= i < groups.len() && 0 <= j < k && (#[trigger] groups[i]).0 == (
            #[trigger] systems[j]) implies m.at.contains_key(i) by {
            if j < k - 1 {
                assert(before.at.contains_key(i));
                assert(l.at.contains_key(i));
            }
        }
    }
}

/// Every group of a phase has its leaf among the rows.
pub proof fn law_every_group_has_its_leaf(phase: Seq<char>, groups: Seq<Place>, leaf: Leaf, i: int)
    requires
        0 <= i < groups.len(),
    ensures
        ({
            let m = phase_layout(phase, groups, leaf);
            m.at.contains_key(i) && 0 <= m.at[i] < m.rows.len() && m.rows[m.at[i]] == leaf_node(
                leaf,
                groups[i].1,
            )
        }),
{
    let systems = systems_seen(groups, groups.len() as int);
    lemma_systems_seen(groups, groups.len() as int);
    lemma_layout(phase, groups, systems, leaf, systems.len() as int);
    assert(systems.contains(groups[i].0));
    let j = choose|j: int| 0 <= j < systems.len() && systems[j] == groups[i].0;
    assert(groups[i].0 == systems[j]);
}

/// Whether rows were appended to a tree, one new node for each.
pub open spec fn appended(before: Tree, after: Tree, rows: Seq<NodeData>) -> bool {
    &&& after.wf()
    &&& after.nodes() == before.nodes() + rows
    &&& after.order() == before.order() + Seq::new(
        rows.len(),
        |i: int| before.nodes().len() + i,
    )
    &&& after.set_as(before)
}

fn add_leaf(tree: &mut Tree, leaf: Leaf, label: &str) -> (id: usize)
    requires
        old(tree).wf(),
    ensures
        final(tree).wf(),
        id == old(tree).nodes().len(),
        final(tree).nodes() == old(tree).nodes().push(leaf_node(leaf, label@)),
        final(tree).order() == old(tree).order().push(id as int),
        final(tree).set_as(*old(tree)),
{
    match leaf {
        Leaf::Plain => tree.node(label, 2),
        Leaf::Count => tree.counter(label, 2, -1),
        Leaf::Percent => tree.percent(label, 2),
    }
}

fn seen_systems(groups: &[(String, String)]) -> (r: Vec<String>)
    ensures
        text::texts(r@) == systems_seen(places(groups@), groups@.len() as int),
{
    let ghost all = places(groups@);
    let mut r: Vec<String> = Vec::new();
    let mut i: usize = 0;
    assert(text::texts(r@) =~= Seq::<Seq<char>>::empty());
    while i < groups.len()
        invariant
            i <= groups@.len(),
            all == places(groups@),
            text::texts(r@) == systems_seen(all, i as int),
        decreases groups@.len() - i,
    {
        assert(all[i as int].0 == groups@[i as int].0@);
        if !text::has(r.as_slice(), groups[i].0.as_str()) {
            let s = groups[i].0.clone();
            proof {
                text::lemma_texts_push(r@, s);
            }
            r.push(s);
        }
        i = i + 1;
    }
    r
}

/// Adds a phase to the tree: its node, the systems below it as they are first
/// seen, and below each the leaves of its groups. Returns the leaf of each
/// group.
pub fn add_phase(tree: &mut Tree, phase: &str, groups: &[(String, String)], leaf: Leaf) -> (r: Vec<
    usize,
>)
    requires
        old(tree).wf(),
    ensures
        ({
            let m = phase_layout(phase@, places(groups@), leaf);
            &&& appended(*old(tree), *final(tree), m.rows)
            &&& r@.len() == groups@.len()
            &&& forall|i: int|
                0 <= i < groups@.len() ==> #[trigger] r@[i] == old(tree).nodes().len() + m.at[i]
        }),
        forall|i: int| 0 <= i < r@.len() ==> #[trigger] r@[i] < final(tree).nodes().len(),
{
    let ghost all = places(groups@);
    let ghost n0 = tree.nodes().len();
    let ghost nodes0 = tree.nodes();
    let ghost order0 = tree.order();
    tree.node(phase, 0);
    let systems = seen_systems(groups);
    let ghost sys = text::texts(systems@);
    let mut handles: Vec<usize> = Vec::new();
    let mut z: usize = 0;
    while z < groups.len()
        invariant
            z <= groups@.len(),
            handles@.len() == z,
        decreases groups@.len() - z,
    {
        handles.push(0);
        z = z + 1;
    }
    let mut k: usize = 0;
    proof {
        assert(tree.nodes() =~= nodes0 + layout(phase@, all, sys, leaf, 0).rows);
        assert(tree.order() =~= order0 + Seq::new(1, |i: int| n0 + i));
    }
    while k < systems.len()
        invariant
            k <= systems@.len(),
            sys == text::texts(systems@),
            all == places(groups@),
            n0 == nodes0.len(),
            tree.wf(),
            tree.set_as(*old(tree)),
            handles@.len() == groups@.len(),
            tree.nodes() == nodes0 + layout(phase@, all, sys, leaf, k as int).rows,
            tree.order() == order0 + Seq::new(
                layout(phase@, all, sys, leaf, k as int).rows.len(),
                |i: int| n0 + i,
            ),
            forall|i: int|
                #[trigger] layout(phase@, all, sys, leaf, k as int).at.contains_key(i) ==> 0 <= i
                    < groups@.len() && handles@[i] == n0 + layout(
                    phase@,
                    all,
                    sys,
                    leaf,
                    k as int,
                ).at[i],
        decreases systems@.len() - k,
    {
        let ghost before = layout(phase@, all, sys, leaf, k as int);
        let ghost l = Layout {
            rows: before.rows.push(live::fresh(sys[k as int], 1, false, false, -1i64, 0)),
            at: before.at,
        };
        tree.node(systems[k].as_str(), 1);
        proof {
            assert(tree.nodes() =~= nodes0 + l.rows);
            assert(tree.order() =~= order0 + Seq::new(l.rows.len(), |i: int| n0 + i));
        }
        let mut g: usize = 0;
        while g < groups.len()
            invariant
                g <= groups@.len(),
                k < systems@.len(),
                sys == text::texts(systems@),
                all == places(groups@),
                n0 == nodes0.len(),
                tree.wf(),
                tree.set_as(*old(tree)),
                handles@.len() == groups@.len(),
                tree.nodes() == nodes0 + with_leaves(l, all, sys[k as int], leaf, g as int).rows,
                tree.order() == order0 + Seq::new(
                    with_leaves(l, all, sys[k as int], leaf, g as int).rows.len(),
                    |i: int| n0 + i,
                ),
                forall|i: int|
                    #[trigger] with_leaves(l, all, sys[k as int], leaf, g as int).at.contains_key(i)
                        ==> 0 <= i < groups@.len() && handles@[i] == n0 + with_leaves(
                        l,
                        all,
                        sys[k as int],
                        leaf,
                        g as int,
                    ).at[i],
            decreases groups@.len() - g,
        {
            let ghost m = with_leaves(l, all, sys[k as int], leaf, g as int);
            assert(all[g as int] == (groups@[g as int].0@, groups@[g as int].1@));
            if text::same(groups[g].0.as_str(), systems[k].as_str()) {
                let id = add_leaf(tree, leaf, groups[g].1.as_str());
                let ghost was = handles@;
                handles[g] = id;
                proof {
                    let next = with_leaves(l, all, sys[k as int], leaf, g + 1);
                    assert(tree.nodes() =~= nodes0 + next.rows);
                    assert(tree.order() =~= order0 + Seq::new(next.rows.len(), |i: int| n0 + i));
                    assert forall|i: int| #[trigger] next.at.contains_key(i) implies 0 <= i
                        < groups@.len() && handles@[i] == n0 + next.at[i] by {
                        if i != g {
                            assert(m.at.contains_key(i));
                            assert(was[i] == n0 + m.at[i]);
                        }
                    }
                }
            }
            g = g + 1;
        }
        k = k + 1;
    }
    proof {
        assert forall|i: int| 0 <= i < groups@.len() implies #[trigger] handles@[i] == n0
            + phase_layout(phase@, all, leaf).at[i] && handles@[i] < tree.nodes().len() by {
            law_every_group_has_its_leaf(phase@, all, leaf, i);
        }
    }
    handles
}

// --- which evaluations a run needs -------------------------------------------

/// Pairs of a revision and a system, both sides of each system in turn.
pub open spec fn both_sides(base: Rev, head: Rev, systems: Seq<Seq<char>>) -> Seq<
    (Seq<char>, Seq<char>),
> {
    Seq::new(
        systems.len() * 2,
        |i: int|
            if i % 2 == 0 {
                (base.tree@, systems[i / 2])
            } else {
                (head.tree@, systems[i / 2])
            },
    )
}

/// What an evaluation is kept under: the tree and the system.
pub open spec fn keys_of_pairs(pairs: Seq<(Rev, String)>) -> Seq<(Seq<char>, Seq<char>)> {
    pairs.map_values(|p: (Rev, String)| (p.0.tree@, p.1@))
}

/// A copy of a revision.
pub fn copy_rev(r: &Rev) -> (c: Rev)
    ensures
        c.tree@ == r.tree@,
        c.commit@ == r.commit@,
        c.label@ == r.label@,
        c.display@ == r.display@,
{
    Rev {
        tree: r.tree.clone(),
        commit: r.commit.clone(),
        label: r.label.clone(),
        display: r.display.clone(),
    }
}

/// Whether a revision is a copy of another.
pub open spec fn same_rev(a: Rev, b: Rev) -> bool {
    a.tree@ == b.tree@ && a.commit@ == b.commit@ && a.label@ == b.label@ && a.display@ == b.display@
}

/// The evaluations of two revisions on all systems: system by system, base
/// before head, as the tree shows them.
pub fn eval_two(base: &Rev, head: &Rev, systems: &[String]) -> (r: Vec<(Rev, String)>)
    ensures
        keys_of_pairs(r@) == both_sides(*base, *head, text::texts(systems@)),
        forall|i: int|
            0 <= i < r@.len() ==> same_rev(
                (#[trigger] r@[i]).0,
                if i % 2 == 0 {
                    *base
                } else {
                    *head
                },
            ),
{
    let ghost want = both_sides(*base, *head, text::texts(systems@));
    let mut r: Vec<(Rev, String)> = Vec::new();
    let mut i: usize = 0;
    while i < systems.len()
        invariant
            i <= systems@.len(),
            want == both_sides(*base, *head, text::texts(systems@)),
            r@.len() == i * 2,
            keys_of_pairs(r@) == want.take(i * 2),
            forall|k: int|
                0 <= k < r@.len() ==> same_rev(
                    (#[trigger] r@[k]).0,
                    if k % 2 == 0 {
                        *base
                    } else {
                        *head
                    },
                ),
        decreases systems@.len() - i,
    {
        let ghost was = keys_of_pairs(r@);
        let b = (copy_rev(base), systems[i].clone());
        let h = (copy_rev(head), systems[i].clone());
        r.push(b);
        r.push(h);
        proof {
            assert(keys_of_pairs(r@) =~= was.push((base.tree@, systems@[i as int]@)).push(
                (head.tree@, systems@[i as int]@),
            ));
            assert(want[i * 2] == (base.tree@, systems@[i as int]@));
            assert(want[i * 2 + 1] == (head.tree@, systems@[i as int]@));
            assert(want.take((i + 1) * 2) =~= want.take(i * 2).push(want[i * 2]).push(
                want[i * 2 + 1],
            ));
        }
        i = i + 1;
    }
    assert(want.take(i * 2) =~= want);
    r
}

/// Whether the pair `i` is to be evaluated: it has no file, and no earlier pair
/// without a file has its key.
pub open spec fn to_evaluate(
    keys: Seq<(Seq<char>, Seq<char>)>,
    cached: Seq<bool>,
    i: int,
) -> bool {
    !cached[i] && forall|j: int| 0 <= j < i && !cached[j] ==> #[trigger] keys[j] != keys[i]
}

/// The pairs to be evaluated among the first `n`.
pub open spec fn todo_of(keys: Seq<(Seq<char>, Seq<char>)>, cached: Seq<bool>, n: int) -> Seq<int>
    decreases n,
{
    if n <= 0 {
        Seq::empty()
    } else if to_evaluate(keys, cached, n - 1) {
        todo_of(keys, cached, n - 1).push(n - 1)
    } else {
        todo_of(keys, cached, n - 1)
    }
}

/// The systems of the cached pairs among the first `n`.
pub open spec fn cached_systems(
    keys: Seq<(Seq<char>, Seq<char>)>,
    cached: Seq<bool>,
    n: int,
) -> Seq<Seq<char>>
    decreases n,
{
    if n <= 0 {
        Seq::empty()
    } else if cached[n - 1] {
        cached_systems(keys, cached, n - 1).push(keys[n - 1].1)
    } else {
        cached_systems(keys, cached, n - 1)
    }
}

/// No key is evaluated twice, and every key without a file is evaluated.
pub proof fn law_each_missing_key_is_evaluated_once(
    keys: Seq<(Seq<char>, Seq<char>)>,
    cached: Seq<bool>,
    i: int,
)
    requires
        keys.len() == cached.len(),
        0 <= i < keys.len(),
        !cached[i],
    ensures
        exists|j: int| 0 <= j <= i && #[trigger] to_evaluate(keys, cached, j) && keys[j] == keys[i],
        forall|j: int, k: int|
            0 <= j < k < keys.len() && #[trigger] to_evaluate(keys, cached, j)
                && #[trigger] to_evaluate(keys, cached, k) ==> keys[j] != keys[k],
    decreases i,
{
    if to_evaluate(keys, cached, i) {
    } else {
        let j = choose|j: int| 0 <= j < i && !cached[j] && #[trigger] keys[j] == keys[i];
        law_each_missing_key_is_evaluated_once(keys, cached, j);
    }
}

/// A plan for the evaluations a run needs.
pub struct EvalPlan {
    /// The pairs to be evaluated, by position.
    pub todo: Vec<usize>,
    /// The systems of the pairs that have a file already, once for each.
    pub cached: Vec<String>,
    /// The name of each evaluation in messages.
    pub labels: Vec<String>,
    /// The leaf of each in the first phase, which finds the names.
    pub enum_nodes: Vec<usize>,
    /// The leaf of each in the second phase, which evaluates them.
    pub eval_nodes: Vec<usize>,
}

/// The positions in a list as integers.
pub open spec fn ints(v: Seq<usize>) -> Seq<int> {
    v.map_values(|i: usize| i as int)
}

/// The name of an evaluation in messages.
pub open spec fn pair_label(rev: Rev, system: Seq<char>) -> Seq<char> {
    rev.display@ + " "@ + system
}

/// The places of the evaluations in the tree.
pub open spec fn todo_places(pairs: Seq<(Rev, String)>, todo: Seq<usize>) -> Seq<Place> {
    Seq::new(
        todo.len(),
        |i: int| (pairs[todo[i] as int].1@, pairs[todo[i] as int].0.display@),
    )
}

fn label_of(rev: &Rev, system: &str) -> (r: String)
    ensures
        r@ == pair_label(*rev, system@),
{
    let mut r = rev.display.clone();
    r.append(" ");
    r.append(system);
    r
}

fn seen_before(pairs: &[(Rev, String)], todo: &[usize], i: usize) -> (r: bool)
    requires
        i < pairs@.len(),
        forall|k: int| 0 <= k < todo@.len() ==> #[trigger] todo@[k] < pairs@.len(),
    ensures
        r == exists|k: int|
            0 <= k < todo@.len() && keys_of_pairs(pairs@)[#[trigger] todo@[k] as int] == keys_of_pairs(
                pairs@,
            )[i as int],
{
    let mut k: usize = 0;
    let ghost keys = keys_of_pairs(pairs@);
    while k < todo.len()
        invariant
            k <= todo@.len(),
            i < pairs@.len(),
            keys == keys_of_pairs(pairs@),
            forall|k: int| 0 <= k < todo@.len() ==> #[trigger] todo@[k] < pairs@.len(),
            forall|m: int| 0 <= m < k ==> keys[#[trigger] todo@[m] as int] != keys[i as int],
        decreases todo@.len() - k,
    {
        let j = todo[k];
        assert(keys[j as int] == (pairs@[j as int].0.tree@, pairs@[j as int].1@));
        assert(keys[i as int] == (pairs@[i as int].0.tree@, pairs@[i as int].1@));
        if text::same(pairs[j].0.tree.as_str(), pairs[i].0.tree.as_str()) && text::same(
            pairs[j].1.as_str(),
            pairs[i].1.as_str(),
        ) {
            return true;
        }
        k = k + 1;
    }
    false
}

proof fn lemma_todo_sound(keys: Seq<(Seq<char>, Seq<char>)>, cached: Seq<bool>, n: int)
    requires
        0 <= n <= keys.len(),
        keys.len() == cached.len(),
    ensures
        forall|k: int|
            0 <= k < todo_of(keys, cached, n).len() ==> 0 <= #[trigger] todo_of(keys, cached, n)[k] < n
                && !cached[todo_of(keys, cached, n)[k]],
        forall|i: int|
            0 <= i < n && !cached[i] ==> exists|k: int|
                0 <= k < todo_of(keys, cached, n).len() && #[trigger] keys[todo_of(keys, cached, n)[k]]
                    == keys[i],
    decreases n,
{
    if n > 0 {
        lemma_todo_sound(keys, cached, n - 1);
        let before = todo_of(keys, cached, n - 1);
        let now = todo_of(keys, cached, n);
        assert forall|k: int| 0 <= k < now.len() implies 0 <= #[trigger] now[k] < n
            && !cached[now[k]] by {
            if k < before.len() {
                assert(now[k] == before[k]);
            }
        }
        assert forall|i: int| 0 <= i < n && !cached[i] implies exists|k: int|
            0 <= k < now.len() && #[trigger] keys[now[k]] == keys[i] by {
            if i < n - 1 {
                let k = choose|k: int|
                    0 <= k < before.len() && #[trigger] keys[before[k]] == keys[i];
                assert(now[k] == before[k]);
                assert(keys[now[k]] == keys[i]);
            } else if to_evaluate(keys, cached, n - 1) {
                assert(now[before.len() as int] == n - 1);
                assert(keys[now[before.len() as int]] == keys[i]);
            } else {
                let j = choose|j: int| 0 <= j < n - 1 && !cached[j] && #[trigger] keys[j] == keys[i];
                let k = choose|k: int|
                    0 <= k < before.len() && #[trigger] keys[before[k]] == keys[j];
                assert(now[k] == before[k]);
                assert(keys[now[k]] == keys[i]);
            }
        }
    }
}

/// Plans the evaluations of `pairs`, of which those in `cached` have a file:
/// each of the others once for its tree and system. Where there is any, both
/// phases are put into the tree; where there is none, nothing is.
pub fn eval_pairs(tree: &mut Tree, pairs: &[(Rev, String)], cached: &[bool]) -> (r: Option<EvalPlan>)
    requires
        old(tree).wf(),
        cached@.len() == pairs@.len(),
    ensures
        ({
            let keys = keys_of_pairs(pairs@);
            let todo = todo_of(keys, cached@, keys.len() as int);
            match r {
                Some(p) => {
                    let at = todo_places(pairs@, p.todo@);
                    let first = phase_layout("enumerate"@, at, Leaf::Plain);
                    let second = phase_layout("evaluate"@, at, Leaf::Percent);
                    let n = old(tree).nodes().len();
                    &&& todo.len() > 0 && ints(p.todo@) == todo
                    &&& text::texts(p.cached@) == cached_systems(
                        keys,
                        cached@,
                        keys.len() as int,
                    )
                    &&& text::texts(p.labels@) == Seq::new(
                        p.todo@.len(),
                        |i: int|
                            pair_label(
                                pairs@[p.todo@[i] as int].0,
                                pairs@[p.todo@[i] as int].1@,
                            ),
                    )
                    &&& appended(*old(tree), *final(tree), first.rows + second.rows)
                    &&& p.enum_nodes@.len() == p.todo@.len()
                    &&& p.eval_nodes@.len() == p.todo@.len()
                    &&& forall|i: int|
                        0 <= i < p.todo@.len() ==> #[trigger] p.enum_nodes@[i] == n + first.at[i]
                    &&& forall|i: int|
                        0 <= i < p.todo@.len() ==> #[trigger] p.eval_nodes@[i] == n
                            + first.rows.len() + second.at[i]
                    &&& p.fits(*final(tree))
                },
                None => todo.len() == 0 && *final(tree) == *old(tree),
            }
        }),
{
    let ghost keys = keys_of_pairs(pairs@);
    let mut todo: Vec<usize> = Vec::new();
    let mut hits: Vec<String> = Vec::new();
    let mut i: usize = 0;
    assert(ints(todo@) =~= Seq::<int>::empty());
    assert(text::texts(hits@) =~= Seq::<Seq<char>>::empty());
    while i < pairs.len()
        invariant
            i <= pairs@.len(),
            cached@.len() == pairs@.len(),
            keys == keys_of_pairs(pairs@),
            ints(todo@) == todo_of(keys, cached@, i as int),
            text::texts(hits@) == cached_systems(keys, cached@, i as int),
            forall|k: int| 0 <= k < todo@.len() ==> #[trigger] todo@[k] < pairs@.len(),
        decreases pairs@.len() - i,
    {
        assert(keys[i as int] == (pairs@[i as int].0.tree@, pairs@[i as int].1@));
        if cached[i] {
            let s = pairs[i].1.clone();
            proof {
                text::lemma_texts_push(hits@, s);
            }
            hits.push(s);
        } else {
            let seen = seen_before(pairs, todo.as_slice(), i);
            proof {
                lemma_todo_sound(keys, cached@, i as int);
                let before = todo_of(keys, cached@, i as int);
                if seen {
                    let k = choose|k: int|
                        0 <= k < todo@.len() && keys[#[trigger] todo@[k] as int] == keys[i as int];
                    assert(before[k] == todo@[k] as int);
                    assert(keys[before[k]] == keys[i as int]);
                    assert(!to_evaluate(keys, cached@, i as int));
                } else if !to_evaluate(keys, cached@, i as int) {
                    let j = choose|j: int|
                        0 <= j < i && !cached@[j] && #[trigger] keys[j] == keys[i as int];
                    let k = choose|k: int|
                        0 <= k < before.len() && #[trigger] keys[before[k]] == keys[j];
                    assert(before[k] == todo@[k] as int);
                    assert(keys[todo@[k] as int] == keys[i as int]);
                }
            }
            if !seen {
                let ghost was = ints(todo@);
                todo.push(i);
                assert(ints(todo@) =~= was.push(i as int));
            }
        }
        i = i + 1;
    }
    if todo.len() == 0 {
        return None;
    }
    let mut labels: Vec<String> = Vec::new();
    let mut groups: Vec<(String, String)> = Vec::new();
    let mut k: usize = 0;
    while k < todo.len()
        invariant
            k <= todo@.len(),
            forall|k: int| 0 <= k < todo@.len() ==> #[trigger] todo@[k] < pairs@.len(),
            labels@.len() == k,
            groups@.len() == k,
            forall|m: int|
                0 <= m < k ==> (#[trigger] labels@[m])@ == pair_label(
                    pairs@[todo@[m] as int].0,
                    pairs@[todo@[m] as int].1@,
                ),
            forall|m: int|
                0 <= m < k ==> (#[trigger] groups@[m]).0@ == pairs@[todo@[m] as int].1@
                    && groups@[m].1@ == pairs@[todo@[m] as int].0.display@,
        decreases todo@.len() - k,
    {
        let p = &pairs[todo[k]];
        labels.push(label_of(&p.0, p.1.as_str()));
        groups.push((p.1.clone(), p.0.display.clone()));
        k = k + 1;
    }
    proof {
        assert(text::texts(labels@) =~= Seq::new(
            todo@.len(),
            |i: int| pair_label(pairs@[todo@[i] as int].0, pairs@[todo@[i] as int].1@),
        ));
        assert(places(groups@) =~= todo_places(pairs@, todo@));
    }
    let ghost t0 = *tree;
    let enum_nodes = add_phase(tree, "enumerate", groups.as_slice(), Leaf::Plain);
    let ghost t1 = *tree;
    let eval_nodes = add_phase(tree, "evaluate", groups.as_slice(), Leaf::Percent);
    proof {
        let first = phase_layout("enumerate"@, places(groups@), Leaf::Plain);
        let second = phase_layout("evaluate"@, places(groups@), Leaf::Percent);
        assert(tree.nodes() =~= t0.nodes() + (first.rows + second.rows));
        assert(tree.order() =~= t0.order() + Seq::new(
            (first.rows + second.rows).len(),
            |i: int| t0.nodes().len() + i,
        ));
    }
    Some(EvalPlan { todo, cached: hits, labels, enum_nodes, eval_nodes })
}

/// One empty item for each of `n` groups.
pub open spec fn placeholders(n: nat) -> Seq<Seq<Seq<char>>> {
    Seq::new(n, |i: int| seq![Seq::<char>::empty()])
}

/// Which of the first `n` groups have no items.
pub open spec fn nameless(names: Seq<Seq<Seq<char>>>, n: int) -> Seq<int>
    decreases n,
{
    if n <= 0 {
        Seq::empty()
    } else if names[n - 1].len() == 0 {
        nameless(names, n - 1).push(n - 1)
    } else {
        nameless(names, n - 1)
    }
}

proof fn lemma_nameless(names: Seq<Seq<Seq<char>>>, n: int, g: int)
    requires
        0 <= n <= names.len(),
    ensures
        nameless(names, n).contains(g) <==> 0 <= g < n && names[g].len() == 0,
    decreases n,
{
    if n > 0 {
        lemma_nameless(names, n - 1, g);
        let before = nameless(names, n - 1);
        let all = nameless(names, n);
        if before.contains(g) {
            let j = choose|j: int| 0 <= j < before.len() && before[j] == g;
            assert(all[j] == g);
        }
        if g == n - 1 && names[g].len() == 0 {
            assert(all[before.len() as int] == g);
        }
        if all.contains(g) && g != n - 1 {
            let j = choose|j: int| 0 <= j < all.len() && all[j] == g;
            assert(before[j] == g);
        }
    }
}

/// Every evaluation of a plan comes to its file: once the run of the second phase
/// has finished, each one was either handed out exactly once, with all rows that
/// its shards landed, or is one of those without names, which have no rows.
pub proof fn law_every_evaluation_comes_to_its_file(
    labels: Seq<Seq<char>>,
    nodes: Seq<usize>,
    names: Seq<Seq<Seq<char>>>,
    slots: nat,
    steps: Seq<runs::Step<AttrEval>>,
    g: int,
)
    requires
        runs::fits(labels, names, NAMES_PER_SHARD as nat, slots),
        ({
            let d = shards::begun::<AttrEval>(
                "evaluate"@,
                labels,
                nodes,
                names,
                NAMES_PER_SHARD as nat,
                slots,
            );
            runs::sound(d, steps) && runs::traced(d, steps).run.finished()
        }),
        0 <= g < names.len(),
    ensures
        ({
            let t = runs::traced(
                shards::begun::<AttrEval>(
                    "evaluate"@,
                    labels,
                    nodes,
                    names,
                    NAMES_PER_SHARD as nat,
                    slots,
                ),
                steps,
            );
            if nameless(names, names.len() as int).contains(g) {
                names[g].len() == 0 && runs::times(t.handed, g) == 0
            } else {
                runs::times(t.handed, g) == 1 && runs::rows_of(t.handed, g) == runs::rows_of(
                    t.landed,
                    g,
                )
            }
        }),
{
    lemma_nameless(names, names.len() as int, g);
    runs::law_finished_runs_hand_out_every_group_once::<AttrEval>(
        "evaluate"@,
        labels,
        nodes,
        names,
        NAMES_PER_SHARD as nat,
        slots,
        steps,
        g,
    );
}

impl EvalPlan {
    /// Whether the plan's nodes are in the tree, one in each phase for every
    /// evaluation.
    pub open spec fn fits(self, tree: Tree) -> bool {
        &&& self.enum_nodes@.len() == self.todo@.len()
        &&& self.eval_nodes@.len() == self.todo@.len()
        &&& self.labels@.len() == self.todo@.len()
        &&& forall|i: int|
            0 <= i < self.enum_nodes@.len() ==> #[trigger] self.enum_nodes@[i] < tree.nodes().len()
        &&& forall|i: int|
            0 <= i < self.eval_nodes@.len() ==> #[trigger] self.eval_nodes@[i] < tree.nodes().len()
    }

    /// The run of the first phase: one shard for each evaluation.
    pub fn enumerate(&self, tree: &mut Tree, slots: usize) -> (r: Scheduler<String>)
        requires
            old(tree).wf(),
            self.fits(*old(tree)),
        ensures
            r@ == shards::begun::<String>(
                "enumerate"@,
                text::texts(self.labels@),
                self.enum_nodes@,
                placeholders(self.todo@.len()),
                1,
                slots as nat,
            ),
            final(tree).nodes() == shards::primed(
                old(tree).nodes(),
                self.enum_nodes@,
                placeholders(self.todo@.len()),
                1,
                false,
                self.todo@.len() as int,
            ),
            final(tree).order() == old(tree).order(),
            final(tree).set_as(*old(tree)),
            r@.wf(),
            r@.fits(*final(tree)),
    {
        let mut items: Vec<Vec<String>> = Vec::new();
        let n = self.todo.len();
        let mut i: usize = 0;
        while i < n
            invariant
                i <= n,
                items@.len() == i,
                forall|k: int|
                    0 <= k < i ==> text::texts((#[trigger] items@[k])@) == seq![
                        Seq::<char>::empty(),
                    ],
            decreases n - i,
        {
            let mut one: Vec<String> = Vec::new();
            one.push(String::new());
            assert(text::texts(one@) =~= seq![Seq::<char>::empty()]);
            items.push(one);
            i = i + 1;
        }
        assert(shards::texts_of_all(items@) =~= placeholders(n as nat));
        Scheduler::new(
            tree,
            "enumerate",
            self.enum_nodes.as_slice(),
            text::copy_all(self.labels.as_slice()),
            items.as_slice(),
            1,
            slots,
            false,
        )
    }

    /// The evaluations for which no name was found. The second phase has no shard
    /// for them: they are complete at once, without rows.
    pub fn without_names(&self, names: &[Vec<String>]) -> (r: Vec<usize>)
        requires
            names@.len() == self.todo@.len(),
        ensures
            ints(r@) == nameless(shards::texts_of_all(names@), names@.len() as int),
    {
        let ghost all = shards::texts_of_all(names@);
        let mut r: Vec<usize> = Vec::new();
        let mut g: usize = 0;
        assert(ints(r@) =~= nameless(all, 0));
        while g < names.len()
            invariant
                g <= names@.len(),
                all == shards::texts_of_all(names@),
                ints(r@) == nameless(all, g as int),
            decreases names@.len() - g,
        {
            let ghost was = ints(r@);
            assert(all[g as int].len() == names@[g as int]@.len());
            if names[g].len() == 0 {
                r.push(g);
                assert(ints(r@) =~= was.push(g as int));
            }
            g = g + 1;
        }
        r
    }

    /// The run of the second phase, given the names that the first one found. An
    /// evaluation without names has no shard in it, see
    /// [`EvalPlan::without_names`].
    pub fn evaluate(&self, tree: &mut Tree, names: &[Vec<String>], slots: usize) -> (r: Scheduler<
        AttrEval,
    >)
        requires
            old(tree).wf(),
            self.fits(*old(tree)),
            names@.len() == self.todo@.len(),
        ensures
            r@ == shards::begun::<AttrEval>(
                "evaluate"@,
                text::texts(self.labels@),
                self.eval_nodes@,
                shards::texts_of_all(names@),
                NAMES_PER_SHARD as nat,
                slots as nat,
            ),
            final(tree).nodes() == shards::primed(
                old(tree).nodes(),
                self.eval_nodes@,
                shards::texts_of_all(names@),
                NAMES_PER_SHARD as nat,
                false,
                self.todo@.len() as int,
            ),
            final(tree).order() == old(tree).order(),
            final(tree).set_as(*old(tree)),
            r@.wf(),
            r@.fits(*final(tree)),
    {
        Scheduler::new(
            tree,
            "evaluate",
            self.eval_nodes.as_slice(),
            text::copy_all(self.labels.as_slice()),
            names,
            NAMES_PER_SHARD,
            slots,
            false,
        )
    }
}

// --- the targeted evaluations ------------------------------------------------

/// The largest number of items in a group, and one at least.
pub open spec fn widest(items: Seq<Seq<Seq<char>>>) -> nat
    decreases items.len(),
{
    if items.len() == 0 {
        1
    } else {
        let w = widest(items.drop_last());
        if items.last().len() > w {
            items.last().len()
        } else {
            w
        }
    }
}

fn widest_group(items: &[Vec<String>]) -> (w: usize)
    ensures
        w == widest(shards::texts_of_all(items@)),
        w > 0,
{
    let ghost all = shards::texts_of_all(items@);
    let mut w: usize = 1;
    let mut i: usize = 0;
    while i < items.len()
        invariant
            i <= items@.len(),
            all == shards::texts_of_all(items@),
            w == widest(all.take(i as int)),
            w > 0,
        decreases items@.len() - i,
    {
        proof {
            assert(all.take(i + 1).drop_last() =~= all.take(i as int));
            assert(all.take(i + 1).last() == text::texts(items@[i as int]@));
        }
        if items[i].len() > w {
            w = items[i].len();
        }
        i = i + 1;
    }
    assert(all.take(i as int) =~= all);
    w
}

/// No group is wider than the widest, so that shards of that size keep every
/// group whole.
pub proof fn law_widest_shards_split_no_group(items: Seq<Seq<Seq<char>>>, g: int)
    requires
        0 <= g < items.len(),
        items[g].len() > 0,
    ensures
        shards::chunked(items[g], widest(items)) == seq![items[g]],
    decreases items.len(),
{
    lemma_widest(items, g);
    shards::law_small_groups_stay_whole(items[g], widest(items));
}

proof fn lemma_widest(items: Seq<Seq<Seq<char>>>, g: int)
    requires
        0 <= g < items.len(),
    ensures
        items[g].len() <= widest(items),
    decreases items.len(),
{
    if g < items.len() - 1 {
        lemma_widest(items.drop_last(), g);
    }
}

/// The packages of test requests.
pub open spec fn request_items(requests: Seq<(Rev, String, Vec<String>)>) -> Seq<Seq<Seq<char>>> {
    requests.map_values(|r: (Rev, String, Vec<String>)| text::texts(r.2@))
}

/// The run that evaluates the tests of the requested packages, one shard for
/// each request; `nodes` are the leaves of the requests.
pub fn eval_tests(
    tree: &mut Tree,
    requests: &[(Rev, String, Vec<String>)],
    nodes: &[usize],
    slots: usize,
) -> (r: Option<Scheduler<TestJob>>)
    requires
        old(tree).wf(),
        nodes@.len() == requests@.len(),
        forall|g: int| 0 <= g < nodes@.len() ==> #[trigger] nodes@[g] < old(tree).nodes().len(),
    ensures
        match r {
            Some(s) => {
                let items = request_items(requests@);
                &&& requests@.len() > 0
                &&& s@ == shards::begun::<TestJob>(
                    "tests"@,
                    Seq::new(
                        requests@.len(),
                        |i: int| pair_label(requests@[i].0, requests@[i].1@),
                    ),
                    nodes@,
                    items,
                    widest(items),
                    slots as nat,
                )
                &&& final(tree).nodes() == shards::primed(
                    old(tree).nodes(),
                    nodes@,
                    items,
                    widest(items),
                    false,
                    items.len() as int,
                )
                &&& final(tree).order() == old(tree).order()
                &&& final(tree).set_as(*old(tree))
                &&& s@.wf()
                &&& s@.fits(*final(tree))
            },
            None => requests@.len() == 0 && *final(tree) == *old(tree),
        },
{
    if requests.len() == 0 {
        return None;
    }
    let mut labels: Vec<String> = Vec::new();
    let mut items: Vec<Vec<String>> = Vec::new();
    let mut i: usize = 0;
    while i < requests.len()
        invariant
            i <= requests@.len(),
            labels@.len() == i,
            items@.len() == i,
            forall|k: int|
                0 <= k < i ==> (#[trigger] labels@[k])@ == pair_label(
                    requests@[k].0,
                    requests@[k].1@,
                ),
            forall|k: int|
                0 <= k < i ==> text::texts((#[trigger] items@[k])@) == text::texts(requests@[k].2@),
        decreases requests@.len() - i,
    {
        labels.push(label_of(&requests[i].0, requests[i].1.as_str()));
        items.push(text::copy_all(requests[i].2.as_slice()));
        i = i + 1;
    }
    proof {
        assert(text::texts(labels@) =~= Seq::new(
            requests@.len(),
            |i: int| pair_label(requests@[i].0, requests@[i].1@),
        ));
        assert(shards::texts_of_all(items@) =~= request_items(requests@));
    }
    let size = widest_group(items.as_slice());
    Some(Scheduler::new(tree, "tests", nodes, labels, items.as_slice(), size, slots, false))
}

/// One side to instantiate: attr paths, each with the derivation it evaluates
/// to.
pub struct InstRequest {
    pub rev: Rev,
    pub system: String,
    pub attrs: Vec<(String, String)>,
}

/// The attr paths of a request.
pub open spec fn attr_paths(r: InstRequest) -> Seq<Seq<char>> {
    r.attrs@.map_values(|a: (String, String)| a.0@)
}

/// Requests with something to do, and their leaves.
pub struct Instantiate {
    requests: Vec<InstRequest>,
    nodes: Vec<usize>,
}

impl Instantiate {
    /// The requests.
    pub closed spec fn requests(self) -> Seq<InstRequest> {
        self.requests@
    }

    /// The leaf of each request.
    pub closed spec fn nodes(self) -> Seq<usize> {
        self.nodes@
    }

    /// Whether every request has its leaf in the tree.
    pub open spec fn fits(self, tree: Tree) -> bool {
        &&& self.nodes().len() == self.requests().len()
        &&& forall|i: int|
            0 <= i < self.nodes().len() ==> #[trigger] self.nodes()[i] < tree.nodes().len()
    }

    /// One of the requests.
    pub fn request(&self, g: usize) -> (r: &InstRequest)
        requires
            g < self.requests().len(),
        ensures
            *r == self.requests()[g as int],
    {
        &self.requests[g]
    }
}

/// The requests with something to do.
pub open spec fn busy_requests(requests: Seq<InstRequest>) -> Seq<InstRequest> {
    requests.filter(|r: InstRequest| r.attrs@.len() > 0)
}

/// The places of requests in the tree.
pub open spec fn request_places(requests: Seq<InstRequest>) -> Seq<Place> {
    requests.map_values(|r: InstRequest| (r.system@, r.rev.display@))
}

/// Puts the phase that instantiates into the tree, for the requests with
/// something to do; where none has, nothing is put there.
pub fn instantiate_prepare(tree: &mut Tree, requests: Vec<InstRequest>) -> (r: Option<Instantiate>)
    requires
        old(tree).wf(),
    ensures
        match r {
            Some(inst) => {
                let m = phase_layout(
                    "instantiate"@,
                    request_places(inst.requests()),
                    Leaf::Count,
                );
                &&& inst.requests() == busy_requests(requests@)
                &&& inst.requests().len() > 0
                &&& appended(*old(tree), *final(tree), m.rows)
                &&& forall|i: int|
                    0 <= i < inst.nodes().len() ==> #[trigger] inst.nodes()[i]
                        == old(tree).nodes().len() + m.at[i]
                &&& inst.fits(*final(tree))
            },
            None => busy_requests(requests@).len() == 0 && *final(tree) == *old(tree),
        },
{
    let ghost all = requests@;
    let mut rest = requests;
    let mut kept: Vec<InstRequest> = Vec::new();
    let n = rest.len();
    let mut i: usize = 0;
    assert(all.take(0).filter(|r: InstRequest| r.attrs@.len() > 0) =~= Seq::<InstRequest>::empty())
        by {
        reveal(Seq::filter);
    }
    assert(all.skip(0) =~= all);
    while i < n
        invariant
            i <= n,
            n == all.len(),
            rest@ == all.skip(i as int),
            kept@ == busy_requests(all.take(i as int)),
        decreases n - i,
    {
        let r = rest.remove(0);
        proof {
            assert(all.take(i + 1).drop_last() =~= all.take(i as int));
            assert(all.take(i + 1).last() == all[i as int]);
            assert(rest@ =~= all.skip(i + 1));
            reveal(Seq::filter);
        }
        if r.attrs.len() > 0 {
            kept.push(r);
        }
        i = i + 1;
    }
    assert(all.take(i as int) =~= all);
    if kept.len() == 0 {
        return None;
    }
    let mut groups: Vec<(String, String)> = Vec::new();
    let mut k: usize = 0;
    while k < kept.len()
        invariant
            k <= kept@.len(),
            groups@.len() == k,
            forall|m: int|
                0 <= m < k ==> (#[trigger] groups@[m]).0@ == kept@[m].system@ && groups@[m].1@
                    == kept@[m].rev.display@,
        decreases kept@.len() - k,
    {
        groups.push((kept[k].system.clone(), kept[k].rev.display.clone()));
        k = k + 1;
    }
    assert(places(groups@) =~= request_places(kept@));
    let nodes = add_phase(tree, "instantiate", groups.as_slice(), Leaf::Count);
    Some(Instantiate { requests: kept, nodes })
}

/// The run that instantiates: one shard for each request, its number of paths
/// the total of its leaf.
pub fn instantiate_execute(tree: &mut Tree, inst: &Instantiate, slots: usize) -> (r: Scheduler<()>)
    requires
        old(tree).wf(),
        inst.fits(*old(tree)),
    ensures
        ({
            let items = inst.requests().map_values(|r: InstRequest| attr_paths(r));
            &&& r@ == shards::begun::<()>(
                "instantiate"@,
                inst.requests().map_values(
                    |r: InstRequest| pair_label(r.rev, r.system@),
                ),
                inst.nodes(),
                items,
                widest(items),
                slots as nat,
            )
            &&& final(tree).nodes() == shards::primed(
                old(tree).nodes(),
                inst.nodes(),
                items,
                widest(items),
                true,
                items.len() as int,
            )
        }),
        final(tree).order() == old(tree).order(),
        final(tree).set_as(*old(tree)),
        r@.wf(),
        r@.fits(*final(tree)),
{
    let ghost all = inst.requests();
    let mut labels: Vec<String> = Vec::new();
    let mut items: Vec<Vec<String>> = Vec::new();
    let mut i: usize = 0;
    while i < inst.requests.len()
        invariant
            i <= all.len(),
            all == inst.requests(),
            labels@.len() == i,
            items@.len() == i,
            forall|k: int|
                0 <= k < i ==> (#[trigger] labels@[k])@ == pair_label(all[k].rev, all[k].system@),
            forall|k: int| 0 <= k < i ==> text::texts((#[trigger] items@[k])@) == attr_paths(all[k]),
        decreases all.len() - i,
    {
        let r = &inst.requests[i];
        labels.push(label_of(&r.rev, r.system.as_str()));
        let mut paths: Vec<String> = Vec::new();
        let mut k: usize = 0;
        while k < r.attrs.len()
            invariant
                k <= r.attrs@.len(),
                text::texts(paths@) == attr_paths(*r).take(k as int),
            decreases r.attrs@.len() - k,
        {
            let a = r.attrs[k].0.clone();
            proof {
                text::lemma_texts_push(paths@, a);
                assert(attr_paths(*r).take(k + 1) =~= attr_paths(*r).take(k as int).push(
                    attr_paths(*r)[k as int],
                ));
            }
            paths.push(a);
            k = k + 1;
        }
        assert(attr_paths(*r).take(k as int) =~= attr_paths(*r));
        items.push(paths);
        i = i + 1;
    }
    proof {
        assert(text::texts(labels@) =~= all.map_values(
            |r: InstRequest| pair_label(r.rev, r.system@),
        ));
        assert(shards::texts_of_all(items@) =~= all.map_values(|r: InstRequest| attr_paths(r)));
    }
    let size = widest_group(items.as_slice());
    Scheduler::new(
        tree,
        "instantiate",
        inst.nodes.as_slice(),
        labels,
        items.as_slice(),
        size,
        slots,
        true,
    )
}

/// The derivation of a path in a request; where the path occurs more than once,
/// the last occurrence counts.
pub open spec fn request_drv(attrs: Seq<(String, String)>, path: Seq<char>) -> Option<Seq<char>>
    decreases attrs.len(),
{
    if attrs.len() == 0 {
        None
    } else if attrs.last().0@ == path {
        Some(attrs.last().1@)
    } else {
        request_drv(attrs.drop_last(), path)
    }
}

fn find_drv<'a>(r: &'a InstRequest, path: &str) -> (d: Option<&'a String>)
    ensures
        match d {
            Some(s) => request_drv(r.attrs@, path@) == Some(s@),
            None => request_drv(r.attrs@, path@) is None,
        },
{
    let ghost all = r.attrs@;
    let mut i: usize = r.attrs.len();
    assert(all.take(i as int) =~= all);
    while i > 0
        invariant
            i <= r.attrs@.len(),
            all == r.attrs@,
            request_drv(all.take(i as int), path@) == request_drv(all, path@),
        decreases i,
    {
        proof {
            assert(all.take(i as int).drop_last() =~= all.take(i - 1));
            assert(all.take(i as int).last() == all[i - 1]);
        }
        if text::same(r.attrs[i - 1].0.as_str(), path) {
            return Some(&r.attrs[i - 1].1);
        }
        i = i - 1;
    }
    None
}

/// The derivations of paths, for those that have one.
pub open spec fn wanted_of(attrs: Seq<(String, String)>, paths: Seq<Seq<char>>) -> Seq<Seq<char>>
    decreases paths.len(),
{
    if paths.len() == 0 {
        Seq::empty()
    } else {
        let before = wanted_of(attrs, paths.drop_last());
        match request_drv(attrs, paths.last()) {
            Some(d) => before.push(d),
            None => before,
        }
    }
}

/// Whether a path is still owed, given the derivations that the store lacks: a
/// path without a derivation always is.
pub open spec fn owed_path(
    attrs: Seq<(String, String)>,
    missing: Set<Seq<char>>,
    path: Seq<char>,
) -> bool {
    match request_drv(attrs, path) {
        Some(d) => missing.contains(d),
        None => true,
    }
}

impl Instantiate {
    /// The derivations to look for in the store, to learn what an aborted shard
    /// of the request `g` still owes.
    pub fn wanted(&self, g: usize, paths: &[String]) -> (r: Vec<String>)
        requires
            g < self.requests().len(),
        ensures
            text::texts(r@) == wanted_of(self.requests()[g as int].attrs@, text::texts(paths@)),
    {
        let req = &self.requests[g];
        let ghost all = text::texts(paths@);
        let mut r: Vec<String> = Vec::new();
        let mut i: usize = 0;
        assert(text::texts(r@) =~= Seq::<Seq<char>>::empty());
        while i < paths.len()
            invariant
                i <= paths@.len(),
                all == text::texts(paths@),
                text::texts(r@) == wanted_of(req.attrs@, all.take(i as int)),
            decreases paths@.len() - i,
        {
            proof {
                assert(all.take(i + 1).drop_last() =~= all.take(i as int));
                assert(all.take(i + 1).last() == paths@[i as int]@);
            }
            if let Some(d) = find_drv(req, paths[i].as_str()) {
                let d = d.clone();
                proof {
                    text::lemma_texts_push(r@, d);
                }
                r.push(d);
            }
            i = i + 1;
        }
        assert(all.take(i as int) =~= all);
        r
    }

    /// The paths that an aborted shard of the request `g` still owes, given the
    /// derivations that the store lacks.
    pub fn remaining(&self, g: usize, paths: &[String], missing: &StringSet) -> (r: Vec<String>)
        requires
            g < self.requests().len(),
            missing.wf(),
        ensures
            text::texts(r@) == text::texts(paths@).filter(
                |p: Seq<char>| owed_path(self.requests()[g as int].attrs@, missing@, p),
            ),
    {
        let req = &self.requests[g];
        let ghost all = text::texts(paths@);
        let ghost keep = |p: Seq<char>| owed_path(self.requests()[g as int].attrs@, missing@, p);
        let mut r: Vec<String> = Vec::new();
        let mut i: usize = 0;
        assert(text::texts(r@) =~= all.take(0).filter(keep)) by {
            reveal(Seq::filter);
        }
        while i < paths.len()
            invariant
                i <= paths@.len(),
                all == text::texts(paths@),
                missing.wf(),
                g < self.requests().len(),
                *req == self.requests()[g as int],
                keep == (|p: Seq<char>| owed_path(self.requests()[g as int].attrs@, missing@, p)),
                text::texts(r@) == all.take(i as int).filter(keep),
            decreases paths@.len() - i,
        {
            proof {
                assert(all.take(i + 1).drop_last() =~= all.take(i as int));
                assert(all.take(i + 1).last() == paths@[i as int]@);
                reveal(Seq::filter);
            }
            let owed = match find_drv(req, paths[i].as_str()) {
                Some(d) => missing.contains(d.as_str()),
                None => true,
            };
            if owed {
                let p = paths[i].clone();
                proof {
                    text::lemma_texts_push(r@, p);
                }
                r.push(p);
            }
            i = i + 1;
        }
        assert(all.take(i as int) =~= all);
        r
    }
}

// --- what evaluating promises ------------------------------------------------

/// All names of the package set are evaluated, in their order, but for the one that
/// only marks a set.
pub proof fn law_all_names_but_the_mark_are_walked(names: Seq<Seq<char>>, n: Seq<char>)
    ensures
        walked(names).contains(n) <==> names.contains(n) && n != "recurseForDerivations"@,
        n != "recurseForDerivations"@ ==> walked(names.push(n)) == walked(names).push(n),
        walked(names.push("recurseForDerivations"@)) == walked(names),
        walked(Seq::empty()) == Seq::<Seq<char>>::empty(),
{
    reveal(Seq::filter);
    let keep = |n: Seq<char>| n != "recurseForDerivations"@;
    assert(names.push(n).drop_last() =~= names);
    assert(names.push("recurseForDerivations"@).drop_last() =~= names);
    if names.contains(n) && keep(n) {
        let i = choose|i: int| 0 <= i < names.len() && names[i] == n;
        names.lemma_filter_contains(keep, i);
    }
    if walked(names).contains(n) {
        names.lemma_filter_contains_rev(keep, n);
        let k = choose|k: int| 0 <= k < walked(names).len() && walked(names)[k] == n;
        names.lemma_filter_pred(keep, k);
    }
}

/// A run of the evaluator is told how many workers to use, the heap of each, and the
/// expression; and not to write derivations, unless it is to instantiate.
pub proof fn law_evaluator_is_told_what_to_do(
    workers: nat,
    per_worker_mb: nat,
    instantiate: bool,
    expr_file: Seq<char>,
)
    ensures
        ({
            let a = evaluator_args(workers, per_worker_mb, instantiate, expr_file);
            &&& a.len() == (if instantiate {
                5int
            } else {
                6
            })
            &&& a[0] == "--workers"@ && text::number(a[1]) == Some(workers)
            &&& a[2] == "--max-memory-size"@ && text::number(a[3]) == Some(per_worker_mb)
            &&& !instantiate ==> a[4] == "--no-instantiate"@
            &&& a.last() == expr_file
        }),
{
    text::law_numbers_read_back(workers);
    text::law_numbers_read_back(per_worker_mb);
}

/// Of the diagnostics the last twenty lines are kept, all of them where there are
/// fewer.
pub proof fn law_the_last_twenty_lines_are_kept(before: Seq<Seq<char>>, last: Seq<Seq<char>>)
    ensures
        last.len() == 20 ==> tail_of(before + last) == last,
        last.len() <= 20 ==> tail_of(last) == last,
{
    if last.len() == 20 {
        if before.len() > 0 {
            assert((before + last).skip(before.len() as int) =~= last);
        } else {
            assert(before + last =~= last);
        }
    }
}

/// The cause of an abort is the last line of the diagnostics that is not blank,
/// without the white space around it, however many blank ones follow.
pub proof fn law_the_last_line_with_words_counts(lines: Seq<Seq<char>>, i: int)
    requires
        forall|k: int|
            i < k < lines.len() && 0 <= k ==> text::trimmed(#[trigger] lines[k]).len() == 0,
    ensures
        0 <= i < lines.len() && text::trimmed(lines[i]).len() > 0 ==> last_words(lines) == Some(
            text::trimmed(lines[i]),
        ),
        i < 0 ==> last_words(lines) is None,
    decreases lines.len(),
{
    if lines.len() > 0 && i < lines.len() - 1 {
        let l = lines.drop_last();
        assert(lines[lines.len() - 1] == lines.last());
        assert forall|k: int| i < k < l.len() && 0 <= k implies text::trimmed(
            #[trigger] l[k],
        ).len() == 0 by {
            assert(l[k] == lines[k]);
        }
        law_the_last_line_with_words_counts(l, i);
        if 0 <= i {
            assert(l[i] == lines[i]);
        }
    }
}

/// An abort is told by how the evaluator exited, and by its last words where it left
/// any.
pub proof fn law_causes_name_status_and_last_words(e: EvalAborted)
    ensures
        text::begins(e.cause(), e.status@),
        match last_words(text::lines_of(e.stderr_tail@)) {
            Some(l) => text::ends(e.cause(), l),
            None => e.cause() == e.status@,
        },
{
    let none = Seq::<char>::empty();
    match last_words(text::lines_of(e.stderr_tail@)) {
        Some(l) => {
            assert(e.cause() =~= e.status@ + (" — "@ + l));
            text::law_prefixes_and_suffixes(e.cause(), e.status@, " — "@ + l);
            text::law_prefixes_and_suffixes(e.cause(), l, e.status@ + " — "@);
        },
        None => {
            assert(e.cause() =~= e.status@ + none);
            text::law_prefixes_and_suffixes(e.cause(), e.status@, none);
        },
    }
}

/// As many slots run as there are cores, unless memory is short: then one more would
/// not fit.
pub proof fn law_slots_use_what_is_there(cores: nat, mem_mb: nat, per_slot_mb: nat)
    requires
        per_slot_mb > 0,
    ensures
        slots_for(cores, mem_mb, per_slot_mb) == cores || (slots_for(cores, mem_mb, per_slot_mb) + 1)
            * per_slot_mb > mem_mb,
        slots_for(cores, mem_mb, per_slot_mb) <= cores,
        slots_for(0, mem_mb, per_slot_mb) == 0,
{
    let fit = mem_mb / per_slot_mb;
    assert((fit + 1) * per_slot_mb > mem_mb) by (nonlinear_arith)
        requires
            fit == mem_mb / per_slot_mb,
            per_slot_mb > 0,
    ;
    let n = slots_for(cores, mem_mb, per_slot_mb);
    if n != cores {
        if fit < 1 {
            assert(n == 1);
            assert((1 + 1) * per_slot_mb >= (fit + 1) * per_slot_mb) by (nonlinear_arith)
                requires
                    fit < 1,
            ;
        }
    }
}

/// The first line with the prefix counts, and it counts for what follows the prefix.
pub proof fn law_the_first_line_with_the_prefix_counts(
    a: Seq<Seq<char>>,
    prefix: Seq<char>,
    x: Seq<char>,
    b: Seq<Seq<char>>,
)
    requires
        forall|i: int| 0 <= i < a.len() ==> !text::begins(#[trigger] a[i], prefix),
    ensures
        after_prefix(a + seq![prefix + x] + b, prefix) == Some(x),
        after_prefix(a, prefix) is None,
    decreases a.len(),
{
    let all = a + seq![prefix + x] + b;
    if a.len() == 0 {
        assert(all[0] == prefix + x);
        text::law_prefixes_and_suffixes(all[0], prefix, x);
        assert((prefix + x).skip(prefix.len() as int) =~= x);
    } else {
        assert(all[0] == a[0]);
        assert(all.skip(1) =~= a.skip(1) + seq![prefix + x] + b);
        assert forall|i: int| 0 <= i < a.skip(1).len() implies !text::begins(
            #[trigger] a.skip(1)[i],
            prefix,
        ) by {
            assert(a.skip(1)[i] == a[i + 1]);
        }
        law_the_first_line_with_the_prefix_counts(a.skip(1), prefix, x, b);
    }
}

/// A path is made of its components: whatever stands between separators comes back,
/// empty pieces and lone dots apart.
pub proof fn law_paths_are_made_of_components(comps: Seq<Seq<char>>)
    requires
        comps.len() > 0,
        forall|i: int|
            0 <= i < comps.len() ==> (#[trigger] comps[i]).len() > 0 && comps[i] != "."@
                && text::lacks(comps[i], '/'),
    ensures
        components(text::joined(comps, seq!['/'])) == comps,
        components(seq!['/'] + text::joined(comps, seq!['/'])) == comps,
{
    let keep = |c: Seq<char>| c.len() > 0 && c != "."@;
    text::lemma_split_of_joined(comps, '/');
    lemma_filter_all(comps, keep);
    let none = Seq::<char>::empty();
    let more = seq![none] + comps;
    assert forall|i: int| 0 <= i < more.len() implies text::lacks(#[trigger] more[i], '/') by {
        if i > 0 {
            assert(more[i] == comps[i - 1]);
        }
    }
    text::lemma_split_of_joined(more, '/');
    text::lemma_joined_first(more, seq!['/']);
    assert(more.skip(1) =~= comps);
    assert(text::joined(more, seq!['/']) =~= seq!['/'] + text::joined(comps, seq!['/']));
    lemma_filter_skips(comps, keep);
}

proof fn lemma_filter_all(s: Seq<Seq<char>>, keep: spec_fn(Seq<char>) -> bool)
    requires
        forall|i: int| 0 <= i < s.len() ==> keep(#[trigger] s[i]),
    ensures
        s.filter(keep) == s,
    decreases s.len(),
{
    reveal(Seq::filter);
    if s.len() > 0 {
        assert forall|i: int| 0 <= i < s.drop_last().len() implies keep(
            #[trigger] s.drop_last()[i],
        ) by {
            assert(s.drop_last()[i] == s[i]);
        }
        lemma_filter_all(s.drop_last(), keep);
        assert(keep(s[s.len() - 1]));
        assert(s.drop_last().push(s.last()) =~= s);
    }
}

proof fn lemma_filter_skips(s: Seq<Seq<char>>, keep: spec_fn(Seq<char>) -> bool)
    requires
        forall|i: int| 0 <= i < s.len() ==> keep(#[trigger] s[i]),
        !keep(Seq::empty()),
    ensures
        (seq![Seq::<char>::empty()] + s).filter(keep) == s,
{
    s.lemma_filter_prepend(Seq::empty(), keep);
    lemma_filter_all(s, keep);
}

/// The limits that bind a group are its own and those of every group above it, up
/// to the root and without it.
pub proof fn law_every_group_above_binds(below: Seq<Seq<char>>, k: int)
    requires
        0 <= k < below.len(),
    ensures
        ({
            let root = seq!["sys"@, "fs"@, "cgroup"@];
            let dirs = group_dirs(root + below);
            &&& dirs.len() == below.len()
            &&& dirs[k] == "/"@ + text::joined(root + below.take(below.len() - k), "/"@)
            &&& group_dirs(root).len() == 0
        }),
    decreases below.len(),
{
    let root = seq!["sys"@, "fs"@, "cgroup"@];
    let all = root + below;
    let n = below.len() as int;
    assert(all.take(3) =~= cgroup_root());
    assert(all.drop_last() =~= root + below.drop_last());
    assert(below.take(n) =~= below);
    assert(group_dirs(all) == seq!["/"@ + text::joined(all, "/"@)] + group_dirs(all.drop_last()));
    if n == 1 {
        assert(below.drop_last() =~= Seq::<Seq<char>>::empty());
        assert(all.drop_last() =~= root);
        assert(group_dirs(root).len() == 0);
    } else {
        let j: int = if k > 0 {
            k - 1
        } else {
            0
        };
        law_every_group_above_binds(below.drop_last(), j);
        if k > 0 {
            assert(below.drop_last().take(n - 1 - j) =~= below.take(n - k));
        }
    }
}

/// A group outside the hierarchy is bound by none.
pub proof fn law_groups_elsewhere_are_not_bound(comps: Seq<Seq<char>>)
    requires
        comps.len() < 3 || comps.take(3) != seq!["sys"@, "fs"@, "cgroup"@],
    ensures
        group_dirs(comps).len() == 0,
{
}

/// The limit is the least of those that are numbers of 64 bits: none is smaller, it
/// is one of them, and there is one exactly where any is a number.
pub proof fn law_the_tightest_limit_binds(values: Seq<Seq<char>>, i: int)
    requires
        0 <= i < values.len(),
    ensures
        match text::number(text::trimmed(values[i])) {
            Some(n) => n <= u64::MAX ==> least_limit(values) is Some && least_limit(values)->0 <= n,
            None => true,
        },
        least_limit(values) is Some ==> exists|k: int|
            0 <= k < values.len() && text::number(text::trimmed(#[trigger] values[k])) == Some(
                least_limit(values)->0,
            ) && least_limit(values)->0 <= u64::MAX,
    decreases values.len(),
{
    lemma_least_limit(values);
    lemma_limit_below(values, i);
}

proof fn lemma_limit_below(values: Seq<Seq<char>>, i: int)
    requires
        0 <= i < values.len(),
    ensures
        match text::number(text::trimmed(values[i])) {
            Some(n) => n <= u64::MAX ==> least_limit(values) is Some && least_limit(values)->0 <= n,
            None => true,
        },
    decreases values.len(),
{
    if i < values.len() - 1 {
        assert(values.drop_last()[i] == values[i]);
        lemma_limit_below(values.drop_last(), i);
    } else {
        assert(values.last() == values[i]);
    }
}

proof fn lemma_least_limit(values: Seq<Seq<char>>)
    ensures
        least_limit(values) is Some ==> exists|k: int|
            0 <= k < values.len() && text::number(text::trimmed(#[trigger] values[k])) == Some(
                least_limit(values)->0,
            ) && least_limit(values)->0 <= u64::MAX,
    decreases values.len(),
{
    if values.len() > 0 {
        lemma_least_limit(values.drop_last());
        let before = least_limit(values.drop_last());
        if least_limit(values) is Some {
            if before == least_limit(values) {
                let k = choose|k: int|
                    0 <= k < values.len() - 1 && text::number(
                        text::trimmed(#[trigger] values.drop_last()[k]),
                    ) == Some(before->0) && before->0 <= u64::MAX;
                assert(values.drop_last()[k] == values[k]);
                assert(text::number(text::trimmed(values[k])) == Some(least_limit(values)->0));
            } else {
                assert(values[values.len() - 1] == values.last());
            }
        }
    }
}

/// The total memory is the number behind the first line's name that is the one of
/// the total, and nothing where that is no number.
pub proof fn law_the_line_of_the_total_counts(
    s: Seq<char>,
    a: Seq<Seq<char>>,
    line: Seq<char>,
    b: Seq<Seq<char>>,
)
    requires
        text::lines_of(s) == a + seq![line] + b,
        forall|i: int| 0 <= i < a.len() ==> !text::begins(#[trigger] a[i], "MemTotal:"@),
        text::begins(line, "MemTotal:"@),
    ensures
        text::words(line).len() < 2 ==> mem_total(s) is None,
        text::words(line).len() >= 2 ==> match text::number(text::words(line)[1]) {
            Some(n) => mem_total(s) == (if n <= u64::MAX {
                Some(n)
            } else {
                None
            }),
            None => mem_total(s) is None,
        },
{
    lemma_mem_line(a, line, b);
}

proof fn lemma_mem_line(a: Seq<Seq<char>>, line: Seq<char>, b: Seq<Seq<char>>)
    requires
        forall|i: int| 0 <= i < a.len() ==> !text::begins(#[trigger] a[i], "MemTotal:"@),
        text::begins(line, "MemTotal:"@),
    ensures
        mem_line(a + seq![line] + b) == Some(line),
    decreases a.len(),
{
    let all = a + seq![line] + b;
    if a.len() == 0 {
        assert(all[0] == line);
    } else {
        assert(all[0] == a[0]);
        assert(all.skip(1) =~= a.skip(1) + seq![line] + b);
        assert forall|i: int| 0 <= i < a.skip(1).len() implies !text::begins(
            #[trigger] a.skip(1)[i],
            "MemTotal:"@,
        ) by {
            assert(a.skip(1)[i] == a[i + 1]);
        }
        lemma_mem_line(a.skip(1), line, b);
    }
}

/// Both sides of every system are evaluated, the base right before the head.
pub proof fn law_both_sides_of_every_system(
    base: Rev,
    head: Rev,
    systems: Seq<Seq<char>>,
    s: int,
)
    requires
        0 <= s < systems.len(),
    ensures
        both_sides(base, head, systems).len() == 2 * systems.len(),
        both_sides(base, head, systems)[2 * s] == (base.tree@, systems[s]),
        both_sides(base, head, systems)[2 * s + 1] == (head.tree@, systems[s]),
{
    assert((2 * s) % 2 == 0 && (2 * s) / 2 == s);
    assert((2 * s + 1) % 2 == 1 && (2 * s + 1) / 2 == s);
}

proof fn lemma_todo_exact(keys: Seq<(Seq<char>, Seq<char>)>, cached: Seq<bool>, n: int, i: int)
    requires
        0 <= n <= keys.len(),
    ensures
        todo_of(keys, cached, n).contains(i) <==> 0 <= i < n && to_evaluate(keys, cached, i),
    decreases n,
{
    if n > 0 {
        lemma_todo_exact(keys, cached, n - 1, i);
        let before = todo_of(keys, cached, n - 1);
        let now = todo_of(keys, cached, n);
        if before.contains(i) {
            let k = choose|k: int| 0 <= k < before.len() && before[k] == i;
            assert(now[k] == i);
        }
        if now.len() > before.len() {
            assert(now[before.len() as int] == n - 1);
        }
        if now.contains(i) && i != n - 1 {
            let k = choose|k: int| 0 <= k < now.len() && now[k] == i;
            assert(before[k] == i);
        }
    }
}

/// A pair is evaluated exactly where it has no file, and no pair before it without
/// a file has the same tree and system.
pub proof fn law_pairs_without_files_are_evaluated(
    keys: Seq<(Seq<char>, Seq<char>)>,
    cached: Seq<bool>,
    i: int,
)
    requires
        keys.len() == cached.len(),
        0 <= i < keys.len(),
    ensures
        cached[i] ==> !todo_of(keys, cached, keys.len() as int).contains(i),
        !cached[i] && (forall|j: int| 0 <= j < i ==> #[trigger] keys[j] != keys[i]) ==> todo_of(
            keys,
            cached,
            keys.len() as int,
        ).contains(i),
        !cached[i] ==> exists|j: int|
            0 <= j <= i && #[trigger] keys[j] == keys[i] && todo_of(
                keys,
                cached,
                keys.len() as int,
            ).contains(j),
{
    lemma_todo_exact(keys, cached, keys.len() as int, i);
    if !cached[i] {
        law_each_missing_key_is_evaluated_once(keys, cached, i);
        let j = choose|j: int|
            0 <= j <= i && #[trigger] to_evaluate(keys, cached, j) && keys[j] == keys[i];
        lemma_todo_exact(keys, cached, keys.len() as int, j);
        assert(keys[j] == keys[i]);
    }
}

/// The pairs with a file are announced by their systems, in their order.
pub proof fn law_cached_systems_are_those_with_files(
    keys: Seq<(Seq<char>, Seq<char>)>,
    cached: Seq<bool>,
    n: int,
    s: Seq<char>,
)
    requires
        0 <= n <= keys.len(),
    ensures
        cached_systems(keys, cached, n).contains(s) <==> exists|i: int|
            0 <= i < n && cached[i] && (#[trigger] keys[i]).1 == s,
    decreases n,
{
    if n > 0 {
        law_cached_systems_are_those_with_files(keys, cached, n - 1, s);
        let before = cached_systems(keys, cached, n - 1);
        let now = cached_systems(keys, cached, n);
        if before.contains(s) {
            let k = choose|k: int| 0 <= k < before.len() && before[k] == s;
            assert(now[k] == s);
        }
        if cached[n - 1] {
            assert(now[before.len() as int] == keys[n - 1].1);
        }
        if now.contains(s) && !before.contains(s) {
            let k = choose|k: int| 0 <= k < now.len() && now[k] == s;
            assert(k == before.len());
            assert(keys[n - 1].1 == s);
        }
    }
}

/// Complete without a run are exactly the evaluations without names.
pub proof fn law_nameless_are_those_without_names(names: Seq<Seq<Seq<char>>>, g: int)
    ensures
        nameless(names, names.len() as int).contains(g) <==> 0 <= g < names.len() && names[g].len()
            == 0,
{
    lemma_nameless(names, names.len() as int, g);
}

/// The widest group is as wide as some group, or one where all are narrower, and no
/// group is wider.
pub proof fn law_the_widest_group_is_a_group(items: Seq<Seq<Seq<char>>>, g: int)
    ensures
        0 <= g < items.len() ==> items[g].len() <= widest(items),
        widest(items) >= 1,
        widest(items) > 1 ==> exists|k: int|
            0 <= k < items.len() && (#[trigger] items[k]).len() == widest(items),
{
    if 0 <= g < items.len() {
        lemma_widest(items, g);
    }
    lemma_widest_is_one(items);
}

proof fn lemma_widest_is_one(items: Seq<Seq<Seq<char>>>)
    ensures
        widest(items) >= 1,
        widest(items) > 1 ==> exists|k: int|
            0 <= k < items.len() && (#[trigger] items[k]).len() == widest(items),
    decreases items.len(),
{
    if items.len() > 0 {
        lemma_widest_is_one(items.drop_last());
        if items.last().len() > widest(items.drop_last()) {
            assert(items[items.len() - 1].len() == widest(items));
        } else if widest(items) > 1 {
            let k = choose|k: int|
                0 <= k < items.len() - 1 && (#[trigger] items.drop_last()[k]).len() == widest(
                    items.drop_last(),
                );
            assert(items[k].len() == widest(items));
        }
    }
}

/// The derivation of a path is that of its last mention in the request; a path that
/// is not mentioned has none.
pub proof fn law_the_last_mention_of_a_path_counts(
    attrs: Seq<(String, String)>,
    path: Seq<char>,
    i: int,
)
    requires
        forall|j: int| i < j < attrs.len() && 0 <= j ==> (#[trigger] attrs[j]).0@ != path,
    ensures
        0 <= i < attrs.len() && attrs[i].0@ == path ==> request_drv(attrs, path) == Some(
            attrs[i].1@,
        ),
        i < 0 ==> request_drv(attrs, path) is None,
    decreases attrs.len(),
{
    if attrs.len() > 0 && i < attrs.len() - 1 {
        let a = attrs.drop_last();
        assert(attrs[attrs.len() - 1] == attrs.last());
        assert forall|j: int| i < j < a.len() && 0 <= j implies (#[trigger] a[j]).0@ != path by {
            assert(a[j] == attrs[j]);
        }
        law_the_last_mention_of_a_path_counts(a, path, i);
        if 0 <= i {
            assert(a[i] == attrs[i]);
        }
    }
}

/// An aborted shard still owes a path exactly where the store lacks its derivation,
/// or the path has none; and the store is asked about the derivation of every path
/// that has one.
pub proof fn law_missing_derivations_are_still_owed(
    attrs: Seq<(String, String)>,
    missing: Set<Seq<char>>,
    paths: Seq<Seq<char>>,
    i: int,
)
    requires
        0 <= i < paths.len(),
    ensures
        match request_drv(attrs, paths[i]) {
            Some(d) => (owed_path(attrs, missing, paths[i]) <==> missing.contains(d)) && wanted_of(
                attrs,
                paths,
            ).contains(d),
            None => owed_path(attrs, missing, paths[i]),
        },
    decreases paths.len(),
{
    if request_drv(attrs, paths[i]) is Some {
        lemma_wanted(attrs, paths, i);
    }
}

proof fn lemma_wanted(attrs: Seq<(String, String)>, paths: Seq<Seq<char>>, i: int)
    requires
        0 <= i < paths.len(),
        request_drv(attrs, paths[i]) is Some,
    ensures
        wanted_of(attrs, paths).contains(request_drv(attrs, paths[i])->0),
    decreases paths.len(),
{
    let before = wanted_of(attrs, paths.drop_last());
    let now = wanted_of(attrs, paths);
    let d = request_drv(attrs, paths[i])->0;
    if i < paths.len() - 1 {
        assert(paths.drop_last()[i] == paths[i]);
        lemma_wanted(attrs, paths.drop_last(), i);
        let k = choose|k: int| 0 <= k < before.len() && before[k] == d;
        assert(now[k] == d);
    } else {
        assert(paths.last() == paths[i]);
        assert(now[before.len() as int] == d);
    }
}

/// The leaf of a group has the name of its side two levels below the phase, and
/// shows a count, or a percentage besides, where its kind does; it begins waiting,
/// with nothing counted and no total.
pub proof fn law_leaves_show_what_their_kind_does(leaf: Leaf, label: Seq<char>)
    ensures
        leaf_node(leaf, label).label == label,
        leaf_node(leaf, label).depth == 2,
        leaf_node(leaf, label).counter <==> leaf != Leaf::Plain,
        leaf_node(leaf, label).percent <==> leaf == Leaf::Percent,
        leaf_node(leaf, label).state == live::State::Wait,
        leaf_node(leaf, label).count == 0,
        leaf_node(leaf, label).total == -1,
{
}

/// The systems of a phase are those of its groups, each once.
pub proof fn law_systems_are_seen_once(groups: Seq<Place>, n: int, s: Seq<char>)
    requires
        0 <= n <= groups.len(),
    ensures
        systems_seen(groups, n).no_duplicates(),
        systems_seen(groups, n).contains(s) <==> exists|i: int|
            0 <= i < n && (#[trigger] groups[i]).0 == s,
    decreases n,
{
    if n > 0 {
        law_systems_are_seen_once(groups, n - 1, s);
        law_systems_are_seen_once(groups, n - 1, groups[n - 1].0);
        let before = systems_seen(groups, n - 1);
        let now = systems_seen(groups, n);
        if before.contains(s) {
            let k = choose|k: int| 0 <= k < before.len() && before[k] == s;
            assert(now[k] == s);
        }
        if now.len() > before.len() {
            assert(now[before.len() as int] == groups[n - 1].0);
        }
        if now.contains(s) && !before.contains(s) {
            let k = choose|k: int| 0 <= k < now.len() && now[k] == s;
            assert(k == before.len());
            assert(groups[n - 1].0 == s);
        }
        if exists|i: int| 0 <= i < n && (#[trigger] groups[i]).0 == s {
            let i = choose|i: int| 0 <= i < n && (#[trigger] groups[i]).0 == s;
            if i == n - 1 {
                assert(now.contains(s));
            }
        }
    }
}

/// Whether the row `s` is the system under which the leaf of a group stands: it has
/// the name of the group's system, and only leaves follow up to that one.
pub open spec fn stands_under(m: Layout, groups: Seq<Place>, i: int, s: int) -> bool {
    &&& 0 < s < m.at[i] < m.rows.len()
    &&& m.rows[s].depth == 1
    &&& m.rows[s].label == groups[i].0
    &&& forall|r: int| s < r <= m.at[i] ==> (#[trigger] m.rows[r]).depth == 2
}

/// Whether no two groups share a leaf.
pub open spec fn leaves_apart(m: Layout) -> bool {
    forall|i: int, j: int|
        i != j && #[trigger] m.at.contains_key(i) && #[trigger] m.at.contains_key(j) ==> m.at[i]
            != m.at[j]
}

proof fn lemma_leaves_place(
    l: Layout,
    groups: Seq<Place>,
    system: Seq<char>,
    leaf: Leaf,
    n: int,
)
    requires
        0 <= n <= groups.len(),
        leaves_apart(l),
        forall|i: int| #[trigger] l.at.contains_key(i) ==> l.at[i] < l.rows.len(),
    ensures
        ({
            let m = with_leaves(l, groups, system, leaf, n);
            &&& m.rows.len() >= l.rows.len()
            &&& forall|r: int| 0 <= r < l.rows.len() ==> #[trigger] m.rows[r] == l.rows[r]
            &&& forall|r: int| l.rows.len() <= r < m.rows.len() ==> (#[trigger] m.rows[r]).depth == 2
            &&& forall|i: int| #[trigger]
                m.at.contains_key(i) ==> m.at[i] < m.rows.len() && ((l.at.contains_key(i) && m.at[i]
                    == l.at[i]) || (0 <= i < n && groups[i].0 == system && l.rows.len() <= m.at[i]))
            &&& leaves_apart(m)
        }),
    decreases n,
{
    if n > 0 {
        lemma_leaves_place(l, groups, system, leaf, n - 1);
        let before = with_leaves(l, groups, system, leaf, n - 1);
        let m = with_leaves(l, groups, system, leaf, n);
        assert forall|i: int, j: int|
            i != j && #[trigger] m.at.contains_key(i) && #[trigger] m.at.contains_key(
                j,
            ) implies m.at[i] != m.at[j] by {
            if i != n - 1 || groups[n - 1].0 != system {
                assert(before.at.contains_key(i));
            }
            if j != n - 1 || groups[n - 1].0 != system {
                assert(before.at.contains_key(j));
            }
        }
        assert forall|i: int| #[trigger] m.at.contains_key(i) implies m.at[i] < m.rows.len() && ((
        l.at.contains_key(i) && m.at[i] == l.at[i]) || (0 <= i < n && groups[i].0 == system
            && l.rows.len() <= m.at[i])) by {
            if i != n - 1 || groups[n - 1].0 != system {
                assert(before.at.contains_key(i));
            }
        }
    }
}

proof fn lemma_layout_place(
    phase: Seq<char>,
    groups: Seq<Place>,
    systems: Seq<Seq<char>>,
    leaf: Leaf,
    k: int,
)
    requires
        0 <= k <= systems.len(),
    ensures
        ({
            let m = layout(phase, groups, systems, leaf, k);
            &&& m.rows.len() > 0
            &&& m.rows[0] == live::fresh(phase, 0, false, false, -1i64, 0)
            &&& leaves_apart(m)
            &&& forall|i: int| #[trigger]
                m.at.contains_key(i) ==> exists|s: int| stands_under(m, groups, i, s)
        }),
    decreases k,
{
    if k > 0 {
        lemma_layout_place(phase, groups, systems, leaf, k - 1);
        let before = layout(phase, groups, systems, leaf, k - 1);
        let l = Layout {
            rows: before.rows.push(live::fresh(systems[k - 1], 1, false, false, -1i64, 0)),
            at: before.at,
        };
        assert forall|i: int| #[trigger] l.at.contains_key(i) implies l.at[i] < l.rows.len() by {
            assert(before.at.contains_key(i));
            let s = choose|s: int| stands_under(before, groups, i, s);
            assert(stands_under(before, groups, i, s));
        }
        assert(leaves_apart(l)) by {
            assert forall|i: int, j: int|
                i != j && #[trigger] l.at.contains_key(i) && #[trigger] l.at.contains_key(
                    j,
                ) implies l.at[i] != l.at[j] by {
                assert(before.at.contains_key(i) && before.at.contains_key(j));
            }
        }
        lemma_leaves_place(l, groups, systems[k - 1], leaf, groups.len() as int);
        let m = layout(phase, groups, systems, leaf, k);
        assert(m.rows[0] == l.rows[0]);
        assert forall|i: int| #[trigger] m.at.contains_key(i) implies exists|s: int|
            stands_under(m, groups, i, s) by {
            if l.at.contains_key(i) && m.at[i] == l.at[i] {
                assert(before.at.contains_key(i));
                let s = choose|s: int| stands_under(before, groups, i, s);
                assert(stands_under(before, groups, i, s));
                assert forall|r: int| s < r <= m.at[i] implies (#[trigger] m.rows[r]).depth == 2 by {
                    assert(m.rows[r] == l.rows[r]);
                    assert(l.rows[r] == before.rows[r]);
                }
                assert(m.rows[s] == l.rows[s]);
                assert(stands_under(m, groups, i, s));
            } else {
                let s = l.rows.len() - 1;
                assert(m.rows[s] == l.rows[s]);
                assert(stands_under(m, groups, i, s));
            }
        }
    } else {
        let m = layout(phase, groups, systems, leaf, k);
        assert(leaves_apart(m));
    }
}

/// A phase begins with its own row; every group has a leaf of its own, and that
/// stands under the row of its system.
pub proof fn law_leaves_stand_under_their_system(
    phase: Seq<char>,
    groups: Seq<Place>,
    leaf: Leaf,
    i: int,
    j: int,
)
    requires
        0 <= i < groups.len(),
    ensures
        ({
            let m = phase_layout(phase, groups, leaf);
            &&& m.rows[0].label == phase && m.rows[0].depth == 0
            &&& exists|s: int| stands_under(m, groups, i, s)
            &&& 0 <= j < groups.len() && i != j ==> m.at[i] != m.at[j]
        }),
{
    let systems = systems_seen(groups, groups.len() as int);
    lemma_layout_place(phase, groups, systems, leaf, systems.len() as int);
    law_every_group_has_its_leaf(phase, groups, leaf, i);
    let m = phase_layout(phase, groups, leaf);
    assert(m.at.contains_key(i));
    if 0 <= j < groups.len() {
        law_every_group_has_its_leaf(phase, groups, leaf, j);
        assert(m.at.contains_key(j));
    }
}

/// A copy of a revision has all that the revision has.
pub proof fn law_copies_of_revisions_are_the_same(a: Rev, b: Rev)
    requires
        same_rev(a, b),
    ensures
        a.tree@ == b.tree@,
        a.commit@ == b.commit@,
        a.label@ == b.label@,
        a.display@ == b.display@,
{
}

/// An evaluation is called by the name of its side and its system.
pub proof fn law_labels_name_side_and_system(rev: Rev, system: Seq<char>)
    ensures
        pair_label(rev, system) == rev.display@ + seq![' '] + system,
{
    reveal_strlit(" ");
    assert(" "@ =~= seq![' ']);
}

/// Appending rows to a tree keeps what is there, and shows the new rows behind it,
/// in their order.
pub proof fn law_rows_are_appended(before: Tree, after: Tree, rows: Seq<NodeData>, k: int)
    requires
        appended(before, after, rows),
    ensures
        after.nodes().len() == before.nodes().len() + rows.len(),
        after.order().len() == before.order().len() + rows.len(),
        0 <= k < before.nodes().len() ==> after.nodes()[k] == before.nodes()[k],
        0 <= k < rows.len() ==> after.nodes()[before.nodes().len() + k] == rows[k],
        0 <= k < before.order().len() ==> after.order()[k] == before.order()[k],
        0 <= k < rows.len() ==> after.order()[before.order().len() + k] == before.nodes().len() + k,
{
}

/// The first phase has one item for each evaluation, and nothing in it.
pub proof fn law_placeholders_are_one_each(n: nat, g: int)
    ensures
        placeholders(n).len() == n,
        0 <= g < n ==> placeholders(n)[g].len() == 1,
{
}

/// Requests with something to do are kept in their order, and others are dropped.
pub proof fn law_requests_without_attrs_are_dropped(
    requests: Seq<InstRequest>,
    r: InstRequest,
)
    ensures
        r.attrs@.len() > 0 ==> busy_requests(requests.push(r)) == busy_requests(requests).push(r),
        r.attrs@.len() == 0 ==> busy_requests(requests.push(r)) == busy_requests(requests),
        busy_requests(Seq::empty()) == Seq::<InstRequest>::empty(),
{
    reveal(Seq::filter);
    assert(requests.push(r).drop_last() =~= requests);
}

/// An evaluation stands in the tree under its system, by the name of its side.
pub proof fn law_evaluations_have_their_places(
    pairs: Seq<(Rev, String)>,
    todo: Seq<usize>,
    i: int,
)
    requires
        0 <= i < todo.len(),
    ensures
        todo_places(pairs, todo).len() == todo.len(),
        todo_places(pairs, todo)[i].0 == pairs[todo[i] as int].1@,
        todo_places(pairs, todo)[i].1 == pairs[todo[i] as int].0.display@,
{
}

/// An evaluation is kept under its tree and its system, and under nothing else: two
/// commits with one tree share it.
pub proof fn law_evaluations_are_kept_by_tree_and_system(pairs: Seq<(Rev, String)>, i: int, j: int)
    requires
        0 <= i < pairs.len(),
        0 <= j < pairs.len(),
    ensures
        keys_of_pairs(pairs).len() == pairs.len(),
        keys_of_pairs(pairs)[i] == keys_of_pairs(pairs)[j] <==> pairs[i].0.tree@ == pairs[j].0.tree@
            && pairs[i].1@ == pairs[j].1@,
{
}

/// Requests are placed under their system by the name of their revision, and ask for
/// their attrs in order.
pub proof fn law_requests_have_their_places_and_attrs(
    requests: Seq<InstRequest>,
    asked: Seq<(Rev, String, Vec<String>)>,
    groups: Seq<(String, String)>,
    i: int,
    j: int,
)
    ensures
        request_places(requests).len() == requests.len(),
        0 <= i < requests.len() ==> request_places(requests)[i] == (
            requests[i].system@,
            requests[i].rev.display@,
        ) && attr_paths(requests[i]).len() == requests[i].attrs@.len(),
        0 <= i < requests.len() && 0 <= j < requests[i].attrs@.len() ==> attr_paths(requests[i])[j]
            == requests[i].attrs@[j].0@,
        request_items(asked).len() == asked.len(),
        0 <= i < asked.len() ==> request_items(asked)[i].len() == asked[i].2@.len(),
        0 <= i < asked.len() && 0 <= j < asked[i].2@.len() ==> request_items(asked)[i][j]
            == asked[i].2@[j]@,
        places(groups).len() == groups.len(),
        0 <= i < groups.len() ==> places(groups)[i] == (groups[i].0@, groups[i].1@),
{
}

/// What is said of an aborted evaluation is what its fields hold.
pub proof fn law_aborts_say_what_their_fields_hold(a: EvalAborted, v: Seq<usize>, i: int)
    ensures
        a@.status == a.status@,
        a@.streamed == a.streamed,
        a@.stderr_tail == a.stderr_tail@,
        ints(v).len() == v.len(),
        0 <= i < v.len() ==> ints(v)[i] == v[i],
{
}

} // verus!
