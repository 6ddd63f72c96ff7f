//! Facts from the build farm, keyed to the exact derivation.
//!
//! There are two tiers. A narinfo on an output path says that exactly this
//! derivation was built. The latest build of the job of an attr may be of
//! another derivation: it counts only where its derivation is ours, and is
//! drift otherwise.

use vstd::prelude::*;
use vstd::string::*;

use crate::report::Source;
use crate::text;

verus! {

/// The build farm.
pub const HYDRA: &'static str = "https://hydra.nixos.org";

/// The jobset that is asked about by default.
pub const DEFAULT_JOBSET: &'static str = "nixpkgs/trunk";

/// What the farm knows of a derivation.
#[derive(Debug, Clone, Copy, PartialEq, Eq, Structural)]
pub enum FarmOutcome {
    Built,
    Failed,
    NotAttempted,
}

/// An observation of a derivation at the farm.
#[derive(Debug, PartialEq, Eq)]
pub struct FarmObservation {
    pub drv_path: String,
    pub source: Source,
    pub outcome: FarmOutcome,
    pub when: i64,
    pub system: Option<String>,
    pub duration_s: Option<u64>,
    pub cached: Option<bool>,
    pub machine: Option<String>,
    pub log_ref: Option<String>,
    pub build_id: Option<u64>,
}

/// What an observation at the farm says.
#[verifier::ext_equal]
pub struct FarmFact {
    pub drv: Seq<char>,
    pub source: Source,
    pub outcome: FarmOutcome,
    pub when: int,
    pub system: Seq<char>,
    pub build_id: Option<u64>,
}

/// Whether an observation says exactly what `f` says.
pub open spec fn states(o: FarmObservation, f: FarmFact) -> bool {
    &&& o.drv_path@ == f.drv
    &&& o.source == f.source
    &&& o.outcome == f.outcome
    &&& o.when == f.when
    &&& text::opt(o.system) == Some(f.system)
    &&& o.duration_s is None
    &&& o.cached is None
    &&& o.machine is None
    &&& o.log_ref is None
    &&& o.build_id == f.build_id
}

/// The latest build of a job as the farm reports it.
pub struct LatestBuild {
    pub drvpath: Option<String>,
    pub buildstatus: Option<i64>,
    pub finished: Option<i64>,
    pub id: Option<i64>,
}

/// The latest build of a job.
#[derive(Debug, PartialEq, Eq)]
pub struct JobStatus {
    pub drvpath: Option<String>,
    pub finished: bool,
    pub succeeded: bool,
    pub build_id: Option<u64>,
}

/// The facts about one derivation, to record and to report.
#[derive(Debug, PartialEq, Eq)]
pub struct HydraResult {
    pub observations: Vec<FarmObservation>,
    pub in_cache: bool,
    /// The latest build of the job is of another derivation.
    pub drift: bool,
    /// A short description of what the job says, for printing.
    pub job: Option<String>,
}

/// Where the farm answers for the latest build of a job.
pub fn job_url(jobset: &str, attr: &str, system: &str) -> (r: String)
    ensures
        r@ == HYDRA@ + "/job/"@ + jobset@ + "/"@ + attr@ + "."@ + system@ + "/latest"@,
{
    let mut s = HYDRA.to_owned();
    s.append("/job/");
    s.append(jobset);
    s.append("/");
    s.append(attr);
    s.append(".");
    s.append(system);
    s.append("/latest");
    s
}

/// The latest build of a job, from the farm's report.
pub fn job_status(b: LatestBuild) -> (r: JobStatus)
    ensures
        r.drvpath == b.drvpath,
        r.finished == (b.finished == Some(1i64)),
        r.succeeded == (b.buildstatus == Some(0i64)),
        r.build_id == match b.id {
            Some(i) => Some(i as u64),
            None => None,
        },
{
    let finished = match b.finished {
        Some(n) => n == 1,
        None => false,
    };
    let succeeded = match b.buildstatus {
        Some(n) => n == 0,
        None => false,
    };
    let build_id: Option<u64> = match b.id {
        Some(i) => Some(i as u64),
        None => None,
    };
    JobStatus { drvpath: b.drvpath, finished, succeeded, build_id }
}

/// Whether a derivation is in the binary cache: whether any of its outputs is.
pub fn in_cache(outputs_hit: &[bool]) -> (r: bool)
    ensures
        r == exists|i: int| 0 <= i < outputs_hit@.len() && #[trigger] outputs_hit@[i],
{
    let mut i: usize = 0;
    while i < outputs_hit.len()
        invariant
            i <= outputs_hit@.len(),
            forall|k: int| 0 <= k < i ==> !#[trigger] outputs_hit@[k],
        decreases outputs_hit@.len() - i,
    {
        if outputs_hit[i] {
            return true;
        }
        i = i + 1;
    }
    false
}

/// Whether the latest build of a job counts for a derivation: it is of this
/// derivation, and finished.
pub open spec fn matches_drv(latest: Option<JobStatus>, drv: Seq<char>) -> bool {
    latest is Some && latest->0.finished && text::opt(latest->0.drvpath) == Some(drv)
}

/// Whether the latest build of a job is of another derivation, finished or not.
/// A build of which no derivation is known counts as one once it is finished.
pub open spec fn is_drift(latest: Option<JobStatus>, drv: Seq<char>) -> bool {
    match latest {
        Some(js) => match js.drvpath {
            Some(p) => p@ != drv,
            None => js.finished,
        },
        None => false,
    }
}

/// What the latest build of a job says of a derivation.
pub open spec fn job_outcome(latest: Option<JobStatus>, drv: Seq<char>) -> FarmOutcome {
    if !matches_drv(latest, drv) {
        FarmOutcome::NotAttempted
    } else if latest->0.succeeded {
        FarmOutcome::Built
    } else {
        FarmOutcome::Failed
    }
}

/// What is printed of the latest build of a job.
pub open spec fn job_text(latest: Option<JobStatus>, drv: Seq<char>) -> Option<Seq<char>> {
    if matches_drv(latest, drv) {
        let id: u64 = match latest->0.build_id {
            Some(i) => i,
            None => 0,
        };
        Some(
            (if latest->0.succeeded {
                "Built"@
            } else {
                "Failed"@
            }) + " (#"@ + text::decimal(id as nat) + ")"@,
        )
    } else if is_drift(latest, drv) {
        Some("drift (different drv)"@)
    } else {
        None
    }
}

fn observation(
    drv: &str,
    system: &str,
    now: i64,
    source: Source,
    outcome: FarmOutcome,
    build_id: Option<u64>,
) -> (r: FarmObservation)
    ensures
        states(
            r,
            (FarmFact { drv: drv@, source, outcome, when: now as int, system: system@, build_id }),
        ),
{
    FarmObservation {
        drv_path: drv.to_owned(),
        source,
        outcome,
        when: now,
        system: Some(system.to_owned()),
        duration_s: None,
        cached: None,
        machine: None,
        log_ref: None,
        build_id,
    }
}

/// The facts about a derivation: from whether the binary cache has it, and
/// from the latest build of its job where the farm knows one.
///
/// There is always one observation of either source, so that the log remembers
/// that the derivation was asked about.
pub fn observe(
    drv: &str,
    system: &str,
    now: i64,
    in_cache: bool,
    latest: Option<JobStatus>,
) -> (r: HydraResult)
    ensures
        r.in_cache == in_cache,
        r.drift == is_drift(latest, drv@),
        text::opt(r.job) == job_text(latest, drv@),
        r.observations@.len() == 2,
        states(
            r.observations@[0],
            (FarmFact {
                drv: drv@,
                source: Source::Cache,
                outcome: if in_cache {
                    FarmOutcome::Built
                } else {
                    FarmOutcome::NotAttempted
                },
                when: now as int,
                system: system@,
                build_id: None,
            }),
        ),
        states(
            r.observations@[1],
            (FarmFact {
                drv: drv@,
                source: Source::HydraJob,
                outcome: job_outcome(latest, drv@),
                when: now as int,
                system: system@,
                build_id: if matches_drv(latest, drv@) {
                    latest->0.build_id
                } else {
                    None
                },
            }),
        ),
{
    let mut observations: Vec<FarmObservation> = Vec::new();
    let probed = if in_cache {
        FarmOutcome::Built
    } else {
        FarmOutcome::NotAttempted
    };
    observations.push(observation(drv, system, now, Source::Cache, probed, None));
    let mut outcome = FarmOutcome::NotAttempted;
    let mut build_id: Option<u64> = None;
    let mut job: Option<String> = None;
    let mut drift = false;
    if let Some(js) = &latest {
        let ours = match &js.drvpath {
            Some(p) => text::same(p.as_str(), drv),
            None => false,
        };
        if ours && js.finished {
            outcome = if js.succeeded {
                FarmOutcome::Built
            } else {
                FarmOutcome::Failed
            };
            build_id = js.build_id;
            let id: u64 = match js.build_id {
                Some(i) => i,
                None => 0,
            };
            let mut s = if js.succeeded {
                "Built".to_owned()
            } else {
                "Failed".to_owned()
            };
            s.append(" (#");
            let d = text::decimal_u64(id);
            s.append(d.as_str());
            s.append(")");
            job = Some(s);
        } else if !ours && (js.drvpath.is_some() || js.finished) {
            drift = true;
            job = Some("drift (different drv)".to_owned());
        }
    }
    observations.push(observation(drv, system, now, Source::HydraJob, outcome, build_id));
    HydraResult { observations, in_cache, drift, job }
}

/// Where the derivation of the latest build is known, it is drift exactly when
/// that is another one. Drift says nothing of a derivation: a failure is taken
/// from the farm only where its latest build is of this very derivation.
pub proof fn law_drift_says_nothing(latest: Option<JobStatus>, drv: Seq<char>)
    ensures
        latest is Some && latest->0.drvpath is Some ==> (is_drift(latest, drv) <==> text::opt(
            latest->0.drvpath,
        ) != Some(drv)),
        is_drift(latest, drv) ==> job_outcome(latest, drv) == FarmOutcome::NotAttempted,
        job_outcome(latest, drv) == FarmOutcome::Failed ==> text::opt(latest->0.drvpath) == Some(
            drv,
        ) && !latest->0.succeeded,
{
}

/// A build of this very derivation counts once it is finished: as built where it
/// succeeded, as failed where it did not. Before that, and of any other derivation,
/// the farm says nothing.
pub proof fn law_only_finished_builds_of_this_derivation_count(js: JobStatus, drv: Seq<char>)
    ensures
        js.drvpath is Some && js.drvpath->0@ == drv && js.finished && js.succeeded ==> job_outcome(
            Some(js),
            drv,
        ) == FarmOutcome::Built,
        js.drvpath is Some && js.drvpath->0@ == drv && js.finished && !js.succeeded ==> job_outcome(
            Some(js),
            drv,
        ) == FarmOutcome::Failed,
        !js.finished || js.drvpath is None || js.drvpath->0@ != drv ==> job_outcome(Some(js), drv)
            == FarmOutcome::NotAttempted && !matches_drv(Some(js), drv),
        job_outcome(None, drv) == FarmOutcome::NotAttempted,
{
}

/// It is drift exactly where the latest build is of another derivation, or is
/// finished without one.
pub proof fn law_drift_is_another_derivation(js: JobStatus, drv: Seq<char>)
    ensures
        is_drift(Some(js), drv) <==> (js.drvpath is Some && js.drvpath->0@ != drv) || (js.drvpath
            is None && js.finished),
        !is_drift(None, drv),
        !(is_drift(Some(js), drv) && matches_drv(Some(js), drv)),
{
}

/// What is printed says `Built` or `Failed` with the number of the build where it
/// counts, names drift where it is drift, and is nothing otherwise.
pub proof fn law_printed_is_what_the_job_says(latest: Option<JobStatus>, drv: Seq<char>, id: u64)
    ensures
        job_text(latest, drv) is None <==> job_outcome(latest, drv) == FarmOutcome::NotAttempted
            && !is_drift(latest, drv),
        is_drift(latest, drv) ==> job_text(latest, drv) == Some("drift (different drv)"@),
        job_outcome(latest, drv) == FarmOutcome::Built && latest->0.build_id == Some(id) ==> job_text(
            latest,
            drv,
        ) == Some("Built"@ + " (#"@ + text::decimal(id as nat) + ")"@),
        job_outcome(latest, drv) == FarmOutcome::Failed && latest->0.build_id == Some(id) ==> job_text(
            latest,
            drv,
        ) == Some("Failed"@ + " (#"@ + text::decimal(id as nat) + ")"@),
{
}

/// An observation states one fact and no other.
pub proof fn law_observations_state_one_fact(o: FarmObservation, f: FarmFact, g: FarmFact)
    requires
        states(o, f),
        states(o, g),
    ensures
        f == g,
        o.drv_path@ == f.drv,
        o.source == f.source,
        o.outcome == f.outcome,
        o.when == f.when,
        o.system is Some && o.system->0@ == f.system,
        o.build_id == f.build_id,
{
}

} // verus!
