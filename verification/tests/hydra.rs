use npd::hydra::{
    in_cache, job_status, job_url, observe, FarmOutcome, JobStatus, LatestBuild, DEFAULT_JOBSET,
};
use npd::report::Source;

fn latest(drv: &str, finished: bool, succeeded: bool) -> Option<JobStatus> {
    Some(JobStatus {
        drvpath: Some(drv.to_string()),
        finished,
        succeeded,
        build_id: Some(42),
    })
}

#[test]
fn jobs_have_addresses() {
    assert_eq!(
        job_url(DEFAULT_JOBSET, "hello", "x86_64-linux"),
        "https://hydra.nixos.org/job/nixpkgs/trunk/hello.x86_64-linux/latest"
    );
}

#[test]
fn job_reports_are_read() {
    let js = job_status(LatestBuild {
        drvpath: Some("/d".into()),
        buildstatus: Some(0),
        finished: Some(1),
        id: Some(9),
    });
    assert_eq!(
        js,
        JobStatus {
            drvpath: Some("/d".into()),
            finished: true,
            succeeded: true,
            build_id: Some(9)
        }
    );
    let none = job_status(LatestBuild { drvpath: None, buildstatus: None, finished: None, id: None });
    assert_eq!(
        none,
        JobStatus { drvpath: None, finished: false, succeeded: false, build_id: None }
    );
}

#[test]
fn one_output_makes_a_hit() {
    assert!(in_cache(&[false, true]));
    assert!(!in_cache(&[false, false]));
    assert!(!in_cache(&[]));
}

#[test]
fn our_build_counts() {
    let r = observe("/d.drv", "x86_64-linux", 17, true, latest("/d.drv", true, false));
    assert!(r.in_cache && !r.drift);
    assert_eq!(r.job.as_deref(), Some("Failed (#42)"));
    assert_eq!(r.observations.len(), 2);
    assert_eq!(r.observations[0].source, Source::Cache);
    assert_eq!(r.observations[0].outcome, FarmOutcome::Built);
    assert_eq!(r.observations[1].source, Source::HydraJob);
    assert_eq!(r.observations[1].outcome, FarmOutcome::Failed);
    assert_eq!(r.observations[1].build_id, Some(42));
    assert_eq!(r.observations[1].when, 17);
    let ok = observe("/d.drv", "x86_64-linux", 17, true, latest("/d.drv", true, true));
    assert_eq!(ok.job.as_deref(), Some("Built (#42)"));
}

#[test]
fn drift_is_reported_and_not_recorded() {
    let r = observe("/d.drv", "x86_64-linux", 0, false, latest("/other.drv", true, false));
    assert!(r.drift);
    assert_eq!(r.job.as_deref(), Some("drift (different drv)"));
    assert_eq!(r.observations[0].outcome, FarmOutcome::NotAttempted);
    assert_eq!(r.observations[1].outcome, FarmOutcome::NotAttempted);
    assert_eq!(r.observations[1].build_id, None);
    let running = observe("/d.drv", "x86_64-linux", 0, false, latest("/d.drv", false, false));
    assert!(!running.drift);
    assert_eq!(running.job, None);
    let other = observe("/d.drv", "x86_64-linux", 0, false, latest("/other.drv", false, false));
    assert!(other.drift);
    assert_eq!(other.job.as_deref(), Some("drift (different drv)"));
    assert_eq!(other.observations[1].outcome, FarmOutcome::NotAttempted);
    let nameless = |finished: bool| {
        Some(JobStatus { drvpath: None, finished, succeeded: true, build_id: None })
    };
    assert!(observe("/d.drv", "x86_64-linux", 0, false, nameless(true)).drift);
    assert!(!observe("/d.drv", "x86_64-linux", 0, false, nameless(false)).drift);
    let unknown = observe("/d.drv", "x86_64-linux", 0, false, None);
    assert_eq!(unknown.job, None);
}
