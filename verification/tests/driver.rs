use npd::driver::{
    attribute, batch_args, build_outcomes, dep_block_paths, drv_built, drvs_needing_instantiation,
    drvs_to_materialize, event_of, failing_now, failing_paths, needs_selfheal_instantiate,
    probe_candidates, probe_prepare, recheck_direct_failures, recheck_paths, recheck_queries,
    record_hit_batch, retain_absent, stale_dep_blocks, stop_line, suspects, verb_line,
    verify_failing, Activity, Batch, Builds, NixEvent, Propagation, Run, Target, ACT_BUILD,
};
use npd::live::Tree;
use npd::model::{BuildPolicy, Observation, Outcome};
use npd::ordered::{set_of, StringMap, StringSet};
use npd::store::Store;

fn strings(v: &[&str]) -> Vec<String> {
    v.iter().map(|x| x.to_string()).collect()
}

fn set(v: &[&str]) -> StringSet {
    set_of(&strings(v))
}

fn members(s: &StringSet) -> Vec<String> {
    (0..s.len()).map(|i| s.at(i).clone()).collect()
}

fn outputs(kv: &[(&str, &[&str])]) -> StringMap<Vec<String>> {
    let mut m = StringMap::new();
    for (k, v) in kv {
        m.insert(k.to_string(), strings(v));
    }
    m
}

fn target(drv: &str) -> Target {
    Target { drv_path: drv.into() }
}

fn planted(drv: &str, outcome: Outcome) -> Observation {
    Observation { drv_path: drv.into(), outcome, blocker: Vec::new() }
}

fn planted_with(drv: &str, outcome: Outcome, blocker: &[&str]) -> Observation {
    Observation { drv_path: drv.into(), outcome, blocker: strings(blocker) }
}

fn known(obs: Vec<Observation>) -> StringMap<Vec<Observation>> {
    let mut m: StringMap<Vec<Observation>> = StringMap::new();
    for o in obs {
        let key = o.drv_path.clone();
        m.append(&key, o);
    }
    m
}

#[test]
fn record_hit_batch_commits_hits_so_a_restart_skips_them() {
    let mut s = Store::new();
    record_hit_batch(
        &mut s,
        &[
            ("/nix/store/hit.drv".to_string(), true),
            ("/nix/store/miss.drv".to_string(), false),
        ],
    );

    let hit = s.load_observations("/nix/store/hit.drv").unwrap();
    assert_eq!(hit.len(), 1);
    assert_eq!(hit[0].outcome, Outcome::Built);
    assert!(s.load_observations("/nix/store/miss.drv").unwrap().is_empty());

    let cands = probe_candidates(
        &s,
        &[target("/nix/store/hit.drv"), target("/nix/store/miss.drv")],
    )
    .unwrap();
    assert_eq!(cands, vec!["/nix/store/miss.drv".to_string()]);
}

#[test]
fn drvs_to_materialize_matches_the_build_decision() {
    let mut s = Store::new();
    s.add_observation(&planted("/nix/store/built.drv", Outcome::Built));
    s.add_observation(&planted("/nix/store/cached.drv", Outcome::Built));
    s.add_observation(&planted("/nix/store/failed.drv", Outcome::Failed));
    s.add_observation(&Observation {
        drv_path: "/nix/store/failed-recorded.drv".into(),
        outcome: Outcome::Failed,
        blocker: vec!["/nix/store/out-of-failed-recorded".into()],
    });
    let at = |targets: &[Target], policy: BuildPolicy| {
        let drvs: Vec<String> = targets.iter().map(|t| t.drv_path.clone()).collect();
        let m = s.load_observations_many(&drvs).unwrap();
        members(&drvs_to_materialize(targets, &m, &set(&[]), policy))
    };
    let targets = vec![
        target("/nix/store/built.drv"),
        target("/nix/store/cached.drv"),
        target("/nix/store/failed.drv"),
        target("/nix/store/failed-recorded.drv"),
        target("/nix/store/new.drv"),
    ];

    let need = at(&targets, BuildPolicy::default());
    assert_eq!(
        need,
        vec!["/nix/store/failed.drv".to_string(), "/nix/store/new.drv".to_string()]
    );

    let cached_only = vec![
        target("/nix/store/built.drv"),
        target("/nix/store/cached.drv"),
        target("/nix/store/failed-recorded.drv"),
    ];
    assert!(at(&cached_only, BuildPolicy::default()).is_empty());

    let retry = BuildPolicy { retry: true };
    assert!(at(&targets, retry).contains(&"/nix/store/failed.drv".to_string()));
}

#[test]
fn drvs_needing_instantiation_keeps_only_the_absent() {
    let need = set(&["/nix/store/present.drv", "/nix/store/absent.drv"]);
    let absent = set(&["/nix/store/absent.drv"]);
    assert_eq!(
        members(&retain_absent(&need, &absent)),
        vec!["/nix/store/absent.drv".to_string()]
    );
    assert_eq!(
        members(&drvs_needing_instantiation(need, &absent)),
        vec!["/nix/store/absent.drv".to_string()]
    );
}

#[test]
fn drvs_needing_instantiation_empty_is_noop() {
    assert!(drvs_needing_instantiation(StringSet::new(), &StringSet::new()).is_empty());
}

#[test]
fn direct_failure_self_heals_when_own_outputs_are_valid() {
    let valid = "/nix/store/11111111111111111111111111111111-hostname";
    let invalid = "/nix/store/00000000000000000000000000000000-npb-self-heal-absent";
    let obs = known(vec![
        planted_with("/a.drv", Outcome::Failed, &[valid]),
        planted_with("/b.drv", Outcome::Failed, &[invalid]),
        planted_with("/c.drv", Outcome::Failed, &[]),
        planted_with("/d.drv", Outcome::Failed, &[valid]),
        planted("/d.drv", Outcome::Built),
    ]);
    let targets: Vec<Target> =
        ["/a.drv", "/b.drv", "/c.drv", "/d.drv"].iter().map(|d| target(d)).collect();

    assert_eq!(recheck_queries(&targets, &obs), strings(&["/c.drv"]));
    let outs = outputs(&[]);
    assert_eq!(recheck_paths(&targets, &obs, &outs), strings(&[valid, invalid]));
    let re = recheck_direct_failures(&targets, &obs, &outs, &set(&[invalid]));

    assert!(re.heal.contains("/a.drv"), "valid own outputs must heal");
    assert!(!re.heal.contains("/b.drv"), "missing outputs stay sticky");
    assert!(!re.heal.contains("/c.drv"), "no recorded outputs -> no heal");
    assert!(!re.heal.contains("/d.drv"), "a recorded Built already decides it");
    assert!(re.record_outputs.is_empty(), "already-recorded failures aren't re-recorded");
}

#[test]
fn outputs_from_a_recipe_are_recorded_once() {
    let obs = known(vec![planted("/nix/store/c.drv", Outcome::Failed)]);
    let targets = [target("/nix/store/c.drv")];
    let outs = outputs(&[("/nix/store/c.drv", &["/nix/store/c-out"])]);
    let re = recheck_direct_failures(&targets, &obs, &outs, &set(&["/nix/store/c-out"]));
    assert!(re.heal.is_empty());
    assert_eq!(
        re.record_outputs,
        vec![("/nix/store/c.drv".to_string(), strings(&["/nix/store/c-out"]))]
    );
    assert!(needs_selfheal_instantiate(&[planted("/x", Outcome::Failed)]));
    assert!(!needs_selfheal_instantiate(&[planted_with("/x", Outcome::Failed, &["/o"])]));
    assert!(!needs_selfheal_instantiate(&[planted("/x", Outcome::DepFailed)]));
}

#[test]
fn blocks_go_stale_with_their_culprit() {
    let obs = known(vec![
        planted_with("/t.drv", Outcome::DepFailed, &["/o1", "/o2"]),
        planted("/u.drv", Outcome::DepFailed),
    ]);
    let targets = [target("/t.drv"), target("/u.drv")];
    assert_eq!(dep_block_paths(&targets, &obs), strings(&["/o1", "/o2"]));
    let held = stale_dep_blocks(&targets, &obs, &set(&["/o2"]));
    assert_eq!(held.get("/t.drv"), Some(&false));
    assert_eq!(held.get("/u.drv"), None);
    let gone = stale_dep_blocks(&targets, &obs, &set(&[]));
    assert_eq!(gone.get("/t.drv"), Some(&true));
}

#[test]
fn stale_dependency_block_reopens_the_dependent() {
    let mut s = Store::new();
    s.add_observation(&planted_with(
        "/nix/store/top.drv",
        Outcome::DepFailed,
        &["/nix/store/dep-out"],
    ));
    let begin = |s: &Store| {
        Run::begin(s, vec![target("/nix/store/top.drv")], BuildPolicy::default()).unwrap()
    };
    assert!(begin(&s).plan(&set(&["/nix/store/dep-out"])).is_empty());
    assert_eq!(begin(&s).plan(&set(&[])), vec![0]);
}

#[test]
fn healed_failures_are_recorded_as_successes() {
    let mut s = Store::new();
    s.add_observation(&planted_with("/nix/store/a.drv", Outcome::Failed, &["/nix/store/a-out"]));
    s.add_observation(&planted("/nix/store/b.drv", Outcome::Failed));
    let mut run = Run::begin(
        &s,
        vec![target("/nix/store/a.drv"), target("/nix/store/b.drv")],
        BuildPolicy::default(),
    )
    .unwrap();
    let outs = outputs(&[("/nix/store/b.drv", &["/nix/store/b-out"])]);
    let re = run.heal(&mut s, &outs, &set(&["/nix/store/b-out"]));
    assert_eq!(members(&re.heal), strings(&["/nix/store/a.drv"]));
    let a = s.load_observations("/nix/store/a.drv").unwrap();
    assert_eq!(a.last().unwrap().outcome, Outcome::Built);
    let b = s.load_observations("/nix/store/b.drv").unwrap();
    assert_eq!(b.last().unwrap().blocker, strings(&["/nix/store/b-out"]));
    assert!(run.plan(&set(&[])).is_empty());
}

#[test]
fn a_known_dependency_failure_skips_its_dependent() {
    let mut s = Store::new();
    s.add_observation(&planted("/nix/store/dep.drv", Outcome::Failed));
    let run = Run::begin(
        &s,
        vec![target("/nix/store/top.drv"), target("/nix/store/free.drv")],
        BuildPolicy::default(),
    )
    .unwrap();
    let to_build = run.plan(&set(&[]));
    assert_eq!(to_build, vec![0, 1]);
    let failing = failing_now(&s, BuildPolicy::default());
    let closure = strings(&["/nix/store/top.drv", "/nix/store/dep.drv", "/nix/store/free.drv"]);
    let reach = suspects(&closure, &failing, None);
    assert_eq!(members(&reach), strings(&["/nix/store/dep.drv"]));
    let outs = outputs(&[("/nix/store/dep.drv", &["/nix/store/dep-out"])]);
    assert_eq!(failing_paths(&reach, &outs), strings(&["/nix/store/dep-out"]));
    let verified = verify_failing(&reach, &outs, &set(&["/nix/store/dep-out"]));
    let mut p = Propagation::begin(&run, to_build, verified);
    assert_eq!(p.next(&run).as_deref(), Some("/nix/store/top.drv"));
    p.blame(&run, &mut s, &strings(&["/nix/store/dep.drv", "/nix/store/top.drv"]));
    assert_eq!(p.next(&run).as_deref(), Some("/nix/store/free.drv"));
    p.blame(&run, &mut s, &strings(&["/nix/store/free.drv"]));
    assert_eq!(p.next(&run), None);
    assert_eq!(p.finish(&run), vec![1]);
    let top = s.load_observations("/nix/store/top.drv").unwrap();
    assert_eq!(top.len(), 1);
    assert_eq!(top[0].outcome, Outcome::DepFailed);
    assert_eq!(top[0].blocker, strings(&["/nix/store/dep-out"]));
    assert_eq!(s.load_observations("/nix/store/dep.drv").unwrap().len(), 1);
}

#[test]
fn a_target_does_not_block_itself() {
    let mut s = Store::new();
    s.add_observation(&planted("/nix/store/t.drv", Outcome::DepFailed));
    let failing = failing_now(&s, BuildPolicy::default());
    let closure = strings(&["/nix/store/t.drv"]);
    assert!(suspects(&closure, &failing, Some("/nix/store/t.drv")).is_empty());
    assert!(failing_now(&s, BuildPolicy { retry: true }).is_empty());
    let run = Run::begin(
        &s,
        vec![target("/nix/store/t.drv")],
        BuildPolicy { retry: true },
    )
    .unwrap();
    let verified = outputs(&[("/nix/store/t.drv", &["/nix/store/t-out"])]);
    let mut p = Propagation::begin(&run, run.plan(&set(&[])), verified);
    p.blame(&run, &mut s, &closure);
    assert_eq!(p.finish(&run), vec![0]);
}

#[test]
fn a_healed_dependency_blocks_nothing() {
    let reach = set(&["/nix/store/dep.drv", "/nix/store/none.drv"]);
    let outs = outputs(&[("/nix/store/dep.drv", &["/nix/store/dep-out"])]);
    let verified = verify_failing(&reach, &outs, &set(&[]));
    assert!(!verified.contains_key("/nix/store/dep.drv"));
    assert!(verified.contains_key("/nix/store/none.drv"));
}

#[test]
fn stops_record_outcomes_as_they_come() {
    let mut s = Store::new();
    let drvs = strings(&["/nix/store/a.drv", "/nix/store/b.drv", "/nix/store/c.drv"]);
    let mut batch = Batch::begin(drvs);
    assert!(batch.ran());
    batch.finished(&mut s, "/nix/store/a.drv", true, strings(&["/nix/store/a-out"]));
    batch.finished(&mut s, "/nix/store/b.drv", false, strings(&["/nix/store/b-out"]));
    batch.finished(&mut s, "/nix/store/dep.drv", false, strings(&["/nix/store/dep-out"]));
    batch.finished(&mut s, "/nix/store/ok.drv", true, strings(&["/nix/store/ok-out"]));
    let of = |s: &Store, d: &str| s.load_observations(d).unwrap();
    assert_eq!(of(&s, "/nix/store/a.drv")[0].outcome, Outcome::Built);
    assert!(of(&s, "/nix/store/a.drv")[0].blocker.is_empty());
    assert_eq!(of(&s, "/nix/store/b.drv")[0].blocker, strings(&["/nix/store/b-out"]));
    assert_eq!(of(&s, "/nix/store/dep.drv")[0].outcome, Outcome::Failed);
    assert!(of(&s, "/nix/store/ok.drv").is_empty());
    assert_eq!(members(&batch.leftover()), strings(&["/nix/store/c.drv"]));
    assert!(!Batch::begin(Vec::new()).ran());
}

#[test]
fn leftovers_get_only_what_was_observed() {
    let mut s = Store::new();
    let none = outputs(&[]);
    let culprit = outputs(&[("/nix/store/dep.drv", &["/nix/store/dep-out"])]);
    attribute(&mut s, "/nix/store/a.drv", true, &none);
    attribute(&mut s, "/nix/store/b.drv", false, &culprit);
    attribute(&mut s, "/nix/store/c.drv", false, &none);
    assert_eq!(s.load_observations("/nix/store/a.drv").unwrap()[0].outcome, Outcome::Built);
    let b = s.load_observations("/nix/store/b.drv").unwrap();
    assert_eq!(b[0].outcome, Outcome::DepFailed);
    assert_eq!(b[0].blocker, strings(&["/nix/store/dep-out"]));
    assert!(s.load_observations("/nix/store/c.drv").unwrap().is_empty());

    let outs = outputs(&[("/a", &["/a1", "/a2"]), ("/b", &["/b1"]), ("/c", &[])]);
    let built = build_outcomes(&strings(&["/a", "/b", "/c"]), &outs, &set(&["/a2"]));
    assert_eq!(built.get("/a"), Some(&false));
    assert_eq!(built.get("/b"), Some(&true));
    assert_eq!(built.get("/c"), Some(&false));
    assert!(drv_built(&strings(&["/b1"]), &set(&["/a2"])));
    assert!(!drv_built(&[], &set(&[])));
}

fn event(action: &str, id: Option<u64>, typ: Option<i64>, field: Option<&str>) -> NixEvent {
    NixEvent { action: action.into(), id, typ, field: field.map(str::to_string) }
}

#[test]
fn builds_stop_by_the_number_they_started_with() {
    let mut b = Builds::new();
    assert_eq!(
        b.event(&event("start", Some(7), Some(ACT_BUILD), Some("/nix/store/a.drv"))),
        Activity::Started("/nix/store/a.drv".into())
    );
    assert_eq!(b.event(&event("start", Some(8), Some(1), Some("/x"))), Activity::Other);
    assert_eq!(b.event(&event("stop", Some(8), None, None)), Activity::Other);
    assert_eq!(b.event(&event("result", Some(7), None, None)), Activity::Other);
    assert_eq!(
        b.event(&event("stop", Some(7), None, None)),
        Activity::Stopped("/nix/store/a.drv".into())
    );
    assert_eq!(b.event(&event("stop", Some(7), None, None)), Activity::Other);
}

#[test]
fn the_plain_log_lines_up() {
    assert_eq!(event_of("@nix {\"action\":\"stop\"}").as_deref(), Some("{\"action\":\"stop\"}"));
    assert_eq!(event_of("building"), None);
    assert_eq!(verb_line("building", "/nix/store/a.drv"), "building  /nix/store/a.drv");
    assert_eq!(stop_line(true, "/nix/store/a.drv"), "built     /nix/store/a.drv");
    assert_eq!(stop_line(false, "/nix/store/a.drv"), "failed    /nix/store/a.drv");
}

#[test]
fn one_command_builds_the_whole_set() {
    assert_eq!(
        batch_args(&strings(&["/nix/store/a.drv", "/nix/store/b.drv"])),
        strings(&[
            "build",
            "/nix/store/a.drv^*",
            "/nix/store/b.drv^*",
            "--keep-going",
            "--no-link",
            "--log-format",
            "internal-json",
            "-v",
            "--extra-experimental-features",
            "nix-command",
        ])
    );
}

#[test]
fn the_probe_shows_and_records() {
    let mut s = Store::new();
    s.add_observation(&planted("/nix/store/old.drv", Outcome::Failed));
    let mut tree = Tree::new(0, false, false);
    let targets = [
        target("/nix/store/old.drv"),
        target("/nix/store/a.drv"),
        target("/nix/store/b.drv"),
        target("/nix/store/a.drv"),
    ];
    let p = probe_prepare(&s, &targets, &mut tree).unwrap().unwrap();
    assert_eq!(p.to_probe, strings(&["/nix/store/a.drv", "/nix/store/b.drv"]));
    p.start(&mut tree);
    assert_eq!(tree.render(0, 0)[0], "probe       0 /      2");
    p.landed(
        &mut tree,
        &mut s,
        &[("/nix/store/a.drv".to_string(), true), ("/nix/store/b.drv".to_string(), false)],
    );
    p.finish(&mut tree);
    assert_eq!(tree.render(0, 0)[0], "probe       2 /      2");
    let again = [target("/nix/store/old.drv"), target("/nix/store/a.drv")];
    let mut quiet = Tree::new(0, false, false);
    assert!(probe_prepare(&s, &again, &mut quiet).unwrap().is_none());
    assert!(quiet.is_empty());
}
