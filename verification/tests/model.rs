use npd::model::{
    BuildPolicy, Coverage, Decision, Observation, Outcome, Profile, Resolved,
};

fn obs(outcome: Outcome) -> Observation {
    Observation { drv_path: "/nix/store/x.drv".into(), outcome, blocker: Vec::new() }
}

#[test]
fn never_observed_builds() {
    assert_eq!(BuildPolicy::default().decide(&[], false), Decision::Build);
}

#[test]
fn recorded_success_skips() {
    let o = [obs(Outcome::Built)];
    assert_eq!(BuildPolicy::default().decide(&o, false), Decision::SkipOk);
}

#[test]
fn only_failures_skip_unless_retry() {
    let o = [obs(Outcome::Failed)];
    assert_eq!(BuildPolicy::default().decide(&o, false), Decision::SkipFail);
    let p = BuildPolicy { retry: true };
    assert_eq!(p.decide(&o, false), Decision::Build);
}

#[test]
fn flaky_success_wins() {
    let o = [obs(Outcome::Failed), obs(Outcome::Built)];
    assert_eq!(BuildPolicy::default().decide(&o, false), Decision::SkipOk);
}

#[test]
fn dep_block_holds_until_culprit_heals() {
    let o = [obs(Outcome::DepFailed)];
    assert_eq!(BuildPolicy::default().decide(&o, false), Decision::SkipFail);
    assert_eq!(BuildPolicy::default().decide(&o, true), Decision::Build);
}

#[test]
fn direct_failure_stays_sticky_even_when_a_dep_block_is_stale() {
    let o = [obs(Outcome::Failed), obs(Outcome::DepFailed)];
    assert_eq!(BuildPolicy::default().decide(&o, true), Decision::SkipFail);
    let retry = BuildPolicy { retry: true };
    assert_eq!(retry.decide(&o, true), Decision::Build);
}

#[test]
fn the_order_of_facts_does_not_matter() {
    let a = [obs(Outcome::Failed), obs(Outcome::Built), obs(Outcome::DepFailed)];
    let b = [obs(Outcome::DepFailed), obs(Outcome::Failed), obs(Outcome::Built)];
    for stale in [false, true] {
        for retry in [false, true] {
            let p = BuildPolicy { retry };
            assert_eq!(p.decide(&a, stale), p.decide(&b, stale));
        }
    }
}

#[test]
fn profile_token_and_qualify() {
    let strict = Profile { broken: false, unsupported: false, insecure: false };
    let all = Profile { broken: true, unsupported: true, insecure: true };
    let ui = Profile { broken: false, unsupported: true, insecure: true };
    assert_eq!(strict.token(), "---");
    assert_eq!(all.token(), "ubi");
    assert_eq!(ui.token(), "u-i");
    assert_eq!(strict.qualify("x86_64-linux"), "---/x86_64-linux");
    assert_eq!(all.qualify("aarch64-darwin"), "ubi/aarch64-darwin");
}

#[test]
fn coverage_matches_attrs_exactly() {
    assert_eq!(Coverage::default(), Coverage::All);
    assert!(Coverage::All.keeps("git"));
    assert!(Coverage::All.only().is_none());

    let skip = Coverage::Except(vec!["git".into(), "python313Packages.requests".into()]);
    assert!(!skip.keeps("git"));
    assert!(!skip.keeps("python313Packages.requests"));
    assert!(skip.keeps("gitMinimal"));
    assert!(skip.keeps("python313Packages.urllib3"));
    assert!(
        Coverage::Except(vec!["python313Packages".into()]).keeps("python313Packages.requests")
    );
    assert!(skip.keeps("git.tests.withInstallCheck"));
    let quoted = Coverage::Except(vec!["rubyPackages.\"http_parser.rb\"".into()]);
    assert!(!quoted.keeps("rubyPackages.\"http_parser.rb\""));
    assert!(quoted.keeps("rubyPackages.http_parser"));

    let only = Coverage::Only(vec!["git".into()]);
    assert_eq!(only.only(), Some(&["git".to_string()][..]));
    assert!(only.keeps("anything"));
}

#[test]
fn resolved_distinguishes_absent_from_threw() {
    let absent = Resolved::absent();
    assert_eq!(absent.drv_path, None);
    assert!(!absent.threw);
    let threw = Resolved { drv_path: None, threw: true };
    assert_ne!(absent, threw);
}
