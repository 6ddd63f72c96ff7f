use npd::model::{Observation, Outcome};
use npd::store::{
    log_row, observation_of, outcome_code, outcome_from_code, restore_out, strip_out, LogRow,
    Store, StoreError, TestFact,
};

fn names(v: &[&str]) -> Vec<String> {
    v.iter().map(|x| x.to_string()).collect()
}

#[test]
fn observations_append_and_load() {
    let mut s = Store::new();

    assert!(s.load_observations("/nix/store/x.drv").unwrap().is_empty());

    let mk = |outcome| Observation {
        drv_path: "/nix/store/x.drv".into(),
        outcome,
        blocker: Vec::new(),
    };
    s.add_observation(&mk(Outcome::Failed));
    s.add_observation(&mk(Outcome::Built));

    let got = s.load_observations("/nix/store/x.drv").unwrap();
    assert_eq!(got.len(), 2);
    assert_eq!(got[0].outcome, Outcome::Failed);
    assert_eq!(got[1].outcome, Outcome::Built);
    assert!(s.load_observations("/nix/store/y.drv").unwrap().is_empty());

    let mut dep = mk(Outcome::DepFailed);
    dep.drv_path = "/nix/store/z.drv".into();
    dep.blocker = vec!["/nix/store/o1".into(), "/nix/store/o2".into()];
    s.add_observation(&dep);
    let got = s.load_observations("/nix/store/z.drv").unwrap();
    assert_eq!(got[0].blocker, vec!["/nix/store/o1", "/nix/store/o2"]);
    assert!(s.load_observations("/nix/store/x.drv").unwrap()[0].blocker.is_empty());
}

#[test]
fn failing_drvs_are_failures_only() {
    let mut s = Store::new();
    let obs = |drv: &str, outcome| Observation {
        drv_path: drv.into(),
        outcome,
        blocker: Vec::new(),
    };

    s.add_observation(&obs("/nix/store/a.drv", Outcome::Failed));
    s.add_observation(&obs("/nix/store/a.drv", Outcome::DepFailed));
    s.add_observation(&obs("/nix/store/b.drv", Outcome::Failed));
    s.add_observation(&obs("/nix/store/b.drv", Outcome::Built));
    s.add_observation(&obs("/nix/store/d.drv", Outcome::Built));
    s.add_observation(&obs("/nix/store/e.drv", Outcome::DepFailed));

    let failing = s.failing_drvs();
    let listed: Vec<String> = (0..failing.len()).map(|i| failing.at(i).clone()).collect();
    assert_eq!(listed, ["/nix/store/a.drv".to_string(), "/nix/store/e.drv".to_string()]);
}

#[test]
fn test_cache_round_trip_and_negative() {
    let mut s = Store::new();
    let (c, sys) = ("treeA", "aarch64-linux");

    assert!(s.tests_cached_pkgs(c, sys, &names(&["hello", "ripgrep"])).is_empty());

    let jobs = vec![
        TestFact {
            pkg_attr: "hello".into(),
            test_attr: "hello.tests.run".into(),
            drv_path: Some("/nix/store/a.drv".into()),
            skipped: false,
        },
        TestFact {
            pkg_attr: "hello".into(),
            test_attr: "hello.tests.version".into(),
            drv_path: Some("/nix/store/b.drv".into()),
            skipped: true,
        },
        TestFact {
            pkg_attr: "hello".into(),
            test_attr: "hello.tests.err".into(),
            drv_path: None,
            skipped: false,
        },
    ];
    s.cache_test_eval(c, sys, &names(&["hello", "ripgrep"]), &jobs);

    let done = s.tests_cached_pkgs(c, sys, &names(&["hello", "ripgrep", "curl"]));
    assert!(done.contains("hello") && done.contains("ripgrep") && !done.contains("curl"));

    let hd = s.tests_drvs_for(c, sys, &names(&["hello"]));
    assert_eq!(hd.len(), 2);
    assert_eq!(hd.get("hello.tests.run"), Some(&("/nix/store/a.drv".to_string(), false)));
    assert_eq!(hd.get("hello.tests.version"), Some(&("/nix/store/b.drv".to_string(), true)));
    assert_eq!(s.tests_drvs_for(c, sys, &names(&["ripgrep"])).len(), 0);
    assert!(s.tests_cached_pkgs("treeB", sys, &names(&["hello"])).is_empty());
}

#[test]
fn purge_tests_drops_one_key_only() {
    let mut s = Store::new();
    let sys = "aarch64-linux";
    let job = |t: &str, drv: &str| TestFact {
        pkg_attr: "hello".into(),
        test_attr: t.into(),
        drv_path: Some(drv.into()),
        skipped: false,
    };

    s.cache_test_eval(
        "treeA",
        sys,
        &names(&["hello"]),
        &[job("hello.tests.a", "/nix/store/a.drv")],
    );
    s.cache_test_eval(
        "treeB",
        sys,
        &names(&["hello"]),
        &[job("hello.tests.b", "/nix/store/b.drv")],
    );

    assert_eq!(s.purge_tests("treeA", sys), 1);
    assert!(s.tests_cached_pkgs("treeA", sys, &names(&["hello"])).is_empty());
    assert_eq!(s.tests_drvs_for("treeA", sys, &names(&["hello"])).len(), 0);
    assert!(s.tests_cached_pkgs("treeB", sys, &names(&["hello"])).contains("hello"));
    assert_eq!(s.tests_drvs_for("treeB", sys, &names(&["hello"])).len(), 1);

    assert_eq!(s.purge_tests("treeA", sys), 0);
}

#[test]
fn blocked_verdict_cache_round_trip_and_purge() {
    let mut s = Store::new();
    let sys = "aarch64-darwin";
    let (a, b, c) = (
        "matrix-synapse-plugins.matrix-synapse-ldap3".to_string(),
        "hello".to_string(),
        "ripgrep".to_string(),
    );

    assert_eq!(s.blocked_verdicts("treeA", sys, &names(&[&a])).len(), 0);

    s.cache_blocked("treeA", sys, &[(a.clone(), true), (b.clone(), false)]);
    let v = s.blocked_verdicts("treeA", sys, &names(&[&a, &b, &c]));
    assert_eq!(v.get(&a), Some(&true));
    assert_eq!(v.get(&b), Some(&false));
    assert_eq!(v.get(&c), None);

    assert_eq!(s.blocked_verdicts("treeB", sys, &names(&[&a])).len(), 0);

    s.cache_blocked("treeB", sys, &[(a.clone(), true)]);
    s.purge_tests("treeA", sys);
    assert_eq!(s.blocked_verdicts("treeA", sys, &names(&[&a])).len(), 0);
    assert_eq!(s.blocked_verdicts("treeB", sys, &names(&[&a])).get(&a), Some(&true));
}

#[test]
fn patch_tree_round_trip() {
    let mut s = Store::new();

    assert_eq!(s.patch_tree("anchorsha", "a...b"), None);
    s.put_patch_tree("anchorsha", "a...b", "treesha");
    assert_eq!(s.patch_tree("anchorsha", "a...b"), Some("treesha".to_string()));
    assert_eq!(s.patch_tree("anchorsha", "a...c"), None);
    assert_eq!(s.patch_tree("other", "a...b"), None);
    s.put_patch_tree("anchorsha", "a...b", "treesha");
    assert_eq!(s.patch_tree("anchorsha", "a...b"), Some("treesha".to_string()));
}

#[test]
fn outcomes_have_codes() {
    assert_eq!(outcome_code(Outcome::Built), 0);
    assert_eq!(outcome_code(Outcome::Failed), 1);
    assert_eq!(outcome_code(Outcome::DepFailed), 2);
    for o in [Outcome::Built, Outcome::Failed, Outcome::DepFailed] {
        assert_eq!(outcome_from_code(outcome_code(o)), Ok(o));
    }
    assert_eq!(outcome_from_code(9), Err(StoreError::UnknownOutcome(9)));
}

#[test]
fn rows_hold_stripped_paths() {
    assert_eq!(strip_out("/nix/store/o1"), "o1");
    assert_eq!(restore_out("o1"), "/nix/store/o1");
    let o = Observation {
        drv_path: "/nix/store/x.drv".into(),
        outcome: Outcome::Failed,
        blocker: vec!["/nix/store/o1".into(), "/nix/store/o2".into()],
    };
    let row = log_row(&o);
    assert_eq!(row.drv, "x");
    assert_eq!(row.blocker.as_deref(), Some("o1\no2"));
    assert_eq!(observation_of(&row), Ok(o));
}

#[test]
fn an_unknown_code_is_an_error_only_where_it_is_asked_for() {
    let mut s = Store::new();
    s.restore_row(LogRow { drv: "x".into(), outcome: 7, blocker: None });
    s.add_observation(&Observation {
        drv_path: "/nix/store/y.drv".into(),
        outcome: Outcome::Built,
        blocker: Vec::new(),
    });
    assert_eq!(s.load_observations("/nix/store/x.drv"), Err(StoreError::UnknownOutcome(7)));
    assert_eq!(s.load_observations("/nix/store/y.drv").unwrap().len(), 1);
}

#[test]
fn many_histories_load_at_once() {
    let mut s = Store::new();
    s.record_cache_hits(&names(&["/nix/store/a.drv", "/nix/store/b.drv"]));
    let m = s
        .load_observations_many(&names(&["/nix/store/a.drv", "/nix/store/c.drv"]))
        .unwrap();
    assert_eq!(m.len(), 1);
    assert_eq!(m.get("/nix/store/a.drv").unwrap()[0].outcome, Outcome::Built);
    assert!(m.get("/nix/store/c.drv").is_none());
}

#[test]
fn rows_of_the_log_come_in_order() {
    let mut s = Store::new();
    assert_eq!(s.log_len(), 0);
    s.record_cache_hits(&names(&["/nix/store/a.drv", "/nix/store/b.drv"]));
    assert_eq!(s.log_len(), 2);
    assert_eq!(s.row(0), &LogRow { drv: "a".into(), outcome: 0, blocker: None });
    assert_eq!(s.row(1), &LogRow { drv: "b".into(), outcome: 0, blocker: None });
}
