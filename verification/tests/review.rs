use npd::evalfile::ChangedAttr;
use npd::model::{Observation, Outcome, Rev};
use npd::ordered::set_of;
use npd::report::State;
use npd::review::{
    commit_of, commit_query, entries_of, host_system, inst_requests, plain_targets,
    resolve_base_head, resolve_systems, targets_of, BaseFrom,
};
use npd::store::{LogRow, Store, StoreError};

fn changed(attr: &str, base: Option<&str>, head: Option<&str>) -> ChangedAttr {
    ChangedAttr {
        attr: attr.into(),
        base_drv: base.map(str::to_string),
        head_drv: head.map(str::to_string),
        base_threw: false,
        head_threw: false,
    }
}

#[test]
fn systems_have_nix_names() {
    assert_eq!(host_system("aarch64", "macos"), "aarch64-darwin");
    assert_eq!(host_system("x86_64", "linux"), "x86_64-linux");
    assert_eq!(resolve_systems(vec![], "h".into()), vec!["h".to_string()]);
    assert_eq!(resolve_systems(vec!["a".into()], "h".into()), vec!["a".to_string()]);
}

#[test]
fn revisions_have_defaults() {
    assert_eq!(
        resolve_base_head(None, None),
        (BaseFrom::MergeBase("master".into()), "HEAD".to_string())
    );
    assert_eq!(
        resolve_base_head(Some("b".into()), Some("h".into())),
        (BaseFrom::Revision("b".into()), "h".to_string())
    );
    assert_eq!(commit_query("HEAD~1"), "HEAD~1^{commit}");
}

#[test]
fn both_sides_are_built_once() {
    let per_system = [
        (
            "s1".to_string(),
            vec![
                changed("a", Some("/1"), Some("/2")),
                changed("b", Some("/1"), None),
                changed("c", None, Some("/3")),
            ],
        ),
        ("s2".to_string(), vec![changed("a", Some("/1"), None)]),
    ];
    let t = targets_of(&per_system);
    let got: Vec<(&str, &str, &str)> =
        t.iter().map(|t| (t.attr.as_str(), t.system.as_str(), t.drv_path.as_str())).collect();
    assert_eq!(
        got,
        vec![("a", "s1", "/1"), ("a", "s1", "/2"), ("c", "s1", "/3"), ("a", "s2", "/1")]
    );
    assert_eq!(plain_targets(&t)[2].drv_path, "/3");
}

#[test]
fn entries_follow_the_log() {
    let mut s = Store::new();
    for (drv, outcome) in [
        ("/nix/store/ok.drv", Outcome::Built),
        ("/nix/store/bad.drv", Outcome::Failed),
        ("/nix/store/dep.drv", Outcome::DepFailed),
    ] {
        s.add_observation(&Observation { drv_path: drv.into(), outcome, blocker: Vec::new() });
    }
    let e = entries_of(
        &s,
        &[
            changed("a", Some("/nix/store/ok.drv"), Some("/nix/store/bad.drv")),
            changed("b", None, Some("/nix/store/dep.drv")),
            changed("c", Some("/nix/store/new.drv"), None),
        ],
    )
    .unwrap();
    assert_eq!((e[0].base, e[0].head), (State::Built, State::Failed));
    assert_eq!((e[1].base, e[1].head), (State::Absent, State::Blocked));
    assert_eq!((e[2].base, e[2].head), (State::Unknown, State::Absent));
    assert_eq!(e[1].attr, "b");

    s.restore_row(LogRow { drv: "odd".into(), outcome: 5, blocker: None });
    let r = entries_of(&s, &[changed("o", None, Some("/nix/store/odd.drv"))]);
    assert!(matches!(r, Err(StoreError::UnknownOutcome(5))));
}

#[test]
fn commits_are_read_without_white_space() {
    assert_eq!(commit_of(b" 3f2a\n".to_vec()), Some("3f2a".to_string()));
    assert_eq!(commit_of("caf\u{e9}\n".as_bytes().to_vec()), Some("caf\u{e9}".to_string()));
    assert_eq!(commit_of(vec![0xff]), None);
}

#[test]
fn absent_recipes_are_requested_side_by_side() {
    let rev = |tree: &str, name: &str| Rev {
        tree: tree.into(),
        commit: name.into(),
        label: name.into(),
        display: name.into(),
    };
    let base = rev("t1", "base");
    let head = rev("t2", "head");
    let per_system = [(
        "s1".to_string(),
        vec![changed("a", Some("/1"), Some("/2")), changed("b", Some("/3"), Some("/4"))],
    )];
    let absent = set_of(&["/2".to_string(), "/3".to_string()]);
    let r = inst_requests(&base, &head, &per_system, &absent);
    assert_eq!(r.len(), 2);
    assert_eq!((r[0].rev.tree.as_str(), r[0].system.as_str()), ("t1", "s1"));
    assert_eq!(r[0].attrs, vec![("b".to_string(), "/3".to_string())]);
    assert_eq!((r[1].rev.tree.as_str(), r[1].system.as_str()), ("t2", "s1"));
    assert_eq!(r[1].attrs, vec![("a".to_string(), "/2".to_string())]);
}
