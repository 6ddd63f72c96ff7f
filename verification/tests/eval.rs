use npd::eval::{
    cgroup_dirs, cgroup_mem_limit_mb, cgroup_of, enumerate_names, eval_jobs_args, eval_pairs,
    eval_slots, eval_tests, eval_two, instantiate_execute, instantiate_prepare, integrity_gate,
    physical_mem_mb, raw_to_attr_eval, raw_to_test_job, read_names, total_mem_mb, unfinished, BadNames, EvalAborted,
    InstRequest, LineRing, RawJob, SLOT_MEM_MB, TESTS_SLOT_MEM_MB,
};
use npd::expr::{
    build_expr, build_tests_expr, names_expr, nix_escape, nix_string_list, profile_config,
    select_expr, shard_expr,
};
use npd::live::Tree;
use npd::model::{AttrEval, Profile, Rev};
use npd::ordered::set_of;
use npd::shards::{recovery, Next, Recovery};

fn strings(v: &[&str]) -> Vec<String> {
    v.iter().map(|x| x.to_string()).collect()
}

/// The jobs of a stream of lines, as the evaluator prints them.
fn parse_jobs(stdout: &str) -> Vec<AttrEval> {
    let mut out = Vec::new();
    for item in serde_json::Deserializer::from_str(stdout).into_iter::<serde_json::Value>() {
        let job = item.unwrap();
        let path = job["attrPath"].as_array().unwrap();
        out.push(raw_to_attr_eval(RawJob {
            attr: job["attr"].as_str().unwrap().to_string(),
            attr_path: path.iter().map(|p| p.as_str().unwrap().to_string()).collect(),
            drv_path: job.get("drvPath").and_then(|d| d.as_str()).map(str::to_string),
        }));
    }
    out
}

#[test]
fn parses_success_and_threw_lines() {
    let stdout = [
        r#"{"attr":"hello","attrPath":["hello"],"drvPath":"/nix/store/a-hello.drv","system":"aarch64-linux"}"#,
        r#"{"attr":"bad","attrPath":["bad"],"error":"boom","fatal":false}"#,
        "",
    ]
    .join("\n");
    let attrs = parse_jobs(&stdout);
    assert_eq!(attrs.len(), 2);

    assert_eq!(attrs[0].attr, "hello");
    assert_eq!(attrs[0].drv_path.as_deref(), Some("/nix/store/a-hello.drv"));

    assert_eq!(attrs[1].attr, "bad");
    assert_eq!(attrs[1].drv_path, None);
}

#[test]
fn profile_config_reflects_the_allow_flags() {
    let strict = Profile { broken: false, unsupported: false, insecure: false };
    assert_eq!(profile_config(strict), "{ allowUnfree = true; allowAliases = false; }");
    let all = Profile { broken: true, unsupported: true, insecure: true };
    let c = profile_config(all);
    assert!(c.contains("allowBroken = true"));
    assert!(c.contains("allowUnsupportedSystem = true"));
    assert!(c.contains("allowInsecurePredicate = _: true"));
}

#[test]
fn full_expr_fetches_and_imports() {
    let full = build_expr("/repo", "abc123", "aarch64-linux", "{ allowBroken = true; }");
    assert!(full.contains(r#"builtins.fetchGit { url = "/repo"; rev = "abc123"; }"#));
    assert!(full.contains("allowBroken = true"));
}

#[test]
fn eval_slots_from_invariants() {
    const G: u64 = 1024;
    assert_eq!(eval_slots(32, 62 * G, SLOT_MEM_MB), 31);
    assert_eq!(eval_slots(18, 31 * G, SLOT_MEM_MB), 15);
    assert_eq!(eval_slots(18, 16 * G, SLOT_MEM_MB), 8);
    assert_eq!(eval_slots(18, 256 * G, SLOT_MEM_MB), 18);
    assert_eq!(eval_slots(4, 2 * G, SLOT_MEM_MB), 1);
    assert_eq!(eval_slots(18, 31 * G, TESTS_SLOT_MEM_MB), 7);
}

#[test]
fn recovery_ladder_is_ordered_and_bottoms_out() {
    assert_eq!(recovery(0, 36, 4), Recovery::Done);
    assert_eq!(recovery(0, 1, 1), Recovery::Done);
    assert_eq!(recovery(16, 36, 4), Recovery::Retry);
    assert_eq!(recovery(36, 36, 4), Recovery::Slots(4, 2));
    assert_eq!(recovery(36, 36, 2), Recovery::Slots(2, 1));
    assert_eq!(recovery(36, 36, 1), Recovery::Split(18));
    assert_eq!(recovery(3, 3, 1), Recovery::Split(1));
    assert_eq!(recovery(2, 2, 1), Recovery::Split(1));
    assert_eq!(recovery(1, 1, 1), Recovery::GiveUp);
}

#[test]
fn shard_expr_subsets_the_import() {
    let e = shard_expr(
        "/repo",
        "abc123",
        "aarch64-linux",
        &["hello".into(), "with\"quote".into()],
        "{ allowUnfree = true; }",
    );
    assert!(e.contains(r#"builtins.fetchGit { url = "/repo"; rev = "abc123"; }"#));
    assert!(e.contains("builtins.listToAttrs"));
    assert!(e.contains(r#""hello" "#));
    assert!(e.contains(r#""with\"quote" "#));
}

#[test]
fn escapes_read_back_as_text() {
    assert_eq!(nix_escape("a\"b\\c${d}"), "a\\\"b\\\\c\\${d}");
    assert_eq!(nix_escape("plain $5"), "plain $5");
    assert_eq!(nix_string_list(&strings(&["a", "b\"c"])), "\"a\" \"b\\\"c\" ");
}

#[test]
fn the_other_expressions_share_the_import() {
    let import = r#"builtins.fetchGit { url = "/repo"; rev = "abc123"; }"#;
    let config = "{ allowUnfree = true; }";
    let strict = Profile { broken: false, unsupported: false, insecure: false };
    let names = names_expr("/repo", "abc123", "x86_64-linux", config);
    assert!(names.contains(import) && names.contains("attrNames"));
    let select = select_expr("/repo", "abc123", "x86_64-linux", &strings(&["a.b"]), config);
    assert!(select.contains(import) && select.contains("\"a.b\""));
    let tests =
        build_tests_expr("/repo", "abc123", "x86_64-linux", &strings(&["hello"]), strict);
    assert!(tests.contains("abc123") && tests.contains("\"hello\""));
}

#[test]
fn tests_are_labelled_by_their_path() {
    let job = raw_to_test_job(RawJob {
        attr: "hello.tests.\"a.b\"".into(),
        attr_path: strings(&["hello", "tests", "a.b"]),
        drv_path: None,
    });
    assert_eq!(job.pkg_attr, "hello");
    assert_eq!(job.test_attr, "hello.tests.a.b");
    assert_eq!(job.drv_path, None);
}

#[test]
fn the_marker_of_a_set_is_no_name() {
    assert_eq!(
        enumerate_names(strings(&["b", "recurseForDerivations", "a"])),
        strings(&["b", "a"])
    );
}

#[test]
fn evaluator_arguments() {
    assert_eq!(
        eval_jobs_args(2, 4096, false, "/tmp/e.nix"),
        strings(&[
            "--workers",
            "2",
            "--max-memory-size",
            "4096",
            "--no-instantiate",
            "/tmp/e.nix"
        ])
    );
    assert!(!eval_jobs_args(1, 1, true, "f").contains(&"--no-instantiate".to_string()));
}

#[test]
fn the_ring_keeps_the_last_twenty_lines() {
    let mut ring = LineRing::new();
    for i in 0..25 {
        ring.push(format!("line {i}"));
    }
    let text = ring.text();
    assert!(text.starts_with("line 5\n"));
    assert!(text.ends_with("line 24"));
    assert_eq!(text.lines().count(), 20);
}

#[test]
fn an_abort_is_told_by_its_last_words() {
    let e = EvalAborted {
        status: "signal: 9".into(),
        streamed: 3,
        stderr_tail: "first\n  error: boom  \n\n".into(),
    };
    assert_eq!(e.summary(), "signal: 9 — error: boom");
    assert!(e.message().starts_with("signal: 9 after streaming 3 job(s)"));
    assert!(e.message().ends_with("\n\n"));
    assert_eq!(unfinished("HEAD x"), "nix-eval-jobs did not finish evaluating HEAD x");
}

#[test]
fn truncated_output_is_of_no_use() {
    assert_eq!(integrity_gate(true, "0".into(), vec![1, 2], String::new()), Ok(vec![1, 2]));
    let e = integrity_gate(false, "exit 1".into(), vec![1, 2], "tail".into()).unwrap_err();
    assert_eq!((e.status.as_str(), e.streamed, e.stderr_tail.as_str()), ("exit 1", 2, "tail"));
}

#[test]
fn memory_is_what_the_limits_leave() {
    assert_eq!(total_mem_mb(16384, Some(4096)), 4096);
    assert_eq!(total_mem_mb(16384, Some(32768)), 16384);
    assert_eq!(total_mem_mb(16384, None), 16384);
    assert_eq!(
        cgroup_mem_limit_mb(&strings(&["max\n", "2147483648\n", "4294967296\n"])),
        Some(2048)
    );
    assert_eq!(cgroup_mem_limit_mb(&strings(&["max\n"])), None);
    let meminfo = "MemTotal:       16777216 kB\nMemFree: 1 kB\n";
    assert_eq!(physical_mem_mb(Some(meminfo), None), 16384);
    assert_eq!(physical_mem_mb(None, Some("8589934592\n")), 8192);
    assert_eq!(physical_mem_mb(None, Some("2147483648\n")), 2048);
    assert_eq!(physical_mem_mb(None, None), 8192);
}

#[test]
fn limits_are_looked_for_up_the_groups() {
    let rel = cgroup_of("12:cpu:/x\n0::/user.slice/app\n").unwrap();
    assert!(rel.contains("user.slice/app"));
    let dirs = cgroup_dirs(&rel);
    assert!(dirs[0].ends_with("user.slice/app"));
    assert!(dirs.len() >= 2);
    assert_eq!(cgroup_of("12:cpu:/x\n"), None);
}

fn rev(tree: &str, display: &str) -> Rev {
    Rev {
        tree: tree.into(),
        commit: format!("{tree}-commit"),
        label: format!("{tree}-commit"),
        display: display.into(),
    }
}

#[test]
fn each_missing_evaluation_is_planned_once() {
    let base = rev("t1", "master");
    let head = rev("t2", "HEAD");
    let pairs = eval_two(&base, &head, &strings(&["x86_64-linux"]));
    assert_eq!(pairs.len(), 2);
    let mut tree = Tree::new(0, false, false);
    let plan = eval_pairs(&mut tree, &pairs, &[true, false]).unwrap();
    assert_eq!(plan.todo.len(), 1);
    assert_eq!(plan.cached, strings(&["x86_64-linux"]));
    assert!(plan.labels[0].contains("HEAD"));
    let mut run = plan.enumerate(&mut tree, 1);
    assert_eq!(run.next(&mut tree, 0), Next::Run);
    let names = run.landed(&mut tree, 0, strings(&["a", "b"])).unwrap();
    run.settled(&mut tree, 0);
    assert_eq!(run.next(&mut tree, 0), Next::Exit);
    let mut second = plan.evaluate(&mut tree, &[names], 1);
    assert_eq!(second.next(&mut tree, 0), Next::Run);
    assert_eq!(second.shard(0).unwrap().items, strings(&["a", "b"]));

    let mut quiet = Tree::new(0, false, false);
    assert!(eval_pairs(&mut quiet, &pairs, &[true, true]).is_none());
    assert!(quiet.is_empty());
}

#[test]
fn tests_run_one_shard_for_each_request() {
    let mut tree = Tree::new(0, false, false);
    let a = tree.counter("HEAD", 0, -1);
    let requests =
        [(rev("t1", "HEAD"), "x86_64-linux".to_string(), strings(&["p1", "p2", "p3"]))];
    let mut run = eval_tests(&mut tree, &requests, &[a], 4).unwrap();
    assert_eq!(run.next(&mut tree, 0), Next::Run);
    assert_eq!(run.shard(0).unwrap().items.len(), 3);
    assert!(eval_tests(&mut tree, &[], &[], 4).is_none());
}

#[test]
fn instantiation_skips_what_has_nothing_to_do() {
    let mut tree = Tree::new(0, false, false);
    let full = InstRequest {
        rev: rev("t1", "HEAD"),
        system: "x86_64-linux".into(),
        attrs: vec![
            ("a".into(), "/nix/store/a.drv".into()),
            ("b".into(), "/nix/store/b.drv".into()),
        ],
    };
    let empty =
        InstRequest { rev: rev("t2", "master"), system: "x86_64-linux".into(), attrs: vec![] };
    let inst = instantiate_prepare(&mut tree, vec![empty, full]).unwrap();
    assert_eq!(inst.request(0).attrs.len(), 2);
    let mut run = instantiate_execute(&mut tree, &inst, 1);
    assert_eq!(run.next(&mut tree, 0), Next::Run);
    assert_eq!(run.shard(0).unwrap().items, strings(&["a", "b"]));

    let paths = strings(&["a", "b"]);
    assert_eq!(inst.wanted(0, &paths), strings(&["/nix/store/a.drv", "/nix/store/b.drv"]));
    let missing = set_of(&strings(&["/nix/store/b.drv"]));
    assert_eq!(inst.remaining(0, &paths, &missing), strings(&["b"]));

    let mut quiet = Tree::new(0, false, false);
    assert!(instantiate_prepare(&mut quiet, vec![]).is_none());
}

#[test]
fn names_are_read_from_json() {
    assert_eq!(
        read_names(b"[\"hello\", \"recurseForDerivations\", \"z\\u0061p\"]"),
        Ok(strings(&["hello", "zap"]))
    );
    assert_eq!(read_names(b"[]"), Ok(vec![]));
    assert_eq!(read_names(b"[1]"), Err(BadNames));
    assert_eq!(read_names(b"[\"hello\""), Err(BadNames));
}

#[test]
fn escaping_is_done_backslashes_first() {
    let s = "a\\\"${x}\n";
    let in_turn = s
        .replace('\\', "\\\\")
        .replace('"', "\\\"")
        .replace("${", "\\${");
    assert_eq!(nix_escape(s), in_turn);
}

#[test]
fn evaluations_without_names_are_complete_at_once() {
    let pairs = eval_two(&rev("t1", "master"), &rev("t2", "HEAD"), &strings(&["s1", "s2"]));
    let mut tree = Tree::new(0, false, false);
    let plan = eval_pairs(&mut tree, &pairs, &[false, false, false, false]).unwrap();
    let names = [strings(&[]), strings(&["a"]), strings(&[]), strings(&["b"])];
    assert_eq!(plan.without_names(&names), vec![0, 2]);
    let mut run = plan.evaluate(&mut tree, &names, 1);
    let mut handed = Vec::new();
    while run.next(&mut tree, 0) == Next::Run {
        let g = run.shard(0).unwrap().group;
        if run.landed(&mut tree, 0, Vec::new()).is_some() {
            handed.push(g);
        }
        run.settled(&mut tree, 0);
    }
    assert_eq!(handed, vec![1, 3]);

    let mut tree = Tree::new(0, false, false);
    let plan = eval_pairs(&mut tree, &pairs, &[true, true, true, false]).unwrap();
    assert_eq!(plan.without_names(&[strings(&[])]), vec![0]);
    let run = plan.evaluate(&mut tree, &[strings(&[])], 1);
    assert_eq!(run.slots(), 0);
    assert!(run.fatal().is_none());
}
