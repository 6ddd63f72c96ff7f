use npd::evalfile::{
    changed_set, changed_tests, diff, eval_path, eval_text, parse_eval, read_eval, restore_drv,
    strip_drv, text_of_content, write_eval, ChangedAttr, EvalFileError, EvalRow,
};
use npd::model::AttrEval;
use npd::ordered::StringMap;

fn ae(attr: &str, drv: Option<&str>) -> AttrEval {
    AttrEval { attr: attr.into(), drv_path: drv.map(str::to_string) }
}

fn row(attr: &str, drv: Option<&str>) -> EvalRow {
    (attr.to_string(), drv.map(str::to_string))
}

/// A changed attr from derivations in stored form.
fn ca(
    attr: &str,
    base: Option<&str>,
    head: Option<&str>,
    base_threw: bool,
    head_threw: bool,
) -> ChangedAttr {
    ChangedAttr {
        attr: attr.into(),
        base_drv: restore_drv(base),
        head_drv: restore_drv(head),
        base_threw,
        head_threw,
    }
}

#[test]
fn drv_paths_round_trip_stripped() {
    assert_eq!(strip_drv("/nix/store/abc-hello.drv"), "abc-hello");
    assert_eq!(restore_drv(Some("abc-hello")).as_deref(), Some("/nix/store/abc-hello.drv"));
    for drv in ["/nix/store/abc-hello.drv", "/nix/store/d.drv"] {
        assert_eq!(restore_drv(Some(strip_drv(drv).as_str())).as_deref(), Some(drv));
    }
    assert_eq!(restore_drv(None), None);
}

#[test]
fn write_eval_strips_and_parse_restores() {
    let attrs = [
        ae("hello", Some("/nix/store/a-hello.drv")),
        ae("zed", Some("/nix/store/b-zed.drv")),
        ae("bad", None),
    ];
    let file = write_eval(&attrs).unwrap();

    let raw = read_eval(&file).unwrap();
    assert_eq!(raw, "bad\nhello\ta-hello\nzed\tb-zed\n");
    assert_ne!(file, raw.as_bytes());

    let parsed = parse_eval(&raw);
    let restored: Vec<_> =
        parsed.iter().map(|(a, d)| (a.as_str(), restore_drv(d.as_deref()))).collect();
    assert_eq!(restored[0], ("bad", None));
    assert_eq!(restored[1], ("hello", Some("/nix/store/a-hello.drv".into())));
    assert_eq!(restored[2], ("zed", Some("/nix/store/b-zed.drv".into())));
}

#[test]
fn diff_emits_only_changed_rows() {
    let b = [
        row("bothrew", None),
        row("broke", Some("k1")),
        row("dropped", Some("d1")),
        row("rebuilt", Some("r1")),
        row("same", Some("s1")),
        row("threwbase", None),
        row("unbroke", None),
    ];
    let h = [
        row("added", Some("a1")),
        row("bothrew", None),
        row("broke", None),
        row("rebuilt", Some("r2")),
        row("same", Some("s1")),
        row("threwhead", None),
        row("unbroke", Some("u1")),
    ];
    let got = diff(&b, &h);
    let want = vec![
        ca("added", None, Some("a1"), false, false),
        ca("broke", Some("k1"), None, false, true),
        ca("dropped", Some("d1"), None, false, false),
        ca("rebuilt", Some("r1"), Some("r2"), false, false),
        ca("unbroke", None, Some("u1"), true, false),
    ];
    assert_eq!(got, want);
}

#[test]
fn diff_drains_tails() {
    let b = [row("a", Some("a1"))];
    let h = [row("a", Some("a1")), row("y", None), row("z", Some("z1"))];
    assert_eq!(diff(&b, &h), vec![ca("z", None, Some("z1"), false, false)]);
    assert_eq!(diff(&h, &b), vec![ca("z", Some("z1"), None, false, false)]);
    assert_eq!(diff(&[], &[]), vec![]);
}

#[test]
fn changed_set_streams_real_files() {
    let base = write_eval(&[
        ae("dropped", Some("/nix/store/d1.drv")),
        ae("threw", None),
        ae("rebuilt", Some("/nix/store/r1.drv")),
        ae("same", Some("/nix/store/s1.drv")),
    ])
    .unwrap();
    let head = write_eval(&[
        ae("added", Some("/nix/store/a1.drv")),
        ae("threw", None),
        ae("rebuilt", Some("/nix/store/r2.drv")),
        ae("same", Some("/nix/store/s1.drv")),
    ])
    .unwrap();
    let got = changed_set(&base, &head).unwrap();
    let want = vec![
        ca("added", None, Some("a1"), false, false),
        ca("dropped", Some("d1"), None, false, false),
        ca("rebuilt", Some("r1"), Some("r2"), false, false),
    ];
    assert_eq!(got, want);
    // Bytes that are no file must give an error.
    assert!(matches!(changed_set(b"nope", &head), Err(EvalFileError::Decompress)));
}

#[test]
fn changed_tests_matches_diff_semantics() {
    let m = |kv: &[(&str, &str)]| {
        let mut map: StringMap<String> = StringMap::new();
        for (a, d) in kv {
            map.insert(a.to_string(), format!("/nix/store/{d}.drv"));
        }
        map
    };
    let base = m(&[("pkg.tests.dropped", "d1"), ("pkg.tests.same", "s1")]);
    let head = m(&[("pkg.tests.added", "a1"), ("pkg.tests.same", "s1")]);
    let got = changed_tests(&base, &head);
    let want = vec![
        ca("pkg.tests.added", None, Some("a1"), false, false),
        ca("pkg.tests.dropped", Some("d1"), None, false, false),
    ];
    assert_eq!(got, want);
}

#[test]
fn bytes_that_are_not_text_are_refused() {
    assert_eq!(text_of_content(vec![0xff, 0xfe]), Err(EvalFileError::NotUtf8));
    assert_eq!(text_of_content("a\tb\n".as_bytes().to_vec()).as_deref(), Ok("a\tb\n"));
    let frame = zstd::encode_all(&[0xffu8, 0xfe][..], 0).unwrap();
    assert_eq!(read_eval(&frame), Err(EvalFileError::NotUtf8));
    assert_eq!(read_eval(b"no frame"), Err(EvalFileError::Decompress));
}

#[test]
fn rows_are_written_in_order() {
    let text = eval_text(&[
        ae("b", Some("/nix/store/y.drv")),
        ae("a.b", None),
        ae("a", Some("/nix/store/x.drv")),
    ]);
    assert_eq!(text, "a\tx\na.b\nb\ty\n");
}

#[test]
fn nothing_changes_from_itself() {
    let b = [row("a", Some("a1")), row("b", None), row("c", Some("c1"))];
    assert_eq!(diff(&b, &b), vec![]);
}

#[test]
fn eval_files_are_kept_by_system_and_tree() {
    let p = eval_path("/c/nix-npb", "0123abcd", "---/x86_64-linux");
    assert!(p.starts_with("/c/nix-npb/"));
    assert!(p.contains("---/x86_64-linux"));
    assert!(p.contains("0123abcd"));
    assert!(p.ends_with(".tsv.zst"));
}
