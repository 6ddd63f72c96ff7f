use npd::model::Outcome;
use npd::report::{cell, render, side_state, Entry, Sighting, Source, State};

fn obs(source: Source, outcome: Outcome) -> Sighting {
    Sighting {
        drv_path: "/nix/store/x.drv".into(),
        source,
        outcome,
        when: 0,
        system: None,
        duration_s: None,
        machine: None,
    }
}

#[test]
fn state_reduction() {
    assert_eq!(side_state(&None, false, &[]), State::Absent);
    let d = Some("/nix/store/x.drv".to_string());
    assert_eq!(side_state(&d, false, &[]), State::Unknown);
    assert_eq!(
        side_state(&d, false, &[obs(Source::Local, Outcome::Failed)]),
        State::Failed
    );
    assert_eq!(
        side_state(&d, false, &[obs(Source::Local, Outcome::DepFailed)]),
        State::Blocked
    );
    assert_eq!(
        side_state(&d, false, &[obs(Source::Cache, Outcome::Built)]),
        State::Built
    );
    let s = side_state(
        &d,
        false,
        &[obs(Source::Cache, Outcome::Built), obs(Source::Local, Outcome::Failed)],
    );
    assert_eq!(s, State::Failed);
    assert_eq!(side_state(&d, true, &[]), State::Broken);
    assert_eq!(
        side_state(&d, true, &[obs(Source::Local, Outcome::Built)]),
        State::Built
    );
    assert_eq!(
        side_state(&d, true, &[obs(Source::Local, Outcome::Failed)]),
        State::Failed
    );
    assert_eq!(side_state(&None, true, &[]), State::Absent);
}

fn entry(attr: &str, base: State, head: State, bd: Option<&str>, hd: Option<&str>) -> Entry {
    Entry {
        attr: attr.into(),
        base_drv: bd.map(str::to_string),
        head_drv: hd.map(str::to_string),
        base,
        head,
    }
}

#[test]
fn render_sections_tokens_grouping_and_folding() {
    let entries = vec![
        entry("pkgA", State::Built, State::Failed, Some("/b/a.drv"), Some("/h/a.drv")),
        entry("dep1", State::Built, State::Blocked, Some("/b/d1"), Some("/h/d1")),
        entry("dep2", State::Built, State::Blocked, Some("/b/d2"), Some("/h/d2")),
        entry("brk", State::Built, State::Broken, Some("/b/k"), Some("/h/k")),
        entry("z.foo", State::Built, State::Built, Some("/b/f"), Some("/h/f")),
        entry("foo", State::Built, State::Built, Some("/b/f"), Some("/h/f")),
    ];
    let out = render("base", "head", &[("aarch64-linux".into(), entries)]);

    assert!(out.contains("✅ → ❌ · <b>1 regression</b>"), "{out}");
    assert!(out.contains("✅ → 🚫 · <b>2 blocked packages</b>"), "{out}");
    assert!(out.contains("✅ → 🚧 · <b>1 newly broken package</b>"), "{out}");
    assert!(out.contains("- `foo` = `z.foo`"), "{out}");
    assert!(out.contains("✅ → ✅ · <b>1 unchanged package</b> (2 attrs)"), "{out}");
    assert!(out.contains("<details><summary>✅ → ❌"), "{out}");
    assert!(out.contains("<details><summary>✅ → ✅"), "{out}");
    assert!(!out.contains("<details open>"), "{out}");
    let reg = out.find("→ ❌").unwrap();
    let blk = out.find("→ 🚫").unwrap();
    let brk = out.find("→ 🚧").unwrap();
    let unch = out.find("✅ → ✅").unwrap();
    assert!(reg < blk && blk < brk && brk < unch, "{out}");
}

#[test]
fn a_whole_report_to_the_letter() {
    let out = render(
        "b0",
        "h0",
        &[
            ("x86_64-linux".into(), vec![]),
            (
                "aarch64-linux".into(),
                vec![
                    entry("bb", State::Failed, State::Built, Some("/b"), Some("/h")),
                    entry("a", State::Failed, State::Built, Some("/b"), Some("/h")),
                    entry("c", State::Failed, State::Built, None, Some("/c")),
                ],
            ),
        ],
    );
    assert_eq!(
        out,
        "## `npd` report: b0 → h0\n\n### `x86_64-linux`\n\n_No changed attrs._\n\n### `aarch64-linux`\n\n<details><summary>❌ → ✅ · <b>2 fixed packages</b> (3 attrs) — fail on the base, build here</summary>\n\n- `a` = `bb`\n- `c`\n</details>\n\n"
    );
}

#[test]
fn short_attrs_come_first_by_bytes() {
    // Two bytes of one character come behind one byte.
    let out = render(
        "b",
        "h",
        &[(
            "s".into(),
            vec![
                entry("é", State::Built, State::Built, None, None),
                entry("z", State::Built, State::Built, None, None),
            ],
        )],
    );
    assert!(out.contains("- `z` = `é`\n"), "{out}");
}

#[test]
fn sections_have_places() {
    assert_eq!(
        cell(State::Built, State::Failed),
        (0, "regression", "build on the base, fail here")
    );
    assert_eq!(cell(State::Built, State::Built).0, 27);
    assert_eq!(
        cell(State::Unknown, State::Unknown),
        (28, "package", "see the before → after glyphs")
    );
    let all = [
        State::Built,
        State::Failed,
        State::Blocked,
        State::Broken,
        State::Absent,
        State::Unknown,
    ];
    let mut places = Vec::new();
    for a in all {
        for b in all {
            let place = cell(a, b).0;
            assert!(place == 28 || !places.contains(&place));
            places.push(place);
        }
    }
    assert_eq!(State::Unknown.glyph(), "❓");
}
