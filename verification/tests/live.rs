use npd::live::{
    human_elapsed, plan_label_width, render_row, separator, Live, Screen, State, Tree,
};

#[test]
fn elapsed_is_a_fixed_width_clock() {
    assert_eq!(human_elapsed(0), "      0s");
    assert_eq!(human_elapsed(51), "     51s");
    assert_eq!(human_elapsed(89), "   1m29s");
    assert_eq!(human_elapsed(90), "   1m30s");
    assert_eq!(human_elapsed(3600), "1h00m00s");
    assert_eq!(human_elapsed(5400), "1h30m00s");
    for s in [0, 51, 599, 3600, 35999] {
        assert_eq!(human_elapsed(s).len(), 8);
    }
}

/// All lines of the nodes, without the footer.
fn node_lines(tree: &Tree) -> Vec<String> {
    let mut lines = tree.render(0, 0);
    lines.pop();
    lines
}

#[test]
fn renders_states_counts_and_totals() {
    let mut tree = Tree::new(0, false, true);
    tree.node("evaluate", 0);
    let base = tree.counter("master", 1, -1);
    let head = tree.counter("HEAD", 1, -1);
    tree.node_mut(base).set_running();
    tree.node_mut(base).add_count(114230);
    tree.node_mut(base).set_done();
    tree.node_mut(head).set_running();
    tree.node_mut(head).set_total(114231);
    tree.node_mut(head).add_count(107347);

    let lines = node_lines(&tree);
    assert_eq!(
        lines,
        vec![
            "\x1b[33mevaluate\x1b[0m".to_string(),
            "\x1b[32m  master\x1b[0m  114230".to_string(),
            "\x1b[33m  HEAD  \x1b[0m  107347\x1b[90m / 114231\x1b[0m".to_string(),
        ]
    );
}

#[test]
fn no_color_renders_no_sgr() {
    let mut tree = Tree::new(0, false, false);
    tree.node("evaluate", 0);
    let head = tree.counter("HEAD", 1, 114231);
    tree.node_mut(head).set_running();
    tree.node_mut(head).add_count(107347);
    let lines = node_lines(&tree);
    assert!(lines.iter().all(|l| !l.contains('\x1b')), "no ANSI escapes: {lines:?}");
    assert_eq!(
        lines,
        vec!["evaluate".to_string(), "  HEAD    107347 / 114231".to_string()]
    );
}

#[test]
fn percent_node_smooths_and_keeps_pct_when_done() {
    let mut tree = Tree::new(0, false, true);
    tree.node("evaluate", 0);
    let head = tree.percent("HEAD", 1);
    tree.node_mut(head).set_shards_total(10);
    tree.node_mut(head).set_running();
    tree.node_mut(head).add_count(142001);
    tree.node_mut(head).shard_started();
    tree.node_mut(head).shard_started();
    assert_eq!(
        node_lines(&tree)[1],
        "\x1b[33m  HEAD  \x1b[0m  142001\x1b[90m       10%\x1b[0m"
    );
    tree.node_mut(head).shard_progress(3);
    assert_eq!(
        node_lines(&tree)[1],
        "\x1b[33m  HEAD  \x1b[0m  142001\x1b[90m       40%\x1b[0m"
    );
    tree.node_mut(head).shard_finished();
    tree.node_mut(head).shard_finished();
    tree.node_mut(head).shard_progress(10);
    tree.node_mut(head).group_done(226117);
    assert_eq!(
        node_lines(&tree)[1],
        "\x1b[32m  HEAD  \x1b[0m  226117\x1b[90m      100%\x1b[0m"
    );
}

#[test]
fn waiting_counter_populates_its_number() {
    let mut tree = Tree::new(0, false, true);
    tree.node("tests", 0);
    tree.counter("HEAD", 1, -1);
    assert_eq!(
        node_lines(&tree),
        vec![
            "\x1b[34mtests\x1b[0m".to_string(),
            "\x1b[34m  HEAD\x1b[0m       0".to_string(),
        ]
    );
}

#[test]
fn insert_sorted_keeps_phase_children_in_key_order() {
    let mut tree = Tree::new(0, true, true);
    let phase = tree.node("tests", 0);
    for (label, key) in [("sysB", 1), ("sysA", 0), ("sysC", 2)] {
        let sys = tree.detached_node(label, 1, key);
        let leaf = tree.detached_counter("HEAD", 2, -1, key);
        tree.insert_sorted(phase, vec![sys, leaf]);
    }
    let lines = node_lines(&tree);
    assert_eq!(lines.len(), 7);
    let out = lines.join("\n");
    let (a, b, c) = (
        out.find("sysA").unwrap(),
        out.find("sysB").unwrap(),
        out.find("sysC").unwrap(),
    );
    assert!(a < b && b < c, "must render in sort-key order: {out:?}");
}

#[test]
fn emit_completed_prints_leaves_on_done_ancestors_first_once() {
    let mut tree = Tree::new(0, true, false);
    let phase = tree.node("evaluate", 0);
    let a1 = tree.detached_counter("base", 2, -1, 0);
    let a2 = tree.detached_counter("head", 2, -1, 0);
    let sys = tree.detached_node("sysA", 1, 0);
    tree.insert_sorted(phase, vec![sys, a1, a2]);

    assert!(tree.emit_completed().is_empty());

    tree.node_mut(a1).set_running();
    tree.node_mut(a1).add_count(5);
    tree.node_mut(a1).set_done();
    assert_eq!(
        tree.emit_completed(),
        vec![
            "evaluate".to_string(),
            "  sysA".to_string(),
            "    base       5".to_string(),
        ]
    );
    assert!(tree.emit_completed().is_empty());

    tree.node_mut(a2).set_running();
    tree.node_mut(a2).add_count(7);
    tree.node_mut(a2).set_done();
    assert_eq!(tree.emit_completed(), vec!["    head       7".to_string()]);
}

#[test]
fn the_log_has_no_colors() {
    let mut t = Tree::new(0, false, true);
    let n = t.node("fetch", 0);
    t.node_mut(n).set_done();
    assert_eq!(t.emit_completed(), vec!["fetch".to_string()]);
}

#[test]
fn the_log_comes_in_order_over_many_looks() {
    let mut t = Tree::new(0, true, true);
    let phase = t.node("evaluate", 0);
    let b = t.detached_node("sysB", 1, 2);
    let b1 = t.detached_node("base", 2, 0);
    t.insert_sorted(phase, vec![b, b1]);
    t.node_mut(b1).set_done();
    assert_eq!(t.emit_completed(), vec!["evaluate", "  sysB", "    base"]);
    let a = t.detached_node("sysA", 1, 1);
    let a1 = t.detached_node("base", 2, 0);
    t.insert_sorted(phase, vec![a, a1]);
    assert!(t.emit_completed().is_empty());
    let last = t.node("probe", 0);
    t.node_mut(a1).set_done();
    assert_eq!(t.emit_completed(), vec!["  sysA", "    base"]);
    t.node_mut(last).set_done();
    assert_eq!(t.emit_completed(), vec!["probe"]);
    assert!(t.emit_completed().is_empty());
}

#[test]
fn rollup_all_done_is_green() {
    let mut tree = Tree::new(0, false, true);
    tree.node("enumerate", 0);
    for c in ["master", "HEAD"] {
        let n = tree.counter(c, 1, -1);
        tree.node_mut(n).set_running();
        tree.node_mut(n).add_count(100);
        tree.node_mut(n).set_done();
    }
    assert_eq!(node_lines(&tree)[0], "\x1b[32menumerate\x1b[0m");
}

#[test]
fn empty_tree_draws_nothing() {
    let tree = Tree::new(11, false, true);
    assert!(tree.is_empty());
    assert!(tree.render(0, 0).is_empty());
    assert!(tree.render_frozen(0).is_empty());
}

#[test]
fn plan_width_clears_every_label() {
    assert_eq!(plan_label_width(&["aarch64-linux".into()], None, None), 11);
    assert_eq!(
        plan_label_width(&["aarch64-linux".into(), "x86_64-linux".into()], None, None),
        15
    );
    assert_eq!(plan_label_width(&["aarch64-linux".into()], Some(431), None), 21);
}

#[test]
fn starting_a_done_node_leaves_it_done() {
    let mut tree = Tree::new(0, false, true);
    let n = tree.counter("HEAD", 0, -1);
    tree.node_mut(n).set_running();
    tree.node_mut(n).set_done();
    let done = node_lines(&tree);
    tree.node_mut(n).set_running();
    assert_eq!(node_lines(&tree), done);
    assert!(done[0].starts_with("\x1b[32m"));
}

#[test]
fn only_counting_nodes_stream() {
    let mut tree = Tree::new(0, false, false);
    let plain = tree.node("phase", 0);
    let leaf = tree.counter("HEAD", 1, -1);
    tree.node_mut(plain).stream(7);
    tree.node_mut(leaf).stream(7);
    assert_eq!(node_lines(&tree), vec!["phase".to_string(), "  HEAD       7".to_string()]);
}

#[test]
fn frames_end_in_a_spinner_and_a_clock() {
    let mut tree = Tree::new(0, false, false);
    tree.node("evaluate", 0);
    let live = tree.render(3, 90);
    let rest = tree.render_frozen(90);
    assert_eq!(live.len(), 2);
    assert!(live[1].ends_with("1m30s"));
    assert!(rest[1].starts_with('.'));
    assert_eq!(rest[1], tree.frozen_footer(90));
    assert_ne!(live[1], rest[1]);
}

#[test]
fn drawing_fits_the_terminal() {
    let term = Screen { is_term: true, columns: Some(5) };
    let mut live = Live::new();
    let out = live.draw(&["abcdefgh".to_string()], term).unwrap();
    assert!(out.contains("abcde"));
    assert!(!out.contains("abcdef"));
    // The second drawing of the same block goes up over the first.
    let again = live.draw(&["abcdefgh".to_string()], term).unwrap();
    assert!(again.contains("\x1b[1A"));
    assert!(live.clear(term).unwrap().ends_with("A\r\x1b[J"));
    assert!(live.clear(term).is_none());
}

#[test]
fn nothing_is_drawn_off_a_terminal() {
    let pipe = Screen { is_term: false, columns: None };
    let mut live = Live::new();
    assert!(live.draw(&["a".to_string()], pipe).is_none());
    assert_eq!(live.print_above("note", pipe), "note\n");
    assert!(live.clear(pipe).is_none());
}

#[test]
fn separators_are_dim_only_in_color() {
    let plain = separator(false);
    let dim = separator(true);
    assert!(!plain.contains('\x1b'));
    assert!(dim.contains("\x1b[90m"));
    assert!(plain.starts_with('\n') && plain.ends_with("\n\n"));
}

/// A text without the codes that set colors.
fn without_codes(s: &str) -> String {
    let mut out = String::new();
    let mut in_code = false;
    for c in s.chars() {
        if c == '\x1b' {
            in_code = true;
        } else if in_code {
            in_code = c != 'm';
        } else {
            out.push(c);
        }
    }
    out
}

#[test]
fn a_row_without_its_codes_is_the_plain_row() {
    let mut t = Tree::new(0, false, true);
    let id = t.counter("HEAD", 1, 9);
    t.node_mut(id).add_count(7);
    let n = t.node_mut(id);
    let plain = render_row(n, State::Run, 10, false);
    assert!(!plain.contains('\x1b'));
    assert!(plain.starts_with("  HEAD      "));
    for eff in [State::Wait, State::Run, State::Done] {
        let colored = render_row(n, eff, 10, true);
        assert!(colored.contains('\x1b'));
        assert_eq!(without_codes(&colored), plain);
    }
}

#[test]
fn colors_change_nothing_seen() {
    let build = |color: bool| {
        let mut t = Tree::new(11, true, color);
        t.node("evaluate", 0);
        let n = t.counter("HEAD", 1, 40);
        t.node_mut(n).add_count(7);
        let p = t.percent("base", 1);
        t.node_mut(p).set_shards_total(4);
        t.node_mut(p).shard_progress(1);
        t.node_mut(p).set_running();
        t.render_frozen(3)
    };
    let colored = build(true);
    assert!(colored[1].contains('\x1b'));
    let seen: Vec<String> = colored.iter().map(|l| without_codes(l)).collect();
    assert_eq!(seen, build(false));
}
