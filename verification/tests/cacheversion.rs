use npd::cacheversion::{
    changed_message, ensure_current, newer_message, read_version, version_path, version_text,
    wipe_question, Upkeep, ABORTED, WIPE_SQL,
};
use npd::paths::{cache_root, db_path, join};

#[test]
fn caches_are_kept_refused_stamped_or_wiped() {
    assert_eq!(ensure_current(Some(2), true), Upkeep::Keep);
    assert_eq!(ensure_current(Some(2), false), Upkeep::Keep);
    assert_eq!(ensure_current(Some(3), true), Upkeep::Refuse { found: 3 });
    assert_eq!(ensure_current(None, false), Upkeep::Stamp);
    assert_eq!(ensure_current(None, true), Upkeep::Wipe { from: 0 });
    assert_eq!(ensure_current(Some(1), false), Upkeep::Wipe { from: 1 });
}

#[test]
fn the_marker_reads_back() {
    assert_eq!(version_text(), "2\n");
    assert_eq!(read_version(&version_text()), Some(2));
    assert_eq!(read_version(" 7 \n"), Some(7));
    assert_eq!(read_version("+7"), Some(7));
    assert_eq!(read_version("4294967295"), Some(4294967295));
    assert_eq!(read_version("4294967296"), None);
    assert_eq!(read_version("-1"), None);
    assert_eq!(read_version(""), None);
    assert_eq!(read_version("two"), None);
}

#[test]
fn what_is_said_about_the_cache() {
    assert_eq!(
        newer_message("/c", 5),
        "the npb cache at /c was written by a newer npb (format version 5; this npb is version 2). Upgrade npb, or remove that directory to start fresh."
    );
    assert_eq!(
        changed_message(0),
        "npb's eval-cache format has changed (version 0 -> 2). The cached\nevaluations and --tests cache must be regenerated; your build history (the\nobservation log) is kept."
    );
    assert_eq!(wipe_question("/c"), "Delete the eval cache under /c? [Y/n] ");
    assert!(ABORTED.starts_with("aborted: "));
    // What refers to the keys goes before them.
    let keys = WIPE_SQL.find("eval_key").unwrap();
    for table in ["test_drv", "test_pkg", "transitive_block"] {
        assert!(WIPE_SQL.find(table).unwrap() < keys);
    }
}

#[test]
fn the_cache_lies_below_the_users() {
    assert_eq!(cache_root(Some("/home/u/.cache")).as_deref(), Some("/home/u/.cache/nix-npb"));
    assert_eq!(cache_root(None), None);
    assert_eq!(db_path("/c/nix-npb"), "/c/nix-npb/npb.sqlite");
    assert_eq!(version_path("/c/nix-npb"), "/c/nix-npb/format-version");
    assert_eq!(join("/a/", "b"), "/a/b");
    assert_eq!(join("/a", "/b"), "/b");
    assert_eq!(join("", "b"), "b");
}
