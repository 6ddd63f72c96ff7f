use npd::cache::{drv_outputs_many, in_cache_many, lines, narinfo_url, store_hash, Shown};
use npd::ordered::set_of;

fn strings(v: &[&str]) -> Vec<String> {
    v.iter().map(|x| x.to_string()).collect()
}

#[test]
fn cache_store_hash_of_output() {
    assert_eq!(
        store_hash("/nix/store/qpp9968dpkv1c755nk13mrkrzpsvah18-hello-2.12.3").as_deref(),
        Some("qpp9968dpkv1c755nk13mrkrzpsvah18")
    );
}

#[test]
fn hydra_store_hash_of_output() {
    assert_eq!(
        store_hash("/nix/store/qpp9968dpkv1c755nk13mrkrzpsvah18-hello-2.12.3").as_deref(),
        Some("qpp9968dpkv1c755nk13mrkrzpsvah18")
    );
}

#[test]
fn narinfos_are_found_by_hash() {
    assert_eq!(
        narinfo_url("/nix/store/abc-hello").as_deref(),
        Some("https://cache.nixos.org/abc.narinfo")
    );
    assert_eq!(store_hash("").as_deref(), Some(""));
}

#[test]
fn command_output_is_tidied() {
    assert_eq!(lines(b"  a \r\n\n\t\nb"), strings(&["a", "b"]));
    assert_eq!(lines(b""), strings(&[]));
    // What is not text is replaced, and does not cost the other lines.
    assert_eq!(lines(b"ok\n\xff\n"), strings(&["ok", "\u{fffd}"]));
}

#[test]
fn outputs_are_found_by_file_name() {
    let drvs = strings(&["/nix/store/a.drv", "/nix/store/b.drv", "/nix/store/c.drv"]);
    let shown = [
        Shown { key: "a.drv".into(), outputs: vec![Some("/nix/store/a-out".into())] },
        Shown { key: "/nix/store/b.drv".into(), outputs: vec![None] },
        Shown { key: "x.drv".into(), outputs: vec![Some("/nix/store/x-out".into())] },
    ];
    let m = drv_outputs_many(&drvs, &shown);
    assert_eq!(m.len(), 1);
    assert_eq!(m.get("/nix/store/a.drv"), Some(&strings(&["/nix/store/a-out"])));
}

#[test]
fn all_outputs_must_be_there() {
    let drvs = strings(&["/a", "/b", "/c"]);
    let shown = [
        Shown { key: "a".into(), outputs: vec![Some("/a1".into()), Some("/a2".into())] },
        Shown { key: "b".into(), outputs: vec![Some("/b1".into())] },
    ];
    let outs = drv_outputs_many(&drvs, &shown);
    let v = in_cache_many(&drvs, &outs, &set_of(&strings(&["/a1", "/b1"])));
    assert_eq!(v.get("/a"), Some(&false));
    assert_eq!(v.get("/b"), Some(&true));
    assert_eq!(v.get("/c"), Some(&false));
    let w = in_cache_many(&drvs, &outs, &set_of(&strings(&["/a1", "/a2", "/b1"])));
    assert_eq!(w.get("/a"), Some(&true));
    assert_eq!(w.get("/b"), Some(&true));
}
