use npd::diff::{diff_evals, Attribution, DiffEntry, DiffKind};
use npd::model::AttrEval;

fn ev(attr: &str, drv: Option<&str>) -> AttrEval {
    AttrEval { attr: attr.into(), drv_path: drv.map(str::to_string) }
}

fn find<'a>(d: &'a [DiffEntry], attr: &str) -> &'a DiffEntry {
    d.iter().find(|e| e.attr == attr).unwrap()
}

#[test]
fn two_way_kinds() {
    let base = [ev("keep", Some("/d1")), ev("gone", Some("/d2")), ev("chg", Some("/old"))];
    let head = [ev("keep", Some("/d1")), ev("new", Some("/d3")), ev("chg", Some("/new"))];
    let d = diff_evals(&base, &head, None);

    assert_eq!(find(&d, "keep").kind, DiffKind::Unchanged);
    assert_eq!(find(&d, "gone").kind, DiffKind::Removed);
    assert_eq!(find(&d, "new").kind, DiffKind::Added);
    assert_eq!(find(&d, "chg").kind, DiffKind::Changed);
    assert!(d.iter().all(|e| e.attribution.is_none()));
}

#[test]
fn three_way_attribution() {
    let mb = [ev("a", Some("/m")), ev("b", Some("/m")), ev("c", Some("/m"))];
    let base = [ev("a", Some("/m")), ev("b", Some("/base")), ev("c", Some("/cbase"))];
    let head = [ev("a", Some("/head")), ev("b", Some("/m")), ev("c", Some("/chead"))];
    let d = diff_evals(&base, &head, Some(&mb));

    assert_eq!(find(&d, "a").attribution, Some(Attribution::ByHead));
    assert_eq!(find(&d, "b").attribution, Some(Attribution::ByBase));
    assert_eq!(find(&d, "c").attribution, Some(Attribution::ByBoth));
}

#[test]
fn swapping_the_sides_mirrors_the_kinds() {
    let base = [ev("gone", Some("/d2")), ev("chg", Some("/old")), ev("same", None)];
    let head = [ev("new", Some("/d3")), ev("chg", Some("/new")), ev("same", None)];
    let there = diff_evals(&base, &head, None);
    let back = diff_evals(&head, &base, None);
    assert_eq!(there.len(), back.len());
    for (a, b) in there.iter().zip(back.iter()) {
        assert_eq!(a.attr, b.attr);
        assert_eq!(a.base_drv, b.head_drv);
        assert_eq!(a.head_drv, b.base_drv);
    }
    assert_eq!(find(&there, "gone").kind, DiffKind::Removed);
    assert_eq!(find(&back, "gone").kind, DiffKind::Added);
}
