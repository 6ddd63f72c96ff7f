//! The diff of two evaluations, each change optionally attributed against the
//! merge base.
//!
//! An attr is, on a side, its derivation or the lack of one: an attr that is
//! absent and one that has no derivation are the same here.

use vstd::prelude::*;

use crate::model::AttrEval;
use crate::ordered;
use crate::ordered::{StringMap, StringSet};
use crate::text;

verus! {

/// What became of an attr.
#[derive(Debug, Clone, Copy, PartialEq, Eq, Structural)]
pub enum DiffKind {
    /// A derivation on head only.
    Added,
    /// A derivation on base only.
    Removed,
    /// Two different derivations.
    Changed,
    /// One derivation on both sides, or none on either.
    Unchanged,
}

/// Which side of the fork brought a difference about.
#[derive(Debug, Clone, Copy, PartialEq, Eq, Structural)]
pub enum Attribution {
    /// Only head left the merge base.
    ByHead,
    /// Only base left the merge base.
    ByBase,
    /// Both did.
    ByBoth,
}

/// One attr of a diff.
#[derive(Debug, Clone, PartialEq, Eq)]
pub struct DiffEntry {
    pub attr: String,
    pub base_drv: Option<String>,
    pub head_drv: Option<String>,
    pub kind: DiffKind,
    /// Set where a merge base was given and the attr is not unchanged.
    pub attribution: Option<Attribution>,
}

/// One attr of a diff as plain data.
#[verifier::ext_equal]
pub struct Entry {
    pub attr: Seq<char>,
    pub base: Option<Seq<char>>,
    pub head: Option<Seq<char>>,
    pub kind: DiffKind,
    pub attribution: Option<Attribution>,
}

impl DiffEntry {
    /// The entry as plain data.
    pub open spec fn view(self) -> Entry {
        Entry {
            attr: self.attr@,
            base: text::opt(self.base_drv),
            head: text::opt(self.head_drv),
            kind: self.kind,
            attribution: self.attribution,
        }
    }
}

/// The attr names of an evaluation.
pub open spec fn names(evals: Seq<AttrEval>) -> Seq<Seq<char>> {
    evals.map_values(|a: AttrEval| a.attr@)
}

/// The derivation of an attr in an evaluation; where it occurs more than once,
/// the last occurrence counts.
pub open spec fn drv_of(evals: Seq<AttrEval>, attr: Seq<char>) -> Option<Seq<char>>
    decreases evals.len(),
{
    if evals.len() == 0 {
        None
    } else if evals.last().attr@ == attr {
        text::opt(evals.last().drv_path)
    } else {
        drv_of(evals.drop_last(), attr)
    }
}

/// What became of an attr with these derivations.
pub open spec fn kind_of(base: Option<Seq<char>>, head: Option<Seq<char>>) -> DiffKind {
    if base == head {
        DiffKind::Unchanged
    } else if base is None {
        DiffKind::Added
    } else if head is None {
        DiffKind::Removed
    } else {
        DiffKind::Changed
    }
}

/// Which side left the merge base.
pub open spec fn attribution_of(
    base: Option<Seq<char>>,
    head: Option<Seq<char>>,
    fork: Option<Seq<char>>,
) -> Attribution {
    if base == fork {
        Attribution::ByHead
    } else if head == fork {
        Attribution::ByBase
    } else {
        Attribution::ByBoth
    }
}

/// The entry of an attr; `fork` is its derivation at the merge base, where one
/// was given.
pub open spec fn entry_of(
    attr: Seq<char>,
    base: Option<Seq<char>>,
    head: Option<Seq<char>>,
    fork: Option<Option<Seq<char>>>,
) -> Entry {
    Entry {
        attr,
        base,
        head,
        kind: kind_of(base, head),
        attribution: match fork {
            Some(m) if base != head => Some(attribution_of(base, head, m)),
            _ => None,
        },
    }
}

/// The derivation of an attr at the merge base, where one was given.
pub open spec fn fork_drv(merge_base: Option<&[AttrEval]>, attr: Seq<char>) -> Option<
    Option<Seq<char>>,
> {
    match merge_base {
        Some(m) => Some(drv_of(m@, attr)),
        None => None,
    }
}

/// Whether a map says of every attr what an evaluation says, and which attrs
/// there are.
spec fn mirrors(m: Map<Seq<char>, Option<String>>, evals: Seq<AttrEval>) -> bool {
    &&& m.dom() == names(evals).to_set()
    &&& forall|attr: Seq<char>| #[trigger]
        m.contains_key(attr) ==> text::opt(m[attr]) == drv_of(evals, attr)
}

proof fn lemma_drv_of_absent(evals: Seq<AttrEval>, attr: Seq<char>)
    requires
        !names(evals).contains(attr),
    ensures
        drv_of(evals, attr) is None,
    decreases evals.len(),
{
    if evals.len() > 0 {
        assert(names(evals)[evals.len() - 1] == evals.last().attr@);
        assert forall|i: int| 0 <= i < names(evals.drop_last()).len() implies names(
            evals.drop_last(),
        )[i] != attr by {
            assert(names(evals)[i] == names(evals.drop_last())[i]);
        }
        lemma_drv_of_absent(evals.drop_last(), attr);
    }
}

fn drv_map(evals: &[AttrEval]) -> (r: StringMap<Option<String>>)
    ensures
        r.wf(),
        mirrors(r@, evals@),
{
    let mut r: StringMap<Option<String>> = StringMap::new();
    let mut i: usize = 0;
    assert(names(evals@.take(0)).to_set() =~= Set::<Seq<char>>::empty());
    assert(r@.dom() =~= Set::<Seq<char>>::empty());
    while i < evals.len()
        invariant
            i <= evals@.len(),
            r.wf(),
            mirrors(r@, evals@.take(i as int)),
        decreases evals@.len() - i,
    {
        let ghost was = r@;
        let ghost before = evals@.take(i as int);
        let ghost after = evals@.take(i + 1);
        let drv = text::copy_opt(&evals[i].drv_path);
        r.insert(evals[i].attr.clone(), drv);
        proof {
            assert(after.drop_last() =~= before);
            assert(after.last() == evals@[i as int]);
            let n = evals@[i as int].attr@;
            assert(names(after) =~= names(before).push(n));
            assert(names(after).to_set() =~= names(before).to_set().insert(n)) by {
                broadcast use vstd::seq_lib::group_seq_properties;

            }
            assert(r@.dom() =~= was.dom().insert(n));
            assert forall|attr: Seq<char>| #[trigger] r@.contains_key(attr) implies text::opt(r@[attr])
                == drv_of(after, attr) by {
                if attr != n {
                    assert(was.contains_key(attr));
                }
            }
        }
        i = i + 1;
    }
    assert(evals@.take(i as int) =~= evals@);
    r
}

fn look_up(m: &StringMap<Option<String>>, attr: &str) -> (r: Option<String>)
    requires
        m.wf(),
    ensures
        text::opt(r) == (if m@.contains_key(attr@) {
            text::opt(m@[attr@])
        } else {
            None
        }),
{
    match m.get(attr) {
        Some(d) => text::copy_opt(d),
        None => None,
    }
}

proof fn lemma_look_up(m: Map<Seq<char>, Option<String>>, evals: Seq<AttrEval>, attr: Seq<char>)
    requires
        mirrors(m, evals),
    ensures
        drv_of(evals, attr) == (if m.contains_key(attr) {
            text::opt(m[attr])
        } else {
            None
        }),
{
    if !m.contains_key(attr) {
        assert(!names(evals).to_set().contains(attr));
        lemma_drv_of_absent(evals, attr);
    }
}

fn add_names(set: &mut StringSet, evals: &[AttrEval])
    requires
        old(set).wf(),
    ensures
        final(set).wf(),
        final(set)@ == old(set)@.union(names(evals@).to_set()),
{
    let mut i: usize = 0;
    assert(set@ =~= old(set)@.union(names(evals@.take(0)).to_set()));
    while i < evals.len()
        invariant
            i <= evals@.len(),
            set.wf(),
            set@ == old(set)@.union(names(evals@.take(i as int)).to_set()),
        decreases evals@.len() - i,
    {
        set.insert(evals[i].attr.clone());
        proof {
            let before = names(evals@.take(i as int));
            let after = names(evals@.take(i + 1));
            let n = evals@[i as int].attr@;
            assert(after =~= before.push(n));
            assert(after.to_set() =~= before.to_set().insert(n)) by {
                broadcast use vstd::seq_lib::group_seq_properties;

            }
            assert(set@ =~= old(set)@.union(after.to_set()));
        }
        i = i + 1;
    }
    assert(evals@.take(i as int) =~= evals@);
}

/// The attr names of diff entries.
pub open spec fn attrs_of(v: Seq<DiffEntry>) -> Seq<Seq<char>> {
    v.map_values(|e: DiffEntry| e.attr@)
}

/// Diffs `base` against `head`: an entry for each attr of either, in ascending
/// order. If a merge base is given, each change is attributed.
pub fn diff_evals(base: &[AttrEval], head: &[AttrEval], merge_base: Option<&[AttrEval]>) -> (out:
    Vec<DiffEntry>)
    ensures
        ordered::strictly_ascending(attrs_of(out@)),
        attrs_of(out@).to_set() == names(base@).to_set().union(names(head@).to_set()),
        forall|i: int|
            0 <= i < out@.len() ==> {
                let attr = (#[trigger] out@[i]).attr@;
                out@[i]@ == entry_of(
                    attr,
                    drv_of(base@, attr),
                    drv_of(head@, attr),
                    fork_drv(merge_base, attr),
                )
            },
{
    let b = drv_map(base);
    let h = drv_map(head);
    let m = match merge_base {
        Some(m) => Some(drv_map(m)),
        None => None,
    };
    let mut keys = StringSet::new();
    add_names(&mut keys, base);
    add_names(&mut keys, head);
    assert(keys@ =~= names(base@).to_set().union(names(head@).to_set()));
    let mut out: Vec<DiffEntry> = Vec::new();
    let n = keys.len();
    let mut i: usize = 0;
    while i < n
        invariant
            i <= n,
            n == keys.members().len(),
            b.wf(),
            mirrors(b@, base@),
            h.wf(),
            mirrors(h@, head@),
            m is Some == merge_base is Some,
            m is Some ==> m->0.wf() && mirrors(m->0@, merge_base->0@),
            attrs_of(out@) == keys.members().take(i as int),
            forall|k: int|
                0 <= k < out@.len() ==> {
                    let attr = (#[trigger] out@[k]).attr@;
                    out@[k]@ == entry_of(
                        attr,
                        drv_of(base@, attr),
                        drv_of(head@, attr),
                        fork_drv(merge_base, attr),
                    )
                },
        decreases n - i,
    {
        let attr = keys.at(i).clone();
        let bd = look_up(&b, attr.as_str());
        let hd = look_up(&h, attr.as_str());
        proof {
            lemma_look_up(b@, base@, attr@);
            lemma_look_up(h@, head@, attr@);
        }
        let kind = match (&bd, &hd) {
            (None, None) => DiffKind::Unchanged,
            (None, Some(_)) => DiffKind::Added,
            (Some(_), None) => DiffKind::Removed,
            (Some(x), Some(y)) => if text::same(x.as_str(), y.as_str()) {
                DiffKind::Unchanged
            } else {
                DiffKind::Changed
            },
        };
        let attribution = match &m {
            Some(m) => if kind != DiffKind::Unchanged {
                let md = look_up(m, attr.as_str());
                proof {
                    lemma_look_up(m@, merge_base->0@, attr@);
                }
                let base_changed = !text::same_opt(&bd, &md);
                let head_changed = !text::same_opt(&hd, &md);
                Some(
                    match (base_changed, head_changed) {
                        (true, true) => Attribution::ByBoth,
                        (false, true) => Attribution::ByHead,
                        (true, false) => Attribution::ByBase,
                        (false, false) => Attribution::ByBoth,
                    },
                )
            } else {
                None
            },
            None => None,
        };
        let entry = DiffEntry { attr, base_drv: bd, head_drv: hd, kind, attribution };
        let ghost was = attrs_of(out@);
        out.push(entry);
        proof {
            assert(attrs_of(out@) =~= was.push(entry.attr@));
            assert(keys.members().take(i + 1) =~= keys.members().take(i as int).push(
                keys.members()[i as int],
            ));
        }
        i = i + 1;
    }
    proof {
        keys.lemma_members_ascend();
        assert(keys.members().take(i as int) =~= keys.members());
    }
    out
}

/// An attr is unchanged exactly when it has one derivation on both sides, or
/// none on either; only then is nothing attributed to a given merge base.
pub proof fn law_unchanged_iff_same_derivation(
    attr: Seq<char>,
    base: Option<Seq<char>>,
    head: Option<Seq<char>>,
    fork: Option<Option<Seq<char>>>,
)
    ensures
        entry_of(attr, base, head, fork).kind == DiffKind::Unchanged <==> base == head,
        entry_of(attr, base, head, fork).attribution is Some <==> fork is Some && base != head,
{
}

/// A change is head's doing exactly when base still is what the merge base
/// was, base's exactly when head still is, and both's when neither is: these
/// exclude each other and leave nothing out.
pub proof fn law_attribution_says_who_moved(
    base: Option<Seq<char>>,
    head: Option<Seq<char>>,
    fork: Option<Seq<char>>,
)
    requires
        base != head,
    ensures
        attribution_of(base, head, fork) == Attribution::ByHead <==> base == fork && head != fork,
        attribution_of(base, head, fork) == Attribution::ByBase <==> base != fork && head == fork,
        attribution_of(base, head, fork) == Attribution::ByBoth <==> base != fork && head != fork,
{
}

/// Exchanging the sides exchanges added and removed, head's doing and base's,
/// and keeps the rest.
pub proof fn law_diff_is_symmetric(
    attr: Seq<char>,
    base: Option<Seq<char>>,
    head: Option<Seq<char>>,
    fork: Option<Option<Seq<char>>>,
)
    ensures
        ({
            let e = entry_of(attr, base, head, fork);
            let x = entry_of(attr, head, base, fork);
            &&& x.base == e.head && x.head == e.base
            &&& x.kind == (match e.kind {
                DiffKind::Added => DiffKind::Removed,
                DiffKind::Removed => DiffKind::Added,
                k => k,
            })
            &&& x.attribution == (match e.attribution {
                Some(Attribution::ByHead) => Some(Attribution::ByBase),
                Some(Attribution::ByBase) => Some(Attribution::ByHead),
                a => a,
            })
        }),
{
}

/// What became of an attr follows from which sides have a derivation, and whether
/// it is the same one; the entry keeps the attr and both sides as they are.
pub proof fn law_kinds_follow_the_sides(
    attr: Seq<char>,
    x: Seq<char>,
    y: Seq<char>,
    fork: Option<Option<Seq<char>>>,
)
    ensures
        entry_of(attr, None, Some(x), fork).kind == DiffKind::Added,
        entry_of(attr, Some(x), None, fork).kind == DiffKind::Removed,
        x != y ==> entry_of(attr, Some(x), Some(y), fork).kind == DiffKind::Changed,
        entry_of(attr, Some(x), Some(x), fork).kind == DiffKind::Unchanged,
        entry_of(attr, None, None, fork).kind == DiffKind::Unchanged,
        entry_of(attr, Some(x), Some(y), fork).attr == attr,
        entry_of(attr, Some(x), Some(y), fork).base == Some(x),
        entry_of(attr, Some(x), Some(y), fork).head == Some(y),
        entry_of(attr, None, Some(y), fork).base is None,
        entry_of(attr, Some(x), None, fork).head is None,
{
}

/// A difference is attributed by the merge base: to head where base still has what
/// was there, to base where head still has it, and to both where neither does.
pub proof fn law_differences_are_attributed(
    attr: Seq<char>,
    base: Option<Seq<char>>,
    head: Option<Seq<char>>,
    fork: Option<Seq<char>>,
)
    requires
        base != head,
    ensures
        entry_of(attr, base, head, None).attribution is None,
        base == fork ==> entry_of(attr, base, head, Some(fork)).attribution == Some(
            Attribution::ByHead,
        ),
        head == fork ==> entry_of(attr, base, head, Some(fork)).attribution == Some(
            Attribution::ByBase,
        ),
        base != fork && head != fork ==> entry_of(attr, base, head, Some(fork)).attribution == Some(
            Attribution::ByBoth,
        ),
        entry_of(attr, base, base, Some(fork)).attribution is None,
{
}

/// An attr is what its last row says; without a row it has no derivation.
pub proof fn law_the_last_row_of_an_attr_counts(evals: Seq<AttrEval>, attr: Seq<char>, i: int)
    requires
        forall|j: int| i < j < evals.len() && 0 <= j ==> (#[trigger] evals[j]).attr@ != attr,
    ensures
        0 <= i < evals.len() && evals[i].attr@ == attr ==> drv_of(evals, attr) == (
        match evals[i].drv_path {
            Some(d) => Some(d@),
            None => None,
        }),
        i < 0 ==> drv_of(evals, attr) is None,
    decreases evals.len(),
{
    if evals.len() > 0 && i < evals.len() - 1 {
        assert(evals[evals.len() - 1].attr@ != attr);
        assert forall|j: int| i < j < evals.drop_last().len() && 0 <= j implies (
        #[trigger] evals.drop_last()[j]).attr@ != attr by {
            assert(evals.drop_last()[j] == evals[j]);
        }
        law_the_last_row_of_an_attr_counts(evals.drop_last(), attr, i);
    }
}

/// An attr is compared with the merge base exactly where one was given, by what the
/// merge base says of that attr.
pub proof fn law_forks_are_looked_up_by_attr(fork: &[AttrEval], attr: Seq<char>, i: int)
    requires
        0 <= i < fork@.len(),
        fork@[i].attr@ == attr,
        forall|j: int| i < j < fork@.len() ==> (#[trigger] fork@[j]).attr@ != attr,
    ensures
        fork_drv(None, attr) is None,
        fork_drv(Some(fork), attr) == Some(text::opt(fork@[i].drv_path)),
{
    law_the_last_row_of_an_attr_counts(fork@, attr, i);
}

/// What is said of an entry is what its fields hold: no side is taken for the other.
pub proof fn law_entries_say_what_their_fields_hold(e: DiffEntry, v: Seq<DiffEntry>, i: int)
    ensures
        e@.attr == e.attr@,
        e@.kind == e.kind,
        e@.attribution == e.attribution,
        e@.base is Some <==> e.base_drv is Some,
        e.base_drv is Some ==> e@.base->0 == e.base_drv->0@,
        e@.head is Some <==> e.head_drv is Some,
        e.head_drv is Some ==> e@.head->0 == e.head_drv->0@,
        attrs_of(v).len() == v.len(),
        0 <= i < v.len() ==> attrs_of(v)[i] == v[i].attr@,
{
}

/// The names of evaluations are their attrs, one for one and in their order.
pub proof fn law_names_are_the_attrs(evals: Seq<AttrEval>, i: int)
    ensures
        names(evals).len() == evals.len(),
        0 <= i < evals.len() ==> names(evals)[i] == evals[i].attr@,
{
}

} // verus!
