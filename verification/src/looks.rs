//! What the append-only log holds after any number of looks at a progress tree
//! that grows and changes between them.
//!
//! [`Tree::emit_completed`](crate::live::Tree::emit_completed) is one look. The
//! laws here speak of all looks together: no line comes twice, a parent's line
//! comes before the lines below it, a leaf's only when it is done, and in the
//! end no line is missing.

use vstd::prelude::*;

use crate::live;
use crate::live::{NodeData, State};

verus! {

/// What happens to a tree.
pub enum Step {
    /// A node is made, which no row shows yet.
    Make(NodeData),
    /// The nodes of these numbers are shown, from the given row on; what stood
    /// there comes behind them.
    Show(int, Seq<int>),
    /// The node of this number changes, but for its depth.
    Update(int, NodeData),
    /// The log is brought up to date.
    Look,
}

/// A tree and its log: the nodes by number, the node of each row, and the nodes
/// of the lines in the log.
#[verifier::ext_equal]
pub struct Watched {
    pub nodes: Seq<NodeData>,
    pub order: Seq<int>,
    pub printed: Seq<int>,
}

/// Whether the row `k` is at most one level deeper than the row before it; the
/// first row is at the top.
pub open spec fn steps_down(rows: Seq<NodeData>, k: int) -> bool {
    rows[k].depth <= if k == 0 {
        0
    } else {
        rows[k - 1].depth + 1
    }
}

/// Whether no row skips a level.
pub open spec fn nested(rows: Seq<NodeData>) -> bool {
    forall|k: int| 0 <= k < rows.len() ==> #[trigger] steps_down(rows, k)
}

/// Whether `a` occurs in a list before `b`.
pub open spec fn before(list: Seq<int>, a: int, b: int) -> bool {
    exists|x: int, y: int|
        0 <= x < y < list.len() && #[trigger] list[x] == a && #[trigger] list[y] == b
}

impl Watched {
    /// The rows, in order.
    pub open spec fn rows(self) -> Seq<NodeData> {
        Seq::new(self.order.len(), |k: int| self.nodes[self.order[k]])
    }

    /// Which nodes have their line in the log, by number.
    pub open spec fn logged(self) -> Seq<bool> {
        Seq::new(self.nodes.len(), |i: int| self.nodes[i].emitted)
    }

    /// The nodes whose lines a look adds now.
    pub open spec fn news(self) -> Seq<int> {
        live::log_upto(
            self.rows(),
            self.order,
            self.logged(),
            self.order,
            self.rows().len() as int,
        ).1
    }

    /// Which nodes are logged after a look.
    pub open spec fn logged_then(self) -> Seq<bool> {
        live::log_upto(
            self.rows(),
            self.order,
            self.logged(),
            self.order,
            self.rows().len() as int,
        ).0
    }

    /// The tree and its log after a step.
    pub open spec fn after(self, s: Step) -> Watched {
        match s {
            Step::Make(n) => Watched {
                nodes: self.nodes.push(NodeData { emitted: false, ..n }),
                ..self
            },
            Step::Show(at, sub) => Watched {
                order: self.order.take(at) + sub + self.order.skip(at),
                ..self
            },
            Step::Update(id, n) => Watched {
                nodes: self.nodes.update(
                    id,
                    NodeData {
                        depth: self.nodes[id].depth,
                        emitted: self.nodes[id].emitted,
                        ..n
                    },
                ),
                ..self
            },
            Step::Look => Watched {
                nodes: Seq::new(
                    self.nodes.len(),
                    |i: int| NodeData { emitted: self.logged_then()[i], ..self.nodes[i] },
                ),
                printed: self.printed + self.news(),
                ..self
            },
        }
    }

    /// Whether a step is one that a tree takes: numbers are of nodes; what is
    /// shown was not shown before, takes no row away from its parent, and leaves
    /// no row that skips a level.
    pub open spec fn allowed(self, s: Step) -> bool {
        match s {
            Step::Make(_) => true,
            Step::Show(at, sub) => {
                &&& 0 <= at <= self.order.len()
                &&& sub.no_duplicates()
                &&& forall|k: int|
                    0 <= k < sub.len() ==> 0 <= #[trigger] sub[k] < self.nodes.len()
                        && !self.order.contains(sub[k])
                &&& forall|k: int|
                    0 <= k < sub.len() && at < self.order.len() ==> self.nodes[#[trigger] sub[k]].depth
                        >= self.nodes[self.order[at]].depth
                &&& nested(self.after(s).rows())
            },
            Step::Update(id, _) => 0 <= id < self.nodes.len(),
            Step::Look => true,
        }
    }

    /// Whether the lines in the log come once each, only of rows, and a parent's
    /// before those below it.
    pub open spec fn in_order(self) -> bool {
        &&& self.printed.no_duplicates()
        &&& forall|x: int| #[trigger] self.printed.contains(x) ==> self.order.contains(x)
        &&& forall|i: int, k: int| #[trigger]
            live::below(self.rows(), i, k) && self.printed.contains(self.order[k]) ==> before(
                self.printed,
                self.order[i],
                self.order[k],
            )
    }

    spec fn wf(self) -> bool {
        &&& self.order.no_duplicates()
        &&& forall|k: int|
            0 <= k < self.order.len() ==> 0 <= #[trigger] self.order[k] < self.nodes.len()
        &&& nested(self.rows())
        &&& forall|i: int|
            0 <= i < self.nodes.len() ==> ((#[trigger] self.nodes[i]).emitted
                <==> self.printed.contains(i))
        &&& self.in_order()
    }
}

/// The tree and its log after some steps, from an empty tree on.
pub open spec fn watched(steps: Seq<Step>) -> Watched
    decreases steps.len(),
{
    if steps.len() == 0 {
        Watched { nodes: Seq::empty(), order: Seq::empty(), printed: Seq::empty() }
    } else {
        watched(steps.drop_last()).after(steps.last())
    }
}

/// Whether every one of the steps is one that the tree takes where it comes.
pub open spec fn sound(steps: Seq<Step>) -> bool
    decreases steps.len(),
{
    steps.len() == 0 || (sound(steps.drop_last()) && watched(steps.drop_last()).allowed(
        steps.last(),
    ))
}

// --- rows and what is above them ---------------------------------------------

/// Whether the row `i` is above the row `end` by a level less than `levels`, as
/// far as the rows before `end` tell.
spec fn above(rows: Seq<NodeData>, i: int, end: int, levels: int) -> bool {
    &&& 0 <= i < end
    &&& rows[i].depth < levels
    &&& forall|m: int| i < m < end ==> (#[trigger] rows[m]).depth > rows[i].depth
}

proof fn lemma_climb(rows: Seq<NodeData>, end: int, levels: int)
    requires
        nested(rows),
        0 <= end < rows.len(),
        0 <= levels <= rows[end].depth,
    ensures
        ({
            let c = live::climb(rows, end, levels);
            &&& forall|x: int, y: int| 0 <= x < y < c.len() ==> #[trigger] c[x] < #[trigger] c[y]
            &&& forall|x: int| 0 <= x < c.len() ==> above(rows, #[trigger] c[x], end, levels)
            &&& forall|i: int| #[trigger] above(rows, i, end, levels) ==> c.contains(i)
        }),
    decreases end,
{
    let c = live::climb(rows, end, levels);
    assert(steps_down(rows, end));
    if end <= 0 || levels <= 0 {
    } else if rows[end - 1].depth == levels - 1 {
        lemma_climb(rows, end - 1, levels - 1);
        let up = live::climb(rows, end - 1, levels - 1);
        assert(c == up.push(end - 1));
        assert forall|x: int| 0 <= x < c.len() implies above(rows, #[trigger] c[x], end, levels) by {
            if x < up.len() {
                assert(c[x] == up[x]);
                assert(above(rows, up[x], end - 1, levels - 1));
            }
        }
        assert forall|x: int, y: int| 0 <= x < y < c.len() implies #[trigger] c[x]
            < #[trigger] c[y] by {
            assert(c[x] == up[x]);
            assert(above(rows, up[x], end - 1, levels - 1));
            if y < up.len() {
                assert(c[y] == up[y]);
            }
        }
        assert forall|i: int| #[trigger] above(rows, i, end, levels) implies c.contains(i) by {
            if i == end - 1 {
                assert(c[up.len() as int] == i);
            } else {
                assert(rows[end - 1].depth > rows[i].depth);
                assert(above(rows, i, end - 1, levels - 1));
                let x = choose|x: int| 0 <= x < up.len() && up[x] == i;
                assert(c[x] == i);
            }
        }
    } else {
        assert(rows[end - 1].depth >= levels);
        lemma_climb(rows, end - 1, levels);
        assert(c == live::climb(rows, end - 1, levels));
        assert forall|x: int| 0 <= x < c.len() implies above(rows, #[trigger] c[x], end, levels) by {
            assert(above(rows, c[x], end - 1, levels));
        }
        assert forall|i: int| #[trigger] above(rows, i, end, levels) implies c.contains(i) by {
            assert(above(rows, i, end - 1, levels));
        }
    }
}

/// What a path to a row is: the rows above it from the top down, and itself.
proof fn lemma_lineage(rows: Seq<NodeData>, k: int)
    requires
        nested(rows),
        0 <= k < rows.len(),
    ensures
        ({
            let path = live::lineage(rows, k);
            &&& path.len() > 0 && path.last() == k
            &&& forall|x: int|
                0 <= x < path.len() ==> #[trigger] path[x] == k || live::below(rows, path[x], k)
            &&& forall|i: int| #[trigger] live::below(rows, i, k) ==> path.contains(i)
            &&& forall|x: int, i: int|
                0 <= x < path.len() && #[trigger] live::below(rows, i, path[x])
                    ==> path.take(x).contains(i)
        }),
{
    let d = rows[k].depth as int;
    let up = live::climb(rows, k, d);
    let path = live::lineage(rows, k);
    lemma_climb(rows, k, d);
    assert forall|x: int| 0 <= x < path.len() implies #[trigger] path[x] == k || live::below(
        rows,
        path[x],
        k,
    ) by {
        if x < up.len() {
            assert(path[x] == up[x]);
            assert(above(rows, up[x], k, d));
        }
    }
    assert forall|i: int| #[trigger] live::below(rows, i, k) implies path.contains(i) by {
        assert(rows[k].depth > rows[i].depth);
        assert(above(rows, i, k, d));
        let x = choose|x: int| 0 <= x < up.len() && up[x] == i;
        assert(path[x] == i);
    }
    assert forall|x: int, i: int|
        0 <= x < path.len() && #[trigger] live::below(rows, i, path[x]) implies path.take(
        x,
    ).contains(i) by {
        let a = path[x];
        assert(a == k || live::below(rows, a, k));
        assert forall|m: int| i < m <= k implies (#[trigger] rows[m]).depth > rows[i].depth by {
            if m > a {
                assert(rows[m].depth > rows[a].depth);
                assert(rows[a].depth > rows[i].depth);
            }
        }
        assert(live::below(rows, i, k));
        let y = choose|y: int| 0 <= y < path.len() && path[y] == i;
        if y >= x {
            if y < up.len() && x < up.len() && x < y {
                assert(up[x] < up[y]);
            }
            assert(false);
        }
        assert(path.take(x)[y] == i);
    }
}

/// Every row is a leaf or has one below it.
proof fn lemma_some_leaf(rows: Seq<NodeData>, k: int) -> (j: int)
    requires
        0 <= k < rows.len(),
    ensures
        k <= j < rows.len(),
        live::leaf(rows, j),
        j == k || live::below(rows, k, j),
    decreases rows.len() - k,
{
    if live::leaf(rows, k) {
        k
    } else {
        let j = lemma_some_leaf(rows, k + 1);
        assert forall|m: int| k < m <= j implies (#[trigger] rows[m]).depth > rows[k].depth by {
            if m > k + 1 {
                assert(live::below(rows, k + 1, j));
            }
        }
        j
    }
}

// --- one look ----------------------------------------------------------------

/// What holds of the log while a look adds lines to it.
spec fn kept(rows: Seq<NodeData>, ids: Seq<int>, flags: Seq<bool>, printed: Seq<int>) -> bool {
    &&& printed.no_duplicates()
    &&& forall|i: int| 0 <= i < flags.len() ==> (#[trigger] flags[i] <==> printed.contains(i))
    &&& forall|x: int| #[trigger] printed.contains(x) ==> ids.contains(x)
    &&& forall|i: int, k: int| #[trigger]
        live::below(rows, i, k) && printed.contains(ids[k]) ==> before(printed, ids[i], ids[k])
}

spec fn fits(rows: Seq<NodeData>, ids: Seq<int>, nodes: nat) -> bool {
    &&& ids.len() == rows.len()
    &&& ids.no_duplicates()
    &&& forall|k: int| 0 <= k < ids.len() ==> 0 <= #[trigger] ids[k] < nodes
    &&& nested(rows)
}

proof fn lemma_before_contains(list: Seq<int>, a: int, b: int)
    requires
        before(list, a, b),
    ensures
        list.contains(a),
{
    let (x, y) = choose|x: int, y: int|
        0 <= x < y < list.len() && #[trigger] list[x] == a && #[trigger] list[y] == b;
    assert(list[x] == a);
}

proof fn lemma_print_one(
    rows: Seq<NodeData>,
    ids: Seq<int>,
    flags: Seq<bool>,
    printed: Seq<int>,
    a: int,
)
    requires
        fits(rows, ids, flags.len()),
        kept(rows, ids, flags, printed),
        0 <= a < rows.len(),
        !flags[ids[a]],
        forall|i: int| #[trigger] live::below(rows, i, a) ==> printed.contains(ids[i]),
    ensures
        kept(rows, ids, flags.update(ids[a], true), printed.push(ids[a])),
{
    let id = ids[a];
    let p = printed.push(id);
    let f = flags.update(id, true);
    assert(!printed.contains(id));
    assert forall|x: int| p.contains(x) == (printed.contains(x) || x == id) by {
        if printed.contains(x) {
            let j = choose|j: int| 0 <= j < printed.len() && printed[j] == x;
            assert(p[j] == x);
        }
        if x == id {
            assert(p[printed.len() as int] == x);
        }
        if p.contains(x) && x != id {
            let j = choose|j: int| 0 <= j < p.len() && p[j] == x;
            assert(printed[j] == x);
        }
    }
    assert(p.no_duplicates()) by {
        assert forall|x: int, y: int| 0 <= x < p.len() && 0 <= y < p.len() && x != y implies p[x]
            != p[y] by {
            if x < printed.len() && y < printed.len() {
                assert(printed[x] != printed[y]);
            } else if x < printed.len() {
                assert(printed.contains(printed[x]));
            } else {
                assert(printed.contains(printed[y]));
            }
        }
    }
    assert forall|i: int| 0 <= i < f.len() implies (#[trigger] f[i] <==> p.contains(i)) by {
        if i != id {
            assert(f[i] == flags[i]);
        }
    }
    assert forall|x: int| #[trigger] p.contains(x) implies ids.contains(x) by {
        if x == id {
            assert(ids[a] == x);
        }
    }
    assert forall|i: int, k: int| #[trigger]
        live::below(rows, i, k) && p.contains(ids[k]) implies before(p, ids[i], ids[k]) by {
        if ids[k] == id {
            assert(k == a);
            assert(printed.contains(ids[i]));
            let x = choose|x: int| 0 <= x < printed.len() && printed[x] == ids[i];
            assert(p[x] == ids[i] && p[printed.len() as int] == ids[k]);
        } else {
            assert(printed.contains(ids[k]));
            assert(before(printed, ids[i], ids[k]));
            let (x, y) = choose|x: int, y: int|
                0 <= x < y < printed.len() && #[trigger] printed[x] == ids[i]
                    && #[trigger] printed[y] == ids[k];
            assert(p[x] == ids[i] && p[y] == ids[k]);
        }
    }
}

proof fn lemma_print_path(
    rows: Seq<NodeData>,
    ids: Seq<int>,
    flags: Seq<bool>,
    printed: Seq<int>,
    path: Seq<int>,
)
    requires
        fits(rows, ids, flags.len()),
        kept(rows, ids, flags, printed),
        forall|x: int| 0 <= x < path.len() ==> 0 <= #[trigger] path[x] < rows.len(),
        forall|x: int, i: int|
            0 <= x < path.len() && #[trigger] live::below(rows, i, path[x]) ==> path.take(
                x,
            ).contains(i),
    ensures
        ({
            let (f, out) = live::log_path(path, ids, flags, ids);
            &&& f.len() == flags.len()
            &&& kept(rows, ids, f, printed + out)
            &&& forall|x: int| 0 <= x < path.len() ==> (printed + out).contains(ids[#[trigger] path[x]])
            &&& forall|z: int|
                0 <= z < out.len() ==> exists|x: int|
                    0 <= x < path.len() && #[trigger] ids[path[x]] == #[trigger] out[z]
        }),
    decreases path.len(),
{
    let (g, more) = live::log_path(path, ids, flags, ids);
    if path.len() == 0 {
        assert(printed + more =~= printed);
    } else {
        let rest = path.drop_last();
        let a = path.last();
        assert forall|x: int, i: int|
            0 <= x < rest.len() && #[trigger] live::below(rows, i, rest[x]) implies rest.take(
            x,
        ).contains(i) by {
            assert(path[x] == rest[x]);
            assert(rest.take(x) =~= path.take(x));
        }
        lemma_print_path(rows, ids, flags, printed, rest);
        let (f, out) = live::log_path(rest, ids, flags, ids);
        let p = printed + out;
        assert(path[path.len() - 1] == a);
        assert(rest =~= path.take(path.len() - 1));
        assert forall|i: int| #[trigger] live::below(rows, i, a) implies p.contains(ids[i]) by {
            assert(live::below(rows, i, path[path.len() - 1]));
            assert(rest.contains(i));
            let x = choose|x: int| 0 <= x < rest.len() && rest[x] == i;
            assert(p.contains(ids[rest[x]]));
        }
        if !f[ids[a]] {
            lemma_print_one(rows, ids, f, p, a);
            assert(printed + more =~= p.push(ids[a]));
        } else {
            assert(p.contains(ids[a]));
        }
        assert forall|x: int| 0 <= x < path.len() implies (printed + more).contains(
            ids[#[trigger] path[x]],
        ) by {
            if x < rest.len() {
                assert(rest[x] == path[x]);
                assert(p.contains(ids[rest[x]]));
                let j = choose|j: int| 0 <= j < p.len() && p[j] == ids[rest[x]];
                assert((printed + more)[j] == p[j]);
            } else if !f[ids[a]] {
                assert(p.push(ids[a])[p.len() as int] == ids[a]);
            }
        }
        assert forall|z: int| 0 <= z < more.len() implies exists|x: int|
            0 <= x < path.len() && #[trigger] ids[path[x]] == #[trigger] more[z] by {
            if z < out.len() {
                let x = choose|x: int|
                    0 <= x < rest.len() && #[trigger] ids[rest[x]] == #[trigger] out[z];
                assert(ids[path[x]] == more[z]);
            } else {
                assert(ids[path[path.len() - 1]] == more[z]);
            }
        }
    }
}

/// Whether a row is a leaf that is done, or has one below it.
pub open spec fn due(rows: Seq<NodeData>, a: int) -> bool {
    exists|k: int|
        0 <= k < rows.len() && #[trigger] live::leaf(rows, k) && rows[k].state == State::Done && (a
            == k || live::below(rows, a, k))
}

/// Whether a node is that of a row that is due.
pub open spec fn node_due(rows: Seq<NodeData>, ids: Seq<int>, id: int) -> bool {
    exists|a: int| 0 <= a < rows.len() && #[trigger] ids[a] == id && due(rows, a)
}

proof fn lemma_print_upto(
    rows: Seq<NodeData>,
    ids: Seq<int>,
    flags: Seq<bool>,
    printed: Seq<int>,
    n: int,
)
    requires
        fits(rows, ids, flags.len()),
        kept(rows, ids, flags, printed),
        0 <= n <= rows.len(),
    ensures
        ({
            let (f, out) = live::log_upto(rows, ids, flags, ids, n);
            &&& f.len() == flags.len()
            &&& kept(rows, ids, f, printed + out)
            &&& forall|k: int|
                0 <= k < n && #[trigger] live::leaf(rows, k) && rows[k].state == State::Done ==> (
                printed + out).contains(ids[k])
            &&& forall|z: int| 0 <= z < out.len() ==> node_due(rows, ids, #[trigger] out[z])
        }),
    decreases n,
{
    let (g, all) = live::log_upto(rows, ids, flags, ids, n);
    if n <= 0 {
        assert(printed + all =~= printed);
    } else {
        lemma_print_upto(rows, ids, flags, printed, n - 1);
        let (f, out) = live::log_upto(rows, ids, flags, ids, n - 1);
        let p = printed + out;
        if live::leaf(rows, n - 1) && rows[n - 1].state == State::Done {
            let path = live::lineage(rows, n - 1);
            lemma_lineage(rows, n - 1);
            assert forall|x: int| 0 <= x < path.len() implies 0 <= #[trigger] path[x]
                < rows.len() by {}
            lemma_print_path(rows, ids, f, p, path);
            let more = live::log_path(path, ids, f, ids).1;
            assert(printed + all =~= p + more);
            assert forall|k: int|
                0 <= k < n && #[trigger] live::leaf(rows, k) && rows[k].state
                    == State::Done implies (printed + all).contains(ids[k]) by {
                if k < n - 1 {
                    assert(p.contains(ids[k]));
                    let j = choose|j: int| 0 <= j < p.len() && p[j] == ids[k];
                    assert((p + more)[j] == ids[k]);
                } else {
                    assert(path[path.len() - 1] == k);
                    assert((p + more).contains(ids[path[path.len() - 1]]));
                }
            }
            assert forall|z: int| 0 <= z < all.len() implies node_due(
                rows,
                ids,
                #[trigger] all[z],
            ) by {
                if z < out.len() {
                    assert(all[z] == out[z]);
                } else {
                    let x = choose|x: int|
                        0 <= x < path.len() && #[trigger] ids[path[x]] == #[trigger] more[z
                            - out.len()];
                    assert(path[x] == n - 1 || live::below(rows, path[x], n - 1));
                    assert(live::leaf(rows, n - 1));
                    assert(due(rows, path[x]));
                    assert(ids[path[x]] == all[z]);
                }
            }
        } else {
            assert(g == f && all == out);
        }
    }
}

impl Watched {
    proof fn lemma_look(self)
        requires
            self.wf(),
        ensures
            self.after(Step::Look).wf(),
            self.after(Step::Look).printed == self.printed + self.news(),
            forall|k: int|
                0 <= k < self.order.len() && #[trigger] live::leaf(self.rows(), k)
                    && self.rows()[k].state == State::Done ==> self.after(
                    Step::Look,
                ).printed.contains(self.order[k]),
            forall|z: int|
                0 <= z < self.news().len() ==> node_due(
                    self.rows(),
                    self.order,
                    #[trigger] self.news()[z],
                ),
    {
        let rows = self.rows();
        let then = self.after(Step::Look);
        assert forall|i: int| 0 <= i < self.logged().len() implies (#[trigger] self.logged()[i]
            <==> self.printed.contains(i)) by {
            assert(self.nodes[i].emitted <==> self.printed.contains(i));
        }
        lemma_print_upto(rows, self.order, self.logged(), self.printed, rows.len() as int);
        let f = self.logged_then();
        assert forall|i: int| 0 <= i < then.nodes.len() implies ((#[trigger] then.nodes[i]).emitted
            <==> then.printed.contains(i)) by {
            assert(f[i] <==> then.printed.contains(i));
        }
        lemma_same_depths(rows, then.rows());
    }
}

proof fn lemma_same_depths(a: Seq<NodeData>, b: Seq<NodeData>)
    requires
        a.len() == b.len(),
        forall|k: int| 0 <= k < a.len() ==> (#[trigger] a[k]).depth == b[k].depth,
        forall|k: int| 0 <= k < a.len() ==> a[k].depth == (#[trigger] b[k]).depth,
    ensures
        nested(a) ==> nested(b),
        forall|i: int, k: int| #[trigger] live::below(b, i, k) ==> live::below(a, i, k),
        forall|i: int, k: int| #[trigger] live::below(a, i, k) ==> live::below(b, i, k),
{
    assert forall|k: int| nested(a) && 0 <= k < b.len() implies #[trigger] steps_down(b, k) by {
        assert(steps_down(a, k));
        assert(a[k].depth == b[k].depth);
        if k > 0 {
            assert(a[k - 1].depth == b[k - 1].depth);
        }
    }
}

// --- any number of looks -----------------------------------------------------

impl Watched {
    proof fn lemma_show(self, at: int, sub: Seq<int>)
        requires
            self.wf(),
            self.allowed(Step::Show(at, sub)),
        ensures
            self.after(Step::Show(at, sub)).wf(),
    {
        let then = self.after(Step::Show(at, sub));
        let n = sub.len() as int;
        let old_rows = self.rows();
        let rows = then.rows();
        assert forall|k: int| 0 <= k < then.order.len() implies 0 <= #[trigger] then.order[k]
            < then.nodes.len() by {
            if k < at {
                assert(then.order[k] == self.order[k]);
            } else if k < at + n {
                assert(then.order[k] == sub[k - at]);
            } else {
                assert(then.order[k] == self.order[k - n]);
            }
        }
        assert(then.order.no_duplicates()) by {
            assert forall|x: int, y: int|
                0 <= x < y < then.order.len() implies then.order[x] != then.order[y] by {
                let a = then.order[x];
                let b = then.order[y];
                if x < at {
                    assert(a == self.order[x]);
                    assert(self.order.contains(a));
                    if y < at {
                        assert(b == self.order[y]);
                    } else if y < at + n {
                        assert(b == sub[y - at]);
                    } else {
                        assert(b == self.order[y - n]);
                    }
                } else if x < at + n {
                    assert(a == sub[x - at]);
                    if y < at + n {
                        assert(b == sub[y - at]);
                    } else {
                        assert(b == self.order[y - n]);
                        assert(self.order.contains(b));
                    }
                } else {
                    assert(a == self.order[x - n]);
                    assert(b == self.order[y - n]);
                }
            }
        }
        assert forall|x: int| #[trigger] then.printed.contains(x) implies then.order.contains(x) by {
            let j = choose|j: int| 0 <= j < self.order.len() && self.order[j] == x;
            if j < at {
                assert(then.order[j] == x);
            } else {
                assert(then.order[j + n] == x);
            }
        }
        assert forall|i: int, k: int| #[trigger]
            live::below(rows, i, k) && then.printed.contains(then.order[k]) implies before(
            then.printed,
            then.order[i],
            then.order[k],
        ) by {
            assert(self.order.contains(then.order[k]));
            assert(k < at || k >= at + n) by {
                if at <= k < at + n {
                    assert(then.order[k] == sub[k - at]);
                }
            }
            if at <= i < at + n {
                // What comes behind the new rows is no deeper than any of them.
                assert(k >= at + n);
                assert(rows[at + n] == old_rows[at]);
                assert(then.order[i] == sub[i - at]);
                assert(rows[i] == self.nodes[sub[i - at]]);
                assert(rows[at + n].depth > rows[i].depth);
                assert(false);
            }
            let oi = if i < at {
                i
            } else {
                i - n
            };
            let ok = if k < at {
                k
            } else {
                k - n
            };
            assert(then.order[i] == self.order[oi]);
            assert(then.order[k] == self.order[ok]);
            assert(rows[i] == old_rows[oi]);
            assert forall|m: int| oi < m <= ok implies (#[trigger] old_rows[m]).depth
                > old_rows[oi].depth by {
                if m < at {
                    assert(rows[m] == old_rows[m]);
                } else {
                    assert(rows[m + n] == old_rows[m]);
                }
            }
            assert(live::below(old_rows, oi, ok));
        }
    }

    proof fn lemma_step(self, s: Step)
        requires
            self.wf(),
            self.allowed(s),
        ensures
            self.after(s).wf(),
    {
        let then = self.after(s);
        match s {
            Step::Make(n) => {
                assert(then.rows() =~= self.rows());
                assert forall|i: int| 0 <= i < then.nodes.len() implies ((
                #[trigger] then.nodes[i]).emitted <==> then.printed.contains(i)) by {
                    if i < self.nodes.len() {
                        assert(then.nodes[i] == self.nodes[i]);
                    } else if self.printed.contains(i) {
                        assert(self.order.contains(i));
                    }
                }
            },
            Step::Show(at, sub) => {
                self.lemma_show(at, sub);
            },
            Step::Update(id, n) => {
                assert forall|i: int| 0 <= i < then.nodes.len() implies ((
                #[trigger] then.nodes[i]).emitted <==> then.printed.contains(i)) by {
                    assert(self.nodes[i].emitted <==> self.printed.contains(i));
                }
                lemma_same_depths(self.rows(), then.rows());
            },
            Step::Look => {
                self.lemma_look();
            },
        }
    }
}

proof fn lemma_watched(steps: Seq<Step>)
    requires
        sound(steps),
    ensures
        watched(steps).wf(),
    decreases steps.len(),
{
    if steps.len() > 0 {
        lemma_watched(steps.drop_last());
        watched(steps.drop_last()).lemma_step(steps.last());
    }
}

/// Whatever happens to a tree, and however often the log is brought up to date
/// meanwhile, no node has two lines in the log, and the line of a parent comes
/// before every line of what is below it.
pub proof fn law_log_is_in_order_over_all_looks(steps: Seq<Step>)
    requires
        sound(steps),
    ensures
        watched(steps).in_order(),
{
    lemma_watched(steps);
}

/// At any look, a leaf gets its line only when it is done, and any other row only
/// when a leaf below it is done.
pub proof fn law_lines_come_with_done_leaves(steps: Seq<Step>, z: int)
    requires
        sound(steps),
        0 <= z < watched(steps).news().len(),
    ensures
        ({
            let w = watched(steps);
            &&& w.after(Step::Look).printed == w.printed + w.news()
            &&& exists|a: int|
                0 <= a < w.order.len() && #[trigger] w.order[a] == w.news()[z] && due(w.rows(), a)
                    && (live::leaf(w.rows(), a) ==> w.rows()[a].state == State::Done)
        }),
{
    lemma_watched(steps);
    let w = watched(steps);
    w.lemma_look();
    let a = choose|a: int|
        0 <= a < w.rows().len() && #[trigger] w.order[a] == w.news()[z] && due(w.rows(), a);
    assert(node_due(w.rows(), w.order, w.news()[z]));
    let rows = w.rows();
    if live::leaf(rows, a) {
        let k = choose|k: int|
            0 <= k < rows.len() && #[trigger] live::leaf(rows, k) && rows[k].state == State::Done
                && (a == k || live::below(rows, a, k));
        if a != k {
            assert(rows[a + 1].depth > rows[a].depth);
        }
    }
}

/// A look adds nothing when every leaf that is done has its line already.
pub proof fn law_looks_without_news_add_nothing(steps: Seq<Step>)
    requires
        sound(steps),
        forall|k: int|
            0 <= k < watched(steps).order.len() && #[trigger] live::leaf(watched(steps).rows(), k)
                && watched(steps).rows()[k].state == State::Done ==> watched(
                steps,
            ).printed.contains(watched(steps).order[k]),
    ensures
        watched(steps).news() == Seq::<int>::empty(),
{
    lemma_watched(steps);
    let w = watched(steps);
    w.lemma_look();
    let rows = w.rows();
    let news = w.news();
    if news.len() > 0 {
        assert(node_due(rows, w.order, news[0]));
        let a = choose|a: int|
            0 <= a < rows.len() && #[trigger] w.order[a] == news[0] && due(rows, a);
        let k = choose|k: int|
            0 <= k < rows.len() && #[trigger] live::leaf(rows, k) && rows[k].state == State::Done
                && (a == k || live::below(rows, a, k));
        assert(w.printed.contains(w.order[k]));
        if a != k {
            lemma_before_contains(w.printed, w.order[a], w.order[k]);
        }
        let j = choose|j: int| 0 <= j < w.printed.len() && w.printed[j] == w.order[a];
        let p = w.printed + news;
        assert(p[j] == p[w.printed.len() as int]);
        assert(false);
    }
}

proof fn lemma_lines_stay(first: Seq<Step>, more: Seq<Step>, x: int)
    requires
        watched(first).printed.contains(x),
    ensures
        watched(first + more).printed.contains(x),
    decreases more.len(),
{
    if more.len() == 0 {
        assert(first + more =~= first);
    } else {
        lemma_lines_stay(first, more.drop_last(), x);
        assert((first + more).drop_last() =~= first + more.drop_last());
        let p = watched(first + more.drop_last()).printed;
        let j = choose|j: int| 0 <= j < p.len() && p[j] == x;
        assert(watched(first + more).printed[j] == x);
    }
}

/// A look adds nothing when no leaf became done since an earlier look: every
/// leaf that is done now was a leaf that was done then.
pub proof fn law_looks_are_quiet_until_a_leaf_is_done(first: Seq<Step>, more: Seq<Step>)
    requires
        sound(first),
        sound(first.push(Step::Look) + more),
        ({
            let then = watched(first);
            let now = watched(first.push(Step::Look) + more);
            forall|k: int|
                0 <= k < now.order.len() && #[trigger] live::leaf(now.rows(), k)
                    && now.rows()[k].state == State::Done ==> exists|j: int|
                    0 <= j < then.order.len() && #[trigger] live::leaf(then.rows(), j)
                        && then.rows()[j].state == State::Done && then.order[j] == now.order[k]
        }),
    ensures
        watched(first.push(Step::Look) + more).news() == Seq::<int>::empty(),
{
    let looked = first.push(Step::Look);
    let steps = looked + more;
    let then = watched(first);
    let now = watched(steps);
    lemma_watched(first);
    then.lemma_look();
    assert(looked.drop_last() =~= first);
    assert forall|k: int|
        0 <= k < now.order.len() && #[trigger] live::leaf(now.rows(), k) && now.rows()[k].state
            == State::Done implies now.printed.contains(now.order[k]) by {
        let j = choose|j: int|
            0 <= j < then.order.len() && #[trigger] live::leaf(then.rows(), j)
                && then.rows()[j].state == State::Done && then.order[j] == now.order[k];
        assert(watched(looked).printed.contains(then.order[j]));
        lemma_lines_stay(looked, more, then.order[j]);
    }
    law_looks_without_news_add_nothing(steps);
}

/// Once every leaf is done, a look leaves no row without its line; there is one
/// for each then, and no other.
pub proof fn law_log_is_complete_once_all_is_done(steps: Seq<Step>)
    requires
        sound(steps),
        forall|k: int|
            0 <= k < watched(steps).order.len() && #[trigger] live::leaf(watched(steps).rows(), k)
                ==> watched(steps).rows()[k].state == State::Done,
    ensures
        ({
            let w = watched(steps).after(Step::Look);
            &&& w.printed.no_duplicates()
            &&& forall|x: int| #[trigger] w.printed.contains(x) <==> w.order.contains(x)
        }),
{
    lemma_watched(steps);
    let w = watched(steps);
    w.lemma_look();
    let rows = w.rows();
    let then = w.after(Step::Look);
    assert forall|x: int| #[trigger] then.printed.contains(x) <==> then.order.contains(x) by {
        if then.order.contains(x) {
            let a = choose|a: int| 0 <= a < w.order.len() && w.order[a] == x;
            let k = lemma_some_leaf(rows, a);
            assert(then.printed.contains(w.order[k]));
            if a != k {
                lemma_same_depths(rows, then.rows());
                assert(live::below(then.rows(), a, k));
                lemma_before_contains(then.printed, w.order[a], w.order[k]);
            }
        }
    }
}

// --- what a tree does --------------------------------------------------------

/// Whether a row of a node has a line.
spec fn line_of<L>(ids: Seq<int>, lines: Seq<L>, id: int, line: L) -> bool {
    exists|a: int| 0 <= a < ids.len() && #[trigger] ids[a] == id && lines[a] == line
}

proof fn lemma_lines_of_path<L>(
    path: Seq<int>,
    ids: Seq<int>,
    flags: Seq<bool>,
    lines: Seq<L>,
    n: nat,
)
    requires
        lines.len() == n,
        ids.len() == n,
        forall|x: int| 0 <= x < path.len() ==> 0 <= #[trigger] path[x] < n,
    ensures
        ({
            let (f, out) = live::log_path(path, ids, flags, ids);
            let (g, text) = live::log_path(path, ids, flags, lines);
            &&& f == g
            &&& text.len() == out.len()
            &&& forall|z: int|
                0 <= z < out.len() ==> line_of(ids, lines, #[trigger] out[z], text[z])
        }),
    decreases path.len(),
{
    if path.len() > 0 {
        let rest = path.drop_last();
        lemma_lines_of_path(rest, ids, flags, lines, n);
        let (f, out) = live::log_path(rest, ids, flags, ids);
        let (g, text) = live::log_path(rest, ids, flags, lines);
        let (f1, out1) = live::log_path(path, ids, flags, ids);
        let (g1, text1) = live::log_path(path, ids, flags, lines);
        assert forall|z: int| 0 <= z < out1.len() implies line_of(
            ids,
            lines,
            #[trigger] out1[z],
            text1[z],
        ) by {
            if z < out.len() {
                assert(out1[z] == out[z] && text1[z] == text[z]);
            } else {
                let a = path[path.len() - 1];
                assert(ids[a] == out1[z] && lines[a] == text1[z]);
            }
        }
    }
}

proof fn lemma_lines_upto<L>(
    rows: Seq<NodeData>,
    ids: Seq<int>,
    flags: Seq<bool>,
    lines: Seq<L>,
    n: int,
)
    requires
        lines.len() == rows.len(),
        ids.len() == rows.len(),
        nested(rows),
        0 <= n <= rows.len(),
    ensures
        ({
            let (f, out) = live::log_upto(rows, ids, flags, ids, n);
            let (g, text) = live::log_upto(rows, ids, flags, lines, n);
            &&& f == g
            &&& text.len() == out.len()
            &&& forall|z: int|
                0 <= z < out.len() ==> line_of(ids, lines, #[trigger] out[z], text[z])
        }),
    decreases n,
{
    if n > 0 {
        lemma_lines_upto(rows, ids, flags, lines, n - 1);
        let (f, out) = live::log_upto(rows, ids, flags, ids, n - 1);
        let (g, text) = live::log_upto(rows, ids, flags, lines, n - 1);
        let (f1, out1) = live::log_upto(rows, ids, flags, ids, n);
        let (g1, text1) = live::log_upto(rows, ids, flags, lines, n);
        if live::leaf(rows, n - 1) && rows[n - 1].state == State::Done {
            let path = live::lineage(rows, n - 1);
            lemma_lineage(rows, n - 1);
            lemma_lines_of_path(path, ids, f, lines, rows.len());
            let more = live::log_path(path, ids, f, ids).1;
            let more_text = live::log_path(path, ids, f, lines).1;
            assert forall|z: int| 0 <= z < out1.len() implies line_of(
            ids,
            lines,
            #[trigger] out1[z],
            text1[z],
        ) by {
                if z < out.len() {
                    assert(out1[z] == out[z] && text1[z] == text[z]);
                } else {
                    let y = z - out.len();
                    assert(out1[z] == more[y] && text1[z] == more_text[y]);
                }
            }
        }
    }
}

/// The lines that a look adds are the plain lines of the rows of the nodes that
/// it logs, in the same order; and it logs the same nodes.
pub proof fn law_lines_are_of_the_logged_nodes(steps: Seq<Step>, least: nat, z: int)
    requires
        sound(steps),
    ensures
        ({
            let w = watched(steps);
            let lines = live::row_lines(w.rows(), least, false);
            let (flags, out) = live::log_upto(
                w.rows(),
                w.order,
                w.logged(),
                lines,
                w.rows().len() as int,
            );
            &&& flags == w.logged_then()
            &&& out.len() == w.news().len()
            &&& 0 <= z < out.len() ==> exists|a: int|
                0 <= a < w.order.len() && #[trigger] w.order[a] == w.news()[z] && lines[a] == out[z]
        }),
{
    lemma_watched(steps);
    let w = watched(steps);
    let lines = live::row_lines(w.rows(), least, false);
    lemma_lines_upto(w.rows(), w.order, w.logged(), lines, w.rows().len() as int);
    let out = live::log_upto(w.rows(), w.order, w.logged(), lines, w.rows().len() as int).1;
    if 0 <= z < out.len() {
        assert(line_of(w.order, lines, w.news()[z], out[z]));
    }
}

/// Whether the node at `k` of a subtree goes below its root, at most one level
/// deeper than the node before it.
pub open spec fn hangs(nodes: Seq<NodeData>, sub: Seq<int>, k: int) -> bool {
    nodes[sub[0]].depth < nodes[sub[k]].depth <= nodes[sub[k - 1]].depth + 1
}

/// Showing a subtree among the children of a phase, at the slot of its key, is a
/// step that a tree takes.
pub proof fn law_sorted_insertion_is_a_step(steps: Seq<Step>, p: int, sub: Seq<int>)
    requires
        sound(steps),
        0 <= p < watched(steps).order.len(),
        sub.len() > 0,
        sub.no_duplicates(),
        forall|k: int|
            0 <= k < sub.len() ==> 0 <= #[trigger] sub[k] < watched(steps).nodes.len() && !watched(
                steps,
            ).order.contains(sub[k]),
        watched(steps).nodes[sub[0]].depth == watched(steps).rows()[p].depth + 1,
        forall|k: int| 0 < k < sub.len() ==> #[trigger] hangs(watched(steps).nodes, sub, k),
    ensures
        ({
            let w = watched(steps);
            let at = live::slot(
                w.rows(),
                w.rows()[p].depth,
                w.nodes[sub[0]].sort_key,
                p + 1,
            );
            w.allowed(Step::Show(at, sub))
        }),
{
    lemma_watched(steps);
    let w = watched(steps);
    let rows = w.rows();
    let pd = rows[p].depth;
    let key = w.nodes[sub[0]].sort_key;
    let at = live::slot(rows, pd, key, p + 1);
    live::lemma_slot(rows, pd, key, p + 1);
    let n = sub.len() as int;
    let then = w.after(Step::Show(at, sub));
    let now = then.rows();
    if at < w.order.len() {
        assert(rows[at].depth <= pd + 1);
    }
    assert forall|k: int|
        0 <= k < sub.len() && at < w.order.len() implies w.nodes[#[trigger] sub[k]].depth
        >= w.nodes[w.order[at]].depth by {
        if k > 0 {
            assert(hangs(w.nodes, sub, k));
        }
    }
    assert forall|k: int| 0 <= k < now.len() implies #[trigger] steps_down(now, k) by {
        if k < at {
            assert(steps_down(rows, k));
            assert(now[k] == rows[k]);
            if k > 0 {
                assert(now[k - 1] == rows[k - 1]);
            }
        } else if k == at {
            assert(then.order[k] == sub[0]);
            assert(now[k - 1] == rows[k - 1]);
            if k - 1 > p {
                assert(rows[k - 1].depth > pd);
            }
        } else if k < at + n {
            assert(then.order[k] == sub[k - at]);
            assert(then.order[k - 1] == sub[k - at - 1]);
            assert(hangs(w.nodes, sub, k - at));
        } else {
            assert(now[k] == rows[k - n]);
            if k == at + n {
                assert(then.order[k - 1] == sub[n - 1]);
                if n > 1 {
                    assert(hangs(w.nodes, sub, n - 1));
                }
            } else {
                assert(steps_down(rows, k - n));
                assert(now[k - 1] == rows[k - 1 - n]);
            }
        }
    }
}

} // verus!
