//! Whole runs of the shard scheduler, from its beginning through any steps of
//! its workers.
//!
//! The steps of [`crate::shards`] say what one event does. The laws here speak
//! of all events of a run: every group with items is handed out once, with the
//! rows that its shards landed; those shards hold the items of the group; and an
//! item that keeps aborting ends the run with an error that names it.

use vstd::multiset::*;
use vstd::prelude::*;

use crate::shards;
use crate::shards::{FailureData, Recovery, Run, ShardData, SlotData};

verus! {

/// One event of a run.
pub enum Step<T> {
    /// A worker takes the first shard of the queue.
    Take(int),
    /// The shard of a worker lands with these rows.
    Land(int, Seq<T>),
    /// A worker has handed in.
    Settle(int),
    /// A worker fails for another reason than an abort.
    Fail(int, FailureData),
    /// The evaluator of a worker aborts, with this much of its shard still owed
    /// and this error.
    Abort(int, Seq<Seq<char>>, FailureData),
}

/// A run with what came of it.
#[verifier::ext_equal]
pub struct Trace<T> {
    pub run: Run<T>,
    /// The shards that landed.
    pub shards: Seq<ShardData>,
    /// The rows of each of them, with the group.
    pub landed: Seq<(int, Seq<T>)>,
    /// The shards that aborted with less than all of their items owed.
    pub cut: Seq<ShardData>,
    /// What was owed of each of those.
    pub left: Seq<ShardData>,
    /// The rows of each group that was handed out, with the group.
    pub handed: Seq<(int, Seq<T>)>,
}

/// What was handed out, with the rows of a group where they are now, too.
pub open spec fn handing<T>(
    handed: Seq<(int, Seq<T>)>,
    g: int,
    rows: Option<Seq<T>>,
) -> Seq<(int, Seq<T>)> {
    match rows {
        Some(v) => handed.push((g, v)),
        None => handed,
    }
}

impl<T> Trace<T> {
    /// The run after a step.
    pub open spec fn after(self, s: Step<T>) -> Trace<T> {
        match s {
            Step::Take(w) => Trace { run: self.run.taken(w), ..self },
            Step::Land(w, rows) => Trace {
                run: self.run.landed(w, rows),
                shards: self.shards.push(self.run.shard(w)),
                landed: self.landed.push((self.run.shard(w).group, rows)),
                handed: handing(
                    self.handed,
                    self.run.shard(w).group,
                    shards::last_rows(self.run.group(w), rows),
                ),
                ..self
            },
            Step::Settle(w) => Trace { run: self.run.settled(w), ..self },
            Step::Fail(w, e) => Trace { run: self.run.broken(e), ..self },
            Step::Abort(w, left, e) => Trace {
                run: self.run.aborted(w, left, e),
                cut: if left.len() < self.run.shard(w).items.len() {
                    self.cut.push(self.run.shard(w))
                } else {
                    self.cut
                },
                left: if left.len() < self.run.shard(w).items.len() {
                    self.left.push(ShardData { group: self.run.shard(w).group, items: left })
                } else {
                    self.left
                },
                handed: if self.rung(w, left) is Done {
                    handing(
                        self.handed,
                        self.run.shard(w).group,
                        shards::last_rows(self.run.group(w), Seq::empty()),
                    )
                } else {
                    self.handed
                },
                ..self
            },
        }
    }

    /// The rung that an abort stands on.
    pub open spec fn rung(self, w: int, left: Seq<Seq<char>>) -> Recovery {
        shards::rung(left.len(), self.run.shard(w).items.len(), self.run.target)
    }

    /// Whether a step is one that the run may take.
    pub open spec fn allowed(self, s: Step<T>) -> bool {
        match s {
            Step::Take(w) => 0 <= w < self.run.workers.len() && self.run.workers[w] is Idle
                && self.run.queue.len() > 0,
            Step::Land(w, _) => 0 <= w < self.run.workers.len() && self.run.workers[w] is Busy,
            Step::Settle(w) => 0 <= w < self.run.workers.len() && self.run.workers[w] is Closing,
            Step::Fail(w, _) => 0 <= w < self.run.workers.len() && !(self.run.workers[w] is Idle),
            Step::Abort(w, _, _) => 0 <= w < self.run.workers.len() && self.run.workers[w] is Busy,
        }
    }
}

/// A run as it begins, with nothing come of it yet.
pub open spec fn started<T>(d: Run<T>) -> Trace<T> {
    Trace {
        run: d,
        shards: Seq::empty(),
        landed: Seq::empty(),
        cut: Seq::empty(),
        left: Seq::empty(),
        handed: Seq::empty(),
    }
}

/// A run after some steps.
pub open spec fn traced<T>(d: Run<T>, steps: Seq<Step<T>>) -> Trace<T>
    decreases steps.len(),
{
    if steps.len() == 0 {
        started(d)
    } else {
        traced(d, steps.drop_last()).after(steps.last())
    }
}

/// Whether every step is one that the run may take where it comes.
pub open spec fn sound<T>(d: Run<T>, steps: Seq<Step<T>>) -> bool
    decreases steps.len(),
{
    steps.len() == 0 || (sound(d, steps.drop_last()) && traced(d, steps.drop_last()).allowed(
        steps.last(),
    ))
}

/// All rows of a group in a list, in order.
pub open spec fn rows_of<T>(list: Seq<(int, Seq<T>)>, g: int) -> Seq<T>
    decreases list.len(),
{
    if list.len() == 0 {
        Seq::empty()
    } else if list.last().0 == g {
        rows_of(list.drop_last(), g) + list.last().1
    } else {
        rows_of(list.drop_last(), g)
    }
}

/// How often a group is in a list.
pub open spec fn times<T>(list: Seq<(int, Seq<T>)>, g: int) -> nat
    decreases list.len(),
{
    if list.len() == 0 {
        0
    } else {
        times(list.drop_last(), g) + if list.last().0 == g {
            1nat
        } else {
            0
        }
    }
}

// --- what holds throughout ---------------------------------------------------

impl<T> Trace<T> {
    /// Whether the machine can hold the run.
    spec fn bounded(self) -> bool {
        &&& self.run.groups.len() <= usize::MAX
        &&& self.run.workers.len() <= usize::MAX
        &&& forall|g: int|
            0 <= g < self.run.groups.len() ==> (#[trigger] self.run.groups[g]).items_total
                <= usize::MAX
    }

    /// What was handed out of a group, and what is held back of it.
    spec fn accounted(self, g: int) -> bool {
        let grp = self.run.groups[g];
        if grp.shards_done < grp.shards_total {
            times(self.handed, g) == 0 && grp.rows == rows_of(self.landed, g)
        } else if grp.shards_total > 0 {
            times(self.handed, g) == 1 && rows_of(self.handed, g) == rows_of(self.landed, g)
        } else {
            times(self.handed, g) == 0 && rows_of(self.landed, g).len() == 0
        }
    }

    spec fn wf(self) -> bool {
        &&& self.run.wf()
        &&& self.bounded()
        &&& forall|g: int| 0 <= g < self.run.groups.len() ==> #[trigger] self.accounted(g)
        &&& forall|g: int|
            0 <= g < self.run.groups.len() ==> ((#[trigger] self.run.groups[g]).shards_total > 0
                <==> self.run.groups[g].items_total > 0)
    }
}

proof fn lemma_push<T>(list: Seq<(int, Seq<T>)>, x: (int, Seq<T>), g: int)
    ensures
        times(list.push(x), g) == times(list, g) + if x.0 == g {
            1nat
        } else {
            0
        },
        rows_of(list.push(x), g) == if x.0 == g {
            rows_of(list, g) + x.1
        } else {
            rows_of(list, g)
        },
{
    assert(list.push(x).drop_last() =~= list);
}

proof fn lemma_none<T>(list: Seq<(int, Seq<T>)>, g: int)
    requires
        times(list, g) == 0,
    ensures
        rows_of(list, g) == Seq::<T>::empty(),
    decreases list.len(),
{
    if list.len() > 0 {
        lemma_none(list.drop_last(), g);
    }
}

impl<T> Trace<T> {
    /// A shard is booked with rows, or without any where it had all landed.
    proof fn lemma_booked(self, w: int, rows: Seq<T>, salvaged: bool, then: Trace<T>)
        requires
            self.wf(),
            0 <= w < self.run.workers.len(),
            self.run.workers[w] is Busy,
            then.run.wf(),
            then.run.groups == self.run.groups.update(
                self.run.shard(w).group,
                shards::booked(self.run.group(w), rows, salvaged),
            ),
            then.run.workers.len() == self.run.workers.len(),
            then.handed == handing(
                self.handed,
                self.run.shard(w).group,
                shards::last_rows(self.run.group(w), rows),
            ),
            then.landed == self.landed.push((self.run.shard(w).group, rows)) || (then.landed
                == self.landed && rows.len() == 0),
        ensures
            then.wf(),
    {
        let g = self.run.shard(w).group;
        let grp = self.run.group(w);
        assert(self.run.workers[w] == SlotData::Busy(self.run.shard(w)));
        assert(self.run.sound_shard(self.run.shard(w)));
        shards::lemma_one_in_group(self.run, w);
        assert(self.accounted(g));
        lemma_none(self.handed, g);
        assert forall|h: int| 0 <= h < then.run.groups.len() implies #[trigger] then.accounted(h) by {
            assert(self.accounted(h));
            lemma_push(self.landed, (g, rows), h);
            lemma_push(self.handed, (g, grp.rows + rows), h);
            if h == g {
                assert(rows_of(then.landed, g) =~= rows_of(self.landed, g) + rows);
                assert(rows_of(self.handed, g) + (grp.rows + rows) =~= grp.rows + rows);
            } else {
                assert(then.run.groups[h] == self.run.groups[h]);
            }
        }
        assert forall|h: int| 0 <= h < then.run.groups.len() implies ((
        #[trigger] then.run.groups[h]).shards_total > 0 <==> then.run.groups[h].items_total > 0)
            && then.run.groups[h].items_total <= usize::MAX by {
            assert(self.run.groups[h].shards_total > 0 <==> self.run.groups[h].items_total > 0);
        }
    }

    proof fn lemma_same_groups(self, then: Trace<T>)
        requires
            self.wf(),
            then.run.wf(),
            then.run.groups == self.run.groups,
            then.run.workers.len() == self.run.workers.len(),
            then.landed == self.landed,
            then.handed == self.handed,
        ensures
            then.wf(),
    {
        assert forall|h: int| 0 <= h < then.run.groups.len() implies #[trigger] then.accounted(h) by {
            assert(self.accounted(h));
        }
    }

    proof fn lemma_step(self, s: Step<T>)
        requires
            self.wf(),
            self.allowed(s),
        ensures
            self.after(s).wf(),
    {
        let then = self.after(s);
        match s {
            Step::Take(w) => {
                shards::law_taking_keeps_what_is_owed(self.run, w);
                self.lemma_same_groups(then);
            },
            Step::Land(w, rows) => {
                shards::law_landing_pays_one_shard(self.run, w, rows);
                self.lemma_booked(w, rows, false, then);
            },
            Step::Settle(w) => {
                shards::law_settling_keeps_what_is_owed(self.run, w);
                self.lemma_same_groups(then);
            },
            Step::Fail(w, e) => {
                shards::lemma_broken_wf(self.run, e);
                self.lemma_same_groups(then);
            },
            Step::Abort(w, left, e) => {
                shards::law_every_abort_makes_headway(self.run, w, left, e);
                match self.rung(w, left) {
                    Recovery::Done => {
                        self.lemma_booked(w, Seq::empty(), true, then);
                    },
                    Recovery::Split(_) => {
                        let g = self.run.shard(w).group;
                        assert(self.run.workers[w] == SlotData::Busy(self.run.shard(w)));
                        assert(self.run.sound_shard(self.run.shard(w)));
                        shards::lemma_one_in_group(self.run, w);
                        assert forall|h: int|
                            0 <= h < then.run.groups.len() implies #[trigger] then.accounted(h) by {
                            assert(self.accounted(h));
                        }
                        assert forall|h: int| 0 <= h < then.run.groups.len() implies ((
                        #[trigger] then.run.groups[h]).shards_total > 0
                            <==> then.run.groups[h].items_total > 0)
                            && then.run.groups[h].items_total <= usize::MAX by {
                            assert(self.run.groups[h].shards_total > 0
                                <==> self.run.groups[h].items_total > 0);
                        }
                    },
                    _ => {
                        self.lemma_same_groups(then);
                    },
                }
            },
        }
    }
}

proof fn lemma_traced<T>(d: Run<T>, steps: Seq<Step<T>>)
    requires
        started(d).wf(),
        sound(d, steps),
    ensures
        traced(d, steps).wf(),
        traced(d, steps).run.groups.len() == d.groups.len(),
        traced(d, steps).run.phase == d.phase,
        traced(d, steps).run.labels == d.labels,
        forall|g: int|
            0 <= g < d.groups.len() ==> (#[trigger] traced(d, steps).run.groups[g]).items_total
                == d.groups[g].items_total,
    decreases steps.len(),
{
    if steps.len() > 0 {
        let t = traced(d, steps.drop_last());
        lemma_traced(d, steps.drop_last());
        t.lemma_step(steps.last());
        let then = traced(d, steps);
        assert forall|g: int| 0 <= g < d.groups.len() implies (
        #[trigger] then.run.groups[g]).items_total == d.groups[g].items_total by {
            assert(t.run.groups[g].items_total == d.groups[g].items_total);
        }
    }
}

/// Whether a run can begin with these groups on this machine.
pub open spec fn fits(
    labels: Seq<Seq<char>>,
    items: Seq<Seq<Seq<char>>>,
    size: nat,
    slots: nat,
) -> bool {
    &&& size > 0
    &&& labels.len() == items.len()
    &&& items.len() <= usize::MAX
    &&& slots <= usize::MAX
    &&& forall|g: int| 0 <= g < items.len() ==> (#[trigger] items[g]).len() <= usize::MAX
}

proof fn lemma_started<T>(
    phase: Seq<char>,
    labels: Seq<Seq<char>>,
    nodes: Seq<usize>,
    items: Seq<Seq<Seq<char>>>,
    size: nat,
    slots: nat,
)
    requires
        fits(labels, items, size, slots),
    ensures
        started(shards::begun::<T>(phase, labels, nodes, items, size, slots)).wf(),
{
    let d = shards::begun::<T>(phase, labels, nodes, items, size, slots);
    let t = started(d);
    shards::lemma_begun_wf::<T>(phase, labels, nodes, items, size, slots);
    assert forall|g: int| 0 <= g < d.groups.len() implies #[trigger] t.accounted(g) by {}
    assert forall|g: int| 0 <= g < d.groups.len() implies ((#[trigger] d.groups[g]).shards_total > 0
        <==> d.groups[g].items_total > 0) && d.groups[g].items_total <= usize::MAX by {
        assert(items[g].len() <= usize::MAX);
    }
}

// --- what a run promises -----------------------------------------------------

/// At no time of a run was a group handed out twice, or with other rows than all
/// that its shards landed; and it was handed out exactly when it had items and
/// all its shards are booked.
pub proof fn law_no_group_is_handed_out_early_or_twice<T>(
    phase: Seq<char>,
    labels: Seq<Seq<char>>,
    nodes: Seq<usize>,
    items: Seq<Seq<Seq<char>>>,
    size: nat,
    slots: nat,
    steps: Seq<Step<T>>,
    g: int,
)
    requires
        fits(labels, items, size, slots),
        sound(shards::begun::<T>(phase, labels, nodes, items, size, slots), steps),
        0 <= g < items.len(),
    ensures
        ({
            let t = traced(shards::begun::<T>(phase, labels, nodes, items, size, slots), steps);
            let grp = t.run.groups[g];
            &&& times(t.handed, g) == if items[g].len() > 0 && grp.shards_done == grp.shards_total {
                1nat
            } else {
                0
            }
            &&& times(t.handed, g) == 1 ==> rows_of(t.handed, g) == rows_of(t.landed, g)
        }),
{
    let d = shards::begun::<T>(phase, labels, nodes, items, size, slots);
    let t = traced(d, steps);
    lemma_started::<T>(phase, labels, nodes, items, size, slots);
    lemma_traced(d, steps);
    assert(t.accounted(g));
    let grp = t.run.groups[g];
    assert(grp.shards_done + t.run.owed(shards::of_group(g)) == grp.shards_total);
    assert(grp.items_total == d.groups[g].items_total);
    assert(grp.shards_total > 0 <==> grp.items_total > 0);
}

/// A run that has finished has handed out every group with items exactly once,
/// with the rows of all its shards that landed, and no group without items.
pub proof fn law_finished_runs_hand_out_every_group_once<T>(
    phase: Seq<char>,
    labels: Seq<Seq<char>>,
    nodes: Seq<usize>,
    items: Seq<Seq<Seq<char>>>,
    size: nat,
    slots: nat,
    steps: Seq<Step<T>>,
    g: int,
)
    requires
        fits(labels, items, size, slots),
        sound(shards::begun::<T>(phase, labels, nodes, items, size, slots), steps),
        traced(
            shards::begun::<T>(phase, labels, nodes, items, size, slots),
            steps,
        ).run.finished(),
        0 <= g < items.len(),
    ensures
        ({
            let t = traced(shards::begun::<T>(phase, labels, nodes, items, size, slots), steps);
            &&& times(t.handed, g) == if items[g].len() > 0 {
                1nat
            } else {
                0
            }
            &&& items[g].len() > 0 ==> rows_of(t.handed, g) == rows_of(t.landed, g)
        }),
{
    let d = shards::begun::<T>(phase, labels, nodes, items, size, slots);
    let t = traced(d, steps);
    lemma_started::<T>(phase, labels, nodes, items, size, slots);
    lemma_traced(d, steps);
    law_no_group_is_handed_out_early_or_twice::<T>(
        phase,
        labels,
        nodes,
        items,
        size,
        slots,
        steps,
        g,
    );
    shards::law_finished_runs_are_complete(t.run, g);
}

// --- the items that landed ---------------------------------------------------

/// The items of the shards of a group, all together.
pub open spec fn items_in(list: Seq<ShardData>, g: int) -> Multiset<Seq<char>>
    decreases list.len(),
{
    if list.len() == 0 {
        Multiset::empty()
    } else if list.last().group == g {
        items_in(list.drop_last(), g).add(list.last().items.to_multiset())
    } else {
        items_in(list.drop_last(), g)
    }
}

/// Whether no shard of a list is of the group.
pub open spec fn none_of(list: Seq<ShardData>, g: int) -> bool {
    forall|k: int| 0 <= k < list.len() ==> (#[trigger] list[k]).group != g
}

/// Whether a shard holds something, and no more than shards hold.
pub open spec fn sized(s: ShardData, size: nat) -> bool {
    0 < s.items.len() <= size
}

impl<T> Trace<T> {
    /// Whether no shard holds more than shards hold, and there are as many lists
    /// of rows as shards that landed.
    spec fn all_sized(self, size: nat) -> bool {
        &&& forall|k: int|
            0 <= k < self.run.queue.len() ==> sized(#[trigger] self.run.queue[k], size)
        &&& forall|w: int|
            0 <= w < self.run.workers.len() ==> match #[trigger] self.run.workers[w] {
                SlotData::Busy(s) => sized(s, size),
                _ => true,
            }
        &&& forall|k: int| 0 <= k < self.shards.len() ==> sized(#[trigger] self.shards[k], size)
        &&& self.landed.len() == self.shards.len()
        &&& forall|k: int|
            0 <= k < self.shards.len() ==> (#[trigger] self.shards[k]).group == self.landed[k].0
    }

    proof fn lemma_step_sized(self, s: Step<T>, size: nat)
        requires
            self.wf(),
            self.allowed(s),
            self.all_sized(size),
        ensures
            self.after(s).all_sized(size),
    {
        let then = self.after(s);
        match s {
            Step::Take(w) => {
                assert(sized(self.run.queue[0], size));
            },
            Step::Land(w, rows) => {
                assert(self.run.workers[w] == SlotData::Busy(self.run.shard(w)));
            },
            Step::Settle(w) => {},
            Step::Fail(w, e) => {},
            Step::Abort(w, left, e) => {
                let x = self.run.shard(w);
                assert(self.run.workers[w] == SlotData::Busy(x));
                assert(self.run.sound_shard(x));
                shards::lemma_one_in_group(self.run, w);
                assert forall|k: int| 0 <= k < then.run.queue.len() implies sized(
                    #[trigger] then.run.queue[k],
                    size,
                ) by {
                    if k < self.run.queue.len() {
                        assert(then.run.queue[k] == self.run.queue[k]);
                    }
                }
            },
        }
    }
}

proof fn lemma_items_push(list: Seq<ShardData>, s: ShardData, g: int, item: Seq<char>)
    ensures
        items_in(list.push(s), g).count(item) == items_in(list, g).count(item)
            + shards::occurrences(g, item)(s),
{
    assert(list.push(s).drop_last() =~= list);
}

proof fn lemma_sized<T>(d: Run<T>, steps: Seq<Step<T>>, size: nat)
    requires
        started(d).wf(),
        started(d).all_sized(size),
        sound(d, steps),
    ensures
        traced(d, steps).all_sized(size),
    decreases steps.len(),
{
    if steps.len() > 0 {
        lemma_sized(d, steps.drop_last(), size);
        lemma_traced(d, steps.drop_last());
        traced(d, steps.drop_last()).lemma_step_sized(steps.last(), size);
    }
}

proof fn lemma_none_in(list: Seq<ShardData>, g: int)
    requires
        none_of(list, g),
    ensures
        items_in(list, g) == Multiset::<Seq<char>>::empty(),
    decreases list.len(),
{
    if list.len() > 0 {
        assert forall|k: int| 0 <= k < list.drop_last().len() implies (
        #[trigger] list.drop_last()[k]).group != g by {
            assert(list.drop_last()[k] == list[k]);
        }
        lemma_none_in(list.drop_last(), g);
        assert(list[list.len() - 1].group != g);
    }
}

/// An item is owed, landed or cut away as often as it was owed in the beginning
/// or left by a cut.
proof fn lemma_items_kept<T>(d: Run<T>, steps: Seq<Step<T>>, g: int, item: Seq<char>)
    requires
        started(d).wf(),
        sound(d, steps),
    ensures
        ({
            let t = traced(d, steps);
            let f = shards::occurrences(g, item);
            t.run.owed(f) + items_in(t.shards, g).count(item) + items_in(t.cut, g).count(item)
                == d.owed(f) + items_in(t.left, g).count(item)
        }),
        none_of(traced(d, steps).cut, g) ==> none_of(traced(d, steps).left, g),
    decreases steps.len(),
{
    if steps.len() > 0 {
        let t = traced(d, steps.drop_last());
        let f = shards::occurrences(g, item);
        lemma_items_kept(d, steps.drop_last(), g, item);
        lemma_traced(d, steps.drop_last());
        match steps.last() {
            Step::Take(w) => {
                shards::law_taking_keeps_what_is_owed(t.run, w);
                assert(t.run.taken(w).owed(f) == t.run.owed(f));
            },
            Step::Land(w, rows) => {
                shards::law_landing_pays_one_shard(t.run, w, rows);
                assert(t.run.landed(w, rows).owed(f) + f(t.run.shard(w)) == t.run.owed(f));
                lemma_items_push(t.shards, t.run.shard(w), g, item);
            },
            Step::Settle(w) => {
                shards::law_settling_keeps_what_is_owed(t.run, w);
                assert(t.run.settled(w).owed(f) == t.run.owed(f));
            },
            Step::Fail(w, e) => {
                assert(t.run.broken(e).owed(f) == t.run.owed(f));
            },
            Step::Abort(w, left, e) => {
                shards::law_recovery_loses_no_item(t.run, w, left, e, g, item);
                let s = t.run.shard(w);
                assert(t.run.workers[w] == SlotData::Busy(s));
                assert(t.run.sound_shard(s));
                if left.len() < s.items.len() {
                    let x = ShardData { group: s.group, items: left };
                    lemma_items_push(t.cut, s, g, item);
                    lemma_items_push(t.left, x, g, item);
                    x.items.to_multiset_ensures();
                    if left.len() == 0 {
                        assert(x.items.to_multiset().len() == 0);
                        assert(x.items.to_multiset().count(item) == 0);
                    }
                    let cut = t.cut.push(s);
                    if none_of(cut, g) {
                        assert(cut[t.cut.len() as int].group != g);
                        assert forall|k: int| 0 <= k < t.cut.len() implies (
                        #[trigger] t.cut[k]).group != g by {
                            assert(cut[k] == t.cut[k]);
                        }
                    }
                }
            },
        }
    }
}

proof fn lemma_chunks_sized(items: Seq<Seq<char>>, size: nat)
    requires
        size > 0,
    ensures
        forall|k: int|
            0 <= k < shards::chunked(items, size).len() ==> 0 < (#[trigger] shards::chunked(
                items,
                size,
            )[k]).len() <= size,
    decreases items.len(),
{
    if items.len() > size {
        lemma_chunks_sized(items.skip(size as int), size);
        let rest = shards::chunked(items.skip(size as int), size);
        let all = shards::chunked(items, size);
        assert forall|k: int| 0 <= k < all.len() implies 0 < (#[trigger] all[k]).len() <= size by {
            if k > 0 {
                assert(all[k] == rest[k - 1]);
            }
        }
    }
}

proof fn lemma_queue_sized(items: Seq<Seq<Seq<char>>>, size: nat, n: int)
    requires
        size > 0,
        0 <= n <= items.len(),
    ensures
        forall|k: int|
            0 <= k < shards::queued(items, size, n).len() ==> sized(
                #[trigger] shards::queued(items, size, n)[k],
                size,
            ),
    decreases n,
{
    if n > 0 {
        lemma_queue_sized(items, size, n - 1);
        lemma_chunks_sized(items[n - 1], size);
        let before = shards::queued(items, size, n - 1);
        let all = shards::queued(items, size, n);
        assert forall|k: int| 0 <= k < all.len() implies sized(#[trigger] all[k], size) by {
            if k < before.len() {
                assert(all[k] == before[k]);
            } else {
                let own = shards::chunked(items[n - 1], size);
                assert(all[k].items == own[k - before.len()]);
            }
        }
    }
}

/// In a finished run, the shards of a group that landed hold together exactly the
/// items of the group, each as often as it was asked for, if none of its shards was
/// cut by an abort. If some were, those count as landed, but for what was left of
/// them. Each shard that landed holds something, and none more than the size of
/// shards; and for each there is one list of rows.
pub proof fn law_landed_shards_hold_the_items_of_their_group<T>(
    phase: Seq<char>,
    labels: Seq<Seq<char>>,
    nodes: Seq<usize>,
    items: Seq<Seq<Seq<char>>>,
    size: nat,
    slots: nat,
    steps: Seq<Step<T>>,
    g: int,
)
    requires
        fits(labels, items, size, slots),
        sound(shards::begun::<T>(phase, labels, nodes, items, size, slots), steps),
        0 <= g < items.len(),
    ensures
        ({
            let t = traced(shards::begun::<T>(phase, labels, nodes, items, size, slots), steps);
            &&& t.run.finished() ==> items_in(t.shards, g).add(items_in(t.cut, g))
                == items[g].to_multiset().add(items_in(t.left, g))
            &&& t.run.finished() && none_of(t.cut, g) ==> items_in(t.shards, g)
                == items[g].to_multiset()
            &&& t.landed.len() == t.shards.len()
            &&& forall|k: int|
                0 <= k < t.shards.len() ==> sized(#[trigger] t.shards[k], size)
                    && t.shards[k].group == t.landed[k].0
        }),
{
    let d = shards::begun::<T>(phase, labels, nodes, items, size, slots);
    let t = traced(d, steps);
    lemma_started::<T>(phase, labels, nodes, items, size, slots);
    lemma_queue_sized(items, size, items.len() as int);
    lemma_sized(d, steps, size);
    if t.run.finished() {
        let all = items_in(t.shards, g).add(items_in(t.cut, g));
        let owed = items[g].to_multiset().add(items_in(t.left, g));
        assert forall|item: Seq<char>| all.count(item) == owed.count(item) by {
            let f = shards::occurrences(g, item);
            lemma_items_kept(d, steps, g, item);
            lemma_count_in_queue(items, size, items.len() as int, g, item);
            shards::lemma_idle_weighs(d.workers.len(), f);
            shards::lemma_all_idle(t.run.workers, f);
            assert(shards::weight(t.run.queue, f) == 0);
        }
        assert(all =~= owed);
        if none_of(t.cut, g) {
            lemma_items_kept(d, steps, g, Seq::empty());
            lemma_none_in(t.cut, g);
            lemma_none_in(t.left, g);
            assert(all =~= items_in(t.shards, g));
            assert(owed =~= items[g].to_multiset());
        }
    }
}

// --- an item that keeps aborting ---------------------------------------------

/// Whether a shard holds an item of a group.
pub open spec fn holds(s: ShardData, g: int, item: Seq<char>) -> bool {
    s.group == g && s.items.contains(item)
}

/// Whether a step fits an item that keeps aborting: a shard that holds it aborts,
/// with nothing landed of it, and any other one lands.
pub open spec fn stuck_step<T>(t: Trace<T>, s: Step<T>, g: int, item: Seq<char>) -> bool {
    match s {
        Step::Take(_) => true,
        Step::Land(w, _) => !holds(t.run.shard(w), g, item),
        Step::Settle(_) => true,
        Step::Fail(_, _) => false,
        Step::Abort(w, left, e) => holds(t.run.shard(w), g, item) && left == t.run.shard(w).items
            && e.abort is Some,
    }
}

/// Whether that holds of all steps.
pub open spec fn stuck<T>(d: Run<T>, steps: Seq<Step<T>>, g: int, item: Seq<char>) -> bool
    decreases steps.len(),
{
    steps.len() == 0 || (stuck(d, steps.drop_last(), g, item) && stuck_step(
        traced(d, steps.drop_last()),
        steps.last(),
        g,
        item,
    ))
}

/// Whether an error is that of giving up the item, with the abort below it.
pub open spec fn gave_up_on(
    e: FailureData,
    phase: Seq<char>,
    label: Seq<char>,
    item: Seq<char>,
) -> bool {
    &&& e.context.len() > 0
    &&& e.context[0] == shards::give_up_text(phase, label, item)
    &&& e.abort is Some
}

proof fn lemma_no_shard_no_item(list: Seq<ShardData>, g: int, item: Seq<char>)
    requires
        shards::weight(list, shards::of_group(g)) == 0,
    ensures
        shards::weight(list, shards::occurrences(g, item)) == 0,
    decreases list.len(),
{
    if list.len() > 0 {
        lemma_no_shard_no_item(list.drop_last(), g, item);
    }
}

proof fn lemma_no_slot_no_item(workers: Seq<SlotData>, g: int, item: Seq<char>)
    requires
        shards::busy_weight(workers, shards::of_group(g)) == 0,
    ensures
        shards::busy_weight(workers, shards::occurrences(g, item)) == 0,
    decreases workers.len(),
{
    if workers.len() > 0 {
        lemma_no_slot_no_item(workers.drop_last(), g, item);
    }
}

proof fn lemma_count_in_chunks(
    g: int,
    h: int,
    items: Seq<Seq<char>>,
    size: nat,
    item: Seq<char>,
)
    requires
        size > 0,
    ensures
        shards::weight(shards::shards_of(g, items, size), shards::occurrences(h, item)) == if g
            == h {
            items.to_multiset().count(item)
        } else {
            0
        },
    decreases items.len(),
{
    let f = shards::occurrences(h, item);
    let all = shards::shards_of(g, items, size);
    items.to_multiset_ensures();
    if items.len() == 0 {
        assert(all.len() == 0);
        assert(!items.contains(item));
    } else if items.len() <= size {
        assert(all =~= seq![ShardData { group: g, items }]);
        assert(all.drop_last().len() == 0);
        assert(shards::weight(all.drop_last(), f) == 0);
    } else {
        let head = items.take(size as int);
        let tail = items.skip(size as int);
        let first = ShardData { group: g, items: head };
        let rest = shards::shards_of(g, tail, size);
        assert(all =~= seq![first] + rest);
        lemma_count_in_chunks(g, h, tail, size, item);
        shards::lemma_weight_concat(seq![first], rest, f);
        assert(seq![first].drop_last().len() == 0);
        assert(shards::weight(seq![first].drop_last(), f) == 0);
        vstd::seq_lib::lemma_multiset_commutative(head, tail);
        assert(head + tail =~= items);
    }
}

proof fn lemma_count_in_queue(
    items: Seq<Seq<Seq<char>>>,
    size: nat,
    n: int,
    g: int,
    item: Seq<char>,
)
    requires
        size > 0,
        0 <= n <= items.len(),
        0 <= g < items.len(),
    ensures
        shards::weight(shards::queued(items, size, n), shards::occurrences(g, item)) == if g < n {
            items[g].to_multiset().count(item)
        } else {
            0
        },
    decreases n,
{
    if n > 0 {
        lemma_count_in_queue(items, size, n - 1, g, item);
        lemma_count_in_chunks(n - 1, g, items[n - 1], size, item);
        shards::lemma_weight_concat(
            shards::queued(items, size, n - 1),
            shards::shards_of(n - 1, items[n - 1], size),
            shards::occurrences(g, item),
        );
    }
}

proof fn lemma_stuck<T>(d: Run<T>, steps: Seq<Step<T>>, g: int, item: Seq<char>)
    requires
        started(d).wf(),
        sound(d, steps),
        0 <= g < d.groups.len(),
        d.fatal is None,
        d.owed(shards::occurrences(g, item)) > 0,
        stuck(d, steps, g, item),
    ensures
        traced(d, steps).run.owed(shards::occurrences(g, item)) > 0,
        match traced(d, steps).run.fatal {
            Some(e) => gave_up_on(e, d.phase, d.labels[g], item),
            None => true,
        },
    decreases steps.len(),
{
    if steps.len() > 0 {
        let t = traced(d, steps.drop_last());
        let f = shards::occurrences(g, item);
        lemma_stuck(d, steps.drop_last(), g, item);
        lemma_traced(d, steps.drop_last());
        let then = traced(d, steps);
        match steps.last() {
            Step::Take(w) => {
                shards::law_taking_keeps_what_is_owed(t.run, w);
                assert(t.run.taken(w).owed(f) == t.run.owed(f));
            },
            Step::Land(w, rows) => {
                shards::law_landing_pays_one_shard(t.run, w, rows);
                assert(t.run.landed(w, rows).owed(f) + f(t.run.shard(w)) == t.run.owed(f));
                t.run.shard(w).items.to_multiset_ensures();
                assert(f(t.run.shard(w)) == 0);
            },
            Step::Settle(w) => {
                shards::law_settling_keeps_what_is_owed(t.run, w);
                assert(t.run.settled(w).owed(f) == t.run.owed(f));
            },
            Step::Fail(w, e) => {},
            Step::Abort(w, left, e) => {
                shards::law_recovery_loses_no_item(t.run, w, left, e, g, item);
                let s = t.run.shard(w);
                if t.rung(w, left) is GiveUp {
                    assert(s.items.len() == 1);
                    let j = choose|j: int| 0 <= j < s.items.len() && s.items[j] == item;
                    assert(s.items[0] == item);
                }
            },
        }
    }
}

/// An item that aborts in every shard that holds it, while all else lands, is
/// never counted as done: its group is not handed out, and the run does not
/// finish without error. What ends the run is the giving up of that very item,
/// named, with the abort itself below.
pub proof fn law_stuck_items_end_the_run_by_name<T>(
    phase: Seq<char>,
    labels: Seq<Seq<char>>,
    nodes: Seq<usize>,
    items: Seq<Seq<Seq<char>>>,
    size: nat,
    slots: nat,
    steps: Seq<Step<T>>,
    g: int,
    item: Seq<char>,
)
    requires
        fits(labels, items, size, slots),
        sound(shards::begun::<T>(phase, labels, nodes, items, size, slots), steps),
        0 <= g < items.len(),
        items[g].contains(item),
        stuck(shards::begun::<T>(phase, labels, nodes, items, size, slots), steps, g, item),
    ensures
        ({
            let t = traced(shards::begun::<T>(phase, labels, nodes, items, size, slots), steps);
            &&& times(t.handed, g) == 0
            &&& !t.run.finished()
            &&& match t.run.fatal {
                Some(e) => gave_up_on(e, phase, labels[g], item),
                None => true,
            }
        }),
{
    let d = shards::begun::<T>(phase, labels, nodes, items, size, slots);
    let t = traced(d, steps);
    let f = shards::occurrences(g, item);
    lemma_started::<T>(phase, labels, nodes, items, size, slots);
    lemma_traced(d, steps);
    items[g].to_multiset_ensures();
    lemma_count_in_queue(items, size, items.len() as int, g, item);
    shards::lemma_idle_weighs(d.workers.len(), f);
    lemma_stuck(d, steps, g, item);
    if t.run.finished() {
        shards::lemma_all_idle(t.run.workers, f);
        assert(shards::weight(t.run.queue, f) == 0);
    }
    assert(t.accounted(g));
    let grp = t.run.groups[g];
    assert(grp.shards_done + t.run.owed(shards::of_group(g)) == grp.shards_total);
    if t.run.owed(shards::of_group(g)) == 0 {
        lemma_no_shard_no_item(t.run.queue, g, item);
        lemma_no_slot_no_item(t.run.workers, g, item);
    }
}

} // verus!
