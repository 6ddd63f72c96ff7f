//! The shard scheduler: one queue of work for all evaluations of a phase.
//!
//! Each group of items is cut into shards. A pool of workers takes shards from
//! the queue and reports how each went: it landed, it failed, or its evaluator
//! aborted. An abort walks a recovery ladder, each rung of which makes the next
//! attempt different work, down to a single item at a single slot.

use vstd::prelude::*;
use vstd::string::*;

use crate::eval::{AbortData, EvalAborted};
use crate::live::{NodeData, Tree};
use crate::text;

verus! {

// --- the recovery ladder -----------------------------------------------------

/// What to do about an aborted shard.
#[derive(Debug, Clone, Copy, PartialEq, Eq, Structural)]
pub enum Recovery {
    /// Everything the shard owed had landed already.
    Done,
    /// Some of it had: try the rest again.
    Retry,
    /// Halve the slots, from one number to another, and try the shard again.
    Slots(usize, usize),
    /// Split the shard at this index.
    Split(usize),
    /// One item alone at one slot: report it.
    GiveUp,
}

/// The rung for a shard of `items` items of which `left` are still owed, at
/// `slots` slots.
pub open spec fn rung(left: nat, items: nat, slots: nat) -> Recovery {
    if left == 0 {
        Recovery::Done
    } else if left < items {
        Recovery::Retry
    } else if slots > 1 {
        Recovery::Slots(slots as usize, (slots / 2) as usize)
    } else if items > 1 {
        Recovery::Split((items / 2) as usize)
    } else {
        Recovery::GiveUp
    }
}

/// The rung of the ladder that an abort stands on.
pub fn recovery(left: usize, items: usize, slots: usize) -> (r: Recovery)
    ensures
        r == rung(left as nat, items as nat, slots as nat),
{
    if left == 0 {
        Recovery::Done
    } else if left < items {
        Recovery::Retry
    } else if slots > 1 {
        Recovery::Slots(slots, slots / 2)
    } else if items > 1 {
        Recovery::Split(items / 2)
    } else {
        Recovery::GiveUp
    }
}

/// The ladder's order and its bottom: what has landed is never redone, however
/// many slots run; then slots are shed down to one; then the shard is split
/// into two parts that both hold something; and giving up is left for a single
/// item at a single slot.
pub proof fn law_ladder_is_ordered_and_bottoms_out(left: usize, items: usize, slots: usize)
    ensures
        match rung(left as nat, items as nat, slots as nat) {
            Recovery::Done => left == 0,
            Recovery::Retry => 0 < left < items,
            Recovery::Slots(from, to) => left > 0 && left >= items && from == slots && 1 <= to
                < from,
            Recovery::Split(at) => left >= items && slots <= 1 && 0 < at < items,
            Recovery::GiveUp => left > 0 && left >= items && slots <= 1 && items <= 1,
        },
{
}

// --- shards, groups and the run ----------------------------------------------

/// Some items of one group.
#[derive(Debug, PartialEq, Eq)]
pub struct Shard {
    pub group: usize,
    pub items: Vec<String>,
}

/// A shard as plain data.
#[verifier::ext_equal]
pub struct ShardData {
    pub group: int,
    pub items: Seq<Seq<char>>,
}

impl Shard {
    /// The shard as plain data.
    pub open spec fn view(self) -> ShardData {
        ShardData { group: self.group as int, items: text::texts(self.items@) }
    }
}

/// What a worker is at.
#[derive(Debug, PartialEq, Eq)]
enum Slot {
    /// Nothing.
    Idle,
    /// Evaluating a shard.
    Busy(Shard),
    /// Handing in: the shard's rows are booked, and where it completed its
    /// group, `count` is what the group's node will show.
    Closing { group: usize, count: Option<i64>, salvaged: bool },
}

/// What a worker is at, as plain data.
#[verifier::ext_equal]
pub enum SlotData {
    /// Nothing.
    Idle,
    /// Evaluating a shard.
    Busy(ShardData),
    /// Handing a shard in.
    Closing { group: int, count: Option<i64>, salvaged: bool },
}

impl Slot {
    spec fn view(self) -> SlotData {
        match self {
            Slot::Idle => SlotData::Idle,
            Slot::Busy(s) => SlotData::Busy(s@),
            Slot::Closing { group, count, salvaged } => SlotData::Closing {
                group: group as int,
                count,
                salvaged,
            },
        }
    }
}

/// The shards of one leaf of the tree, and the rows assembled from them.
struct ShardGroup<T> {
    node: usize,
    items_total: usize,
    shards_total: usize,
    shards_done: usize,
    salvaged: bool,
    rows: Vec<T>,
}

/// A group as plain data.
#[verifier::ext_equal]
pub struct GroupData<T> {
    /// The group's node.
    pub node: int,
    /// How many items the group began with.
    pub items_total: nat,
    /// Into how many shards they are cut by now.
    pub shards_total: nat,
    /// How many of those are booked.
    pub shards_done: nat,
    /// Whether a shard was booked without its rows.
    pub salvaged: bool,
    /// The rows so far.
    pub rows: Seq<T>,
}

impl<T> ShardGroup<T> {
    spec fn view(self) -> GroupData<T> {
        GroupData {
            node: self.node as int,
            items_total: self.items_total as nat,
            shards_total: self.shards_total as nat,
            shards_done: self.shards_done as nat,
            salvaged: self.salvaged,
            rows: self.rows@,
        }
    }
}

/// Why a run failed.
#[derive(Debug, PartialEq, Eq)]
pub struct Failure {
    /// What was said of it, the outermost message first.
    pub context: Vec<String>,
    /// The abort below these messages, where it was one.
    pub abort: Option<EvalAborted>,
}

/// A failure as plain data.
#[verifier::ext_equal]
pub struct FailureData {
    pub context: Seq<Seq<char>>,
    pub abort: Option<AbortData>,
}

impl Failure {
    /// The failure as plain data.
    pub open spec fn view(self) -> FailureData {
        FailureData {
            context: text::texts(self.context@),
            abort: match self.abort {
                Some(a) => Some(a@),
                None => None,
            },
        }
    }
}

/// A run of shard groups through one pool of workers.
pub struct Scheduler<T> {
    phase: String,
    labels: Vec<String>,
    groups: Vec<ShardGroup<T>>,
    queue: Vec<Shard>,
    workers: Vec<Slot>,
    target: usize,
    successes: usize,
    fatal: Option<Failure>,
}

/// A run as plain data.
#[verifier::ext_equal]
pub struct Run<T> {
    /// The name of the phase.
    pub phase: Seq<char>,
    /// The name of each group in messages.
    pub labels: Seq<Seq<char>>,
    pub groups: Seq<GroupData<T>>,
    /// The shards no worker has, first come first served.
    pub queue: Seq<ShardData>,
    /// What each worker is at; there is one for each slot.
    pub workers: Seq<SlotData>,
    /// How many workers may take shards at present.
    pub target: nat,
    /// Shards landed since the last abort.
    pub successes: usize,
    /// The error that ends the run.
    pub fatal: Option<FailureData>,
}

impl<T> Scheduler<T> {
    /// The run as plain data.
    pub closed spec fn view(self) -> Run<T> {
        Run {
            phase: self.phase@,
            labels: text::texts(self.labels@),
            groups: self.groups@.map_values(|g: ShardGroup<T>| g@),
            queue: self.queue@.map_values(|s: Shard| s@),
            workers: self.workers@.map_values(|s: Slot| s@),
            target: self.target as nat,
            successes: self.successes,
            fatal: match self.fatal {
                Some(e) => Some(e@),
                None => None,
            },
        }
    }
}

// --- sums over shards --------------------------------------------------------

/// The weight of a list of shards.
pub open spec fn weight(shards: Seq<ShardData>, f: spec_fn(ShardData) -> nat) -> nat
    decreases shards.len(),
{
    if shards.len() == 0 {
        0
    } else {
        weight(shards.drop_last(), f) + f(shards.last())
    }
}

/// The weight of a worker's shard.
pub open spec fn slot_weight(s: SlotData, f: spec_fn(ShardData) -> nat) -> nat {
    match s {
        SlotData::Busy(x) => f(x),
        _ => 0,
    }
}

/// The weight of the shards that workers have.
pub open spec fn busy_weight(workers: Seq<SlotData>, f: spec_fn(ShardData) -> nat) -> nat
    decreases workers.len(),
{
    if workers.len() == 0 {
        0
    } else {
        busy_weight(workers.drop_last(), f) + slot_weight(workers.last(), f)
    }
}

proof fn lemma_weight_push(shards: Seq<ShardData>, x: ShardData, f: spec_fn(ShardData) -> nat)
    ensures
        weight(shards.push(x), f) == weight(shards, f) + f(x),
{
    assert(shards.push(x).drop_last() =~= shards);
}

proof fn lemma_weight_first(shards: Seq<ShardData>, f: spec_fn(ShardData) -> nat)
    requires
        shards.len() > 0,
    ensures
        weight(shards, f) == f(shards[0]) + weight(shards.skip(1), f),
    decreases shards.len(),
{
    if shards.len() == 1 {
        assert(weight(shards.drop_last(), f) == 0);
        assert(weight(shards.skip(1), f) == 0);
    } else {
        lemma_weight_first(shards.drop_last(), f);
        assert(shards.drop_last().skip(1) =~= shards.skip(1).drop_last());
    }
}

proof fn lemma_busy_update(
    workers: Seq<SlotData>,
    w: int,
    s: SlotData,
    f: spec_fn(ShardData) -> nat,
)
    requires
        0 <= w < workers.len(),
    ensures
        busy_weight(workers.update(w, s), f) + slot_weight(workers[w], f) == busy_weight(workers, f)
            + slot_weight(s, f),
    decreases workers.len(),
{
    let after = workers.update(w, s);
    if w == workers.len() - 1 {
        assert(after.drop_last() =~= workers.drop_last());
    } else {
        assert(after.drop_last() =~= workers.drop_last().update(w, s));
        lemma_busy_update(workers.drop_last(), w, s, f);
    }
}

/// One for each shard of the group `g`.
pub open spec fn of_group(g: int) -> spec_fn(ShardData) -> nat {
    |x: ShardData|
        if x.group == g {
            1nat
        } else {
            0
        }
}

/// The number of items of each shard of the group `g`.
pub open spec fn items_of(g: int) -> spec_fn(ShardData) -> nat {
    |x: ShardData|
        if x.group == g {
            x.items.len()
        } else {
            0
        }
}

/// The number of items of each shard.
pub open spec fn all_items() -> spec_fn(ShardData) -> nat {
    |x: ShardData| x.items.len()
}

/// The number of items of each shard beyond its first.
pub open spec fn spare_items() -> spec_fn(ShardData) -> nat {
    |x: ShardData|
        if x.items.len() == 0 {
            0nat
        } else {
            (x.items.len() - 1) as nat
        }
}

impl<T> Run<T> {
    /// The weight of all shards that are not booked yet.
    pub open spec fn owed(self, f: spec_fn(ShardData) -> nat) -> nat {
        weight(self.queue, f) + busy_weight(self.workers, f)
    }

    /// Whether a shard belongs to a group and holds something.
    pub open spec fn sound_shard(self, s: ShardData) -> bool {
        0 <= s.group < self.groups.len() && s.items.len() > 0
    }

    /// What holds of a run throughout:
    /// - every shard belongs to a group and holds something;
    /// - of each group's shards, those booked and those owed are all;
    /// - the items owed are no more than the items that began, less one for
    ///   each shard that is booked;
    /// - between one worker and all of them may take shards.
    pub open spec fn wf(self) -> bool {
        &&& self.labels.len() == self.groups.len()
        &&& self.workers.len() > 0 ==> 1 <= self.target <= self.workers.len()
        &&& forall|i: int| 0 <= i < self.queue.len() ==> self.sound_shard(#[trigger] self.queue[i])
        &&& forall|w: int|
            0 <= w < self.workers.len() ==> match #[trigger] self.workers[w] {
                SlotData::Busy(s) => self.sound_shard(s),
                SlotData::Closing { group, .. } => 0 <= group < self.groups.len(),
                SlotData::Idle => true,
            }
        &&& forall|g: int|
            0 <= g < self.groups.len() ==> (#[trigger] self.groups[g]).shards_done + self.owed(
                of_group(g),
            ) == self.groups[g].shards_total
        &&& forall|g: int|
            0 <= g < self.groups.len() ==> (#[trigger] self.groups[g]).shards_done + self.owed(
                items_of(g),
            ) <= self.groups[g].items_total
    }

    /// Whether the groups' nodes are in the tree.
    pub open spec fn fits(self, tree: Tree) -> bool {
        &&& tree.wf()
        &&& forall|g: int|
            0 <= g < self.groups.len() ==> 0 <= (#[trigger] self.groups[g]).node < tree.nodes().len()
    }

    /// Whether nothing is owed and nobody is handing in.
    pub open spec fn finished(self) -> bool {
        self.queue.len() == 0 && forall|w: int|
            0 <= w < self.workers.len() ==> #[trigger] self.workers[w] is Idle
    }
}

// --- cutting items into shards -----------------------------------------------

/// A list cut into parts of `size`, the last one shorter where it does not come
/// out even.
pub open spec fn chunked(items: Seq<Seq<char>>, size: nat) -> Seq<Seq<Seq<char>>>
    decreases items.len(),
{
    if items.len() == 0 || size == 0 {
        Seq::empty()
    } else if items.len() <= size {
        seq![items]
    } else {
        seq![items.take(size as int)] + chunked(items.skip(size as int), size)
    }
}

/// The shards of a group.
pub open spec fn shards_of(g: int, items: Seq<Seq<char>>, size: nat) -> Seq<ShardData> {
    chunked(items, size).map_values(|c: Seq<Seq<char>>| ShardData { group: g, items: c })
}

/// The shards of the first `n` groups, group by group.
pub open spec fn queued(items: Seq<Seq<Seq<char>>>, size: nat, n: int) -> Seq<ShardData>
    decreases n,
{
    if n <= 0 {
        Seq::empty()
    } else {
        queued(items, size, n - 1) + shards_of(n - 1, items[n - 1], size)
    }
}

/// A group that is no larger than a shard is one shard.
pub proof fn law_small_groups_stay_whole(items: Seq<Seq<char>>, size: nat)
    requires
        0 < items.len() <= size,
    ensures
        chunked(items, size) == seq![items],
{
}

/// Cutting loses no item and keeps their order.
pub proof fn law_shards_make_up_their_group(items: Seq<Seq<char>>, size: nat)
    requires
        size > 0,
    ensures
        chunked(items, size).flatten() == items,
    decreases items.len(),
{
    let parts = chunked(items, size);
    if items.len() == 0 {
        assert(parts.flatten() =~= items);
    } else if items.len() <= size {
        parts.lemma_flatten_one_element();
    } else {
        law_shards_make_up_their_group(items.skip(size as int), size);
        assert(parts.drop_first() =~= chunked(items.skip(size as int), size));
        assert(parts.first() == items.take(size as int));
        assert(items.take(size as int) + items.skip(size as int) =~= items);
    }
}

/// Lists of strings as texts.
pub open spec fn texts_of_all(v: Seq<Vec<String>>) -> Seq<Seq<Seq<char>>> {
    v.map_values(|x: Vec<String>| text::texts(x@))
}

/// A group's node as the run begins: its total, where that is the number of
/// items, and its number of shards.
pub open spec fn primed_node(n: NodeData, items: nat, shards: nat, known_total: bool) -> NodeData {
    let n = if known_total {
        NodeData { total: items as i64, ..n }
    } else {
        n
    };
    n.sharded(shards as usize)
}

/// The nodes as the run begins, those of the first `n` groups primed.
pub open spec fn primed(
    nodes: Seq<NodeData>,
    ids: Seq<usize>,
    items: Seq<Seq<Seq<char>>>,
    size: nat,
    known_total: bool,
    n: int,
) -> Seq<NodeData>
    decreases n,
{
    if n <= 0 {
        nodes
    } else {
        let before = primed(nodes, ids, items, size, known_total, n - 1);
        let id = ids[n - 1] as int;
        before.update(
            id,
            primed_node(
                before[id],
                items[n - 1].len(),
                chunked(items[n - 1], size).len(),
                known_total,
            ),
        )
    }
}

pub(crate) proof fn lemma_weight_concat(
    a: Seq<ShardData>,
    b: Seq<ShardData>,
    f: spec_fn(ShardData) -> nat,
)
    ensures
        weight(a + b, f) == weight(a, f) + weight(b, f),
    decreases b.len(),
{
    if b.len() == 0 {
        assert(a + b =~= a);
    } else {
        assert((a + b).drop_last() =~= a + b.drop_last());
        lemma_weight_concat(a, b.drop_last(), f);
    }
}

proof fn lemma_chunked(items: Seq<Seq<char>>, size: nat)
    requires
        size > 0,
    ensures
        chunked(items, size).len() <= items.len(),
        forall|k: int| 0 <= k < chunked(items, size).len() ==> (#[trigger] chunked(items, size)[k]).len() > 0,
    decreases items.len(),
{
    if items.len() > size {
        lemma_chunked(items.skip(size as int), size);
        let rest = chunked(items.skip(size as int), size);
        assert forall|k: int| 0 <= k < chunked(items, size).len() implies (#[trigger] chunked(
            items,
            size,
        )[k]).len() > 0 by {
            if k > 0 {
                assert(chunked(items, size)[k] == rest[k - 1]);
            }
        }
    }
}

proof fn lemma_shards_weigh(g: int, h: int, items: Seq<Seq<char>>, size: nat)
    requires
        size > 0,
    ensures
        weight(shards_of(g, items, size), of_group(h)) == (if g == h {
            chunked(items, size).len()
        } else {
            0
        }),
        weight(shards_of(g, items, size), items_of(h)) == (if g == h {
            items.len()
        } else {
            0
        }),
    decreases items.len(),
{
    let all = shards_of(g, items, size);
    if items.len() == 0 {
        assert(all.len() == 0);
    } else if items.len() <= size {
        assert(all =~= seq![ShardData { group: g, items }]);
        assert(all.drop_last().len() == 0);
        assert(weight(all.drop_last(), of_group(h)) == 0);
        assert(weight(all.drop_last(), items_of(h)) == 0);
    } else {
        let first = ShardData { group: g, items: items.take(size as int) };
        let rest = shards_of(g, items.skip(size as int), size);
        assert(all =~= seq![first] + rest);
        lemma_shards_weigh(g, h, items.skip(size as int), size);
        lemma_weight_concat(seq![first], rest, of_group(h));
        lemma_weight_concat(seq![first], rest, items_of(h));
        assert(seq![first].drop_last().len() == 0);
        assert(weight(seq![first].drop_last(), of_group(h)) == 0);
        assert(weight(seq![first].drop_last(), items_of(h)) == 0);
    }
}

proof fn lemma_queue_weighs(items: Seq<Seq<Seq<char>>>, size: nat, n: int, h: int)
    requires
        size > 0,
        0 <= n <= items.len(),
    ensures
        weight(queued(items, size, n), of_group(h)) == (if 0 <= h < n {
            chunked(items[h], size).len()
        } else {
            0
        }),
        weight(queued(items, size, n), items_of(h)) == (if 0 <= h < n {
            items[h].len()
        } else {
            0
        }),
        forall|k: int|
            0 <= k < queued(items, size, n).len() ==> 0 <= (#[trigger] queued(items, size, n)[k]).group
                < n && queued(items, size, n)[k].items.len() > 0,
    decreases n,
{
    if n > 0 {
        lemma_queue_weighs(items, size, n - 1, h);
        lemma_shards_weigh(n - 1, h, items[n - 1], size);
        let a = queued(items, size, n - 1);
        let b = shards_of(n - 1, items[n - 1], size);
        lemma_weight_concat(a, b, of_group(h));
        lemma_weight_concat(a, b, items_of(h));
        lemma_chunked(items[n - 1], size);
        assert forall|k: int| 0 <= k < queued(items, size, n).len() implies 0 <= (#[trigger] queued(
            items,
            size,
            n,
        )[k]).group < n && queued(items, size, n)[k].items.len() > 0 by {
            if k < a.len() {
                assert(queued(items, size, n)[k] == a[k]);
            } else {
                assert(queued(items, size, n)[k] == b[k - a.len()]);
                assert(chunked(items[n - 1], size)[k - a.len()].len() > 0);
            }
        }
    }
}

pub(crate) proof fn lemma_idle_weighs(n: nat, f: spec_fn(ShardData) -> nat)
    ensures
        busy_weight(Seq::new(n, |i: int| SlotData::Idle), f) == 0,
    decreases n,
{
    if n > 0 {
        let s = Seq::new(n, |i: int| SlotData::Idle);
        assert(s.drop_last() =~= Seq::new((n - 1) as nat, |i: int| SlotData::Idle));
        lemma_idle_weighs((n - 1) as nat, f);
    }
}

/// Cuts the items of the group `g` into shards at the end of the queue; says
/// how many they are.
fn enqueue(queue: &mut Vec<Shard>, g: usize, items: &Vec<String>, size: usize) -> (n: usize)
    requires
        size > 0,
    ensures
        final(queue)@.map_values(|s: Shard| s@) == old(queue)@.map_values(|s: Shard| s@)
            + shards_of(g as int, text::texts(items@), size as nat),
        n == chunked(text::texts(items@), size as nat).len(),
{
    let ghost all = text::texts(items@);
    let ghost whole = chunked(all, size as nat);
    let ghost q0 = queue@.map_values(|s: Shard| s@);
    let mut from: usize = 0;
    let mut n: usize = 0;
    proof {
        assert(all.skip(0) =~= all);
        lemma_chunked(all, size as nat);
        assert(whole.take(0) + chunked(all.skip(0), size as nat) =~= whole);
        assert(queue@.map_values(|s: Shard| s@) =~= q0 + whole.take(0).map_values(
            |c: Seq<Seq<char>>| ShardData { group: g as int, items: c },
        ));
    }
    while from < items.len()
        invariant
            from <= items@.len(),
            size > 0,
            all == text::texts(items@),
            whole == chunked(all, size as nat),
            whole.len() <= all.len(),
            n <= whole.len(),
            whole == whole.take(n as int) + chunked(all.skip(from as int), size as nat),
            queue@.map_values(|s: Shard| s@) == q0 + whole.take(n as int).map_values(
                |c: Seq<Seq<char>>| ShardData { group: g as int, items: c },
            ),
        decreases items@.len() - from,
    {
        let total: usize = items.len();
        let left: usize = total - from;
        let take: usize = if left <= size {
            left
        } else {
            size
        };
        let mut part: Vec<String> = Vec::new();
        let mut k: usize = 0;
        while k < take
            invariant
                k <= take,
                from + take <= total,
                total == items@.len(),
                all == text::texts(items@),
                text::texts(part@) == all.skip(from as int).take(k as int),
            decreases take - k,
        {
            let item = items[from + k].clone();
            proof {
                text::lemma_texts_push(part@, item);
                assert(all.skip(from as int).take(k + 1) =~= all.skip(from as int).take(
                    k as int,
                ).push(all[from + k]));
            }
            part.push(item);
            k = k + 1;
        }
        let ghost rest = all.skip(from as int);
        let ghost piece = rest.take(take as int);
        let ghost before = queue@.map_values(|s: Shard| s@);
        let shard = Shard { group: g, items: part };
        queue.push(shard);
        proof {
            assert(chunked(rest, size as nat)[0] =~= piece) by {
                if rest.len() <= size {
                    assert(rest.take(take as int) =~= rest);
                }
            }
            assert(whole[n as int] == chunked(rest, size as nat)[0]);
            assert(whole.take(n + 1) =~= whole.take(n as int).push(piece));
            assert(all.skip(from as int).skip(take as int) =~= all.skip(from + take));
            assert(chunked(rest, size as nat) =~= seq![piece] + chunked(
                all.skip(from + take),
                size as nat,
            ));
            assert(whole =~= whole.take(n + 1) + chunked(all.skip(from + take), size as nat));
            assert(queue@.map_values(|s: Shard| s@) =~= before.push(shard@));
            assert(shard@ =~= ShardData { group: g as int, items: piece });
            assert(queue@.map_values(|s: Shard| s@) =~= q0 + whole.take(n + 1).map_values(
                |c: Seq<Seq<char>>| ShardData { group: g as int, items: c },
            ));
        }
        n = n + 1;
        from = from + take;
    }
    proof {
        assert(all.skip(from as int).len() == 0);
        assert(whole =~= whole.take(n as int));
    }
    n
}

/// How large shards are: one item at least.
pub open spec fn size_of_shards(shard_size: usize) -> nat {
    if shard_size == 0 {
        1
    } else {
        shard_size as nat
    }
}

/// A run as it begins: every group cut into shards, all of them in the queue,
/// and no more workers than shards.
pub open spec fn begun<T>(
    phase: Seq<char>,
    labels: Seq<Seq<char>>,
    nodes: Seq<usize>,
    items: Seq<Seq<Seq<char>>>,
    size: nat,
    slots: nat,
) -> Run<T> {
    let queue = queued(items, size, items.len() as int);
    let n = if slots < queue.len() {
        slots
    } else {
        queue.len()
    };
    Run {
        phase,
        labels,
        groups: Seq::new(
            items.len(),
            |g: int|
                GroupData {
                    node: nodes[g] as int,
                    items_total: items[g].len(),
                    shards_total: chunked(items[g], size).len(),
                    shards_done: 0,
                    salvaged: false,
                    rows: Seq::empty(),
                },
        ),
        queue,
        workers: Seq::new(n, |w: int| SlotData::Idle),
        target: n,
        successes: 0,
        fatal: None,
    }
}

/// A run begins in order.
pub(crate) proof fn lemma_begun_wf<T>(
    phase: Seq<char>,
    labels: Seq<Seq<char>>,
    nodes: Seq<usize>,
    items: Seq<Seq<Seq<char>>>,
    size: nat,
    slots: nat,
)
    requires
        size > 0,
        labels.len() == items.len(),
    ensures
        begun::<T>(phase, labels, nodes, items, size, slots).wf(),
{
    let d = begun::<T>(phase, labels, nodes, items, size, slots);
    let n = d.workers.len();
    assert forall|h: int| 0 <= h < d.groups.len() implies (#[trigger] d.groups[h]).shards_done
        + d.owed(of_group(h)) == d.groups[h].shards_total && d.groups[h].shards_done + d.owed(
        items_of(h),
    ) <= d.groups[h].items_total by {
        lemma_queue_weighs(items, size, items.len() as int, h);
        lemma_idle_weighs(n, of_group(h));
        lemma_idle_weighs(n, items_of(h));
    }
    lemma_queue_weighs(items, size, items.len() as int, 0);
}

impl<T> Scheduler<T> {
    /// A run of groups: the items of each, its node and its name. `known_total`
    /// says that an item makes one row, so that the items are the node's total.
    pub fn new(
        tree: &mut Tree,
        phase: &str,
        nodes: &[usize],
        labels: Vec<String>,
        items: &[Vec<String>],
        shard_size: usize,
        slots: usize,
        known_total: bool,
    ) -> (r: Scheduler<T>)
        requires
            old(tree).wf(),
            nodes@.len() == items@.len(),
            labels@.len() == items@.len(),
            forall|g: int| 0 <= g < nodes@.len() ==> #[trigger] nodes@[g] < old(tree).nodes().len(),
        ensures
            r@ == begun::<T>(
                phase@,
                text::texts(labels@),
                nodes@,
                texts_of_all(items@),
                size_of_shards(shard_size),
                slots as nat,
            ),
            final(tree).nodes() == primed(
                old(tree).nodes(),
                nodes@,
                texts_of_all(items@),
                size_of_shards(shard_size),
                known_total,
                items@.len() as int,
            ),
            final(tree).order() == old(tree).order(),
            final(tree).set_as(*old(tree)),
            r@.wf(),
            r@.fits(*final(tree)),
    {
        let size: usize = if shard_size == 0 {
            1
        } else {
            shard_size
        };
        let ghost all = texts_of_all(items@);
        let ghost want = Seq::new(
            all.len(),
            |g: int|
                GroupData::<T> {
                    node: nodes@[g] as int,
                    items_total: all[g].len(),
                    shards_total: chunked(all[g], size as nat).len(),
                    shards_done: 0,
                    salvaged: false,
                    rows: Seq::empty(),
                },
        );
        let mut queue: Vec<Shard> = Vec::new();
        let mut groups: Vec<ShardGroup<T>> = Vec::new();
        let mut g: usize = 0;
        assert(queue@.map_values(|s: Shard| s@) =~= Seq::<ShardData>::empty());
        assert(groups@.map_values(|x: ShardGroup<T>| x@) =~= want.take(0));
        while g < items.len()
            invariant
                g <= items@.len(),
                size > 0,
                all == texts_of_all(items@),
                want == Seq::new(
                    all.len(),
                    |g: int|
                        GroupData::<T> {
                            node: nodes@[g] as int,
                            items_total: all[g].len(),
                            shards_total: chunked(all[g], size as nat).len(),
                            shards_done: 0,
                            salvaged: false,
                            rows: Seq::empty(),
                        },
                ),
                nodes@.len() == items@.len(),
                forall|g: int|
                    0 <= g < nodes@.len() ==> #[trigger] nodes@[g] < old(tree).nodes().len(),
                tree.wf(),
                tree.nodes().len() == old(tree).nodes().len(),
                tree.order() == old(tree).order(),
                tree.set_as(*old(tree)),
                tree.nodes() == primed(
                    old(tree).nodes(),
                    nodes@,
                    all,
                    size as nat,
                    known_total,
                    g as int,
                ),
                queue@.map_values(|s: Shard| s@) == queued(all, size as nat, g as int),
                groups@.map_values(|x: ShardGroup<T>| x@) == want.take(g as int),
            decreases items@.len() - g,
        {
            let ghost before = groups@.map_values(|x: ShardGroup<T>| x@);
            let ghost nodes0 = tree.nodes();
            assert(all[g as int] == text::texts(items@[g as int]@));
            let shards = enqueue(&mut queue, g, &items[g], size);
            let id = nodes[g];
            let n = items[g].len();
            if known_total {
                let node = tree.node_mut(id);
                node.set_total(n as i64);
            }
            let node = tree.node_mut(id);
            node.set_shards_total(shards);
            let group = ShardGroup::<T> {
                node: id,
                items_total: n,
                shards_total: shards,
                shards_done: 0,
                salvaged: false,
                rows: Vec::new(),
            };
            proof {
                assert(tree.nodes() =~= nodes0.update(
                    id as int,
                    primed_node(
                        nodes0[id as int],
                        all[g as int].len(),
                        chunked(all[g as int], size as nat).len(),
                        known_total,
                    ),
                ));
            }
            groups.push(group);
            proof {
                assert(groups@.map_values(|x: ShardGroup<T>| x@) =~= before.push(group@));
                assert(group@ =~= want[g as int]);
                assert(want.take(g + 1) =~= want.take(g as int).push(want[g as int]));
            }
            g = g + 1;
        }
        assert(want.take(g as int) =~= want);
        let n: usize = if slots < queue.len() {
            slots
        } else {
            queue.len()
        };
        let mut workers: Vec<Slot> = Vec::new();
        let mut w: usize = 0;
        assert(workers@.map_values(|s: Slot| s@) =~= Seq::new(0, |i: int| SlotData::Idle));
        while w < n
            invariant
                w <= n,
                workers@.map_values(|s: Slot| s@) == Seq::new(w as nat, |i: int| SlotData::Idle),
            decreases n - w,
        {
            let ghost before = workers@.map_values(|s: Slot| s@);
            workers.push(Slot::Idle);
            proof {
                assert(workers@.map_values(|s: Slot| s@) =~= before.push(SlotData::Idle));
                assert(workers@.map_values(|s: Slot| s@) =~= Seq::new(
                    (w + 1) as nat,
                    |i: int| SlotData::Idle,
                ));
            }
            w = w + 1;
        }
        let r = Scheduler {
            phase: text::copy(phase),
            labels,
            groups,
            queue,
            workers,
            target: n,
            successes: 0,
            fatal: None,
        };
        proof {
            let d = r@;
            assert(d =~= begun::<T>(
                phase@,
                text::texts(labels@),
                nodes@,
                all,
                size as nat,
                slots as nat,
            ));
            lemma_begun_wf::<T>(
                phase@,
                text::texts(labels@),
                nodes@,
                all,
                size as nat,
                slots as nat,
            );
        }
        r
    }
}

// --- the steps of a run ------------------------------------------------------

/// What a worker does next.
#[derive(Debug, Clone, Copy, PartialEq, Eq, Structural)]
pub enum Next {
    /// Everything is done, or the run has failed.
    Exit,
    /// Nothing at present: the slot is parked, or the queue is empty while
    /// shards that run may still come back to it.
    Wait,
    /// The shard that it now has.
    Run,
}

/// A group with one more shard booked; the last one takes the rows out.
pub open spec fn booked<T>(g: GroupData<T>, rows: Seq<T>, salvaged: bool) -> GroupData<T> {
    GroupData {
        shards_done: g.shards_done + 1,
        salvaged: g.salvaged || salvaged,
        rows: if g.shards_done + 1 == g.shards_total {
            Seq::empty()
        } else {
            g.rows + rows
        },
        ..g
    }
}

/// The group's rows, where this shard is its last one.
pub open spec fn last_rows<T>(g: GroupData<T>, rows: Seq<T>) -> Option<Seq<T>> {
    if g.shards_done + 1 == g.shards_total {
        Some(g.rows + rows)
    } else {
        None
    }
}

/// What the group's node is to count, where this shard is its last one: its
/// rows, or its items where a shard was booked without rows.
pub open spec fn last_count<T>(g: GroupData<T>, rows: Seq<T>, salvaged: bool) -> Option<i64> {
    if g.shards_done + 1 == g.shards_total {
        Some(
            if g.salvaged || salvaged {
                g.items_total as i64
            } else {
                (g.rows + rows).len() as i64
            },
        )
    } else {
        None
    }
}

impl<T> Run<T> {
    /// The shard that the worker `w` has.
    pub open spec fn shard(self, w: int) -> ShardData {
        self.workers[w]->Busy_0
    }

    /// The group of the shard that the worker `w` has.
    pub open spec fn group(self, w: int) -> GroupData<T> {
        self.groups[self.shard(w).group]
    }

    /// What the worker `w` does next.
    pub open spec fn next(self, w: int) -> Next {
        if self.fatal is Some || self.finished() {
            Next::Exit
        } else if w < self.target && self.queue.len() > 0 {
            Next::Run
        } else {
            Next::Wait
        }
    }

    /// The worker `w` has the first shard of the queue.
    pub open spec fn taken(self, w: int) -> Run<T> {
        Run {
            queue: self.queue.skip(1),
            workers: self.workers.update(w, SlotData::Busy(self.queue[0])),
            ..self
        }
    }

    /// The shard of the worker `w` landed with `rows`.
    pub open spec fn landed(self, w: int, rows: Seq<T>) -> Run<T> {
        Run {
            groups: self.groups.update(
                self.shard(w).group,
                booked(self.group(w), rows, false),
            ),
            workers: self.workers.update(
                w,
                SlotData::Closing {
                    group: self.shard(w).group,
                    count: last_count(self.group(w), rows, false),
                    salvaged: false,
                },
            ),
            ..self
        }
    }

    /// The run with an error, unless it has one.
    pub open spec fn broken(self, error: FailureData) -> Run<T> {
        Run {
            fatal: if self.fatal is Some {
                self.fatal
            } else {
                Some(error)
            },
            ..self
        }
    }

    /// The worker `w` has handed in. A shard that landed counts toward one more
    /// slot, up to all of them, with every fourth in a row.
    pub open spec fn settled(self, w: int) -> Run<T> {
        let n = self.successes.wrapping_add(1);
        if self.workers[w]->salvaged {
            Run { workers: self.workers.update(w, SlotData::Idle), ..self }
        } else {
            Run {
                workers: self.workers.update(w, SlotData::Idle),
                successes: n,
                target: if n % 4 == 0 && self.target < self.workers.len() {
                    self.target + 1
                } else {
                    self.target
                },
                ..self
            }
        }
    }

    /// The evaluator of the worker `w` aborted, with `left` still owed of its
    /// shard; `error` is what it reported.
    pub open spec fn aborted(self, w: int, left: Seq<Seq<char>>, error: FailureData) -> Run<T> {
        let s = self.shard(w);
        let d = Run { successes: 0, ..self };
        match rung(left.len(), s.items.len(), self.target) {
            Recovery::Done => Run {
                groups: self.groups.update(s.group, booked(self.group(w), Seq::empty(), true)),
                workers: self.workers.update(
                    w,
                    SlotData::Closing {
                        group: s.group,
                        count: last_count(self.group(w), Seq::empty(), true),
                        salvaged: true,
                    },
                ),
                ..d
            },
            Recovery::Retry => Run {
                queue: self.queue.push(ShardData { group: s.group, items: left }),
                workers: self.workers.update(w, SlotData::Idle),
                ..d
            },
            Recovery::Slots(_, to) => Run {
                queue: self.queue.push(s),
                workers: self.workers.update(w, SlotData::Idle),
                target: to as nat,
                ..d
            },
            Recovery::Split(at) => Run {
                groups: self.groups.update(
                    s.group,
                    GroupData { shards_total: self.group(w).shards_total + 1, ..self.group(w) },
                ),
                queue: self.queue.push(
                    ShardData { group: s.group, items: s.items.take(at as int) },
                ).push(ShardData { group: s.group, items: s.items.skip(at as int) }),
                workers: self.workers.update(w, SlotData::Idle),
                ..d
            },
            Recovery::GiveUp => d.broken(
                FailureData {
                    context: seq![give_up_text(self.phase, self.labels[s.group], s.items[0])]
                        + error.context,
                    ..error
                },
            ),
        }
    }

    /// What the node of the worker's group becomes when its evaluator aborts.
    pub open spec fn node_after_abort(self, w: int, left: Seq<Seq<char>>, n: NodeData) -> NodeData {
        match rung(left.len(), self.shard(w).items.len(), self.target) {
            Recovery::Done => n.shard_ended().progressed(
                (self.group(w).shards_done + 1) as usize,
            ),
            Recovery::Split(_) => n.shard_ended().sharded(
                (self.group(w).shards_total + 1) as usize,
            ),
            _ => n.shard_ended(),
        }
    }
}

/// The message for an item that cannot be evaluated.
pub open spec fn give_up_text(phase: Seq<char>, label: Seq<char>, item: Seq<char>) -> Seq<char> {
    phase + ": "@ + label + " could not evaluate `"@ + item
        + "` — it aborted alone, at one slot, with nothing left to split or salvage"@
}

/// The beginning of every note on an abort.
pub open spec fn abort_text(phase: Seq<char>, label: Seq<char>, cause: Seq<char>) -> Seq<char> {
    "  "@ + phase + ": "@ + label + " aborted ("@ + cause + ")"@
}

/// The note on an abort, for each rung but the last.
pub open spec fn note_text(
    phase: Seq<char>,
    label: Seq<char>,
    cause: Seq<char>,
    left: nat,
    n: nat,
    r: Recovery,
) -> Seq<char> {
    let head = abort_text(phase, label, cause);
    match r {
        Recovery::Done => head + " — but all "@ + text::decimal(n)
            + " had already landed, so there is nothing left to redo"@,
        Recovery::Retry => head + "; "@ + text::decimal((n - left) as nat) + " of "@
            + text::decimal(n) + " had landed, retrying the remaining "@ + text::decimal(left),
        Recovery::Slots(from, to) => head + "; requeued, slots "@ + text::decimal(from as nat)
            + " -> "@ + text::decimal(to as nat),
        Recovery::Split(at) => head + " at one slot; splitting "@ + text::decimal(n)
            + " items into "@ + text::decimal(at as nat) + " + "@ + text::decimal(
            (n - at) as nat,
        ),
        Recovery::GiveUp => Seq::empty(),
    }
}

fn give_up_message(phase: &str, label: &str, item: &str) -> (r: String)
    ensures
        r@ == give_up_text(phase@, label@, item@),
{
    let mut r = phase.to_owned();
    r.append(": ");
    r.append(label);
    r.append(" could not evaluate `");
    r.append(item);
    r.append("` — it aborted alone, at one slot, with nothing left to split or salvage");
    r
}

fn push_number(r: &mut String, n: usize)
    ensures
        final(r)@ == old(r)@ + text::decimal(n as nat),
{
    let d = text::decimal_usize(n);
    r.append(d.as_str());
}

fn abort_note(phase: &str, label: &str, cause: &str, left: usize, n: usize, rec: Recovery) -> (r:
    String)
    requires
        rec is Retry ==> left <= n,
        rec is Split ==> rec->Split_0 <= n,
    ensures
        r@ == note_text(phase@, label@, cause@, left as nat, n as nat, rec),
{
    let mut r = "  ".to_owned();
    r.append(phase);
    r.append(": ");
    r.append(label);
    r.append(" aborted (");
    r.append(cause);
    r.append(")");
    match rec {
        Recovery::Done => {
            r.append(" — but all ");
            push_number(&mut r, n);
            r.append(" had already landed, so there is nothing left to redo");
        },
        Recovery::Retry => {
            r.append("; ");
            push_number(&mut r, n - left);
            r.append(" of ");
            push_number(&mut r, n);
            r.append(" had landed, retrying the remaining ");
            push_number(&mut r, left);
        },
        Recovery::Slots(from, to) => {
            r.append("; requeued, slots ");
            push_number(&mut r, from);
            r.append(" -> ");
            push_number(&mut r, to);
        },
        Recovery::Split(at) => {
            r.append(" at one slot; splitting ");
            push_number(&mut r, n);
            r.append(" items into ");
            push_number(&mut r, at);
            r.append(" + ");
            push_number(&mut r, n - at);
        },
        Recovery::GiveUp => {
            return String::new();
        },
    }
    r
}

/// Whether the tree is as before but for one node.
pub open spec fn one_node(before: Tree, after: Tree, id: int, n: NodeData) -> bool {
    &&& after.nodes() == before.nodes().update(id, n)
    &&& after.order() == before.order()
    &&& after.set_as(before)
    &&& after.wf()
}

// --- what every step keeps ---------------------------------------------------

proof fn lemma_taken<T>(d: Run<T>, w: int, f: spec_fn(ShardData) -> nat)
    requires
        0 <= w < d.workers.len(),
        d.workers[w] is Idle,
        d.queue.len() > 0,
    ensures
        d.taken(w).owed(f) == d.owed(f),
{
    lemma_weight_first(d.queue, f);
    lemma_busy_update(d.workers, w, SlotData::Busy(d.queue[0]), f);
}

/// Taking a shard keeps the run in order, and loses and adds nothing.
pub proof fn law_taking_keeps_what_is_owed<T>(d: Run<T>, w: int)
    requires
        d.wf(),
        0 <= w < d.workers.len(),
        d.workers[w] is Idle,
        d.queue.len() > 0,
    ensures
        d.taken(w).wf(),
        forall|f: spec_fn(ShardData) -> nat| #[trigger] d.taken(w).owed(f) == d.owed(f),
{
    let e = d.taken(w);
    assert forall|f: spec_fn(ShardData) -> nat| #[trigger] e.owed(f) == d.owed(f) by {
        lemma_taken(d, w, f);
    }
    assert(d.sound_shard(d.queue[0]));
    assert forall|i: int| 0 <= i < e.queue.len() implies e.sound_shard(#[trigger] e.queue[i]) by {
        assert(e.queue[i] == d.queue[i + 1]);
        assert(d.sound_shard(d.queue[i + 1]));
    }
    assert forall|v: int| 0 <= v < e.workers.len() implies match #[trigger] e.workers[v] {
        SlotData::Busy(s) => e.sound_shard(s),
        SlotData::Closing { group, .. } => 0 <= group < e.groups.len(),
        SlotData::Idle => true,
    } by {
        if v != w {
            assert(e.workers[v] == d.workers[v]);
        }
    }
    assert forall|g: int| 0 <= g < e.groups.len() implies (#[trigger] e.groups[g]).shards_done
        + e.owed(of_group(g)) == e.groups[g].shards_total && e.groups[g].shards_done + e.owed(
        items_of(g),
    ) <= e.groups[g].items_total by {
        assert(e.groups[g] == d.groups[g]);
    }
}

proof fn lemma_slot_freed<T>(
    d: Run<T>,
    w: int,
    s: SlotData,
    f: spec_fn(ShardData) -> nat,
)
    requires
        0 <= w < d.workers.len(),
        d.workers[w] is Busy,
        !(s is Busy),
    ensures
        busy_weight(d.workers.update(w, s), f) + f(d.shard(w)) == busy_weight(d.workers, f),
{
    lemma_busy_update(d.workers, w, s, f);
}

/// Landing a shard keeps the run in order: what is owed is less by exactly
/// that shard.
pub proof fn law_landing_pays_one_shard<T>(d: Run<T>, w: int, rows: Seq<T>)
    requires
        d.wf(),
        0 <= w < d.workers.len(),
        d.workers[w] is Busy,
    ensures
        d.landed(w, rows).wf(),
        forall|f: spec_fn(ShardData) -> nat|
            #[trigger] d.landed(w, rows).owed(f) + f(d.shard(w)) == d.owed(f),
{
    lemma_booking_keeps_order(d, w, rows, false, d.landed(w, rows));
}

proof fn lemma_booking_keeps_order<T>(
    d: Run<T>,
    w: int,
    rows: Seq<T>,
    salvaged: bool,
    e: Run<T>,
)
    requires
        d.wf(),
        0 <= w < d.workers.len(),
        d.workers[w] is Busy,
        e.labels == d.labels,
        e.queue == d.queue,
        e.target == d.target,
        e.groups == d.groups.update(d.shard(w).group, booked(d.group(w), rows, salvaged)),
        e.workers == d.workers.update(
            w,
            SlotData::Closing {
                group: d.shard(w).group,
                count: last_count(d.group(w), rows, salvaged),
                salvaged,
            },
        ),
    ensures
        e.wf(),
        forall|f: spec_fn(ShardData) -> nat| #[trigger] e.owed(f) + f(d.shard(w)) == d.owed(f),
{
    let s = d.shard(w);
    assert(d.workers[w] == SlotData::Busy(s));
    assert(d.sound_shard(s));
    assert forall|f: spec_fn(ShardData) -> nat| #[trigger] e.owed(f) + f(s) == d.owed(f) by {
        lemma_slot_freed(d, w, e.workers[w], f);
    }
    assert forall|i: int| 0 <= i < e.queue.len() implies e.sound_shard(#[trigger] e.queue[i]) by {
        assert(d.sound_shard(d.queue[i]));
    }
    assert forall|v: int| 0 <= v < e.workers.len() implies match #[trigger] e.workers[v] {
        SlotData::Busy(s) => e.sound_shard(s),
        SlotData::Closing { group, .. } => 0 <= group < e.groups.len(),
        SlotData::Idle => true,
    } by {
        if v != w {
            assert(e.workers[v] == d.workers[v]);
        }
    }
    assert forall|g: int| 0 <= g < e.groups.len() implies (#[trigger] e.groups[g]).shards_done
        + e.owed(of_group(g)) == e.groups[g].shards_total && e.groups[g].shards_done + e.owed(
        items_of(g),
    ) <= e.groups[g].items_total by {
        assert(e.owed(of_group(g)) + of_group(g)(s) == d.owed(of_group(g)));
        assert(e.owed(items_of(g)) + items_of(g)(s) == d.owed(items_of(g)));
        assert(d.groups[g].shards_done + d.owed(of_group(g)) == d.groups[g].shards_total);
    }
}

/// Handing in keeps the run in order and what it owes.
pub proof fn law_settling_keeps_what_is_owed<T>(d: Run<T>, w: int)
    requires
        d.wf(),
        0 <= w < d.workers.len(),
        d.workers[w] is Closing,
    ensures
        d.settled(w).wf(),
        forall|f: spec_fn(ShardData) -> nat| #[trigger] d.settled(w).owed(f) == d.owed(f),
{
    let e = d.settled(w);
    assert forall|f: spec_fn(ShardData) -> nat| #[trigger] e.owed(f) == d.owed(f) by {
        lemma_busy_update(d.workers, w, SlotData::Idle, f);
    }
    assert forall|i: int| 0 <= i < e.queue.len() implies e.sound_shard(#[trigger] e.queue[i]) by {
        assert(d.sound_shard(d.queue[i]));
    }
    assert forall|v: int| 0 <= v < e.workers.len() implies match #[trigger] e.workers[v] {
        SlotData::Busy(s) => e.sound_shard(s),
        SlotData::Closing { group, .. } => 0 <= group < e.groups.len(),
        SlotData::Idle => true,
    } by {
        if v != w {
            assert(e.workers[v] == d.workers[v]);
        }
    }
    assert forall|g: int| 0 <= g < e.groups.len() implies (#[trigger] e.groups[g]).shards_done
        + e.owed(of_group(g)) == e.groups[g].shards_total && e.groups[g].shards_done + e.owed(
        items_of(g),
    ) <= e.groups[g].items_total by {
        assert(e.groups[g] == d.groups[g]);
    }
}

proof fn lemma_requeue<T>(d: Run<T>, w: int, x: ShardData, e: Run<T>)
    requires
        d.wf(),
        0 <= w < d.workers.len(),
        d.workers[w] is Busy,
        x.group == d.shard(w).group,
        0 < x.items.len() <= d.shard(w).items.len(),
        e.labels == d.labels,
        e.groups == d.groups,
        e.queue == d.queue.push(x),
        e.workers == d.workers.update(w, SlotData::Idle),
        1 <= e.target <= d.workers.len(),
    ensures
        e.wf(),
        forall|f: spec_fn(ShardData) -> nat|
            #[trigger] e.owed(f) + f(d.shard(w)) == d.owed(f) + f(x),
{
    let s = d.shard(w);
    assert(d.workers[w] == SlotData::Busy(s));
    assert(d.sound_shard(s));
    assert forall|f: spec_fn(ShardData) -> nat| #[trigger] e.owed(f) + f(s) == d.owed(f) + f(x) by {
        lemma_slot_freed(d, w, SlotData::Idle, f);
        lemma_weight_push(d.queue, x, f);
    }
    assert forall|i: int| 0 <= i < e.queue.len() implies e.sound_shard(#[trigger] e.queue[i]) by {
        if i < d.queue.len() {
            assert(d.sound_shard(d.queue[i]));
        }
    }
    assert forall|v: int| 0 <= v < e.workers.len() implies match #[trigger] e.workers[v] {
        SlotData::Busy(s) => e.sound_shard(s),
        SlotData::Closing { group, .. } => 0 <= group < e.groups.len(),
        SlotData::Idle => true,
    } by {
        if v != w {
            assert(e.workers[v] == d.workers[v]);
        }
    }
    assert forall|g: int| 0 <= g < e.groups.len() implies (#[trigger] e.groups[g]).shards_done
        + e.owed(of_group(g)) == e.groups[g].shards_total && e.groups[g].shards_done + e.owed(
        items_of(g),
    ) <= e.groups[g].items_total by {
        assert(e.owed(of_group(g)) + of_group(g)(s) == d.owed(of_group(g)) + of_group(g)(x));
        assert(e.owed(items_of(g)) + items_of(g)(s) == d.owed(items_of(g)) + items_of(g)(x));
        assert(d.groups[g].shards_done + d.owed(of_group(g)) == d.groups[g].shards_total);
    }
}

/// How far a run has to go: the items it owes; of two runs that owe as many,
/// the items beyond the first of each shard; and then the slots.
pub open spec fn ahead<T>(d: Run<T>) -> (nat, nat, nat) {
    (d.owed(all_items()), d.owed(spare_items()), d.target)
}

/// Whether a run has less far to go than another.
pub open spec fn nearer(a: (nat, nat, nat), b: (nat, nat, nat)) -> bool {
    a.0 < b.0 || (a.0 == b.0 && (a.1 < b.1 || (a.1 == b.1 && a.2 < b.2)))
}

pub(crate) proof fn lemma_one_in_group<T>(d: Run<T>, w: int)
    requires
        d.wf(),
        0 <= w < d.workers.len(),
        d.workers[w] is Busy,
    ensures
        d.group(w).shards_total + d.shard(w).items.len() <= d.group(w).items_total + 1,
        d.group(w).shards_done < d.group(w).shards_total,
{
    let g = d.shard(w).group;
    let s = d.shard(w);
    assert(d.workers[w] == SlotData::Busy(s));
    assert(d.sound_shard(s));
    assert(d.groups[g].shards_done + d.owed(of_group(g)) == d.groups[g].shards_total);
    assert(d.groups[g].shards_done + d.owed(items_of(g)) <= d.groups[g].items_total);
    lemma_queue_counts(d.queue, d, g);
    let idle = d.workers.update(w, SlotData::Idle);
    lemma_slot_freed(d, w, SlotData::Idle, of_group(g));
    lemma_slot_freed(d, w, SlotData::Idle, items_of(g));
    assert forall|v: int| 0 <= v < idle.len() implies match #[trigger] idle[v] {
        SlotData::Busy(s) => d.sound_shard(s),
        _ => true,
    } by {
        if v != w {
            assert(idle[v] == d.workers[v]);
        }
    }
    lemma_busy_counts(idle, d, g);
}

proof fn lemma_queue_counts<T>(shards: Seq<ShardData>, d: Run<T>, g: int)
    requires
        forall|i: int| 0 <= i < shards.len() ==> d.sound_shard(#[trigger] shards[i]),
    ensures
        weight(shards, of_group(g)) <= weight(shards, items_of(g)),
    decreases shards.len(),
{
    if shards.len() > 0 {
        assert forall|i: int| 0 <= i < shards.drop_last().len() implies d.sound_shard(
            #[trigger] shards.drop_last()[i],
        ) by {
            assert(shards.drop_last()[i] == shards[i]);
        }
        lemma_queue_counts(shards.drop_last(), d, g);
        assert(d.sound_shard(shards[shards.len() - 1]));
    }
}

proof fn lemma_busy_counts<T>(workers: Seq<SlotData>, d: Run<T>, g: int)
    requires
        forall|v: int|
            0 <= v < workers.len() ==> match #[trigger] workers[v] {
                SlotData::Busy(s) => d.sound_shard(s),
                _ => true,
            },
    ensures
        busy_weight(workers, of_group(g)) <= busy_weight(workers, items_of(g)),
    decreases workers.len(),
{
    if workers.len() > 0 {
        assert forall|v: int| 0 <= v < workers.drop_last().len() implies match #[trigger] workers.drop_last()[v] {
            SlotData::Busy(s) => d.sound_shard(s),
            _ => true,
        } by {
            assert(workers.drop_last()[v] == workers[v]);
        }
        lemma_busy_counts(workers.drop_last(), d, g);
        let last = workers[workers.len() - 1];
        assert(match last {
            SlotData::Busy(s) => d.sound_shard(s),
            _ => true,
        });
    }
}

/// Whatever rung an abort stands on, the run stays in order; and unless it
/// gives up, it has less far to go than before. Since that cannot go on for
/// ever, and landing a shard brings the run nearer too, a run ends.
pub proof fn law_every_abort_makes_headway<T>(
    d: Run<T>,
    w: int,
    left: Seq<Seq<char>>,
    error: FailureData,
)
    requires
        d.wf(),
        d.groups.len() <= usize::MAX,
        forall|g: int| 0 <= g < d.groups.len() ==> (#[trigger] d.groups[g]).items_total <= usize::MAX,
        d.workers.len() <= usize::MAX,
        0 <= w < d.workers.len(),
        d.workers[w] is Busy,
    ensures
        d.aborted(w, left, error).wf(),
        d.fatal is None && d.aborted(w, left, error).fatal is None ==> nearer(
            ahead(d.aborted(w, left, error)),
            ahead(d),
        ),
{
    let s = d.shard(w);
    let g = s.group;
    let e = d.aborted(w, left, error);
    assert(d.workers[w] == SlotData::Busy(s));
    assert(d.sound_shard(s));
    lemma_one_in_group(d, w);
    assert(d.groups[g].items_total <= usize::MAX);
    let f = all_items();
    let h = spare_items();
    match rung(left.len(), s.items.len(), d.target) {
        Recovery::Done => {
            lemma_booking_keeps_order(d, w, Seq::empty(), true, e);
            assert(e.owed(f) + f(s) == d.owed(f));
        },
        Recovery::Retry => {
            let x = ShardData { group: g, items: left };
            lemma_requeue(d, w, x, e);
            assert(e.owed(f) + f(s) == d.owed(f) + f(x));
        },
        Recovery::Slots(_, to) => {
            assert(to == d.target / 2);
            lemma_requeue(d, w, s, e);
            assert(e.owed(f) + f(s) == d.owed(f) + f(s));
            assert(e.owed(h) + h(s) == d.owed(h) + h(s));
        },
        Recovery::Split(at) => {
            assert(at == s.items.len() / 2);
            let x = ShardData { group: g, items: s.items.take(at as int) };
            let y = ShardData { group: g, items: s.items.skip(at as int) };
            lemma_split(d, w, x, y, e);
            assert(e.owed(f) + f(s) == d.owed(f) + f(x) + f(y));
            assert(e.owed(h) + h(s) == d.owed(h) + h(x) + h(y));
        },
        Recovery::GiveUp => {
            assert forall|f: spec_fn(ShardData) -> nat| #[trigger] e.owed(f) == d.owed(f) by {}
            assert forall|i: int| 0 <= i < e.queue.len() implies e.sound_shard(
                #[trigger] e.queue[i],
            ) by {
                assert(d.sound_shard(d.queue[i]));
            }
            assert forall|v: int| 0 <= v < e.workers.len() implies match #[trigger] e.workers[v] {
                SlotData::Busy(s) => e.sound_shard(s),
                SlotData::Closing { group, .. } => 0 <= group < e.groups.len(),
                SlotData::Idle => true,
            } by {
                assert(e.workers[v] == d.workers[v]);
            }
            assert forall|k: int| 0 <= k < e.groups.len() implies (#[trigger] e.groups[k]).shards_done
                + e.owed(of_group(k)) == e.groups[k].shards_total && e.groups[k].shards_done
                + e.owed(items_of(k)) <= e.groups[k].items_total by {
                assert(e.groups[k] == d.groups[k]);
            }
        },
    }
}

proof fn lemma_split<T>(d: Run<T>, w: int, x: ShardData, y: ShardData, e: Run<T>)
    requires
        d.wf(),
        0 <= w < d.workers.len(),
        d.workers[w] is Busy,
        x.group == d.shard(w).group,
        y.group == d.shard(w).group,
        x.items.len() > 0,
        y.items.len() > 0,
        x.items.len() + y.items.len() == d.shard(w).items.len(),
        e.labels == d.labels,
        e.groups == d.groups.update(
            d.shard(w).group,
            GroupData { shards_total: d.group(w).shards_total + 1, ..d.group(w) },
        ),
        e.queue == d.queue.push(x).push(y),
        e.workers == d.workers.update(w, SlotData::Idle),
        e.target == d.target,
    ensures
        e.wf(),
        forall|f: spec_fn(ShardData) -> nat|
            #[trigger] e.owed(f) + f(d.shard(w)) == d.owed(f) + f(x) + f(y),
{
    let s = d.shard(w);
    assert(d.workers[w] == SlotData::Busy(s));
    assert(d.sound_shard(s));
    assert forall|f: spec_fn(ShardData) -> nat| #[trigger] e.owed(f) + f(s) == d.owed(f) + f(x) + f(
        y,
    ) by {
        lemma_slot_freed(d, w, SlotData::Idle, f);
        lemma_weight_push(d.queue, x, f);
        lemma_weight_push(d.queue.push(x), y, f);
    }
    assert forall|i: int| 0 <= i < e.queue.len() implies e.sound_shard(#[trigger] e.queue[i]) by {
        if i < d.queue.len() {
            assert(d.sound_shard(d.queue[i]));
        }
    }
    assert forall|v: int| 0 <= v < e.workers.len() implies match #[trigger] e.workers[v] {
        SlotData::Busy(s) => e.sound_shard(s),
        SlotData::Closing { group, .. } => 0 <= group < e.groups.len(),
        SlotData::Idle => true,
    } by {
        if v != w {
            assert(e.workers[v] == d.workers[v]);
        }
    }
    assert forall|g: int| 0 <= g < e.groups.len() implies (#[trigger] e.groups[g]).shards_done
        + e.owed(of_group(g)) == e.groups[g].shards_total && e.groups[g].shards_done + e.owed(
        items_of(g),
    ) <= e.groups[g].items_total by {
        assert(e.owed(of_group(g)) + of_group(g)(s) == d.owed(of_group(g)) + of_group(g)(x)
            + of_group(g)(y));
        assert(e.owed(items_of(g)) + items_of(g)(s) == d.owed(items_of(g)) + items_of(g)(x)
            + items_of(g)(y));
        assert(d.groups[g].shards_done + d.owed(of_group(g)) == d.groups[g].shards_total);
    }
}

/// Landing a shard brings the run nearer to its end, even where it frees a
/// slot.
pub proof fn law_every_landing_makes_headway<T>(d: Run<T>, w: int, rows: Seq<T>)
    requires
        d.wf(),
        0 <= w < d.workers.len(),
        d.workers[w] is Busy,
    ensures
        nearer(ahead(d.landed(w, rows).settled(w)), ahead(d)),
{
    law_landing_pays_one_shard(d, w, rows);
    let e = d.landed(w, rows);
    law_settling_keeps_what_is_owed(e, w);
    assert(e.settled(w).owed(all_items()) == e.owed(all_items()));
    assert(e.owed(all_items()) + all_items()(d.shard(w)) == d.owed(all_items()));
    assert(d.sound_shard(d.shard(w)));
}

/// When nothing is owed any more, every group is booked to its last shard.
pub proof fn law_finished_runs_are_complete<T>(d: Run<T>, g: int)
    requires
        d.wf(),
        d.finished(),
        0 <= g < d.groups.len(),
    ensures
        d.groups[g].shards_done == d.groups[g].shards_total,
{
    lemma_all_idle(d.workers, of_group(g));
}

pub(crate) proof fn lemma_all_idle(workers: Seq<SlotData>, f: spec_fn(ShardData) -> nat)
    requires
        forall|w: int| 0 <= w < workers.len() ==> #[trigger] workers[w] is Idle,
    ensures
        busy_weight(workers, f) == 0,
    decreases workers.len(),
{
    if workers.len() > 0 {
        assert forall|w: int| 0 <= w < workers.drop_last().len() implies #[trigger] workers.drop_last()[w] is Idle by {
            assert(workers.drop_last()[w] == workers[w]);
        }
        lemma_all_idle(workers.drop_last(), f);
        assert(workers[workers.len() - 1] is Idle);
    }
}

/// How often an item occurs in each shard of the group `g`.
pub open spec fn occurrences(g: int, item: Seq<char>) -> spec_fn(ShardData) -> nat {
    |x: ShardData|
        if x.group == g {
            x.items.to_multiset().count(item)
        } else {
            0
        }
}

/// Shedding slots, splitting and giving up lose no item and add none; a retry
/// owes what was said to be left in place of the whole shard.
pub proof fn law_recovery_loses_no_item<T>(
    d: Run<T>,
    w: int,
    left: Seq<Seq<char>>,
    error: FailureData,
    g: int,
    item: Seq<char>,
)
    requires
        d.wf(),
        forall|g: int| 0 <= g < d.groups.len() ==> (#[trigger] d.groups[g]).items_total <= usize::MAX,
        d.workers.len() <= usize::MAX,
        0 <= w < d.workers.len(),
        d.workers[w] is Busy,
    ensures
        ({
            let f = occurrences(g, item);
            let e = d.aborted(w, left, error);
            match rung(left.len(), d.shard(w).items.len(), d.target) {
                Recovery::Done => e.owed(f) + f(d.shard(w)) == d.owed(f),
                Recovery::Retry => e.owed(f) + f(d.shard(w)) == d.owed(f) + f(
                    ShardData { group: d.shard(w).group, items: left },
                ),
                _ => e.owed(f) == d.owed(f),
            }
        }),
{
    let s = d.shard(w);
    let f = occurrences(g, item);
    let e = d.aborted(w, left, error);
    assert(d.workers[w] == SlotData::Busy(s));
    assert(d.sound_shard(s));
    lemma_one_in_group(d, w);
    assert(d.groups[s.group].items_total <= usize::MAX);
    match rung(left.len(), s.items.len(), d.target) {
        Recovery::Done => {
            lemma_booking_keeps_order(d, w, Seq::empty(), true, e);
            assert(e.owed(f) + f(s) == d.owed(f));
        },
        Recovery::Retry => {
            let x = ShardData { group: s.group, items: left };
            lemma_requeue(d, w, x, e);
            assert(e.owed(f) + f(s) == d.owed(f) + f(x));
        },
        Recovery::Slots(_, to) => {
            assert(to == d.target / 2);
            lemma_requeue(d, w, s, e);
            assert(e.owed(f) + f(s) == d.owed(f) + f(s));
        },
        Recovery::Split(at) => {
            assert(at == s.items.len() / 2);
            let x = ShardData { group: s.group, items: s.items.take(at as int) };
            let y = ShardData { group: s.group, items: s.items.skip(at as int) };
            lemma_split(d, w, x, y, e);
            assert(e.owed(f) + f(s) == d.owed(f) + f(x) + f(y));
            vstd::seq_lib::lemma_multiset_commutative(x.items, y.items);
            assert(x.items + y.items =~= s.items);
        },
        Recovery::GiveUp => {},
    }
}

// --- driving a run -----------------------------------------------------------

/// What became of an aborted shard.
pub enum AfterAbort<T> {
    /// It is in the queue again, whole or in parts: the note says how.
    Requeued(String),
    /// It is booked without rows, and the worker has yet to hand in; the rows
    /// of the group, where it was the last shard.
    Salvaged(String, Option<Vec<T>>),
    /// The run has failed.
    GaveUp,
}

impl<T> Scheduler<T> {
    /// The machine's limits on a run.
    pub proof fn lemma_bounds(self)
        ensures
            forall|g: int|
                0 <= g < self@.groups.len() ==> (#[trigger] self@.groups[g]).items_total <= usize::MAX,
    {
        assert forall|g: int| 0 <= g < self@.groups.len() implies (#[trigger] self@.groups[g]).items_total
            <= usize::MAX by {
            assert(self@.groups[g] == self.groups@[g]@);
        }
    }

    /// How many workers the run has.
    pub fn slots(&self) -> (n: usize)
        ensures
            n == self@.workers.len(),
    {
        self.workers.len()
    }

    fn all_idle(&self) -> (r: bool)
        ensures
            r == forall|w: int| 0 <= w < self@.workers.len() ==> #[trigger] self@.workers[w] is Idle,
    {
        let mut w: usize = 0;
        while w < self.workers.len()
            invariant
                w <= self.workers@.len(),
                forall|v: int| 0 <= v < w ==> #[trigger] self@.workers[v] is Idle,
            decreases self.workers@.len() - w,
        {
            assert(self@.workers[w as int] == self.workers@[w as int]@);
            match &self.workers[w] {
                Slot::Idle => {},
                _ => {
                    return false;
                },
            }
            w = w + 1;
        }
        true
    }

    /// What the worker `w` does next; where that is to run, it has the first
    /// shard of the queue from then on, and the shard's node runs.
    pub fn next(&mut self, tree: &mut Tree, w: usize) -> (r: Next)
        requires
            old(self)@.wf(),
            old(self)@.fits(*old(tree)),
            w < old(self)@.workers.len(),
            old(self)@.fatal is None ==> old(self)@.workers[w as int] is Idle,
        ensures
            r == old(self)@.next(w as int),
            r != Next::Run ==> final(self)@ == old(self)@ && *final(tree) == *old(tree),
            r == Next::Run ==> {
                let id = old(self)@.groups[old(self)@.queue[0].group].node;
                &&& final(self)@ == old(self)@.taken(w as int)
                &&& one_node(
                    *old(tree),
                    *final(tree),
                    id,
                    old(tree).nodes()[id].running().shard_begun(),
                )
            },
            final(self)@.wf(),
            final(self)@.fits(*final(tree)),
    {
        if self.fatal.is_some() || (self.queue.len() == 0 && self.all_idle()) {
            return Next::Exit;
        }
        if w >= self.target || self.queue.len() == 0 {
            return Next::Wait;
        }
        let ghost d = self@;
        let shard = self.queue.remove(0);
        let g = shard.group;
        proof {
            assert(d.queue[0] == shard@);
            assert(d.sound_shard(d.queue[0]));
            assert(d.groups[g as int] == self.groups@[g as int]@);
        }
        let id = self.groups[g].node;
        let ghost n0 = tree.nodes()[id as int];
        let node = tree.node_mut(id);
        node.set_running();
        node.shard_started();
        self.workers[w] = Slot::Busy(shard);
        proof {
            assert(self@.queue =~= d.queue.skip(1));
            assert(self@.workers =~= d.workers.update(w as int, SlotData::Busy(shard@)));
            assert(self@ =~= d.taken(w as int));
            law_taking_keeps_what_is_owed(d, w as int);
        }
        Next::Run
    }

    /// The shard that the worker `w` has, if it has one.
    pub fn shard(&self, w: usize) -> (r: Option<&Shard>)
        ensures
            match r {
                Some(s) => w < self@.workers.len() && self@.workers[w as int] == SlotData::Busy(s@),
                None => w < self@.workers.len() ==> !(self@.workers[w as int] is Busy),
            },
    {
        if w >= self.workers.len() {
            return None;
        }
        assert(self@.workers[w as int] == self.workers@[w as int]@);
        match &self.workers[w] {
            Slot::Busy(s) => Some(s),
            _ => None,
        }
    }

    /// The name of a group in messages.
    pub fn label(&self, g: usize) -> (r: &String)
        requires
            g < self@.labels.len(),
        ensures
            r@ == self@.labels[g as int],
    {
        assert(self@.labels[g as int] == self.labels@[g as int]@);
        &self.labels[g]
    }

    /// `n` rows of the shard of the worker `w` surfaced.
    pub fn streamed(&self, tree: &mut Tree, w: usize, n: i64)
        requires
            self@.wf(),
            self@.fits(*old(tree)),
            w < self@.workers.len(),
            self@.workers[w as int] is Busy,
        ensures
            one_node(
                *old(tree),
                *final(tree),
                self@.group(w as int).node,
                old(tree).nodes()[self@.group(w as int).node].streamed(n),
            ),
            self@.fits(*final(tree)),
    {
        if let Some(s) = self.shard(w) {
            let g = s.group;
            assert(self@.sound_shard(self@.shard(w as int)));
            assert(self@.groups[g as int] == self.groups@[g as int]@);
            let id = self.groups[g].node;
            let node = tree.node_mut(id);
            node.stream(n);
        }
    }

    /// Books a shard of the group `g`: folds its rows in and advances the node;
    /// hands the rows of the group out with its last shard.
    fn finish_shard(&mut self, tree: &mut Tree, g: usize, rows: Vec<T>, salvaged: bool) -> (r: (
        Option<i64>,
        Option<Vec<T>>,
    ))
        requires
            g < old(self)@.groups.len(),
            old(self)@.groups[g as int].shards_done < usize::MAX,
            old(self)@.fits(*old(tree)),
        ensures
            final(self)@ == (Run {
                groups: old(self)@.groups.update(
                    g as int,
                    booked(old(self)@.groups[g as int], rows@, salvaged),
                ),
                ..old(self)@
            }),
            r.0 == last_count(old(self)@.groups[g as int], rows@, salvaged),
            match r.1 {
                Some(v) => last_rows(old(self)@.groups[g as int], rows@) == Some(v@),
                None => last_rows(old(self)@.groups[g as int], rows@) is None,
            },
            one_node(
                *old(tree),
                *final(tree),
                old(self)@.groups[g as int].node,
                old(tree).nodes()[old(self)@.groups[g as int].node].progressed(
                    (old(self)@.groups[g as int].shards_done + 1) as usize,
                ),
            ),
    {
        let ghost d = self@;
        let ghost gd = self@.groups[g as int];
        assert(gd == self.groups@[g as int]@);
        let mut all: Vec<T> = Vec::new();
        std::mem::swap(&mut self.groups[g].rows, &mut all);
        let mut rows = rows;
        all.append(&mut rows);
        let done: usize = self.groups[g].shards_done + 1;
        let marked = self.groups[g].salvaged || salvaged;
        self.groups[g].shards_done = done;
        self.groups[g].salvaged = marked;
        let id = self.groups[g].node;
        let node = tree.node_mut(id);
        node.shard_progress(done);
        if done == self.groups[g].shards_total {
            let count: i64 = if marked {
                self.groups[g].items_total as i64
            } else {
                all.len() as i64
            };
            proof {
                assert(self.groups@[g as int]@ =~= booked(gd, rows@, salvaged));
                assert(self@.groups =~= d.groups.update(g as int, self.groups@[g as int]@));
                assert(self@.queue =~= d.queue);
                assert(self@.workers =~= d.workers);
            }
            (Some(count), Some(all))
        } else {
            self.groups[g].rows = all;
            proof {
                assert(self@.groups =~= d.groups.update(g as int, self.groups@[g as int]@));
                assert(self@.queue =~= d.queue);
                assert(self@.workers =~= d.workers);
            }
            (None, None)
        }
    }
}

impl<T> Scheduler<T> {
    /// Takes the shard out of the worker `w`, leaving it idle.
    fn release(&mut self, w: usize) -> (s: Option<Shard>)
        requires
            w < old(self)@.workers.len(),
        ensures
            old(self)@.workers[w as int] is Busy ==> s is Some && s->0@ == old(self)@.shard(w as int)
                && final(self)@ == (Run {
                workers: old(self)@.workers.update(w as int, SlotData::Idle),
                ..old(self)@
            }),
    {
        let ghost d = self@;
        assert(d.workers[w as int] == self.workers@[w as int]@);
        let mut slot = Slot::Idle;
        std::mem::swap(&mut self.workers[w], &mut slot);
        proof {
            assert(self@.workers =~= d.workers.update(w as int, SlotData::Idle));
            assert(self@.queue =~= d.queue);
            assert(self@.groups =~= d.groups);
        }
        match slot {
            Slot::Busy(s) => Some(s),
            _ => None,
        }
    }

    fn set_slot(&mut self, w: usize, slot: Slot)
        requires
            w < old(self)@.workers.len(),
        ensures
            final(self)@ == (Run {
                workers: old(self)@.workers.update(w as int, slot@),
                ..old(self)@
            }),
    {
        let ghost d = self@;
        self.workers[w] = slot;
        proof {
            assert(self@.workers =~= d.workers.update(w as int, slot@));
            assert(self@.queue =~= d.queue);
            assert(self@.groups =~= d.groups);
        }
    }

    /// The shard of the worker `w` landed with `rows`: they are folded into its
    /// group. The last shard of a group hands all its rows out. The worker has
    /// then to hand in.
    pub fn landed(&mut self, tree: &mut Tree, w: usize, rows: Vec<T>) -> (r: Option<Vec<T>>)
        requires
            old(self)@.wf(),
            old(self)@.fits(*old(tree)),
            w < old(self)@.workers.len(),
            old(self)@.workers[w as int] is Busy,
        ensures
            final(self)@ == old(self)@.landed(w as int, rows@),
            match r {
                Some(v) => last_rows(old(self)@.group(w as int), rows@) == Some(v@),
                None => last_rows(old(self)@.group(w as int), rows@) is None,
            },
            one_node(
                *old(tree),
                *final(tree),
                old(self)@.group(w as int).node,
                old(tree).nodes()[old(self)@.group(w as int).node].progressed(
                    (old(self)@.group(w as int).shards_done + 1) as usize,
                ),
            ),
            final(self)@.wf(),
            final(self)@.fits(*final(tree)),
    {
        let ghost d = self@;
        proof {
            assert(d.sound_shard(d.shard(w as int)));
            lemma_one_in_group(d, w as int);
            self.lemma_bounds();
            law_landing_pays_one_shard(d, w as int, rows@);
        }
        let g = match self.shard(w) {
            Some(s) => s.group,
            None => 0,
        };
        let (count, out) = self.finish_shard(tree, g, rows, false);
        self.set_slot(w, Slot::Closing { group: g, count, salvaged: false });
        assert(self@ =~= d.landed(w as int, rows@));
        out
    }

    /// The worker `w` handed in without error: a group that is complete is
    /// done on its node, and the worker is free.
    pub fn settled(&mut self, tree: &mut Tree, w: usize)
        requires
            old(self)@.wf(),
            old(self)@.fits(*old(tree)),
            w < old(self)@.workers.len(),
            old(self)@.workers[w as int] is Closing,
        ensures
            final(self)@ == old(self)@.settled(w as int),
            ({
                let slot = old(self)@.workers[w as int];
                let id = old(self)@.groups[slot->group].node;
                let n = old(tree).nodes()[id];
                let n = match slot->count {
                    Some(c) => n.pinned(c),
                    None => n,
                };
                one_node(
                    *old(tree),
                    *final(tree),
                    id,
                    if slot->salvaged {
                        n
                    } else {
                        n.shard_ended()
                    },
                )
            }),
            final(self)@.wf(),
            final(self)@.fits(*final(tree)),
    {
        let ghost d = self@;
        proof {
            assert(d.workers[w as int] == self.workers@[w as int]@);
            law_settling_keeps_what_is_owed(d, w as int);
        }
        let (g, count, salvaged): (usize, Option<i64>, bool) = match &self.workers[w] {
            Slot::Closing { group, count, salvaged } => (*group, *count, *salvaged),
            _ => (0, None, false),
        };
        assert(d.groups[g as int] == self.groups@[g as int]@);
        let id = self.groups[g].node;
        let node = tree.node_mut(id);
        if let Some(c) = count {
            node.group_done(c);
        }
        if !salvaged {
            node.shard_finished();
        }
        self.set_slot(w, Slot::Idle);
        if !salvaged {
            let n = self.successes.wrapping_add(1);
            self.successes = n;
            if n % 4 == 0 && self.target < self.workers.len() {
                self.target = self.target + 1;
            }
        }
        proof {
            assert(self@.queue =~= d.queue);
            assert(self@.groups =~= d.groups);
            assert(self@ =~= d.settled(w as int));
        }
    }

    fn set_fatal(&mut self, error: Failure)
        ensures
            final(self)@ == old(self)@.broken(error@),
    {
        let ghost d = self@;
        if self.fatal.is_none() {
            self.fatal = Some(error);
        }
        proof {
            assert(self@.queue =~= d.queue);
            assert(self@.groups =~= d.groups);
            assert(self@.workers =~= d.workers);
        }
    }

    /// The worker `w` failed for another reason than an abort, while it ran or
    /// while it handed in: the run has failed, with the first such error.
    pub fn failed(&mut self, tree: &mut Tree, w: usize, context: Vec<String>)
        requires
            old(self)@.wf(),
            old(self)@.fits(*old(tree)),
            w < old(self)@.workers.len(),
            !(old(self)@.workers[w as int] is Idle),
        ensures
            final(self)@ == old(self)@.broken(
                (FailureData { context: text::texts(context@), abort: None }),
            ),
            match old(self)@.workers[w as int] {
                SlotData::Busy(s) => {
                    let id = old(self)@.groups[s.group].node;
                    one_node(*old(tree), *final(tree), id, old(tree).nodes()[id].shard_ended())
                },
                SlotData::Closing { group, salvaged, .. } => {
                    let id = old(self)@.groups[group].node;
                    let n = old(tree).nodes()[id];
                    one_node(
                        *old(tree),
                        *final(tree),
                        id,
                        if salvaged {
                            n
                        } else {
                            n.shard_ended()
                        },
                    )
                },
                SlotData::Idle => true,
            },
            final(self)@.wf(),
            final(self)@.fits(*final(tree)),
            final(self)@.fatal is Some,
    {
        let ghost d = self@;
        assert(d.workers[w as int] == self.workers@[w as int]@);
        let (g, ended): (usize, bool) = match &self.workers[w] {
            Slot::Busy(s) => (s.group, true),
            Slot::Closing { group, count: _, salvaged } => (*group, !*salvaged),
            Slot::Idle => (0, false),
        };
        proof {
            if d.workers[w as int] is Busy {
                assert(d.sound_shard(d.shard(w as int)));
            }
            assert(d.groups[g as int] == self.groups@[g as int]@);
        }
        let id = self.groups[g].node;
        let ghost nodes0 = tree.nodes();
        let node = tree.node_mut(id);
        if ended {
            node.shard_finished();
        }
        let error = Failure { context, abort: None };
        proof {
            lemma_broken_wf(d, error@);
        }
        self.set_fatal(error);
    }

    /// The evaluator of the worker `w` aborted, with `left` still owed of its
    /// shard: the recovery ladder decides. Where it gives up, the run fails with
    /// the abort itself, below `context` and the name of the item.
    pub fn aborted(
        &mut self,
        tree: &mut Tree,
        w: usize,
        left: Vec<String>,
        context: Vec<String>,
        abort: EvalAborted,
    ) -> (r: AfterAbort<T>)
        requires
            old(self)@.wf(),
            old(self)@.fits(*old(tree)),
            w < old(self)@.workers.len(),
            old(self)@.workers[w as int] is Busy,
        ensures
            final(self)@ == old(self)@.aborted(
                w as int,
                text::texts(left@),
                (FailureData { context: text::texts(context@), abort: Some(abort@) }),
            ),
            ({
                let d = old(self)@;
                let s = d.shard(w as int);
                let rec = rung(left@.len(), s.items.len(), d.target);
                let note = note_text(
                    d.phase,
                    d.labels[s.group],
                    abort.cause(),
                    left@.len(),
                    s.items.len(),
                    rec,
                );
                let id = d.group(w as int).node;
                &&& one_node(
                    *old(tree),
                    *final(tree),
                    id,
                    d.node_after_abort(w as int, text::texts(left@), old(tree).nodes()[id]),
                )
                &&& match r {
                    AfterAbort::Requeued(t) => !(rec is Done) && !(rec is GiveUp) && t@ == note,
                    AfterAbort::Salvaged(t, rows) => rec is Done && t@ == note && match rows {
                        Some(v) => last_rows(d.group(w as int), Seq::<T>::empty()) == Some(v@),
                        None => last_rows(d.group(w as int), Seq::<T>::empty()) is None,
                    },
                    AfterAbort::GaveUp => rec is GiveUp,
                }
            }),
            final(self)@.wf(),
            final(self)@.fits(*final(tree)),
    {
        let ghost d = self@;
        let ghost gone = text::texts(left@);
        let ghost err = FailureData { context: text::texts(context@), abort: Some(abort@) };
        proof {
            assert(d.sound_shard(d.shard(w as int)));
            lemma_one_in_group(d, w as int);
            self.lemma_bounds();
            assert(d.groups.len() == self.groups@.len());
            assert(d.workers.len() == self.workers@.len());
        }
        let group_count: usize = self.groups.len();
        let worker_count: usize = self.workers.len();
        proof {
            law_every_abort_makes_headway(d, w as int, gone, err);
        }
        let target = self.target;
        let (g, n): (usize, usize) = match self.shard(w) {
            Some(s) => (s.group, s.items.len()),
            None => (0, 0),
        };
        assert(n == d.shard(w as int).items.len());
        let rec = recovery(left.len(), n, target);
        let cause = abort.summary();
        let note = abort_note(
            self.phase.as_str(),
            self.label(g).as_str(),
            cause.as_str(),
            left.len(),
            n,
            rec,
        );
        assert(d.groups[g as int] == self.groups@[g as int]@);
        let id = self.groups[g].node;
        let ghost nodes0 = tree.nodes();
        let node = tree.node_mut(id);
        node.shard_finished();
        self.successes = 0;
        let ghost d1 = self@;
        proof {
            assert(d1.queue =~= d.queue);
            assert(d1.groups =~= d.groups);
            assert(d1.workers =~= d.workers);
            assert(d1 =~= (Run { successes: 0, ..d }));
        }
        match rec {
            Recovery::Done => {
                let (count, out) = self.finish_shard(tree, g, Vec::new(), true);
                self.set_slot(w, Slot::Closing { group: g, count, salvaged: true });
                proof {
                    assert(self@ =~= d.aborted(w as int, gone, err));
                    assert(tree.nodes() =~= nodes0.update(
                        id as int,
                        d.node_after_abort(w as int, gone, nodes0[id as int]),
                    ));
                }
                AfterAbort::Salvaged(note, out)
            },
            Recovery::Retry => {
                self.release(w);
                let shard = Shard { group: g, items: left };
                let ghost q = self@.queue;
                self.queue.push(shard);
                proof {
                    assert(self@.queue =~= q.push(shard@));
                    assert(self@.groups =~= d.groups);
                    assert(self@.workers =~= d.workers.update(w as int, SlotData::Idle));
                    assert(self@ =~= d.aborted(w as int, gone, err));
                }
                AfterAbort::Requeued(note)
            },
            Recovery::Slots(_, to) => {
                self.target = to;
                proof {
                    assert(self@.queue =~= d.queue);
                    assert(self@.groups =~= d.groups);
                    assert(self@.workers =~= d.workers);
                }
                if let Some(shard) = self.release(w) {
                    let ghost q = self@.queue;
                    self.queue.push(shard);
                    proof {
                        assert(self@.queue =~= q.push(shard@));
                        assert(self@.groups =~= d.groups);
                        assert(self@.workers =~= d.workers.update(w as int, SlotData::Idle));
                    }
                }
                assert(self@ =~= d.aborted(w as int, gone, err));
                AfterAbort::Requeued(note)
            },
            Recovery::Split(at) => {
                let total: usize = self.groups[g].shards_total + 1;
                let node = tree.node_mut(id);
                node.set_shards_total(total);
                assert(tree.nodes() =~= nodes0.update(
                    id as int,
                    d.node_after_abort(w as int, gone, nodes0[id as int]),
                ));
                if let Some(shard) = self.release(w) {
                    self.groups[g].shards_total = total;
                    let ghost whole = text::texts(shard.items@);
                    let mut items = shard.items;
                    let tail = items.split_off(at);
                    let ghost q = self@.queue;
                    let first = Shard { group: g, items };
                    let second = Shard { group: g, items: tail };
                    self.queue.push(first);
                    self.queue.push(second);
                    proof {
                        assert(first@.items =~= whole.take(at as int));
                        assert(second@.items =~= whole.skip(at as int));
                        assert(self@.queue =~= q.push(first@).push(second@));
                        assert(self@.groups =~= d.groups.update(
                            g as int,
                            GroupData { shards_total: total as nat, ..d.groups[g as int] },
                        ));
                        assert(self@.workers =~= d.workers.update(w as int, SlotData::Idle));
                    }
                }
                assert(self@ =~= d.aborted(w as int, gone, err));
                AfterAbort::Requeued(note)
            },
            Recovery::GiveUp => {
                let item = match self.shard(w) {
                    Some(s) => s.items[0].clone(),
                    None => String::new(),
                };
                let msg = give_up_message(
                    self.phase.as_str(),
                    self.label(g).as_str(),
                    item.as_str(),
                );
                let mut context = context;
                let ghost said = text::texts(context@);
                context.insert(0, msg);
                let error = Failure { context, abort: Some(abort) };
                proof {
                    assert(item@ == d.shard(w as int).items[0]);
                    assert(error@.context =~= seq![msg@] + said);
                }
                self.set_fatal(error);
                assert(self@ =~= d.aborted(w as int, gone, err));
                AfterAbort::GaveUp
            },
        }
    }

    /// The error that ended the run, if one did.
    pub fn fatal(&self) -> (r: Option<&Failure>)
        ensures
            match r {
                Some(e) => self@.fatal == Some(e@),
                None => self@.fatal is None,
            },
    {
        match &self.fatal {
            Some(e) => Some(e),
            None => None,
        }
    }
}

pub(crate) proof fn lemma_broken_wf<T>(d: Run<T>, error: FailureData)
    requires
        d.wf(),
    ensures
        d.broken(error).wf(),
{
    let e = d.broken(error);
    assert forall|i: int| 0 <= i < e.queue.len() implies e.sound_shard(#[trigger] e.queue[i]) by {
        assert(d.sound_shard(d.queue[i]));
    }
    assert forall|v: int| 0 <= v < e.workers.len() implies match #[trigger] e.workers[v] {
        SlotData::Busy(s) => e.sound_shard(s),
        SlotData::Closing { group, .. } => 0 <= group < e.groups.len(),
        SlotData::Idle => true,
    } by {
        assert(e.workers[v] == d.workers[v]);
    }
    assert forall|g: int| 0 <= g < e.groups.len() implies (#[trigger] e.groups[g]).shards_done
        + e.owed(of_group(g)) == e.groups[g].shards_total && e.groups[g].shards_done + e.owed(
        items_of(g),
    ) <= e.groups[g].items_total by {
        assert(e.groups[g] == d.groups[g]);
    }
}

// --- what the steps promise --------------------------------------------------

/// The ladder halves: the slots, and then the shard, rounding down.
pub proof fn law_the_ladder_halves(left: usize, items: usize, slots: usize)
    ensures
        match rung(left as nat, items as nat, slots as nat) {
            Recovery::Slots(from, to) => 2 * to <= from <= 2 * to + 1,
            Recovery::Split(at) => 2 * at <= items <= 2 * at + 1,
            _ => true,
        },
        0 < left < items ==> rung(left as nat, items as nat, slots as nat) == Recovery::Retry,
        left == 0 ==> rung(left as nat, items as nat, slots as nat) == Recovery::Done,
        0 < left && items <= left && slots > 1 ==> rung(
            left as nat,
            items as nat,
            slots as nat,
        ) is Slots,
        0 < left && items <= left && slots <= 1 && items > 1 ==> rung(
            left as nat,
            items as nat,
            slots as nat,
        ) is Split,
        0 < left && items <= left && slots <= 1 && items <= 1 ==> rung(
            left as nat,
            items as nat,
            slots as nat,
        ) is GiveUp,
{
}

/// Every shard of a group is full but perhaps the last one, and none is empty.
pub proof fn law_shards_are_full_but_the_last(items: Seq<Seq<char>>, size: nat, k: int)
    requires
        size > 0,
        0 <= k < chunked(items, size).len(),
    ensures
        0 < chunked(items, size)[k].len() <= size,
        k < chunked(items, size).len() - 1 ==> chunked(items, size)[k].len() == size,
    decreases items.len(),
{
    if items.len() > size {
        let rest = chunked(items.skip(size as int), size);
        if k > 0 {
            law_shards_are_full_but_the_last(items.skip(size as int), size, k - 1);
            assert(chunked(items, size)[k] == rest[k - 1]);
        }
    }
}

/// A shard holds one item at least, and as many as were asked for.
pub proof fn law_shards_are_as_large_as_asked(shard_size: usize)
    ensures
        size_of_shards(shard_size) >= 1,
        shard_size > 0 ==> size_of_shards(shard_size) == shard_size,
        size_of_shards(0) == 1,
{
}

/// A run begins with nothing booked and nobody at work; there are as many workers as
/// slots, but no more than shards, and all of them may take one.
pub proof fn law_runs_begin_with_all_workers_idle<T>(
    phase: Seq<char>,
    labels: Seq<Seq<char>>,
    nodes: Seq<usize>,
    items: Seq<Seq<Seq<char>>>,
    size: nat,
    slots: nat,
    g: int,
    w: int,
)
    ensures
        ({
            let d = begun::<T>(phase, labels, nodes, items, size, slots);
            &&& d.phase == phase && d.labels == labels && d.fatal is None && d.successes == 0
            &&& d.workers.len() <= slots && d.workers.len() <= d.queue.len()
            &&& d.workers.len() == slots || d.workers.len() == d.queue.len()
            &&& d.target == d.workers.len()
            &&& 0 <= w < d.workers.len() ==> d.workers[w] is Idle
            &&& d.groups.len() == items.len()
            &&& 0 <= g < items.len() ==> d.groups[g].node == nodes[g] && d.groups[g].items_total
                == items[g].len() && d.groups[g].shards_done == 0 && !d.groups[g].salvaged
                && d.groups[g].rows.len() == 0 && d.groups[g].shards_total == chunked(
                items[g],
                size,
            ).len()
        }),
{
}

/// A worker goes home when the run has failed, or when nothing is queued and nobody
/// is at work; else it takes a shard if there is one and its slot is open, and waits
/// if not.
pub proof fn law_workers_run_wait_or_go_home<T>(d: Run<T>, w: int, v: int)
    ensures
        d.fatal is Some ==> d.next(w) == Next::Exit,
        d.queue.len() == 0 && (forall|u: int|
            0 <= u < d.workers.len() ==> #[trigger] d.workers[u] is Idle) ==> d.next(w)
            == Next::Exit,
        d.fatal is None && d.queue.len() > 0 && w < d.target ==> d.next(w) == Next::Run,
        d.fatal is None && d.queue.len() > 0 && w >= d.target ==> d.next(w) == Next::Wait,
        d.fatal is None && d.queue.len() == 0 && 0 <= v < d.workers.len() && !(d.workers[v] is Idle)
            ==> d.next(w) == Next::Wait,
{
}

/// A worker takes the first shard of the queue, and nothing else changes.
pub proof fn law_workers_take_the_first_shard<T>(d: Run<T>, w: int, v: int)
    requires
        0 <= w < d.workers.len(),
        d.queue.len() > 0,
    ensures
        d.taken(w).workers[w] == SlotData::Busy(d.queue[0]),
        d.taken(w).queue == d.queue.skip(1),
        v != w ==> d.taken(w).workers[v] == d.workers[v] || !(0 <= v < d.workers.len()),
        d.taken(w).groups == d.groups,
        d.taken(w).target == d.target,
        d.taken(w).successes == d.successes,
        d.taken(w).fatal == d.fatal,
{
}

/// The rows of a shard that lands go to its group, behind those that are there; the
/// last shard of a group hands them all out at once. The count of the group is the
/// number of its rows, unless a shard of it was booked without rows: then it is the
/// number of its items.
pub proof fn law_rows_are_handed_out_with_the_last_shard<T>(
    g: GroupData<T>,
    rows: Seq<T>,
    salvaged: bool,
)
    requires
        g.items_total <= i64::MAX,
        (g.rows + rows).len() <= i64::MAX,
    ensures
        booked(g, rows, salvaged).shards_done == g.shards_done + 1,
        booked(g, rows, salvaged).shards_total == g.shards_total,
        booked(g, rows, salvaged).items_total == g.items_total,
        booked(g, rows, salvaged).node == g.node,
        booked(g, rows, salvaged).salvaged <==> g.salvaged || salvaged,
        g.shards_done + 1 < g.shards_total ==> last_rows(g, rows) is None && last_count(
            g,
            rows,
            salvaged,
        ) is None && booked(g, rows, salvaged).rows == g.rows + rows,
        g.shards_done + 1 == g.shards_total ==> last_rows(g, rows) == Some(g.rows + rows) && booked(
            g,
            rows,
            salvaged,
        ).rows.len() == 0,
        g.shards_done + 1 == g.shards_total && (g.salvaged || salvaged) ==> last_count(
            g,
            rows,
            salvaged,
        ) is Some && last_count(g, rows, salvaged)->0 == g.items_total,
        g.shards_done + 1 == g.shards_total && !g.salvaged && !salvaged ==> last_count(
            g,
            rows,
            salvaged,
        ) is Some && last_count(g, rows, salvaged)->0 == g.rows.len() + rows.len(),
{
}

/// Landing a shard books it with its group and leaves all other groups, the queue,
/// the slots and any error as they are.
pub proof fn law_landing_books_the_shard_with_its_group<T>(
    d: Run<T>,
    w: int,
    rows: Seq<T>,
    g: int,
)
    requires
        d.wf(),
        0 <= w < d.workers.len(),
        d.workers[w] is Busy,
    ensures
        0 <= g < d.groups.len() && g != d.shard(w).group ==> d.landed(w, rows).groups[g]
            == d.groups[g],
        d.landed(w, rows).groups[d.shard(w).group] == booked(
            d.groups[d.shard(w).group],
            rows,
            false,
        ),
        d.landed(w, rows).queue == d.queue,
        d.landed(w, rows).target == d.target,
        d.landed(w, rows).successes == d.successes,
        d.landed(w, rows).fatal == d.fatal,
        d.landed(w, rows).workers[w] is Closing,
        d.landed(w, rows).workers[w]->group == d.shard(w).group,
        !d.landed(w, rows).workers[w]->salvaged,
{
    assert(d.workers[w] == SlotData::Busy(d.shard(w)));
    assert(d.sound_shard(d.shard(w)));
}

/// Every fourth shard that lands in a row opens one more slot, as long as there are
/// closed ones; what was salvaged does not count.
pub proof fn law_every_fourth_success_opens_a_slot<T>(d: Run<T>, w: int)
    requires
        0 <= w < d.workers.len(),
        d.workers[w] is Closing,
        d.successes < usize::MAX,
    ensures
        d.settled(w).workers[w] is Idle,
        d.workers[w]->salvaged ==> d.settled(w).target == d.target && d.settled(w).successes
            == d.successes,
        !d.workers[w]->salvaged ==> d.settled(w).successes == d.successes + 1,
        !d.workers[w]->salvaged && (d.successes + 1) % 4 == 0 && d.target < d.workers.len()
            ==> d.settled(w).target == d.target + 1,
        !d.workers[w]->salvaged && ((d.successes + 1) % 4 != 0 || d.target >= d.workers.len())
            ==> d.settled(w).target == d.target,
        d.settled(w).queue == d.queue,
        d.settled(w).groups == d.groups,
        d.settled(w).fatal == d.fatal,
{
}

/// The first error of a run is kept, and ends it.
pub proof fn law_the_first_error_is_kept<T>(d: Run<T>, e: FailureData, w: int)
    ensures
        d.fatal is None ==> d.broken(e).fatal == Some(e),
        d.fatal is Some ==> d.broken(e).fatal == d.fatal,
        d.broken(e).next(w) == Next::Exit,
        d.broken(e).queue == d.queue,
        d.broken(e).groups == d.groups,
        d.broken(e).workers == d.workers,
{
}

/// What an abort comes to. Whatever the rung, the count of successes starts anew and
/// no other group changes. With nothing left the shard is booked without rows. With
/// less left, what is left is queued. With all left, the slots are halved and the
/// shard is queued as it is; at one slot its two halves are queued, one behind the
/// other; and one item alone ends the run with an error that names it.
pub proof fn law_aborts_walk_down_the_ladder<T>(
    d: Run<T>,
    w: int,
    left: Seq<Seq<char>>,
    error: FailureData,
    g: int,
)
    requires
        d.wf(),
        0 <= w < d.workers.len(),
        d.workers[w] is Busy,
        d.shard(w).items.len() <= usize::MAX,
        d.target <= usize::MAX,
    ensures
        ({
            let s = d.shard(w);
            let e = d.aborted(w, left, error);
            let n = d.queue.len() as int;
            &&& e.successes == 0
            &&& 0 <= g < d.groups.len() && g != s.group ==> e.groups[g] == d.groups[g]
            &&& forall|k: int| 0 <= k < n ==> #[trigger] e.queue[k] == d.queue[k]
            &&& left.len() == 0 ==> e.queue == d.queue && e.target == d.target && e.fatal == d.fatal
                && e.workers[w] is Closing && e.workers[w]->salvaged && e.groups[s.group] == booked(
                d.groups[s.group],
                Seq::<T>::empty(),
                true,
            )
            &&& 0 < left.len() < s.items.len() ==> e.queue.len() == n + 1 && e.queue[n].group
                == s.group && e.queue[n].items == left && e.target == d.target && e.groups
                == d.groups && e.workers[w] is Idle && e.fatal == d.fatal
            &&& left.len() >= s.items.len() && d.target > 1 ==> e.queue == d.queue.push(s)
                && e.target == d.target / 2 && e.groups == d.groups && e.workers[w] is Idle
                && e.fatal == d.fatal
            &&& left.len() >= s.items.len() && d.target <= 1 && s.items.len() > 1 ==> e.queue.len()
                == n + 2 && e.queue[n].group == s.group && e.queue[n + 1].group == s.group
                && e.queue[n].items + e.queue[n + 1].items == s.items && e.queue[n].items.len()
                == s.items.len() / 2 && e.target == d.target && e.groups[s.group].shards_total
                == d.groups[s.group].shards_total + 1 && e.groups[s.group].shards_done
                == d.groups[s.group].shards_done && e.groups[s.group].rows
                == d.groups[s.group].rows && e.workers[w] is Idle && e.fatal == d.fatal
            &&& left.len() >= s.items.len() && d.target <= 1 && s.items.len() == 1 ==> e.queue
                == d.queue && e.groups == d.groups && e.fatal is Some && (d.fatal is None
                ==> e.fatal->0.abort == error.abort && e.fatal->0.context.len()
                == error.context.len() + 1 && e.fatal->0.context.skip(1) == error.context
                && text::occurs(e.fatal->0.context[0], s.items[0]) && text::occurs(
                e.fatal->0.context[0],
                d.labels[s.group],
            ))
        }),
{
    let s = d.shard(w);
    assert(d.workers[w] == SlotData::Busy(s));
    assert(d.sound_shard(s));
    let e = d.aborted(w, left, error);
    if left.len() >= s.items.len() && d.target <= 1 {
        if s.items.len() > 1 {
            let at = (s.items.len() / 2) as int;
            assert(s.items.take(at) + s.items.skip(at) =~= s.items);
            let n = d.queue.len() as int;
            assert(e.queue[n].items == s.items.take(at));
            assert(e.queue[n + 1].items == s.items.skip(at));
        } else {
            let t = give_up_text(d.phase, d.labels[s.group], s.items[0]);
            law_giving_up_names_the_item(d.phase, d.labels[s.group], s.items[0]);
            let c = seq![t] + error.context;
            assert(c.skip(1) =~= error.context);
            assert(c[0] == t);
        }
    }
}

/// The error for an item that cannot be evaluated names the phase, the group and the
/// item.
pub proof fn law_giving_up_names_the_item(phase: Seq<char>, label: Seq<char>, item: Seq<char>)
    ensures
        text::begins(give_up_text(phase, label, item), phase),
        text::occurs(give_up_text(phase, label, item), label),
        text::occurs(give_up_text(phase, label, item), "`"@ + item + "`"@),
        text::occurs(give_up_text(phase, label, item), item),
{
    reveal_strlit(" could not evaluate `");
    reveal_strlit("` — it aborted alone, at one slot, with nothing left to split or salvage");
    reveal_strlit("`");
    let t = give_up_text(phase, label, item);
    let a = " could not evaluate `"@;
    let b = "` — it aborted alone, at one slot, with nothing left to split or salvage"@;
    assert(t =~= phase + (": "@ + label + a + item + b));
    text::law_prefixes_and_suffixes(t, phase, ": "@ + label + a + item + b);
    assert(t =~= (phase + ": "@) + label + (a + item + b));
    assert(t =~= (phase + ": "@ + label + a) + item + b);
    let n = a.len() - 1;
    assert(a =~= a.take(n) + "`"@);
    assert(b =~= "`"@ + b.skip(1));
    assert(t =~= (phase + ": "@ + label + a.take(n)) + ("`"@ + item + "`"@) + b.skip(1));
}

/// A note on an abort names the phase, the group and the cause, and the numbers of
/// its rung: what had landed and what is left, the slots before and after, or the
/// sizes of the two halves.
pub proof fn law_notes_name_cause_and_numbers(
    phase: Seq<char>,
    label: Seq<char>,
    cause: Seq<char>,
    left: nat,
    n: nat,
    r: Recovery,
)
    requires
        !(r is GiveUp),
    ensures
        text::begins(
            note_text(phase, label, cause, left, n, r),
            "  "@ + phase + ": "@ + label + " aborted ("@ + cause + ")"@,
        ),
        r is Done ==> text::occurs(
            note_text(phase, label, cause, left, n, r),
            "all "@ + text::decimal(n) + " had already landed"@,
        ),
        r is Retry ==> text::occurs(
            note_text(phase, label, cause, left, n, r),
            text::decimal((n - left) as nat) + " of "@ + text::decimal(n) + " had landed"@,
        ) && text::ends(
            note_text(phase, label, cause, left, n, r),
            "remaining "@ + text::decimal(left),
        ),
        match r {
            Recovery::Slots(from, to) => text::ends(
                note_text(phase, label, cause, left, n, r),
                "slots "@ + text::decimal(from as nat) + " -> "@ + text::decimal(to as nat),
            ),
            Recovery::Split(at) => text::ends(
                note_text(phase, label, cause, left, n, r),
                "splitting "@ + text::decimal(n) + " items into "@ + text::decimal(at as nat)
                    + " + "@ + text::decimal((n - at) as nat),
            ),
            _ => true,
        },
{
    let head = abort_text(phase, label, cause);
    match r {
        Recovery::Done => {
            lemma_done_note(head, n);
        },
        Recovery::Retry => {
            lemma_retry_note(head, left, n);
        },
        Recovery::Slots(from, to) => {
            lemma_slots_note(head, from, to);
        },
        Recovery::Split(at) => {
            lemma_split_note(head, n, at);
        },
        Recovery::GiveUp => {},
    }
}

#[verifier::spinoff_prover]
proof fn lemma_done_note(head: Seq<char>, n: nat)
    ensures
        ({
            let t = head + " — but all "@ + text::decimal(n)
                + " had already landed, so there is nothing left to redo"@;
            text::begins(t, head) && text::occurs(
                t,
                "all "@ + text::decimal(n) + " had already landed"@,
            )
        }),
{
    reveal_strlit(" — but all ");
    reveal_strlit("all ");
    reveal_strlit(" had already landed, so there is nothing left to redo");
    reveal_strlit(" had already landed");
    let a = " — but all "@;
    let b = " had already landed, so there is nothing left to redo"@;
    let d = text::decimal(n);
    let t = head + a + d + b;
    assert(a =~= a.take(7) + "all "@);
    assert(b =~= " had already landed"@ + b.skip(19));
    assert(t =~= head + (a + d + b));
    text::law_prefixes_and_suffixes(t, head, a + d + b);
    assert(t =~= (head + a.take(7)) + ("all "@ + d + " had already landed"@) + b.skip(19));
}

#[verifier::spinoff_prover]
proof fn lemma_retry_note(head: Seq<char>, left: nat, n: nat)
    ensures
        ({
            let t = head + "; "@ + text::decimal((n - left) as nat) + " of "@ + text::decimal(n)
                + " had landed, retrying the remaining "@ + text::decimal(left);
            text::begins(t, head) && text::occurs(
                t,
                text::decimal((n - left) as nat) + " of "@ + text::decimal(n) + " had landed"@,
            ) && text::ends(t, "remaining "@ + text::decimal(left))
        }),
{
    reveal_strlit(" had landed, retrying the remaining ");
    reveal_strlit(" had landed");
    reveal_strlit("remaining ");
    let c = " had landed, retrying the remaining "@;
    let x = text::decimal((n - left) as nat);
    let y = text::decimal(n);
    let z = text::decimal(left);
    let t = head + "; "@ + x + " of "@ + y + c + z;
    let done = x + " of "@ + y;
    assert(c =~= " had landed"@ + c.skip(11));
    assert(c =~= c.take(26) + "remaining "@);
    assert(t =~= head + ("; "@ + done + c + z));
    text::law_prefixes_and_suffixes(t, head, "; "@ + done + c + z);
    assert(t =~= (head + "; "@) + (done + " had landed"@) + (c.skip(11) + z));
    let last = "remaining "@ + z;
    assert(t =~= (head + "; "@ + done + c.take(26)) + last);
    text::law_prefixes_and_suffixes(t, last, head + "; "@ + done + c.take(26));
}

#[verifier::spinoff_prover]
proof fn lemma_slots_note(head: Seq<char>, from: usize, to: usize)
    ensures
        ({
            let t = head + "; requeued, slots "@ + text::decimal(from as nat) + " -> "@
                + text::decimal(to as nat);
            text::begins(t, head) && text::ends(
                t,
                "slots "@ + text::decimal(from as nat) + " -> "@ + text::decimal(to as nat),
            )
        }),
{
    reveal_strlit("; requeued, slots ");
    reveal_strlit("slots ");
    let a = "; requeued, slots "@;
    let x = text::decimal(from as nat);
    let y = text::decimal(to as nat);
    let t = head + a + x + " -> "@ + y;
    assert(a =~= a.take(12) + "slots "@);
    assert(t =~= head + (a + x + " -> "@ + y));
    text::law_prefixes_and_suffixes(t, head, a + x + " -> "@ + y);
    let last = "slots "@ + x + " -> "@ + y;
    assert(t =~= (head + a.take(12)) + last);
    text::law_prefixes_and_suffixes(t, last, head + a.take(12));
}

#[verifier::spinoff_prover]
proof fn lemma_split_note(head: Seq<char>, n: nat, at: usize)
    ensures
        ({
            let t = head + " at one slot; splitting "@ + text::decimal(n) + " items into "@
                + text::decimal(at as nat) + " + "@ + text::decimal((n - at) as nat);
            text::begins(t, head) && text::ends(
                t,
                "splitting "@ + text::decimal(n) + " items into "@ + text::decimal(at as nat)
                    + " + "@ + text::decimal((n - at) as nat),
            )
        }),
{
    reveal_strlit(" at one slot; splitting ");
    reveal_strlit("splitting ");
    let a = " at one slot; splitting "@;
    let b = text::decimal(n) + " items into "@ + text::decimal(at as nat) + " + "@
        + text::decimal((n - at) as nat);
    let t = head + " at one slot; splitting "@ + text::decimal(n) + " items into "@
        + text::decimal(at as nat) + " + "@ + text::decimal((n - at) as nat);
    assert(a =~= a.take(14) + "splitting "@);
    assert(t =~= head + (a + b));
    text::law_prefixes_and_suffixes(t, head, a + b);
    let last = "splitting "@ + text::decimal(n) + " items into "@ + text::decimal(at as nat)
        + " + "@ + text::decimal((n - at) as nat);
    assert(last =~= "splitting "@ + b);
    assert(t =~= (head + a.take(14)) + last);
    text::law_prefixes_and_suffixes(t, last, head + a.take(14));
}

/// The node of a group is told the number of its shards where it shows a percentage,
/// and the number of its items where that is the total; nothing else of it changes.
pub proof fn law_nodes_are_told_their_numbers(
    n: NodeData,
    items: nat,
    shards: nat,
    known_total: bool,
)
    requires
        items <= i64::MAX,
        shards <= i64::MAX,
        shards <= usize::MAX,
    ensures
        n.percent ==> primed_node(n, items, shards, known_total).shards_total == shards,
        !n.percent ==> primed_node(n, items, shards, known_total).shards_total == n.shards_total,
        known_total ==> primed_node(n, items, shards, known_total).total == items,
        !known_total ==> primed_node(n, items, shards, known_total).total == n.total,
        primed_node(n, items, shards, known_total).label == n.label,
        primed_node(n, items, shards, known_total).state == n.state,
        primed_node(n, items, shards, known_total).count == n.count,
{
}

/// When the evaluator of a worker aborts, one shard less runs; what was booked and
/// what was split shows in the numbers of its node, and nothing else.
pub proof fn law_nodes_show_aborts<T>(d: Run<T>, w: int, left: Seq<Seq<char>>, n: NodeData)
    requires
        n.percent,
        n.shards_running > i64::MIN,
        d.group(w).shards_total < i64::MAX,
        d.group(w).shards_done < i64::MAX,
        d.group(w).shards_total < usize::MAX,
        d.group(w).shards_done < usize::MAX,
    ensures
        d.node_after_abort(w, left, n).shards_running == n.shards_running - 1,
        d.node_after_abort(w, left, n).state == n.state,
        d.node_after_abort(w, left, n).count == n.count,
        left.len() == 0 ==> d.node_after_abort(w, left, n).shards_done == d.group(w).shards_done + 1
            && d.node_after_abort(w, left, n).shards_total == n.shards_total,
        left.len() > 0 ==> d.node_after_abort(w, left, n).shards_done == n.shards_done,
        left.len() >= d.shard(w).items.len() && left.len() > 0 && d.target <= 1 && d.shard(
            w,
        ).items.len() > 1 ==> d.node_after_abort(w, left, n).shards_total == d.group(w).shards_total
            + 1,
{
}

/// The queue of a run holds every shard of every group, and nothing else; the shards
/// of a group stand before those of a later one.
pub proof fn law_the_queue_holds_every_shard(
    items: Seq<Seq<Seq<char>>>,
    size: nat,
    n: int,
    g: int,
    k: int,
)
    requires
        0 <= n <= items.len(),
    ensures
        0 <= g < n && 0 <= k < chunked(items[g], size).len() ==> queued(items, size, n).contains(
            ShardData { group: g, items: chunked(items[g], size)[k] },
        ),
        forall|q: int|
            0 <= q < queued(items, size, n).len() ==> 0 <= (#[trigger] queued(items, size, n)[q]).group
                < n && chunked(items[queued(items, size, n)[q].group], size).contains(
                queued(items, size, n)[q].items,
            ),
        forall|p: int, q: int|
            0 <= p < q < queued(items, size, n).len() ==> (#[trigger] queued(
                items,
                size,
                n,
            )[p]).group <= (#[trigger] queued(items, size, n)[q]).group,
    decreases n,
{
    if n > 0 {
        law_the_queue_holds_every_shard(items, size, n - 1, g, k);
        let before = queued(items, size, n - 1);
        let own = shards_of(n - 1, items[n - 1], size);
        let all = queued(items, size, n);
        assert(all == before + own);
        if 0 <= g < n && 0 <= k < chunked(items[g], size).len() {
            let s = ShardData { group: g, items: chunked(items[g], size)[k] };
            if g == n - 1 {
                assert(own[k] == s);
                assert(all[before.len() + k] == s);
            } else {
                let m = choose|m: int| 0 <= m < before.len() && before[m] == s;
                assert(all[m] == s);
            }
        }
        assert forall|q: int| 0 <= q < all.len() implies 0 <= (#[trigger] all[q]).group < n
            && chunked(items[all[q].group], size).contains(all[q].items) by {
            if q < before.len() {
                assert(all[q] == before[q]);
            } else {
                let j = q - before.len();
                assert(all[q] == own[j]);
                assert(chunked(items[n - 1], size)[j] == own[j].items);
            }
        }
        assert forall|p: int, q: int| 0 <= p < q < all.len() implies (#[trigger] all[p]).group <= (
        #[trigger] all[q]).group by {
            if p < before.len() {
                assert(all[p] == before[p]);
            } else {
                assert(all[p] == own[p - before.len()]);
            }
            if q < before.len() {
                assert(all[q] == before[q]);
            } else {
                assert(all[q] == own[q - before.len()]);
            }
        }
    }
}

/// As a run begins, the node of each group is told its numbers, and no other node
/// changes.
pub proof fn law_every_group_primes_its_node(
    nodes: Seq<NodeData>,
    ids: Seq<usize>,
    items: Seq<Seq<Seq<char>>>,
    size: nat,
    known_total: bool,
    n: int,
    k: int,
)
    requires
        0 <= n <= ids.len(),
        forall|g: int| 0 <= g < ids.len() ==> (#[trigger] ids[g]) < nodes.len(),
        forall|g: int, h: int| 0 <= g < h < ids.len() ==> (#[trigger] ids[g]) != (#[trigger] ids[h]),
        0 <= k < nodes.len(),
    ensures
        primed(nodes, ids, items, size, known_total, n).len() == nodes.len(),
        forall|g: int|
            0 <= g < n ==> primed(nodes, ids, items, size, known_total, n)[(
            #[trigger] ids[g]) as int] == primed_node(
                nodes[ids[g] as int],
                items[g].len(),
                chunked(items[g], size).len(),
                known_total,
            ),
        (forall|g: int| 0 <= g < n ==> (#[trigger] ids[g]) != k) ==> primed(
            nodes,
            ids,
            items,
            size,
            known_total,
            n,
        )[k] == nodes[k],
    decreases n,
{
    if n > 0 {
        law_every_group_primes_its_node(nodes, ids, items, size, known_total, n - 1, k);
        law_every_group_primes_its_node(
            nodes,
            ids,
            items,
            size,
            known_total,
            n - 1,
            ids[n - 1] as int,
        );
        assert forall|g: int| 0 <= g < n - 1 implies (#[trigger] ids[g]) != ids[n - 1] by {}
    }
}

/// Where one node changes, nothing else of the tree does.
pub proof fn law_a_step_changes_one_node(
    before: Tree,
    after: Tree,
    id: int,
    n: NodeData,
    k: int,
)
    requires
        one_node(before, after, id, n),
        0 <= id < before.nodes().len(),
    ensures
        after.nodes().len() == before.nodes().len(),
        after.nodes()[id] == n,
        0 <= k < before.nodes().len() && k != id ==> after.nodes()[k] == before.nodes()[k],
        after.order() == before.order(),
{
}

/// What is said of a shard and of a failure is what their fields hold.
pub proof fn law_shards_say_what_their_fields_hold(s: Shard, f: Failure, i: int)
    ensures
        s@.group == s.group,
        s@.items.len() == s.items@.len(),
        0 <= i < s.items@.len() ==> s@.items[i] == s.items@[i]@,
        f@.context.len() == f.context@.len(),
        0 <= i < f.context@.len() ==> f@.context[i] == f.context@[i]@,
        f@.abort is Some <==> f.abort is Some,
        f.abort is Some ==> f@.abort->0.status == f.abort->0.status@ && f@.abort->0.streamed
            == f.abort->0.streamed && f@.abort->0.stderr_tail == f.abort->0.stderr_tail@,
{
}

/// The texts of lists are theirs, one for one and in their order.
pub proof fn law_lists_keep_their_texts(v: Seq<Vec<String>>, i: int, j: int)
    ensures
        texts_of_all(v).len() == v.len(),
        0 <= i < v.len() ==> texts_of_all(v)[i].len() == v[i]@.len(),
        0 <= i < v.len() && 0 <= j < v[i]@.len() ==> texts_of_all(v)[i][j] == v[i]@[j]@,
{
}

} // verus!
