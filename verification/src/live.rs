//! The progress tree and the block of lines that shows it.
//!
//! Every piece of slow work is a node of one append-only tree, from the moment
//! it is known to be needed. A frame of the tree is a list of lines; the block
//! is redrawn in place, each line cut to the terminal's width so that it takes
//! exactly one row and moving the cursor up by the number of lines always
//! lands on the block's top.

use vstd::prelude::*;
use vstd::string::*;

use crate::text;

verus! {

pub const BLUE: &'static str = "\x1b[34m";

pub const YELLOW: &'static str = "\x1b[33m";

pub const GREEN: &'static str = "\x1b[32m";

pub const CYAN: &'static str = "\x1b[36m";

pub const DIM: &'static str = "\x1b[90m";

pub const RESET: &'static str = "\x1b[0m";

/// The width of each number column.
pub const NUM_W: usize = 6;

// --- nodes -------------------------------------------------------------------

/// How far a node's work is.
#[derive(Debug, Clone, Copy, PartialEq, Eq, Structural)]
pub enum State {
    Wait,
    Run,
    Done,
}

/// A node of the progress tree.
///
/// A `counter` shows a count. A `percent` node shows a percentage of its
/// shards besides, any other counter its total where that is known.
#[derive(Debug, PartialEq, Eq)]
pub struct Node {
    label: String,
    depth: usize,
    counter: bool,
    percent: bool,
    sort_key: i64,
    state: State,
    count: i64,
    total: i64,
    shards_done: i64,
    shards_running: i64,
    shards_total: i64,
    emitted: bool,
}

/// A node as plain data.
#[verifier::ext_equal]
pub struct NodeData {
    pub label: Seq<char>,
    /// How deep the node is nested.
    pub depth: nat,
    /// Whether the node has a count.
    pub counter: bool,
    /// Whether the node shows a percentage of its shards.
    pub percent: bool,
    /// The node's rank among the children of its phase.
    pub sort_key: i64,
    pub state: State,
    /// Items seen so far.
    pub count: i64,
    /// The number of items, or negative where it is unknown.
    pub total: i64,
    pub shards_done: i64,
    pub shards_running: i64,
    pub shards_total: i64,
    /// Whether the node's line is in the append-only log already.
    pub emitted: bool,
}

/// A node as it is made: waiting, with nothing counted.
pub open spec fn fresh(
    label: Seq<char>,
    depth: nat,
    counter: bool,
    percent: bool,
    total: i64,
    sort_key: i64,
) -> NodeData {
    NodeData {
        label,
        depth,
        counter,
        percent,
        sort_key,
        state: State::Wait,
        count: 0,
        total,
        shards_done: 0,
        shards_running: 0,
        shards_total: 0,
        emitted: false,
    }
}

impl NodeData {
    /// A waiting node started; any other as it is.
    pub open spec fn running(self) -> NodeData {
        NodeData {
            state: if self.state == State::Wait {
                State::Run
            } else {
                self.state
            },
            ..self
        }
    }

    /// The node done.
    pub open spec fn done(self) -> NodeData {
        NodeData { state: State::Done, ..self }
    }

    /// The node with `n` more counted, wrapping around, where it counts.
    pub open spec fn streamed(self, n: i64) -> NodeData {
        NodeData {
            count: if self.counter {
                self.count.wrapping_add(n)
            } else {
                self.count
            },
            ..self
        }
    }

    /// A percent node with so many shards.
    pub open spec fn sharded(self, total: usize) -> NodeData {
        NodeData {
            shards_total: if self.percent {
                total as i64
            } else {
                self.shards_total
            },
            ..self
        }
    }

    /// A percent node with one more shard running.
    pub open spec fn shard_begun(self) -> NodeData {
        NodeData {
            shards_running: if self.percent {
                self.shards_running.wrapping_add(1)
            } else {
                self.shards_running
            },
            ..self
        }
    }

    /// A percent node with one shard less running.
    pub open spec fn shard_ended(self) -> NodeData {
        NodeData {
            shards_running: if self.percent {
                self.shards_running.wrapping_sub(1)
            } else {
                self.shards_running
            },
            ..self
        }
    }

    /// A percent node of which `done` shards have landed.
    pub open spec fn progressed(self, done: usize) -> NodeData {
        NodeData {
            shards_done: if self.percent {
                done as i64
            } else {
                self.shards_done
            },
            ..self
        }
    }

    /// The node done, its count pinned to `rows` where it counts.
    pub open spec fn pinned(self, rows: i64) -> NodeData {
        NodeData {
            count: if self.counter {
                rows
            } else {
                self.count
            },
            state: State::Done,
            ..self
        }
    }
}

impl Node {
    /// The node as plain data.
    pub closed spec fn view(self) -> NodeData {
        NodeData {
            label: self.label@,
            depth: self.depth as nat,
            counter: self.counter,
            percent: self.percent,
            sort_key: self.sort_key,
            state: self.state,
            count: self.count,
            total: self.total,
            shards_done: self.shards_done,
            shards_running: self.shards_running,
            shards_total: self.shards_total,
            emitted: self.emitted,
        }
    }

    fn new(
        label: String,
        depth: usize,
        counter: bool,
        percent: bool,
        total: i64,
        sort_key: i64,
    ) -> (r: Node)
        ensures
            r@ == fresh(label@, depth as nat, counter, percent, total, sort_key),
    {
        Node {
            label,
            depth,
            counter,
            percent,
            sort_key,
            state: State::Wait,
            count: 0,
            total,
            shards_done: 0,
            shards_running: 0,
            shards_total: 0,
            emitted: false,
        }
    }

    /// Starts a waiting node; one that runs or is done stays as it is.
    pub fn set_running(&mut self)
        ensures
            final(self)@ == old(self)@.running(),
    {
        if self.state == State::Wait {
            self.state = State::Run;
        }
    }

    /// Marks the node done.
    pub fn set_done(&mut self)
        ensures
            final(self)@ == old(self)@.done(),
    {
        self.state = State::Done;
    }

    /// Adds `n` to the count, wrapping around.
    pub fn add_count(&mut self, n: i64)
        ensures
            final(self)@ == (NodeData { count: old(self)@.count.wrapping_add(n), ..old(self)@ }),
    {
        self.count = self.count.wrapping_add(n);
    }

    /// Sets the number of items.
    pub fn set_total(&mut self, n: i64)
        ensures
            final(self)@ == (NodeData { total: n, ..old(self)@ }),
    {
        self.total = n;
    }

    /// `n` items surfaced: they are counted where the node counts.
    pub fn stream(&mut self, n: i64)
        ensures
            final(self)@ == old(self)@.streamed(n),
    {
        if self.counter {
            self.count = self.count.wrapping_add(n);
        }
    }

    /// Sets the number of shards of a percent node.
    pub fn set_shards_total(&mut self, total: usize)
        ensures
            final(self)@ == old(self)@.sharded(total),
    {
        if self.percent {
            self.shards_total = total as i64;
        }
    }

    /// A shard of this percent node started.
    pub fn shard_started(&mut self)
        ensures
            final(self)@ == old(self)@.shard_begun(),
    {
        if self.percent {
            self.shards_running = self.shards_running.wrapping_add(1);
        }
    }

    /// A shard of this percent node stopped, whether it landed or not.
    pub fn shard_finished(&mut self)
        ensures
            final(self)@ == old(self)@.shard_ended(),
    {
        if self.percent {
            self.shards_running = self.shards_running.wrapping_sub(1);
        }
    }

    /// `done` shards of this percent node have landed.
    pub fn shard_progress(&mut self, done: usize)
        ensures
            final(self)@ == old(self)@.progressed(done),
    {
        if self.percent {
            self.shards_done = done as i64;
        }
    }

    /// The last shard landed: the count is pinned to `rows`, and the node is
    /// done.
    pub fn group_done(&mut self, rows: i64)
        ensures
            final(self)@ == old(self)@.pinned(rows),
    {
        if self.counter {
            self.count = rows;
        }
        self.state = State::Done;
    }
}

/// A node that is done is not reopened by starting it, so that shards of one
/// group may race to start their node.
pub proof fn law_starting_never_reopens(n: NodeData)
    requires
        n.state != State::Wait,
    ensures
        n.running() == n,
{
}

// --- the clock ---------------------------------------------------------------

/// A number of seconds or minutes with two digits at least.
pub open spec fn two_digits(n: nat) -> Seq<char> {
    if n < 10 {
        seq!['0'] + text::decimal(n)
    } else {
        text::decimal(n)
    }
}

/// Elapsed seconds as `51s`, `1m29s` or `1h00m00s`, with spaces before it up
/// to eight characters.
pub open spec fn clock(secs: nat) -> Seq<char> {
    let h = secs / 3600;
    let m = secs / 60 % 60;
    let s = secs % 60;
    let c = if h > 0 {
        text::decimal(h) + seq!['h'] + two_digits(m) + seq!['m'] + two_digits(s) + seq!['s']
    } else if m > 0 {
        text::decimal(m) + seq!['m'] + two_digits(s) + seq!['s']
    } else {
        text::decimal(s) + seq!['s']
    };
    text::right_aligned(c, 8)
}

fn push_two_digits(s: &mut String, n: u64)
    ensures
        final(s)@ == old(s)@ + two_digits(n as nat),
{
    if n < 10 {
        s.push('0');
    }
    let d = text::decimal_u64(n);
    s.append(d.as_str());
    assert(s@ =~= old(s)@ + two_digits(n as nat));
}

/// The clock for `secs` elapsed seconds.
pub fn human_elapsed(secs: u64) -> (r: String)
    ensures
        r@ == clock(secs as nat),
{
    let h: u64 = secs / 3600;
    let m: u64 = secs / 60 % 60;
    let s: u64 = secs % 60;
    let c = if h > 0 {
        let mut c = text::decimal_u64(h);
        c.push('h');
        push_two_digits(&mut c, m);
        c.push('m');
        push_two_digits(&mut c, s);
        c.push('s');
        assert(c@ =~= text::decimal(h as nat) + seq!['h'] + two_digits(m as nat) + seq!['m']
            + two_digits(s as nat) + seq!['s']);
        c
    } else if m > 0 {
        let mut c = text::decimal_u64(m);
        c.push('m');
        push_two_digits(&mut c, s);
        c.push('s');
        assert(c@ =~= text::decimal(m as nat) + seq!['m'] + two_digits(s as nat) + seq!['s']);
        c
    } else {
        let mut c = text::decimal_u64(s);
        c.push('s');
        assert(c@ =~= text::decimal(s as nat) + seq!['s']);
        c
    };
    text::align_right(c.as_str(), 8)
}

/// Every clock under ten hours is eight characters wide, so that what follows
/// it does not shift.
pub proof fn law_clock_is_fixed_width(secs: nat)
    requires
        secs < 36000,
    ensures
        clock(secs).len() == 8,
{
    reveal_with_fuel(text::decimal, 3);
    let h = secs / 3600;
    let m = secs / 60 % 60;
    let s = secs % 60;
    assert(h < 10);
    assert(m < 60 && s < 60);
    assert(text::decimal(h).len() == 1);
    assert(two_digits(m).len() == 2);
    assert(two_digits(s).len() == 2);
    assert(text::decimal(m).len() <= 2);
    assert(text::decimal(s).len() <= 2);
}

// --- one line of the tree ----------------------------------------------------

/// The color of a state: blue waits, yellow runs, green is done.
pub open spec fn color_of(state: State) -> Seq<char> {
    match state {
        State::Run => YELLOW@,
        State::Done => GREEN@,
        State::Wait => BLUE@,
    }
}

fn state_color(state: State) -> (r: &'static str)
    ensures
        r@ == color_of(state),
{
    match state {
        State::Run => YELLOW,
        State::Done => GREEN,
        State::Wait => BLUE,
    }
}

/// The percentage of a node's shards that landed, each running one counted as
/// half.
pub open spec fn percentage(n: NodeData) -> nat {
    let done = (2 * n.shards_done + n.shards_running) * 100;
    let whole = if n.shards_total < 1 {
        1
    } else {
        2 * n.shards_total
    };
    if done < 0 {
        0
    } else if done / whole > 100 {
        100
    } else {
        (done / whole) as nat
    }
}

fn percent_of(n: &Node) -> (r: u64)
    ensures
        r == percentage(n@),
{
    let done: i128 = (2 * (n.shards_done as i128) + n.shards_running as i128) * 100;
    let whole: u128 = if n.shards_total < 1 {
        1
    } else {
        2 * (n.shards_total as u128)
    };
    if done < 0 {
        0
    } else {
        let p: u128 = (done as u128) / whole;
        if p > 100 {
            100
        } else {
            p as u64
        }
    }
}

/// The label behind its indentation of two spaces a level.
pub open spec fn indented(n: NodeData) -> Seq<char> {
    text::copies(' ', 2 * n.depth) + n.label
}

/// What stands to the right of a count: the percentage, the total, or nothing.
pub open spec fn right_column(n: NodeData) -> Seq<char> {
    if n.percent {
        "   "@ + text::right_aligned(text::decimal(percentage(n)), NUM_W as nat) + seq!['%']
    } else if n.total >= 0 {
        " / "@ + text::right_aligned(text::signed_decimal(n.total as int), NUM_W as nat)
    } else {
        Seq::empty()
    }
}

/// `s` in a color, or plain.
pub open spec fn tinted(s: Seq<char>, code: Seq<char>, color: bool) -> Seq<char> {
    if color {
        code + s + RESET@
    } else {
        s
    }
}

/// The line of a node in the state `eff`, its numbers behind the column
/// `left_w`.
pub open spec fn row_text(n: NodeData, eff: State, left_w: nat, color: bool) -> Seq<char> {
    if !n.counter {
        tinted(indented(n), color_of(eff), color)
    } else {
        tinted(text::left_aligned(indented(n), left_w), color_of(eff), color) + "  "@
            + text::right_aligned(text::signed_decimal(n.count as int), NUM_W as nat) + (
        if right_column(n).len() == 0 {
            Seq::empty()
        } else {
            tinted(right_column(n), DIM@, color)
        })
    }
}

fn tint(s: String, code: &str, color: bool) -> (r: String)
    ensures
        r@ == tinted(s@, code@, color),
{
    if color {
        let mut r = code.to_owned();
        r.append(s.as_str());
        r.append(RESET);
        r
    } else {
        s
    }
}

fn right_of(n: &Node) -> (r: String)
    ensures
        r@ == right_column(n@),
{
    if n.percent {
        let mut r = "   ".to_owned();
        let p = text::decimal_u64(percent_of(n));
        let p = text::align_right(p.as_str(), NUM_W);
        r.append(p.as_str());
        r.push('%');
        assert(r@ =~= right_column(n@));
        r
    } else if n.total >= 0 {
        let mut r = " / ".to_owned();
        let t = text::decimal_i64(n.total);
        let t = text::align_right(t.as_str(), NUM_W);
        r.append(t.as_str());
        r
    } else {
        String::new()
    }
}

fn indent_label(n: &Node) -> (r: String)
    ensures
        r@ == indented(n@),
{
    let mut r = text::repeat(' ', 2 * (n.depth as u128));
    r.append(n.label.as_str());
    r
}

/// The line of a node that shows the state `eff`, its numbers behind the column
/// `left_w`.
pub fn render_row(n: &Node, eff: State, left_w: u128, color: bool) -> (r: String)
    ensures
        r@ == row_text(n@, eff, left_w as nat, color),
{
    let left = indent_label(n);
    if !n.counter {
        return tint(left, state_color(eff), color);
    }
    let left = text::align_left(left.as_str(), left_w);
    let mut r = tint(left, state_color(eff), color);
    r.append("  ");
    let c = text::decimal_i64(n.count);
    let c = text::align_right(c.as_str(), NUM_W);
    r.append(c.as_str());
    let right = right_of(n);
    if right.unicode_len() > 0 {
        let right = tint(right, DIM, color);
        r.append(right.as_str());
    }
    assert(r@ =~= row_text(n@, eff, left_w as nat, color));
    r
}

/// Without colors a line holds no escape character that its label does not.
pub proof fn law_plain_rows_hold_no_escapes(n: NodeData, eff: State, left_w: nat)
    requires
        text::lacks(n.label, '\x1b'),
    ensures
        text::lacks(row_text(n, eff, left_w, false), '\x1b'),
{
    text::lemma_decimal_digits(percentage(n));
    text::lemma_decimal_digits(n.total as nat);
    text::lemma_decimal_digits(n.count as nat);
    text::lemma_decimal_digits((-n.count) as nat);
    reveal_strlit("   ");
    reveal_strlit(" / ");
    reveal_strlit("  ");
}

/// How long the code at the beginning of a text is: up to the first `m`, or to
/// the end.
pub open spec fn code_len(s: Seq<char>) -> nat
    decreases s.len(),
{
    if s.len() == 0 {
        0
    } else if s[0] == 'm' {
        1
    } else {
        1 + code_len(s.skip(1))
    }
}

/// A code takes one character at least, and no more than there are.
pub proof fn lemma_code_len_bounds(s: Seq<char>)
    ensures
        code_len(s) <= s.len(),
        s.len() > 0 ==> code_len(s) > 0,
    decreases s.len(),
{
    if s.len() > 0 {
        lemma_code_len_bounds(s.skip(1));
    }
}

/// What is seen of a text on a terminal: all of it but the codes, each of which
/// goes from an escape character and a bracket to the next `m`.
pub open spec fn visible(s: Seq<char>) -> Seq<char>
    decreases s.len(),
{
    if s.len() == 0 {
        Seq::empty()
    } else if s[0] == '\x1b' && s.len() > 1 && s[1] == '[' {
        proof {
            lemma_code_len_bounds(s);
        }
        visible(s.skip(code_len(s) as int))
    } else {
        seq![s[0]] + visible(s.skip(1))
    }
}

proof fn lemma_visible_plain(a: Seq<char>, b: Seq<char>)
    requires
        text::lacks(a, '\x1b'),
    ensures
        visible(a + b) == a + visible(b),
    decreases a.len(),
{
    if a.len() == 0 {
        assert(a + b =~= b);
    } else {
        lemma_visible_plain(a.skip(1), b);
        assert((a + b).skip(1) =~= a.skip(1) + b);
        assert(seq![a[0]] + (a.skip(1) + visible(b)) =~= a + visible(b));
    }
}

proof fn lemma_code_len(code: Seq<char>, b: Seq<char>)
    requires
        code.len() > 0,
        code.last() == 'm',
        forall|i: int| 0 <= i < code.len() - 1 ==> #[trigger] code[i] != 'm',
    ensures
        code_len(code + b) == code.len(),
    decreases code.len(),
{
    if code.len() > 1 {
        assert((code + b).skip(1) =~= code.skip(1) + b);
        lemma_code_len(code.skip(1), b);
    }
}

/// Whether a text is one code that sets a color.
pub open spec fn color_code(code: Seq<char>) -> bool {
    &&& code.len() > 2
    &&& code[0] == '\x1b'
    &&& code[1] == '['
    &&& code.last() == 'm'
    &&& forall|i: int| 0 <= i < code.len() - 1 ==> #[trigger] code[i] != 'm'
}

proof fn lemma_visible_code(code: Seq<char>, b: Seq<char>)
    requires
        color_code(code),
    ensures
        visible(code + b) == visible(b),
{
    lemma_code_len(code, b);
    assert((code + b).skip(code.len() as int) =~= b);
}

proof fn lemma_color_codes()
    ensures
        color_code(BLUE@),
        color_code(YELLOW@),
        color_code(GREEN@),
        color_code(CYAN@),
        color_code(DIM@),
        color_code(RESET@),
{
    reveal_strlit("\x1b[34m");
    reveal_strlit("\x1b[33m");
    reveal_strlit("\x1b[32m");
    reveal_strlit("\x1b[36m");
    reveal_strlit("\x1b[90m");
    reveal_strlit("\x1b[0m");
}

proof fn lemma_visible_tinted(s: Seq<char>, code: Seq<char>, color: bool, b: Seq<char>)
    requires
        text::lacks(s, '\x1b'),
        color_code(code),
    ensures
        visible(tinted(s, code, color) + b) == s + visible(b),
{
    lemma_color_codes();
    if color {
        lemma_visible_code(code, s + (RESET@ + b));
        lemma_visible_plain(s, RESET@ + b);
        lemma_visible_code(RESET@, b);
        assert(tinted(s, code, color) + b =~= code + (s + (RESET@ + b)));
    } else {
        lemma_visible_plain(s, b);
    }
}

/// Colors change no character that is seen and no column: the plain line holds no
/// escape character, and a line in colors, its codes left out, is the plain line,
/// whatever the states. So the state shows as a color only.
pub proof fn law_colors_change_nothing_seen(n: NodeData, eff: State, other: State, left_w: nat)
    requires
        text::lacks(n.label, '\x1b'),
    ensures
        text::lacks(row_text(n, other, left_w, false), '\x1b'),
        visible(row_text(n, eff, left_w, true)) == row_text(n, other, left_w, false),
        visible(row_text(n, eff, left_w, false)) == row_text(n, other, left_w, false),
{
    law_plain_rows_hold_no_escapes(n, eff, left_w);
    lemma_color_codes();
    let plain = row_text(n, eff, left_w, false);
    let nothing = Seq::<char>::empty();
    assert(visible(nothing) == nothing);
    lemma_visible_plain(plain, nothing);
    assert(plain + nothing =~= plain);
    assert(row_text(n, other, left_w, false) =~= plain);
    if !n.counter {
        lemma_visible_tinted(indented(n), color_of(eff), true, nothing);
        assert(tinted(indented(n), color_of(eff), true) + nothing =~= row_text(
            n,
            eff,
            left_w,
            true,
        ));
    } else {
        let left = text::left_aligned(indented(n), left_w);
        let count = "  "@ + text::right_aligned(
            text::signed_decimal(n.count as int),
            NUM_W as nat,
        );
        let right = right_column(n);
        assert(plain =~= left + count + right);
        assert(text::lacks(left, '\x1b')) by {
            assert forall|i: int| 0 <= i < left.len() implies #[trigger] left[i] != '\x1b' by {
                assert(plain[i] == left[i]);
            }
        }
        assert(text::lacks(count, '\x1b')) by {
            assert forall|i: int| 0 <= i < count.len() implies #[trigger] count[i] != '\x1b' by {
                assert(plain[left.len() + i] == count[i]);
            }
        }
        assert(text::lacks(right, '\x1b')) by {
            assert forall|i: int| 0 <= i < right.len() implies #[trigger] right[i] != '\x1b' by {
                assert(plain[left.len() + count.len() + i] == right[i]);
            }
        }
        let end = if right.len() == 0 {
            nothing
        } else {
            tinted(right, DIM@, true)
        };
        lemma_visible_tinted(right, DIM@, true, nothing);
        assert(tinted(right, DIM@, true) + nothing =~= tinted(right, DIM@, true));
        assert(visible(end) =~= right);
        lemma_visible_plain(count, end);
        lemma_visible_tinted(left, color_of(eff), true, count + end);
        assert(row_text(n, eff, left_w, true) =~= tinted(left, color_of(eff), true) + (count
            + end));
        assert(left + (count + right) =~= plain);
    }
}

// --- rolling states up -------------------------------------------------------

/// Whether the row `k` is below the row `i`: after it, with only deeper rows
/// from there up to `k`.
pub open spec fn below(rows: Seq<NodeData>, i: int, k: int) -> bool {
    &&& 0 <= i < k < rows.len()
    &&& forall|m: int| i < m <= k ==> (#[trigger] rows[m]).depth > rows[i].depth
}

/// Whether no deeper row follows the row `k`.
pub open spec fn leaf(rows: Seq<NodeData>, k: int) -> bool {
    k + 1 >= rows.len() || rows[k + 1].depth <= rows[k].depth
}

/// Whether the row `k` is a leaf below the row `i`.
pub open spec fn leaf_below(rows: Seq<NodeData>, i: int, k: int) -> bool {
    below(rows, i, k) && leaf(rows, k)
}

/// Whether a leaf below the row `i` is in the state.
pub open spec fn some_leaf(rows: Seq<NodeData>, i: int, state: State) -> bool {
    exists|k: int| #[trigger] leaf_below(rows, i, k) && rows[k].state == state
}

/// The state a row shows: its own, where nothing is below it; else running
/// while a leaf below runs or only some are done, done when all are, and
/// waiting while none has begun.
pub open spec fn rolled(rows: Seq<NodeData>, i: int) -> State {
    if !some_leaf(rows, i, State::Wait) && !some_leaf(rows, i, State::Run) && !some_leaf(
        rows,
        i,
        State::Done,
    ) {
        rows[i].state
    } else if some_leaf(rows, i, State::Run) {
        State::Run
    } else if !some_leaf(rows, i, State::Wait) {
        State::Done
    } else if some_leaf(rows, i, State::Done) {
        State::Run
    } else {
        State::Wait
    }
}

/// A parent is done exactly when every leaf below it is.
pub proof fn law_parent_done_iff_all_leaves_are(rows: Seq<NodeData>, i: int, k: int)
    requires
        leaf_below(rows, i, k),
    ensures
        rolled(rows, i) == State::Done <==> forall|j: int| #[trigger]
            leaf_below(rows, i, j) ==> rows[j].state == State::Done,
        rolled(rows, i) == State::Wait <==> forall|j: int| #[trigger]
            leaf_below(rows, i, j) ==> rows[j].state == State::Wait,
{
    if rolled(rows, i) == State::Done {
        assert forall|j: int| #[trigger] leaf_below(rows, i, j) implies rows[j].state
            == State::Done by {
            if rows[j].state == State::Run {
                assert(some_leaf(rows, i, State::Run));
            } else if rows[j].state == State::Wait {
                assert(some_leaf(rows, i, State::Wait));
            }
        }
    }
    if rolled(rows, i) == State::Wait {
        assert forall|j: int| #[trigger] leaf_below(rows, i, j) implies rows[j].state
            == State::Wait by {
            if rows[j].state == State::Run {
                assert(some_leaf(rows, i, State::Run));
            } else if rows[j].state == State::Done {
                assert(some_leaf(rows, i, State::Done));
            }
        }
    }
    if rows[k].state == State::Wait {
        assert(some_leaf(rows, i, State::Wait));
    } else if rows[k].state == State::Run {
        assert(some_leaf(rows, i, State::Run));
    } else {
        assert(some_leaf(rows, i, State::Done));
    }
}

/// The widest indented label, and no less than `least`.
pub open spec fn label_width(rows: Seq<NodeData>, least: nat) -> nat
    decreases rows.len(),
{
    if rows.len() == 0 {
        least
    } else {
        let w = label_width(rows.drop_last(), least);
        let own = 2 * rows.last().depth + rows.last().label.len();
        if own > w {
            own
        } else {
            w
        }
    }
}

/// The lines of the rows, each in the state it shows.
pub open spec fn row_lines(rows: Seq<NodeData>, least: nat, color: bool) -> Seq<Seq<char>> {
    Seq::new(
        rows.len(),
        |i: int| row_text(rows[i], rolled(rows, i), label_width(rows, least), color),
    )
}

/// The spinner's character at a tick.
pub open spec fn spinner_mark(t: nat) -> char {
    let k = t % 10;
    if k == 0 {
        '\u{280b}'
    } else if k == 1 {
        '\u{2819}'
    } else if k == 2 {
        '\u{2839}'
    } else if k == 3 {
        '\u{2838}'
    } else if k == 4 {
        '\u{283c}'
    } else if k == 5 {
        '\u{2834}'
    } else if k == 6 {
        '\u{2826}'
    } else if k == 7 {
        '\u{2827}'
    } else if k == 8 {
        '\u{2807}'
    } else {
        '\u{280f}'
    }
}

fn spinner(t: usize) -> (r: char)
    ensures
        r == spinner_mark(t as nat),
{
    let k: usize = t % 10;
    if k == 0 {
        '\u{280b}'
    } else if k == 1 {
        '\u{2819}'
    } else if k == 2 {
        '\u{2839}'
    } else if k == 3 {
        '\u{2838}'
    } else if k == 4 {
        '\u{283c}'
    } else if k == 5 {
        '\u{2834}'
    } else if k == 6 {
        '\u{2826}'
    } else if k == 7 {
        '\u{2827}'
    } else if k == 8 {
        '\u{2807}'
    } else {
        '\u{280f}'
    }
}

/// The last line of a frame: a mark and the clock.
pub open spec fn footer(mark: char, color: bool, secs: nat) -> Seq<char> {
    tinted(seq![mark], CYAN@, color) + seq![' '] + clock(secs)
}

fn footer_line(mark: char, color: bool, secs: u64) -> (r: String)
    ensures
        r@ == footer(mark, color, secs as nat),
{
    let mut m = String::new();
    m.push(mark);
    assert(m@ =~= seq![mark]);
    let mut r = tint(m, CYAN, color);
    r.push(' ');
    let c = human_elapsed(secs);
    r.append(c.as_str());
    assert(r@ =~= footer(mark, color, secs as nat));
    r
}

// --- the append-only log -----------------------------------------------------

/// The nearest row at each depth shallower than `levels`, among the rows
/// before `end`, from the top down.
pub open spec fn climb(rows: Seq<NodeData>, end: int, levels: int) -> Seq<int>
    decreases end,
{
    if end <= 0 || levels <= 0 {
        Seq::empty()
    } else if rows[end - 1].depth == levels - 1 {
        climb(rows, end - 1, levels - 1).push(end - 1)
    } else {
        climb(rows, end - 1, levels)
    }
}

/// The ancestors of the row `i` from the top down, and the row itself.
pub open spec fn lineage(rows: Seq<NodeData>, i: int) -> Seq<int> {
    climb(rows, i, rows[i].depth as int).push(i)
}

/// Logs the rows of `path` that are not logged yet: the flags after it, by
/// node, and the lines that were added. `ids` gives the node of each row.
pub open spec fn log_path<L>(
    path: Seq<int>,
    ids: Seq<int>,
    flags: Seq<bool>,
    lines: Seq<L>,
) -> (Seq<bool>, Seq<L>)
    decreases path.len(),
{
    if path.len() == 0 {
        (flags, Seq::empty())
    } else {
        let (f, out) = log_path(path.drop_last(), ids, flags, lines);
        let a = path.last();
        if f[ids[a]] {
            (f, out)
        } else {
            (f.update(ids[a], true), out.push(lines[a]))
        }
    }
}

/// Logs the lineage of every leaf among the first `n` rows that is done.
pub open spec fn log_upto<L>(
    rows: Seq<NodeData>,
    ids: Seq<int>,
    flags: Seq<bool>,
    lines: Seq<L>,
    n: int,
) -> (Seq<bool>, Seq<L>)
    decreases n,
{
    if n <= 0 {
        (flags, Seq::empty())
    } else {
        let (f, out) = log_upto(rows, ids, flags, lines, n - 1);
        if leaf(rows, n - 1) && rows[n - 1].state == State::Done {
            let (g, more) = log_path(lineage(rows, n - 1), ids, f, lines);
            (g, out + more)
        } else {
            (f, out)
        }
    }
}

/// How many flags are set.
pub open spec fn set_flags(flags: Seq<bool>) -> nat
    decreases flags.len(),
{
    if flags.len() == 0 {
        0
    } else {
        set_flags(flags.drop_last()) + if flags.last() {
            1nat
        } else {
            0
        }
    }
}

proof fn lemma_set_one_flag(flags: Seq<bool>, i: int)
    requires
        0 <= i < flags.len(),
        !flags[i],
    ensures
        set_flags(flags.update(i, true)) == set_flags(flags) + 1,
    decreases flags.len(),
{
    let after = flags.update(i, true);
    if i == flags.len() - 1 {
        assert(after.drop_last() =~= flags.drop_last());
    } else {
        assert(after.drop_last() =~= flags.drop_last().update(i, true));
        lemma_set_one_flag(flags.drop_last(), i);
    }
}

/// Whether the rows of a path exist, with a node each.
pub open spec fn path_fits(path: Seq<int>, ids: Seq<int>, nodes: nat) -> bool {
    &&& forall|k: int| 0 <= k < path.len() ==> 0 <= #[trigger] path[k] < ids.len()
    &&& forall|k: int| 0 <= k < ids.len() ==> 0 <= #[trigger] ids[k] < nodes
}

proof fn lemma_log_path<L>(path: Seq<int>, ids: Seq<int>, flags: Seq<bool>, lines: Seq<L>)
    requires
        path_fits(path, ids, flags.len()),
    ensures
        ({
            let (f, out) = log_path(path, ids, flags, lines);
            &&& f.len() == flags.len()
            &&& forall|i: int| 0 <= i < flags.len() && flags[i] ==> #[trigger] f[i]
            &&& set_flags(f) == set_flags(flags) + out.len()
            &&& forall|k: int| 0 <= k < path.len() ==> f[ids[#[trigger] path[k]]]
        }),
    decreases path.len(),
{
    if path.len() > 0 {
        lemma_log_path(path.drop_last(), ids, flags, lines);
        let (f, out) = log_path(path.drop_last(), ids, flags, lines);
        let a = path.last();
        assert forall|k: int| 0 <= k < path.len() - 1 implies f[ids[#[trigger] path[k]]] by {
            assert(path.drop_last()[k] == path[k]);
        }
        if !f[ids[a]] {
            lemma_set_one_flag(f, ids[a]);
        }
    }
}

proof fn lemma_climb_in_range(rows: Seq<NodeData>, end: int, levels: int)
    requires
        end <= rows.len(),
    ensures
        forall|k: int|
            0 <= k < climb(rows, end, levels).len() ==> 0 <= #[trigger] climb(rows, end, levels)[k]
                < end,
    decreases end,
{
    if end <= 0 || levels <= 0 {
    } else if rows[end - 1].depth == levels - 1 {
        lemma_climb_in_range(rows, end - 1, levels - 1);
        let up = climb(rows, end - 1, levels - 1);
        assert forall|k: int| 0 <= k < climb(rows, end, levels).len() implies 0
            <= #[trigger] climb(rows, end, levels)[k] < end by {
            if k < up.len() {
                assert(climb(rows, end, levels)[k] == up[k]);
            }
        }
    } else {
        lemma_climb_in_range(rows, end - 1, levels);
        assert forall|k: int| 0 <= k < climb(rows, end, levels).len() implies 0
            <= #[trigger] climb(rows, end, levels)[k] < end by {
            assert(climb(rows, end, levels)[k] == climb(rows, end - 1, levels)[k]);
        }
    }
}

proof fn lemma_log_upto<L>(
    rows: Seq<NodeData>,
    ids: Seq<int>,
    flags: Seq<bool>,
    lines: Seq<L>,
    n: int,
)
    requires
        ids.len() == rows.len(),
        n <= rows.len(),
        path_fits(Seq::empty(), ids, flags.len()),
    ensures
        ({
            let (f, out) = log_upto(rows, ids, flags, lines, n);
            &&& f.len() == flags.len()
            &&& forall|i: int| 0 <= i < flags.len() && flags[i] ==> #[trigger] f[i]
            &&& set_flags(f) == set_flags(flags) + out.len()
            &&& forall|i: int, k: int|
                0 <= i < n && leaf(rows, i) && rows[i].state == State::Done && 0 <= k < lineage(
                    rows,
                    i,
                ).len() ==> f[ids[#[trigger] lineage(rows, i)[k]]]
        }),
    decreases n,
{
    if n > 0 {
        lemma_log_upto(rows, ids, flags, lines, n - 1);
        let (f, out) = log_upto(rows, ids, flags, lines, n - 1);
        lemma_climb_in_range(rows, n - 1, rows[n - 1].depth as int);
        let path = lineage(rows, n - 1);
        lemma_log_path(path, ids, f, lines);
        assert forall|i: int, k: int|
            0 <= i < n && leaf(rows, i) && rows[i].state == State::Done && 0 <= k < lineage(
                rows,
                i,
            ).len() implies log_upto(rows, ids, flags, lines, n).0[ids[#[trigger] lineage(
            rows,
            i,
        )[k]]] by {
            lemma_climb_in_range(rows, i, rows[i].depth as int);
        }
    }
}

/// A look at the tree adds a line to the log only for a node that had none
/// there, and each such node gets exactly one: as many lines are added as nodes
/// become logged, and no node ceases to be logged.
pub proof fn law_log_prints_each_node_once<L>(
    rows: Seq<NodeData>,
    ids: Seq<int>,
    flags: Seq<bool>,
    lines: Seq<L>,
)
    requires
        ids.len() == rows.len(),
        path_fits(Seq::empty(), ids, flags.len()),
    ensures
        ({
            let (f, out) = log_upto(rows, ids, flags, lines, rows.len() as int);
            &&& f.len() == flags.len()
            &&& forall|i: int| 0 <= i < flags.len() && flags[i] ==> #[trigger] f[i]
            &&& set_flags(f) == set_flags(flags) + out.len()
        }),
{
    lemma_log_upto(rows, ids, flags, lines, rows.len() as int);
}

proof fn lemma_log_path_quiet<L>(
    path: Seq<int>,
    ids: Seq<int>,
    flags: Seq<bool>,
    lines: Seq<L>,
)
    requires
        forall|k: int| 0 <= k < path.len() ==> flags[ids[#[trigger] path[k]]],
    ensures
        log_path(path, ids, flags, lines) == (flags, Seq::<L>::empty()),
    decreases path.len(),
{
    if path.len() > 0 {
        assert forall|k: int| 0 <= k < path.drop_last().len() implies flags[ids[#[trigger] path.drop_last()[k]]] by {
            assert(path.drop_last()[k] == path[k]);
        }
        lemma_log_path_quiet(path.drop_last(), ids, flags, lines);
        assert(flags[ids[path[path.len() - 1]]]);
    }
}

proof fn lemma_log_upto_quiet<L>(
    rows: Seq<NodeData>,
    ids: Seq<int>,
    flags: Seq<bool>,
    lines: Seq<L>,
    n: int,
)
    requires
        forall|i: int, k: int|
            0 <= i < n && leaf(rows, i) && rows[i].state == State::Done && 0 <= k < lineage(
                rows,
                i,
            ).len() ==> flags[ids[#[trigger] lineage(rows, i)[k]]],
    ensures
        log_upto(rows, ids, flags, lines, n) == (flags, Seq::<L>::empty()),
    decreases n,
{
    if n > 0 {
        lemma_log_upto_quiet(rows, ids, flags, lines, n - 1);
        if leaf(rows, n - 1) && rows[n - 1].state == State::Done {
            lemma_log_path_quiet(lineage(rows, n - 1), ids, flags, lines);
        }
        assert(log_upto(rows, ids, flags, lines, n).1 =~= Seq::<L>::empty());
    }
}

/// A second look at a tree in which nothing has changed adds nothing.
pub proof fn law_log_is_quiet_without_news<L>(
    rows: Seq<NodeData>,
    ids: Seq<int>,
    flags: Seq<bool>,
    lines: Seq<L>,
)
    requires
        ids.len() == rows.len(),
        path_fits(Seq::empty(), ids, flags.len()),
    ensures
        ({
            let f = log_upto(rows, ids, flags, lines, rows.len() as int).0;
            log_upto(rows, ids, f, lines, rows.len() as int) == (f, Seq::<L>::empty())
        }),
{
    lemma_log_upto(rows, ids, flags, lines, rows.len() as int);
    let f = log_upto(rows, ids, flags, lines, rows.len() as int).0;
    lemma_log_upto_quiet(rows, ids, f, lines, rows.len() as int);
}

// --- the tree ----------------------------------------------------------------

/// The progress tree: its nodes by number, and the rows, each naming a node,
/// in the order they are shown. A node's number is its handle; a node that no
/// row names is detached.
pub struct Tree {
    nodes: Vec<Node>,
    order: Vec<usize>,
    min_label_w: usize,
    multi: bool,
    color: bool,
}

/// Where a subtree with the key `key` goes among the rows of a phase at depth
/// `pd`, looking from the row `i` on: before the first child with a larger key,
/// else behind the phase's last row.
pub open spec fn slot(rows: Seq<NodeData>, pd: nat, key: i64, i: int) -> int
    decreases rows.len() - i,
{
    if i < rows.len() && rows[i].depth > pd && !(rows[i].depth == pd + 1 && rows[i].sort_key
        > key) {
        slot(rows, pd, key, i + 1)
    } else {
        i
    }
}

impl Tree {
    /// The nodes, by number.
    pub closed spec fn nodes(self) -> Seq<NodeData> {
        self.nodes@.map_values(|n: Node| n@)
    }

    /// The node of each row.
    pub closed spec fn order(self) -> Seq<int> {
        self.order@.map_values(|i: usize| i as int)
    }

    /// The least width of the labels.
    pub closed spec fn least(self) -> nat {
        self.min_label_w as nat
    }

    /// Whether the run spans more than one system.
    pub closed spec fn is_multi(self) -> bool {
        self.multi
    }

    /// Whether lines are colored.
    pub closed spec fn colored(self) -> bool {
        self.color
    }

    /// Every row names a node.
    pub open spec fn wf(self) -> bool {
        forall|k: int| 0 <= k < self.order().len() ==> 0 <= #[trigger] self.order()[k] < self.nodes().len()
    }

    /// The rows, in order.
    pub open spec fn rows(self) -> Seq<NodeData> {
        Seq::new(self.order().len(), |k: int| self.nodes()[self.order()[k]])
    }

    /// Which nodes have their line in the log, by number.
    pub open spec fn logged(self) -> Seq<bool> {
        Seq::new(self.nodes().len(), |i: int| self.nodes()[i].emitted)
    }

    /// Whether the settings of a tree are those of another.
    pub open spec fn set_as(self, other: Tree) -> bool {
        &&& self.least() == other.least()
        &&& self.is_multi() == other.is_multi()
        &&& self.colored() == other.colored()
    }

    /// An empty tree.
    pub fn new(min_label_w: usize, multi: bool, color: bool) -> (r: Tree)
        ensures
            r.wf(),
            r.nodes() == Seq::<NodeData>::empty(),
            r.order() == Seq::<int>::empty(),
            r.least() == min_label_w,
            r.is_multi() == multi,
            r.colored() == color,
    {
        let r = Tree { nodes: Vec::new(), order: Vec::new(), min_label_w, multi, color };
        assert(r.nodes() =~= Seq::<NodeData>::empty());
        assert(r.order() =~= Seq::<int>::empty());
        r
    }

    /// Whether the run spans more than one system.
    pub fn multi(&self) -> (r: bool)
        ensures
            r == self.is_multi(),
    {
        self.multi
    }

    /// Whether there is no row.
    pub fn is_empty(&self) -> (r: bool)
        ensures
            r == (self.rows().len() == 0),
    {
        self.order.len() == 0
    }

    /// The node with the number `id`, to be changed.
    pub fn node_mut(&mut self, id: usize) -> (n: &mut Node)
        requires
            old(self).wf(),
            id < old(self).nodes().len(),
        ensures
            n@ == old(self).nodes()[id as int],
            final(self).nodes() == old(self).nodes().update(id as int, final(n)@),
            final(self).order() == old(self).order(),
            final(self).set_as(*old(self)),
    {
        let n = &mut self.nodes[id];
        n
    }

    fn detach(&mut self, n: Node) -> (id: usize)
        requires
            old(self).wf(),
        ensures
            final(self).wf(),
            id == old(self).nodes().len(),
            final(self).nodes() == old(self).nodes().push(n@),
            final(self).order() == old(self).order(),
            final(self).set_as(*old(self)),
    {
        let id: usize = self.nodes.len();
        self.nodes.push(n);
        assert(self.nodes() =~= old(self).nodes().push(n@));
        assert(self.order() == old(self).order());
        id
    }

    fn attach(&mut self, n: Node) -> (id: usize)
        requires
            old(self).wf(),
        ensures
            final(self).wf(),
            id == old(self).nodes().len(),
            final(self).nodes() == old(self).nodes().push(n@),
            final(self).order() == old(self).order().push(id as int),
            final(self).set_as(*old(self)),
    {
        let id = self.detach(n);
        let ghost mid = self.order();
        self.order.push(id);
        assert(self.order() =~= mid.push(id as int));
        id
    }

    /// Appends a node without a count: a phase, a system, a reference.
    pub fn node(&mut self, label: &str, depth: usize) -> (id: usize)
        requires
            old(self).wf(),
        ensures
            final(self).wf(),
            id == old(self).nodes().len(),
            final(self).nodes() == old(self).nodes().push(
                fresh(label@, depth as nat, false, false, -1i64, 0),
            ),
            final(self).order() == old(self).order().push(id as int),
            final(self).set_as(*old(self)),
    {
        self.attach(Node::new(text::copy(label), depth, false, false, -1, 0))
    }

    /// Appends a counting leaf; `total` is `-1` where it is unknown.
    pub fn counter(&mut self, label: &str, depth: usize, total: i64) -> (id: usize)
        requires
            old(self).wf(),
        ensures
            final(self).wf(),
            id == old(self).nodes().len(),
            final(self).nodes() == old(self).nodes().push(
                fresh(label@, depth as nat, true, false, total, 0),
            ),
            final(self).order() == old(self).order().push(id as int),
            final(self).set_as(*old(self)),
    {
        self.attach(Node::new(text::copy(label), depth, true, false, total, 0))
    }

    /// Appends a leaf that shows a percentage of its shards.
    pub fn percent(&mut self, label: &str, depth: usize) -> (id: usize)
        requires
            old(self).wf(),
        ensures
            final(self).wf(),
            id == old(self).nodes().len(),
            final(self).nodes() == old(self).nodes().push(
                fresh(label@, depth as nat, true, true, -1i64, 0),
            ),
            final(self).order() == old(self).order().push(id as int),
            final(self).set_as(*old(self)),
    {
        self.attach(Node::new(text::copy(label), depth, true, true, -1, 0))
    }

    /// Makes a node without a count that no row shows yet.
    pub fn detached_node(&mut self, label: &str, depth: usize, sort_key: i64) -> (id: usize)
        requires
            old(self).wf(),
        ensures
            final(self).wf(),
            id == old(self).nodes().len(),
            final(self).nodes() == old(self).nodes().push(
                fresh(label@, depth as nat, false, false, -1i64, sort_key),
            ),
            final(self).order() == old(self).order(),
            final(self).set_as(*old(self)),
    {
        self.detach(Node::new(text::copy(label), depth, false, false, -1, sort_key))
    }

    /// Makes a counting leaf that no row shows yet.
    pub fn detached_counter(&mut self, label: &str, depth: usize, total: i64, sort_key: i64) -> (id:
        usize)
        requires
            old(self).wf(),
        ensures
            final(self).wf(),
            id == old(self).nodes().len(),
            final(self).nodes() == old(self).nodes().push(
                fresh(label@, depth as nat, true, false, total, sort_key),
            ),
            final(self).order() == old(self).order(),
            final(self).set_as(*old(self)),
    {
        self.detach(Node::new(text::copy(label), depth, true, false, total, sort_key))
    }

    fn row(&self, k: usize) -> (n: &Node)
        requires
            self.wf(),
            k < self.order().len(),
        ensures
            n@ == self.rows()[k as int],
    {
        assert(self.order()[k as int] == self.order@[k as int] as int);
        &self.nodes[self.order[k]]
    }

    /// Shows a subtree, its root first, among the children of the row of
    /// `phase`, which stay in the order of their keys.
    pub fn insert_sorted(&mut self, phase: usize, subtree: Vec<usize>)
        requires
            old(self).wf(),
            subtree@.len() > 0 ==> old(self).order().contains(phase as int),
            forall|k: int| 0 <= k < subtree@.len() ==> #[trigger] subtree@[k] < old(self).nodes().len(),
        ensures
            final(self).wf(),
            final(self).nodes() == old(self).nodes(),
            final(self).set_as(*old(self)),
            subtree@.len() == 0 ==> final(self).order() == old(self).order(),
            subtree@.len() > 0 ==> {
                let p = old(self).order().index_of_first(phase as int)->0;
                let at = slot(
                    old(self).rows(),
                    old(self).nodes()[phase as int].depth,
                    old(self).nodes()[subtree@[0] as int].sort_key,
                    p + 1,
                );
                final(self).order() == old(self).order().take(at) + subtree@.map_values(
                    |i: usize| i as int,
                ) + old(self).order().skip(at)
            },
    {
        if subtree.len() == 0 {
            return;
        }
        let n = self.order.len();
        let mut p: usize = 0;
        proof {
            self.order().index_of_first_ensures(phase as int);
        }
        while p < n && self.order[p] != phase
            invariant
                p <= n,
                n == self.order@.len(),
                self.order().contains(phase as int),
                forall|k: int| 0 <= k < p ==> #[trigger] self.order@[k] != phase,
            decreases n - p,
        {
            p = p + 1;
        }
        proof {
            let w = choose|w: int| 0 <= w < self.order().len() && self.order()[w] == phase as int;
            assert(self.order@[w] == phase);
            assert(p < n);
            let first = self.order().index_of_first(phase as int)->0;
            assert(self.order()[p as int] == phase as int);
            assert(self.order()[first] == self.order@[first] as int);
            assert(first == p);
        }
        assert(self.order()[p as int] == self.order@[p as int] as int);
        assert(phase < self.nodes@.len());
        let pd: usize = self.nodes[phase].depth;
        let key: i64 = self.nodes[subtree[0]].sort_key;
        let mut at: usize = p + 1;
        let ghost want = slot(self.rows(), pd as nat, key, p + 1);
        while at < n
            invariant_except_break
                p < at <= n,
                slot(self.rows(), pd as nat, key, at as int) == want,
            invariant
                self.wf(),
                n == self.order@.len(),
            ensures
                at <= n,
                at == want,
            decreases n - at,
        {
            let row = self.row(at);
            if !(row.depth > pd) {
                break;
            }
            if row.depth - 1 == pd && row.sort_key > key {
                break;
            }
            at = at + 1;
        }
        let ghost before = self.order();
        let ghost sub = subtree@.map_values(|i: usize| i as int);
        let mut k: usize = 0;
        assert(before.take(at as int) + sub.take(0) + before.skip(at as int) =~= before);
        while k < subtree.len()
            invariant
                k <= subtree@.len(),
                at <= before.len(),
                self.order@.len() == before.len() + k,
                sub == subtree@.map_values(|i: usize| i as int),
                self.order() == before.take(at as int) + sub.take(k as int) + before.skip(at as int),
                self.nodes() == old(self).nodes(),
                self.set_as(*old(self)),
            decreases subtree@.len() - k,
        {
            let ghost mid = self.order();
            let len = self.order.len();
            assert(at + k <= len);
            self.order.insert(at + k, subtree[k]);
            proof {
                assert(self.order() =~= mid.insert(at + k, subtree@[k as int] as int));
                assert(self.order() =~= before.take(at as int) + sub.take(k + 1) + before.skip(
                    at as int,
                ));
            }
            k = k + 1;
        }
        assert(sub.take(k as int) =~= sub);
        proof {
            assert forall|k: int| 0 <= k < self.order().len() implies 0 <= #[trigger] self.order()[k]
                < self.nodes().len() by {
                if k < at {
                    assert(self.order()[k] == before[k]);
                } else if k < at + sub.len() {
                    assert(self.order()[k] == sub[k - at]);
                    assert(subtree@[k - at] < old(self).nodes().len());
                } else {
                    assert(self.order()[k] == before[k - sub.len()]);
                }
            }
        }
    }
}

// --- frames ------------------------------------------------------------------

impl Tree {
    fn is_leaf(&self, k: usize) -> (r: bool)
        requires
            self.wf(),
            k < self.order().len(),
        ensures
            r == leaf(self.rows(), k as int),
    {
        if self.order.len() - k <= 1 {
            return true;
        }
        self.row(k + 1).depth <= self.row(k).depth
    }

    fn eff_state(&self, i: usize) -> (r: State)
        requires
            self.wf(),
            i < self.order().len(),
        ensures
            r == rolled(self.rows(), i as int),
    {
        let ghost rows = self.rows();
        let n = self.order.len();
        let d = self.row(i).depth;
        let mut any_run = false;
        let mut any_done = false;
        let mut any_wait = false;
        let mut j: usize = i + 1;
        while j < n && self.row(j).depth > d
            invariant
                self.wf(),
                rows == self.rows(),
                n == rows.len(),
                n == self.order@.len(),
                i < j <= n,
                d == rows[i as int].depth,
                forall|m: int| i < m < j ==> (#[trigger] rows[m]).depth > d,
                any_run == exists|k: int|
                    k < j && #[trigger] leaf_below(rows, i as int, k) && rows[k].state == State::Run,
                any_done == exists|k: int|
                    k < j && #[trigger] leaf_below(rows, i as int, k) && rows[k].state == State::Done,
                any_wait == exists|k: int|
                    k < j && #[trigger] leaf_below(rows, i as int, k) && rows[k].state == State::Wait,
            decreases n - j,
        {
            if self.is_leaf(j) {
                assert(leaf_below(rows, i as int, j as int));
                match self.row(j).state {
                    State::Run => {
                        any_run = true;
                    },
                    State::Done => {
                        any_done = true;
                    },
                    State::Wait => {
                        any_wait = true;
                    },
                }
            }
            j = j + 1;
        }
        proof {
            assert forall|k: int| #[trigger] leaf_below(rows, i as int, k) implies k < j by {
                if k >= j {
                    assert(rows[j as int].depth > d);
                }
            }
            assert(any_run == some_leaf(rows, i as int, State::Run));
            assert(any_done == some_leaf(rows, i as int, State::Done));
            assert(any_wait == some_leaf(rows, i as int, State::Wait));
        }
        if !any_run && !any_done && !any_wait {
            self.row(i).state
        } else if any_run {
            State::Run
        } else if !any_wait {
            State::Done
        } else if any_done {
            State::Run
        } else {
            State::Wait
        }
    }

    fn left_width(&self) -> (w: u128)
        requires
            self.wf(),
        ensures
            w == label_width(self.rows(), self.least()),
    {
        let ghost rows = self.rows();
        let mut w: u128 = self.min_label_w as u128;
        let mut i: usize = 0;
        assert(rows.take(0).len() == 0);
        while i < self.order.len()
            invariant
                self.wf(),
                rows == self.rows(),
                rows.len() == self.order@.len(),
                i <= rows.len(),
                w == label_width(rows.take(i as int), self.least()),
            decreases rows.len() - i,
        {
            let r = self.row(i);
            let own: u128 = 2 * (r.depth as u128) + (r.label.as_str().unicode_len() as u128);
            proof {
                assert(rows.take(i + 1).drop_last() =~= rows.take(i as int));
                assert(rows.take(i + 1).last() == rows[i as int]);
            }
            if own > w {
                w = own;
            }
            i = i + 1;
        }
        assert(rows.take(i as int) =~= rows);
        w
    }

    fn row_strings(&self, color: bool) -> (r: Vec<String>)
        requires
            self.wf(),
        ensures
            text::texts(r@) == row_lines(self.rows(), self.least(), color),
    {
        let ghost rows = self.rows();
        let ghost want = row_lines(rows, self.least(), color);
        let left_w = self.left_width();
        let mut out: Vec<String> = Vec::new();
        let mut i: usize = 0;
        while i < self.order.len()
            invariant
                self.wf(),
                rows == self.rows(),
                rows.len() == self.order@.len(),
                want == row_lines(rows, self.least(), color),
                left_w == label_width(rows, self.least()),
                i <= rows.len(),
                text::texts(out@) == want.take(i as int),
            decreases rows.len() - i,
        {
            let line = render_row(self.row(i), self.eff_state(i), left_w, color);
            proof {
                text::lemma_texts_push(out@, line);
                assert(want.take(i + 1) =~= want.take(i as int).push(want[i as int]));
            }
            out.push(line);
            i = i + 1;
        }
        assert(want.take(i as int) =~= want);
        out
    }

    /// The frame with the given mark in its footer: nothing for an empty tree.
    pub open spec fn frame(self, mark: char, secs: nat) -> Seq<Seq<char>> {
        if self.rows().len() == 0 {
            Seq::empty()
        } else {
            row_lines(self.rows(), self.least(), self.colored()).push(
                footer(mark, self.colored(), secs),
            )
        }
    }

    fn lines(&self, mark: char, secs: u64) -> (r: Vec<String>)
        requires
            self.wf(),
        ensures
            text::texts(r@) == self.frame(mark, secs as nat),
    {
        if self.order.len() == 0 {
            let r: Vec<String> = Vec::new();
            assert(text::texts(r@) =~= Seq::<Seq<char>>::empty());
            return r;
        }
        let mut r = self.row_strings(self.color);
        let f = footer_line(mark, self.color, secs);
        proof {
            text::lemma_texts_push(r@, f);
        }
        r.push(f);
        r
    }

    /// The live frame for the tick `t`, `secs` seconds into the run: a line for
    /// each row, then the spinner and the clock.
    pub fn render(&self, t: usize, secs: u64) -> (r: Vec<String>)
        requires
            self.wf(),
        ensures
            text::texts(r@) == self.frame(spinner_mark(t as nat), secs as nat),
    {
        self.lines(spinner(t), secs)
    }

    /// The frame that stays: a resting dot in place of the spinner.
    pub fn render_frozen(&self, secs: u64) -> (r: Vec<String>)
        requires
            self.wf(),
        ensures
            text::texts(r@) == self.frame('.', secs as nat),
    {
        self.lines('.', secs)
    }

    /// The resting footer alone.
    pub fn frozen_footer(&self, secs: u64) -> (r: String)
        ensures
            r@ == footer('.', self.colored(), secs as nat),
    {
        footer_line('.', self.color, secs)
    }

    fn path_to(&self, i: usize) -> (r: Vec<usize>)
        requires
            self.wf(),
            i < self.order().len(),
        ensures
            r@.map_values(|k: usize| k as int) == lineage(self.rows(), i as int),
            forall|k: int| 0 <= k < r@.len() ==> #[trigger] r@[k] < self.order().len(),
    {
        let ghost rows = self.rows();
        let ghost whole = climb(rows, i as int, rows[i as int].depth as int);
        let mut path: Vec<usize> = Vec::new();
        let mut levels: usize = self.row(i).depth;
        let mut end: usize = i;
        assert(whole =~= climb(rows, end as int, levels as int) + path@.map_values(
            |k: usize| k as int,
        ));
        while levels > 0 && end > 0
            invariant
                self.wf(),
                rows == self.rows(),
                end <= i < rows.len(),
                rows.len() == self.order@.len(),
                whole == climb(rows, end as int, levels as int) + path@.map_values(
                    |k: usize| k as int,
                ),
                forall|k: int| 0 <= k < path@.len() ==> #[trigger] path@[k] < rows.len(),
            decreases end,
        {
            let ghost was = path@.map_values(|k: usize| k as int);
            let j: usize = end - 1;
            if self.row(j).depth == levels - 1 {
                let ghost old_path = path@;
                path.insert(0, j);
                levels = levels - 1;
                proof {
                    assert(path@.map_values(|k: usize| k as int) =~= seq![j as int] + was);
                    assert(climb(rows, end as int, levels + 1) + was =~= climb(
                        rows,
                        j as int,
                        levels as int,
                    ) + (seq![j as int] + was));
                    assert forall|k: int| 0 <= k < path@.len() implies #[trigger] path@[k]
                        < rows.len() by {
                        if k > 0 {
                            assert(path@[k] == old_path[k - 1]);
                        }
                    }
                }
            }
            end = j;
        }
        proof {
            assert(climb(rows, end as int, levels as int) =~= Seq::<int>::empty());
            assert(whole =~= path@.map_values(|k: usize| k as int));
        }
        path.push(i);
        assert(path@.map_values(|k: usize| k as int) =~= lineage(rows, i as int));
        path
    }

    /// The lines that go to an append-only log now: each node's once, a leaf
    /// when it is done, and its ancestors before it from the top down. They read
    /// as in the last frame, but never have colors.
    pub fn emit_completed(&mut self) -> (out: Vec<String>)
        requires
            old(self).wf(),
        ensures
            ({
                let (flags, lines) = log_upto(
                    old(self).rows(),
                    old(self).order(),
                    old(self).logged(),
                    row_lines(old(self).rows(), old(self).least(), false),
                    old(self).rows().len() as int,
                );
                &&& text::texts(out@) == lines
                &&& final(self).nodes() == Seq::new(
                    old(self).nodes().len(),
                    |i: int| NodeData { emitted: flags[i], ..old(self).nodes()[i] },
                )
            }),
            final(self).order() == old(self).order(),
            final(self).set_as(*old(self)),
            final(self).wf(),
    {
        let ghost rows = self.rows();
        let ghost ids = self.order();
        let ghost flags = self.logged();
        let lines = self.row_strings(false);
        let ghost all = text::texts(lines@);
        let mut out: Vec<String> = Vec::new();
        let n = self.order.len();
        let mut i: usize = 0;
        proof {
            assert(text::texts(out@) =~= Seq::<Seq<char>>::empty());
            assert(self.nodes() =~= Seq::new(
                old(self).nodes().len(),
                |k: int| NodeData { emitted: flags[k], ..old(self).nodes()[k] },
            ));
        }
        while i < n
            invariant
                i <= n,
                n == rows.len(),
                n == self.order@.len(),
                old(self).wf(),
                self.wf(),
                rows == old(self).rows(),
                ids == old(self).order(),
                flags == old(self).logged(),
                all == text::texts(lines@),
                all.len() == rows.len(),
                self.order() == ids,
                self.set_as(*old(self)),
                text::texts(out@) == log_upto(rows, ids, flags, all, i as int).1,
                log_upto(rows, ids, flags, all, i as int).0.len() == flags.len(),
                self.nodes() == Seq::new(
                    old(self).nodes().len(),
                    |k: int|
                        NodeData {
                            emitted: log_upto(rows, ids, flags, all, i as int).0[k],
                            ..old(self).nodes()[k]
                        },
                ),
            decreases n - i,
        {
            let ghost f0 = log_upto(rows, ids, flags, all, i as int).0;
            let ghost out0 = text::texts(out@);
            let ghost now = self.rows();
            proof {
                assert forall|k: int| 0 <= k < rows.len() implies (#[trigger] now[k]).depth
                    == rows[k].depth && now[k].state == rows[k].state by {
                    assert(ids[k] < old(self).nodes().len());
                }
                lemma_log_upto(rows, ids, flags, all, i + 1);
                lemma_same_lineage(rows, now, i as int, rows[i as int].depth as int);
            }
            if self.is_leaf(i) && self.row(i).state == State::Done {
                let path = self.path_to(i);
                let ghost steps = path@.map_values(|k: usize| k as int);
                let mut k: usize = 0;
                assert(steps.take(0) =~= Seq::<int>::empty());
                assert(out0 + Seq::<Seq<char>>::empty() =~= out0);
                while k < path.len()
                    invariant
                        k <= path@.len(),
                        n == rows.len(),
                        n == self.order@.len(),
                        rows == old(self).rows(),
                        ids == old(self).order(),
                        old(self).wf(),
                        all == text::texts(lines@),
                        all.len() == rows.len(),
                        self.order() == ids,
                        self.set_as(*old(self)),
                        steps == path@.map_values(|k: usize| k as int),
                        forall|m: int| 0 <= m < path@.len() ==> #[trigger] path@[m] < rows.len(),
                        f0.len() == old(self).nodes().len(),
                        log_path(steps.take(k as int), ids, f0, all).0.len() == f0.len(),
                        text::texts(out@) == out0 + log_path(steps.take(k as int), ids, f0, all).1,
                        self.nodes() == Seq::new(
                            old(self).nodes().len(),
                            |m: int|
                                NodeData {
                                    emitted: log_path(steps.take(k as int), ids, f0, all).0[m],
                                    ..old(self).nodes()[m]
                                },
                        ),
                    decreases path@.len() - k,
                {
                    let a = path[k];
                    let ghost f = log_path(steps.take(k as int), ids, f0, all).0;
                    proof {
                        assert(steps.take(k + 1).drop_last() =~= steps.take(k as int));
                        assert(steps.take(k + 1).last() == a as int);
                        assert(ids[a as int] == self.order@[a as int] as int);
                        assert(0 <= ids[a as int] < old(self).nodes().len());
                    }
                    let id = self.order[a];
                    assert(self.nodes().len() == self.nodes@.len());
                    assert(id as int == ids[a as int]);
                    assert(self.nodes()[id as int] == self.nodes@[id as int]@);
                    if !self.nodes[id].emitted {
                        let ghost nodes0 = self.nodes();
                        let ghost raw = self.nodes@[id as int]@;
                        self.nodes[id].emitted = true;
                        let line = lines[a].clone();
                        proof {
                            text::lemma_texts_push(out@, line);
                            assert(self.nodes() =~= nodes0.update(
                                id as int,
                                NodeData { emitted: true, ..raw },
                            ));
                            assert(self.nodes() =~= Seq::new(
                                old(self).nodes().len(),
                                |m: int|
                                    NodeData {
                                        emitted: f.update(id as int, true)[m],
                                        ..old(self).nodes()[m]
                                    },
                            ));
                        }
                        let ghost outk = text::texts(out@);
                        out.push(line);
                        assert(text::texts(out@) =~= out0 + log_path(
                            steps.take(k + 1),
                            ids,
                            f0,
                            all,
                        ).1);
                    }
                    k = k + 1;
                }
                assert(steps.take(k as int) =~= steps);
            }
            i = i + 1;
        }
        out
    }
}

proof fn lemma_same_climb(rows: Seq<NodeData>, other: Seq<NodeData>, end: int, levels: int)
    requires
        rows.len() == other.len(),
        end <= rows.len(),
        forall|k: int| 0 <= k < rows.len() ==> (#[trigger] other[k]).depth == rows[k].depth,
    ensures
        climb(rows, end, levels) == climb(other, end, levels),
    decreases end,
{
    if end > 0 && levels > 0 {
        assert(other[end - 1].depth == rows[end - 1].depth);
        lemma_same_climb(rows, other, end - 1, levels - 1);
        lemma_same_climb(rows, other, end - 1, levels);
    }
}

proof fn lemma_same_lineage(rows: Seq<NodeData>, other: Seq<NodeData>, i: int, levels: int)
    requires
        rows.len() == other.len(),
        0 <= i < rows.len(),
        forall|k: int| 0 <= k < rows.len() ==> (#[trigger] other[k]).depth == rows[k].depth,
    ensures
        lineage(rows, i) == lineage(other, i),
        leaf(rows, i) == leaf(other, i),
{
    assert(other[i].depth == rows[i].depth);
    lemma_same_climb(rows, other, i, rows[i].depth as int);
    if i + 1 < rows.len() {
        assert(other[i + 1].depth == rows[i + 1].depth);
    }
}

// --- the order of a phase's children -----------------------------------------

/// Whether the row `k` is a child of the row `p`.
pub open spec fn child(rows: Seq<NodeData>, p: int, k: int) -> bool {
    below(rows, p, k) && rows[k].depth == rows[p].depth + 1
}

/// Whether the children of the row `p` stand in the order of their keys.
pub open spec fn children_in_order(rows: Seq<NodeData>, p: int) -> bool {
    forall|i: int, j: int|
        i < j && #[trigger] child(rows, p, i) && #[trigger] child(rows, p, j) ==> rows[i].sort_key
            <= rows[j].sort_key
}

pub(crate) proof fn lemma_slot(rows: Seq<NodeData>, pd: nat, key: i64, i: int)
    requires
        0 <= i <= rows.len(),
    ensures
        ({
            let at = slot(rows, pd, key, i);
            &&& i <= at <= rows.len()
            &&& forall|m: int|
                i <= m < at ==> (#[trigger] rows[m]).depth > pd && !(rows[m].depth == pd + 1
                    && rows[m].sort_key > key)
            &&& at < rows.len() ==> rows[at].depth <= pd || (rows[at].depth == pd + 1
                && rows[at].sort_key > key)
        }),
    decreases rows.len() - i,
{
    if i < rows.len() && rows[i].depth > pd && !(rows[i].depth == pd + 1 && rows[i].sort_key
        > key) {
        lemma_slot(rows, pd, key, i + 1);
    }
}

/// Inserting a child with what is below it, at the slot of its key, keeps the
/// children of the phase in the order of their keys.
pub proof fn law_insert_keeps_children_in_order(
    rows: Seq<NodeData>,
    p: int,
    subtree: Seq<NodeData>,
)
    requires
        0 <= p < rows.len(),
        children_in_order(rows, p),
        subtree.len() > 0,
        subtree[0].depth == rows[p].depth + 1,
        forall|k: int| 0 < k < subtree.len() ==> (#[trigger] subtree[k]).depth > rows[p].depth + 1,
    ensures
        ({
            let at = slot(rows, rows[p].depth, subtree[0].sort_key, p + 1);
            let after = rows.take(at) + subtree + rows.skip(at);
            children_in_order(after, p) && child(after, p, at)
        }),
{
    let pd = rows[p].depth;
    let key = subtree[0].sort_key;
    let at = slot(rows, pd, key, p + 1);
    let n = subtree.len() as int;
    let after = rows.take(at) + subtree + rows.skip(at);
    lemma_slot(rows, pd, key, p + 1);
    assert(after[p] == rows[p]);
    assert forall|k: int| child(after, p, k) implies (k < at ==> child(rows, p, k)) && (k >= at + n
        ==> child(rows, p, k - n)) && (at <= k < at + n ==> k == at) by {
        if k < at {
            assert(after[k] == rows[k]);
            assert forall|m: int| p < m <= k implies (#[trigger] rows[m]).depth > pd by {
                assert(after[m] == rows[m]);
            }
        } else if k < at + n {
            assert(after[k] == subtree[k - at]);
        } else {
            assert(after[k] == rows[k - n]);
            assert forall|m: int| p < m <= k - n implies (#[trigger] rows[m]).depth > pd by {
                if m >= at {
                    assert(after[m + n] == rows[m]);
                }
            }
        }
    }
    assert forall|i: int, j: int|
        i < j && #[trigger] child(after, p, i) && #[trigger] child(
            after,
            p,
            j,
        ) implies after[i].sort_key <= after[j].sort_key by {
        if i < at {
            assert(after[i] == rows[i]);
            if j < at {
                assert(after[j] == rows[j]);
            } else if j < at + n {
                assert(after[j] == subtree[0]);
            } else {
                assert(after[j] == rows[j - n]);
                assert(child(rows, p, i) && child(rows, p, j - n));
            }
        } else if i < at + n {
            assert(after[i] == subtree[0]);
            assert(after[j] == rows[j - n]);
            assert(after[at + n] == rows[at]);
            assert(rows[at].depth > pd);
            assert(child(rows, p, j - n));
            assert forall|m: int| p < m <= at implies (#[trigger] rows[m]).depth > pd by {}
            assert(child(rows, p, at));
        } else {
            assert(after[i] == rows[i - n]);
            assert(after[j] == rows[j - n]);
            assert(child(rows, p, i - n) && child(rows, p, j - n));
        }
    }
    assert(after[at] == subtree[0]);
    assert forall|m: int| p < m <= at implies (#[trigger] after[m]).depth > pd by {
        if m < at {
            assert(after[m] == rows[m]);
        }
    }
}

// --- the block on the screen -------------------------------------------------

/// What is known of the screen: whether it is a terminal, and its columns.
#[derive(Debug, Clone, Copy, PartialEq, Eq, Structural)]
pub struct Screen {
    pub is_term: bool,
    pub columns: Option<u16>,
}

impl Screen {
    /// The width lines are cut to: eighty columns where it is unknown.
    pub open spec fn width_of(self) -> usize {
        match self.columns {
            Some(w) => w as usize,
            None => 80,
        }
    }

    fn width(&self) -> (w: usize)
        ensures
            w == self.width_of(),
    {
        match self.columns {
            Some(w) => w as usize,
            None => 80,
        }
    }
}

/// Whether a line holds printable ASCII only, and so no escape code.
pub open spec fn printable(s: Seq<char>) -> bool {
    forall|i: int| 0 <= i < s.len() ==> ' ' <= #[trigger] s[i] <= '~'
}

/// The first characters of a line, at most `w` of them.
pub open spec fn at_most(s: Seq<char>, w: usize) -> Seq<char> {
    if s.len() <= w {
        s
    } else {
        s.take(w as int)
    }
}

/// What `console::truncate_str` makes of a line: cut to a width in columns,
/// escape codes kept, with a tail where something was cut off.
pub uninterp spec fn truncated(s: Seq<char>, width: usize, tail: Seq<char>) -> Seq<char>;

/// `console::truncate_str` with an empty tail, so that the width it leaves for
/// the line is the whole width. The result is a function of the line, the width
/// and the tail. Of printable ASCII it keeps a character for each column; how
/// wide any other character counts, and what is kept of escape codes, is left
/// to the crate.
#[verifier::external_body]
fn truncate(s: &str, width: usize, tail: &str) -> (r: String)
    requires
        tail@.len() == 0,
    ensures
        r@ == truncated(s@, width, tail@),
        printable(s@) ==> r@ == at_most(s@, width),
{
    console::truncate_str(s, width, tail).into_owned()
}

/// A line cut to the width.
pub open spec fn cut(line: Seq<char>, w: usize) -> Seq<char> {
    truncated(line, w, ""@)
}

fn cut_line(line: &str, w: usize) -> (r: String)
    ensures
        r@ == cut(line@, w),
        printable(line@) ==> cut(line@, w) == at_most(line@, w),
{
    proof {
        reveal_strlit("");
    }
    truncate(line, w, "")
}

/// A block of lines redrawn in place.
#[derive(Debug, PartialEq, Eq)]
pub struct Live {
    drawn: usize,
    prev: Vec<String>,
    prev_width: usize,
}

/// Begins a synchronized update and moves to the first row of a block of
/// `drawn` rows.
pub open spec fn to_top(drawn: nat) -> Seq<char> {
    if drawn > 0 {
        "\x1b[?2026h"@ + "\x1b["@ + text::decimal(drawn) + seq!['A']
    } else {
        "\x1b[?2026h"@
    }
}

/// The part of a frame that writes the first `n` lines: a line that stands
/// already is stepped over, any other written in place with the rest of its
/// row cleared.
pub open spec fn written(
    lines: Seq<Seq<char>>,
    prev: Seq<Seq<char>>,
    full: bool,
    w: usize,
    n: int,
) -> Seq<char>
    decreases n,
{
    if n <= 0 {
        Seq::empty()
    } else {
        let line = lines[n - 1];
        written(lines, prev, full, w, n - 1) + (if full || n - 1 >= prev.len() || prev[n - 1]
            != line {
            cut(line, w) + "\x1b[K"@
        } else {
            Seq::empty()
        }) + "\r\n"@
    }
}

/// A message above the block: each of its lines cut, on a row of its own.
pub open spec fn noted(lines: Seq<Seq<char>>, w: usize, n: int) -> Seq<char>
    decreases n,
{
    if n <= 0 {
        Seq::empty()
    } else {
        noted(lines, w, n - 1) + cut(lines[n - 1], w) + "\x1b[K\r\n"@
    }
}

fn begin(drawn: usize) -> (r: String)
    ensures
        r@ == to_top(drawn as nat),
{
    let mut r = "\x1b[?2026h".to_owned();
    if drawn > 0 {
        r.append("\x1b[");
        let d = text::decimal_usize(drawn);
        r.append(d.as_str());
        r.push('A');
        assert(r@ =~= to_top(drawn as nat));
    }
    r
}

impl Live {
    /// How many rows the block takes.
    pub closed spec fn rows_drawn(self) -> nat {
        self.drawn as nat
    }

    /// The lines that stand.
    pub closed spec fn standing(self) -> Seq<Seq<char>> {
        text::texts(self.prev@)
    }

    /// The width they were cut to.
    pub closed spec fn width_then(self) -> usize {
        self.prev_width
    }

    /// What redrawing the block with `lines` writes.
    pub open spec fn drawing(self, lines: Seq<Seq<char>>, w: usize) -> Seq<char> {
        let full = w != self.width_then() || lines.len() != self.standing().len();
        to_top(self.rows_drawn()) + seq!['\r'] + written(
            lines,
            self.standing(),
            full,
            w,
            lines.len() as int,
        ) + (if lines.len() < self.rows_drawn() {
            "\x1b[J"@
        } else {
            Seq::empty()
        }) + "\x1b[?2026l"@
    }

    /// Whether redrawing the block with `lines` writes the line `i` again.
    pub open spec fn rewrites(self, lines: Seq<Seq<char>>, w: usize, i: int) -> bool {
        w != self.width_then() || lines.len() != self.standing().len() || self.standing()[i]
            != lines[i]
    }

    /// A block with nothing drawn.
    pub fn new() -> (r: Live)
        ensures
            r.rows_drawn() == 0,
            r.standing() == Seq::<Seq<char>>::empty(),
            r.width_then() == 0,
    {
        let r = Live { drawn: 0, prev: Vec::new(), prev_width: 0 };
        assert(r.standing() =~= Seq::<Seq<char>>::empty());
        r
    }

    /// Redraws the block in place: what to write, or nothing off a terminal.
    pub fn draw(&mut self, lines: &[String], screen: Screen) -> (r: Option<String>)
        ensures
            match r {
                Some(out) => screen.is_term && out@ == old(self).drawing(
                    text::texts(lines@),
                    screen.width_of(),
                ) && final(self).rows_drawn() == lines@.len() && final(self).standing()
                    == text::texts(lines@) && final(self).width_then() == screen.width_of(),
                None => !screen.is_term && *final(self) == *old(self),
            },
            r is Some ==> forall|i: int|
                0 <= i < lines@.len() && old(self).rewrites(
                    text::texts(lines@),
                    screen.width_of(),
                    i,
                ) && printable(#[trigger] text::texts(lines@)[i]) ==> cut(
                    text::texts(lines@)[i],
                    screen.width_of(),
                ) == at_most(text::texts(lines@)[i], screen.width_of()),
    {
        if !screen.is_term {
            return None;
        }
        let w = screen.width();
        let full = w != self.prev_width || lines.len() != self.prev.len();
        let mut buf = begin(self.drawn);
        buf.push('\r');
        let ghost head = buf@;
        let ghost all = text::texts(lines@);
        let ghost prev = text::texts(self.prev@);
        let mut i: usize = 0;
        assert(buf@ =~= head + written(all, prev, full, w, 0));
        while i < lines.len()
            invariant
                i <= lines@.len(),
                all == text::texts(lines@),
                prev == text::texts(self.prev@),
                *self == *old(self),
                full == (w != self.width_then() || all.len() != prev.len()),
                prev == self.standing(),
                buf@ == head + written(all, prev, full, w, i as int),
                forall|k: int|
                    0 <= k < i && self.rewrites(all, w, k) && printable(#[trigger] all[k]) ==> cut(
                        all[k],
                        w,
                    ) == at_most(all[k], w),
            decreases lines@.len() - i,
        {
            let changed = i >= self.prev.len() || !text::same(
                self.prev[i].as_str(),
                lines[i].as_str(),
            );
            let ghost was = buf@;
            if full || changed {
                let c = cut_line(lines[i].as_str(), w);
                buf.append(c.as_str());
                buf.append("\x1b[K");
            }
            buf.append("\r\n");
            proof {
                assert(all[i as int] == lines@[i as int]@);
                if i < prev.len() {
                    assert(prev[i as int] == self.prev@[i as int]@);
                }
                let step = (if full || i >= prev.len() || prev[i as int] != all[i as int] {
                    cut(all[i as int], w) + "\x1b[K"@
                } else {
                    Seq::empty()
                }) + "\r\n"@;
                assert(buf@ =~= was + step);
                assert(buf@ =~= head + written(all, prev, full, w, i + 1));
            }
            i = i + 1;
        }
        let ghost mid = buf@;
        if lines.len() < self.drawn {
            buf.append("\x1b[J");
        }
        buf.append("\x1b[?2026l");
        assert(buf@ =~= old(self).drawing(all, w));
        self.drawn = lines.len();
        self.prev = text::copy_all(lines);
        self.prev_width = w;
        Some(buf)
    }

    /// Puts a message above the block, which is erased and appears again with
    /// the next drawing. Off a terminal the message is an ordinary line.
    pub fn print_above(&mut self, msg: &str, screen: Screen) -> (out: String)
        ensures
            screen.is_term ==> out@ == to_top(old(self).rows_drawn()) + "\r\x1b[J"@ + noted(
                text::lines_of(msg@),
                screen.width_of(),
                text::lines_of(msg@).len() as int,
            ) + "\x1b[?2026l"@,
            screen.is_term ==> final(self).rows_drawn() == 0 && final(self).standing() == Seq::<
                Seq<char>,
            >::empty() && final(self).width_then() == old(self).width_then(),
            !screen.is_term ==> out@ == msg@.push('\n') && *final(self) == *old(self),
            screen.is_term ==> forall|i: int|
                0 <= i < text::lines_of(msg@).len() && printable(
                    #[trigger] text::lines_of(msg@)[i],
                ) ==> cut(text::lines_of(msg@)[i], screen.width_of()) == at_most(
                    text::lines_of(msg@)[i],
                    screen.width_of(),
                ),
    {
        if !screen.is_term {
            let mut out = msg.to_owned();
            out.push('\n');
            return out;
        }
        let w = screen.width();
        let mut buf = begin(self.drawn);
        buf.append("\r\x1b[J");
        let ghost head = buf@;
        let lines = text::split_lines(msg);
        let ghost all = text::texts(lines@);
        let mut i: usize = 0;
        assert(buf@ =~= head + noted(all, w, 0));
        while i < lines.len()
            invariant
                i <= lines@.len(),
                all == text::texts(lines@),
                buf@ == head + noted(all, w, i as int),
                forall|k: int|
                    0 <= k < i && printable(#[trigger] all[k]) ==> cut(all[k], w) == at_most(
                        all[k],
                        w,
                    ),
            decreases lines@.len() - i,
        {
            let ghost was = buf@;
            let c = cut_line(lines[i].as_str(), w);
            buf.append(c.as_str());
            buf.append("\x1b[K\r\n");
            assert(all[i as int] == lines@[i as int]@);
            assert(buf@ =~= head + noted(all, w, i + 1));
            i = i + 1;
        }
        buf.append("\x1b[?2026l");
        self.drawn = 0;
        self.prev = Vec::new();
        assert(self.standing() =~= Seq::<Seq<char>>::empty());
        buf
    }

    /// Erases the block, leaving the cursor at its top: what to write, if
    /// anything.
    pub fn clear(&mut self, screen: Screen) -> (r: Option<String>)
        ensures
            match r {
                Some(out) => screen.is_term && old(self).rows_drawn() > 0 && out@ == "\x1b["@
                    + text::decimal(old(self).rows_drawn()) + "A\r\x1b[J"@,
                None => !screen.is_term || old(self).rows_drawn() == 0,
            },
            final(self).rows_drawn() == 0,
            final(self).standing() == Seq::<Seq<char>>::empty(),
            final(self).width_then() == old(self).width_then(),
    {
        let mut r: Option<String> = None;
        if screen.is_term && self.drawn > 0 {
            let mut out = "\x1b[".to_owned();
            let d = text::decimal_usize(self.drawn);
            out.append(d.as_str());
            out.append("A\r\x1b[J");
            r = Some(out);
        }
        self.drawn = 0;
        self.prev = Vec::new();
        assert(self.standing() =~= Seq::<Seq<char>>::empty());
        r
    }
}

// --- widths and rules --------------------------------------------------------

/// The larger of two numbers.
pub open spec fn larger(a: nat, b: nat) -> nat {
    if a < b {
        b
    } else {
        a
    }
}

/// The widest of the system names behind two spaces, and no less than `least`.
pub open spec fn systems_width(systems: Seq<Seq<char>>, least: nat) -> nat
    decreases systems.len(),
{
    if systems.len() == 0 {
        least
    } else {
        larger(systems_width(systems.drop_last(), least), 2 + systems.last().len())
    }
}

/// The width of the longest phase name.
pub open spec fn widest_phase() -> nat {
    larger(
        "fetch"@.len(),
        larger(
            "download"@.len(),
            larger(
                "enumerate"@.len(),
                larger(
                    "evaluate"@.len(),
                    larger("tests"@.len(), larger("instantiate"@.len(), "probe"@.len())),
                ),
            ),
        ),
    )
}

/// The width that clears every label a run can show: the phase names, the
/// systems where there are several, the ref of a pull request and the
/// expression that is compared.
pub open spec fn planned_width(
    systems: Seq<Seq<char>>,
    pr: Option<u64>,
    compare: Option<Seq<char>>,
) -> nat {
    let w = if systems.len() > 1 {
        systems_width(systems, widest_phase())
    } else {
        widest_phase()
    };
    let w = match pr {
        Some(n) => larger(
            w,
            2 + ("refs/pull/"@ + text::decimal(n as nat) + "/merge"@).len(),
        ),
        None => w,
    };
    match compare {
        Some(c) => larger(w, 2 + c.len()),
        None => w,
    }
}

proof fn lemma_widest_phase()
    ensures
        widest_phase() == 11,
{
    reveal_strlit("fetch");
    reveal_strlit("download");
    reveal_strlit("enumerate");
    reveal_strlit("evaluate");
    reveal_strlit("tests");
    reveal_strlit("instantiate");
    reveal_strlit("probe");
}

fn wider(w: usize, label: &str) -> (r: usize)
    requires
        label@.len() + 2 <= usize::MAX,
    ensures
        r == larger(w as nat, 2 + label@.len()),
{
    let own: usize = 2 + label.unicode_len();
    if own > w {
        own
    } else {
        w
    }
}

/// The width at which the number columns start, so that they never shift as
/// phases appear.
pub fn plan_label_width(systems: &[String], pr: Option<u64>, compare: Option<&str>) -> (w: usize)
    requires
        forall|i: int| 0 <= i < systems@.len() ==> (#[trigger] systems@[i])@.len() + 2 <= usize::MAX,
        compare is Some ==> compare->0@.len() + 2 <= usize::MAX,
    ensures
        w == planned_width(
            text::texts(systems@),
            pr,
            match compare {
                Some(c) => Some(c@),
                None => None,
            },
        ),
{
    proof {
        lemma_widest_phase();
    }
    let mut w: usize = 11;
    if systems.len() > 1 {
        let ghost all = text::texts(systems@);
        let mut i: usize = 0;
        assert(all.take(0).len() == 0);
        while i < systems.len()
            invariant
                i <= systems@.len(),
                all == text::texts(systems@),
                forall|i: int|
                    0 <= i < systems@.len() ==> (#[trigger] systems@[i])@.len() + 2 <= usize::MAX,
                w == systems_width(all.take(i as int), 11),
            decreases systems@.len() - i,
        {
            proof {
                assert(all.take(i + 1).drop_last() =~= all.take(i as int));
                assert(all.take(i + 1).last() == all[i as int]);
            }
            w = wider(w, systems[i].as_str());
            i = i + 1;
        }
        assert(all.take(i as int) =~= all);
    }
    if let Some(n) = pr {
        let mut label = "refs/pull/".to_owned();
        let d = text::decimal_u64(n);
        label.append(d.as_str());
        label.append("/merge");
        proof {
            reveal_strlit("refs/pull/");
            reveal_strlit("/merge");
            text::lemma_decimal_length(n);
        }
        w = wider(w, label.as_str());
    }
    if let Some(c) = compare {
        w = wider(w, c);
    }
    w
}

/// The planned width clears every system name, where systems are shown.
pub proof fn law_planned_width_clears_systems(
    systems: Seq<Seq<char>>,
    pr: Option<u64>,
    compare: Option<Seq<char>>,
    i: int,
)
    requires
        systems.len() > 1,
        0 <= i < systems.len(),
    ensures
        planned_width(systems, pr, compare) >= 2 + systems[i].len(),
        planned_width(systems, pr, compare) >= widest_phase(),
{
    lemma_systems_width(systems, widest_phase(), i);
}

proof fn lemma_systems_width(systems: Seq<Seq<char>>, least: nat, i: int)
    requires
        0 <= i < systems.len(),
    ensures
        systems_width(systems, least) >= 2 + systems[i].len(),
        systems_width(systems, least) >= least,
    decreases systems.len(),
{
    if systems.len() > 1 {
        if i < systems.len() - 1 {
            lemma_systems_width(systems.drop_last(), least, i);
        } else {
            lemma_systems_width(systems.drop_last(), least, 0);
        }
    } else {
        assert(systems_width(systems.drop_last(), least) == least);
    }
}

/// The rule between phases: a blank line, three hyphens, dim where colored, and
/// a blank line.
pub fn separator(color: bool) -> (r: String)
    ensures
        r@ == "\n"@ + tinted("---"@, DIM@, color) + "\n\n"@,
{
    let mut r = "\n".to_owned();
    let rule = tint("---".to_owned(), DIM, color);
    r.append(rule.as_str());
    r.append("\n\n");
    r
}

// --- what the tree and the block promise -------------------------------------

/// A new node waits, with nothing counted and no line in the log; it is what it was
/// made as.
pub proof fn law_new_nodes_wait(
    label: Seq<char>,
    depth: nat,
    counter: bool,
    percent: bool,
    total: i64,
    sort_key: i64,
)
    ensures
        ({
            let n = fresh(label, depth, counter, percent, total, sort_key);
            &&& n.label == label && n.depth == depth && n.counter == counter && n.percent == percent
            &&& n.total == total && n.sort_key == sort_key
            &&& n.state == State::Wait && n.count == 0 && !n.emitted
            &&& n.shards_done == 0 && n.shards_running == 0 && n.shards_total == 0
        }),
{
}

/// Starting a node makes one that waits run, finishing makes any done, and neither
/// changes its numbers.
pub proof fn law_nodes_start_and_finish(n: NodeData)
    ensures
        n.state == State::Wait ==> n.running().state == State::Run,
        n.running() == (NodeData { state: n.running().state, ..n }),
        n.done().state == State::Done,
        n.done() == (NodeData { state: State::Done, ..n }),
        n.done().running() == n.done(),
{
}

/// What is streamed is added where a node counts; a pinned count is what it is
/// pinned to, and the node is done. A node without a count never gets one.
pub proof fn law_counts_add_up(n: NodeData, a: i64, b: i64)
    requires
        i64::MIN <= n.count + a <= i64::MAX,
        i64::MIN <= n.count + a + b <= i64::MAX,
    ensures
        n.counter ==> n.streamed(a).count == n.count + a,
        n.counter ==> n.streamed(a).streamed(b).count == n.count + a + b,
        n.counter ==> n.pinned(b).count == b,
        !n.counter ==> n.streamed(a) == n && n.pinned(b).count == n.count,
        n.pinned(b).state == State::Done,
        n.streamed(a).state == n.state,
{
}

/// Shards that begin and end are counted where a node shows a percentage, and cancel
/// out; the numbers of shards are what is said of them.
pub proof fn law_shards_begin_and_end(n: NodeData, done: usize, total: usize)
    requires
        n.shards_running < i64::MAX,
        done <= i64::MAX,
        total <= i64::MAX,
    ensures
        n.percent ==> n.shard_begun().shards_running == n.shards_running + 1,
        n.shard_begun().shard_ended() == n,
        n.percent ==> n.progressed(done).shards_done == done,
        n.percent ==> n.sharded(total).shards_total == total,
        !n.percent ==> n.shard_begun() == n && n.progressed(done) == n && n.sharded(total) == n,
        n.progressed(done).state == n.state,
        n.progressed(done).shards_total == n.shards_total,
        n.sharded(total).shards_done == n.shards_done,
{
    assert(n.shard_begun().shard_ended() =~= n);
    assert(n.progressed(done) =~= (NodeData { shards_done: n.progressed(done).shards_done, ..n }));
    assert(n.sharded(total) =~= (NodeData { shards_total: n.sharded(total).shards_total, ..n }));
}

/// The clock shows hours, minutes and seconds, the larger ones only where there are
/// any, the smaller ones with two digits behind a larger one, at the end of eight
/// columns.
pub proof fn law_clock_shows_hours_minutes_and_seconds(h: nat, m: nat, s: nat)
    requires
        m < 60,
        s < 60,
    ensures
        ({
            let mm = seq![text::digit(m / 10), text::digit(m % 10)];
            let ss = seq![text::digit(s / 10), text::digit(s % 10)];
            let c = if h > 0 {
                text::decimal(h) + seq!['h'] + mm + seq!['m'] + ss + seq!['s']
            } else if m > 0 {
                text::decimal(m) + seq!['m'] + ss + seq!['s']
            } else {
                text::decimal(s) + seq!['s']
            };
            clock(3600 * h + 60 * m + s) == text::right_aligned(c, 8)
        }),
{
    let secs = 3600 * h + 60 * m + s;
    assert(secs / 3600 == h);
    assert(secs / 60 % 60 == m);
    assert(secs % 60 == s);
    lemma_two_digits(m);
    lemma_two_digits(s);
}

proof fn lemma_two_digits(n: nat)
    requires
        n < 60,
    ensures
        two_digits(n) == seq![text::digit(n / 10), text::digit(n % 10)],
{
    reveal_with_fuel(text::decimal, 2);
    if n < 10 {
        assert(text::digit(0) == '0');
        assert(two_digits(n) =~= seq![text::digit(n / 10), text::digit(n % 10)]);
    } else {
        assert(text::decimal(n / 10) =~= seq![text::digit(n / 10)]);
        assert(two_digits(n) =~= seq![text::digit(n / 10), text::digit(n % 10)]);
    }
}

/// A percentage is the share of the shards, a running one counted as half, rounded
/// down and never over a hundred.
pub proof fn law_percentages_are_shares_of_shards(n: NodeData)
    requires
        n.shards_done >= 0,
        n.shards_running >= 0,
        n.shards_total > 0,
    ensures
        percentage(n) <= 100,
        n.shards_done >= n.shards_total ==> percentage(n) == 100,
        percentage(n) < 100 ==> percentage(n) * (2 * n.shards_total) <= (2 * n.shards_done
            + n.shards_running) * 100 < (percentage(n) + 1) * (2 * n.shards_total),
        n.shards_done == 0 && n.shards_running == 0 ==> percentage(n) == 0,
{
    let done = (2 * n.shards_done + n.shards_running) * 100;
    let whole = 2 * n.shards_total;
    vstd::arithmetic::div_mod::lemma_fundamental_div_mod(done, whole);
    vstd::arithmetic::div_mod::lemma_mod_bound(done, whole);
    let q = done / whole;
    assert(q >= 0) by {
        vstd::arithmetic::div_mod::lemma_div_pos_is_pos(done, whole);
    }
    assert(q * whole <= done < (q + 1) * whole) by (nonlinear_arith)
        requires
            done == whole * q + done % whole,
            0 <= done % whole < whole,
    ;
    if n.shards_done >= n.shards_total {
        assert(done >= 100 * whole);
        if q < 100 {
            assert((q + 1) * whole <= 100 * whole) by (nonlinear_arith)
                requires
                    q + 1 <= 100,
                    whole > 0,
            ;
        }
    }
    if n.shards_done == 0 && n.shards_running == 0 {
        assert(done == 0);
        if q > 0 {
            assert(q * whole >= whole) by (nonlinear_arith)
                requires
                    q >= 1,
                    whole > 0,
            ;
        }
    }
}

/// The colors tell the states apart: what runs is yellow, what is done is green, and
/// what waits is blue.
pub proof fn law_colors_tell_states_apart(a: State, b: State)
    ensures
        color_of(State::Run) == seq!['\x1b', '[', '3', '3', 'm'],
        color_of(State::Done) == seq!['\x1b', '[', '3', '2', 'm'],
        color_of(State::Wait) == seq!['\x1b', '[', '3', '4', 'm'],
        color_of(a) == color_of(b) ==> a == b,
{
    reveal_strlit("\x1b[33m");
    reveal_strlit("\x1b[32m");
    reveal_strlit("\x1b[34m");
    assert(YELLOW@ =~= seq!['\x1b', '[', '3', '3', 'm']);
    assert(GREEN@ =~= seq!['\x1b', '[', '3', '2', 'm']);
    assert(BLUE@ =~= seq!['\x1b', '[', '3', '4', 'm']);
    assert(color_of(a)[3] == color_of(b)[3] || color_of(a) != color_of(b));
}

/// A line begins with its label, two spaces in for each level; a counting one shows
/// its count in its column, and behind it the percentage of its shards where it has
/// one, else its total where that is known.
pub proof fn law_lines_show_label_and_numbers(n: NodeData, eff: State, left_w: nat)
    ensures
        text::begins(
            row_text(n, eff, left_w, false),
            Seq::new(2 * n.depth, |i: int| ' ') + n.label,
        ),
        !n.counter ==> row_text(n, eff, left_w, false) == Seq::new(2 * n.depth, |i: int| ' ')
            + n.label,
        n.counter ==> text::occurs(
            row_text(n, eff, left_w, false),
            "  "@ + text::right_aligned(text::signed_decimal(n.count as int), 6),
        ),
        n.counter && n.percent ==> text::ends(
            row_text(n, eff, left_w, false),
            text::right_aligned(text::decimal(percentage(n)), 6) + seq!['%'],
        ),
        n.counter && !n.percent && n.total >= 0 ==> text::ends(
            row_text(n, eff, left_w, false),
            " / "@ + text::right_aligned(text::signed_decimal(n.total as int), 6),
        ),
        n.counter && !n.percent && n.total < 0 ==> text::ends(
            row_text(n, eff, left_w, false),
            "  "@ + text::right_aligned(text::signed_decimal(n.count as int), 6),
        ),
{
    let own = Seq::new(2 * n.depth, |i: int| ' ') + n.label;
    assert(indented(n) =~= own);
    let t = row_text(n, eff, left_w, false);
    let e = Seq::<char>::empty();
    if !n.counter {
        assert(t =~= own + e);
        text::law_prefixes_and_suffixes(t, own, e);
    } else {
        let left = text::left_aligned(own, left_w);
        text::law_aligning_fills_with_spaces(own, left_w);
        text::law_prefixes_and_suffixes(left, own, e);
        let count = "  "@ + text::right_aligned(text::signed_decimal(n.count as int), 6);
        let right = right_column(n);
        assert(t =~= left + count + right);
        let rest = left.skip(own.len() as int) + count + right;
        assert(t =~= own + rest);
        text::law_prefixes_and_suffixes(t, own, rest);
        if n.percent {
            let last = text::right_aligned(text::decimal(percentage(n)), 6) + seq!['%'];
            assert(right =~= "   "@ + last);
            assert(t =~= (left + count + "   "@) + last);
            text::law_prefixes_and_suffixes(t, last, left + count + "   "@);
        } else if n.total >= 0 {
            text::law_prefixes_and_suffixes(t, right, left + count);
        } else {
            assert(t =~= left + count);
            text::law_prefixes_and_suffixes(t, count, left);
        }
    }
}

/// A row is above another where that one follows and is deeper, with only deeper
/// rows between; a row with nothing deeper right behind it is a leaf.
pub proof fn law_deeper_rows_are_below(rows: Seq<NodeData>, i: int, k: int)
    requires
        0 <= i < rows.len(),
    ensures
        i + 1 < rows.len() ==> (below(rows, i, i + 1) <==> rows[i + 1].depth > rows[i].depth),
        k + 1 < rows.len() && below(rows, i, k) ==> (below(rows, i, k + 1) <==> rows[k + 1].depth
            > rows[i].depth),
        below(rows, i, k) ==> i < k < rows.len() && rows[k].depth > rows[i].depth,
        leaf(rows, i) <==> !below(rows, i, i + 1),
{
}

/// A leaf shows its own state. Any other row runs exactly while a leaf below it runs,
/// or some below it are done and some wait.
pub proof fn law_rows_show_the_states_below(rows: Seq<NodeData>, i: int, k: int)
    requires
        0 <= i < rows.len(),
    ensures
        leaf(rows, i) ==> rolled(rows, i) == rows[i].state,
        leaf_below(rows, i, k) && rows[k].state == State::Run ==> rolled(rows, i) == State::Run,
        leaf_below(rows, i, k) ==> (rolled(rows, i) == State::Run <==> (exists|j: int| #[trigger]
            leaf_below(rows, i, j) && rows[j].state == State::Run) || ((exists|j: int| #[trigger]
            leaf_below(rows, i, j) && rows[j].state == State::Done) && (exists|j: int| #[trigger]
            leaf_below(rows, i, j) && rows[j].state == State::Wait))),
{
    if leaf(rows, i) {
        assert forall|j: int| !#[trigger] leaf_below(rows, i, j) by {
            if below(rows, i, j) {
                assert(rows[i + 1].depth > rows[i].depth);
            }
        }
    }
    if leaf_below(rows, i, k) {
        assert(rows[k].state == State::Wait || rows[k].state == State::Run || rows[k].state
            == State::Done);
        assert(some_leaf(rows, i, rows[k].state));
    }
}

/// The column of the labels is as wide as the widest label with its indentation, and
/// no narrower than the least; it is no wider than it has to be.
pub proof fn law_labels_fit_their_column(rows: Seq<NodeData>, least: nat, i: int)
    ensures
        label_width(rows, least) >= least,
        0 <= i < rows.len() ==> label_width(rows, least) >= 2 * rows[i].depth + rows[i].label.len(),
        label_width(rows, least) > least ==> exists|k: int|
            0 <= k < rows.len() && label_width(rows, least) == 2 * (#[trigger] rows[k]).depth
                + rows[k].label.len(),
    decreases rows.len(),
{
    if rows.len() > 0 {
        let before = rows.drop_last();
        law_labels_fit_their_column(before, least, i);
        if 0 <= i < before.len() {
            assert(before[i] == rows[i]);
        }
        assert(rows[rows.len() - 1] == rows.last());
        if label_width(rows, least) > least && label_width(rows, least) == label_width(
            before,
            least,
        ) {
            let k = choose|k: int|
                0 <= k < before.len() && label_width(before, least) == 2 * (
                #[trigger] before[k]).depth + before[k].label.len();
            assert(before[k] == rows[k]);
            assert(label_width(rows, least) == 2 * rows[k].depth + rows[k].label.len());
        }
    }
}

/// A frame has a line for each row, in order, in the state that the row shows, and
/// then the footer; an empty tree has none.
pub proof fn law_frames_show_every_row(t: Tree, mark: char, secs: nat, i: int)
    ensures
        t.rows().len() == 0 ==> t.frame(mark, secs).len() == 0,
        t.rows().len() > 0 ==> t.frame(mark, secs).len() == t.rows().len() + 1,
        0 <= i < t.rows().len() ==> t.frame(mark, secs)[i] == row_text(
            t.rows()[i],
            rolled(t.rows(), i),
            label_width(t.rows(), t.least()),
            t.colored(),
        ),
        t.rows().len() > 0 ==> t.frame(mark, secs).last() == footer(mark, t.colored(), secs),
        footer(mark, false, secs) == seq![mark, ' '] + clock(secs),
{
    assert(footer(mark, false, secs) =~= seq![mark, ' '] + clock(secs));
}

/// The spinner turns with every tick and is back where it was after ten.
pub proof fn law_spinner_turns(t: nat, k: nat)
    requires
        k < 10,
    ensures
        spinner_mark(t + 10) == spinner_mark(t),
        0 < k ==> spinner_mark(t + k) != spinner_mark(t),
{
}

/// Lines are cut to the columns of the screen, and to eighty where they are not
/// known; what is cut off of printable ASCII is what does not fit.
pub proof fn law_lines_are_cut_to_the_columns(is_term: bool, w: u16, s: Seq<char>, n: usize)
    ensures
        (Screen { is_term, columns: Some(w) }).width_of() == w,
        (Screen { is_term, columns: None }).width_of() == 80,
        at_most(s, n).len() <= n,
        at_most(s, n) == s.take(at_most(s, n).len() as int),
        s.len() <= n ==> at_most(s, n) == s,
        s.len() > n ==> at_most(s, n).len() == n,
{
    assert(s.take(s.len() as int) =~= s);
}

/// Before anything is written, the cursor goes up by as many rows as the block has,
/// and stays where there is none.
pub proof fn law_drawing_begins_at_the_top(n: nat)
    ensures
        n > 0 ==> text::ends(to_top(n), "\x1b["@ + text::decimal(n) + seq!['A']),
        to_top(0) == "\x1b[?2026h"@,
        text::begins(to_top(n), "\x1b[?2026h"@),
{
    let s = "\x1b[?2026h"@;
    let up = "\x1b["@ + text::decimal(n) + seq!['A'];
    let e = Seq::<char>::empty();
    if n > 0 {
        assert(to_top(n) =~= s + up);
        text::law_prefixes_and_suffixes(to_top(n), up, s);
        text::law_prefixes_and_suffixes(to_top(n), s, up);
    } else {
        assert(to_top(n) =~= s + e);
        text::law_prefixes_and_suffixes(to_top(n), s, e);
    }
}

/// Redrawing begins at the top of the block, shows every line that does not stand
/// already, cut to the width, and clears what is left of a longer block.
pub proof fn law_redrawing_shows_what_changed(d: Live, lines: Seq<Seq<char>>, w: usize, i: int)
    ensures
        text::begins(d.drawing(lines, w), to_top(d.rows_drawn())),
        text::ends(d.drawing(lines, w), "\x1b[?2026l"@),
        lines.len() < d.rows_drawn() ==> text::ends(
            d.drawing(lines, w),
            "\x1b[J"@ + "\x1b[?2026l"@,
        ),
        0 <= i < lines.len() && (w != d.width_then() || lines.len() != d.standing().len()
            || d.standing()[i] != lines[i]) ==> text::occurs(
            d.drawing(lines, w),
            cut(lines[i], w) + "\x1b[K"@ + "\r\n"@,
        ),
{
    let full = w != d.width_then() || lines.len() != d.standing().len();
    let top = to_top(d.rows_drawn());
    let n = lines.len() as int;
    let body = written(lines, d.standing(), full, w, n);
    let erase = if lines.len() < d.rows_drawn() {
        "\x1b[J"@
    } else {
        Seq::empty()
    };
    let end = "\x1b[?2026l"@;
    let t = d.drawing(lines, w);
    assert(t =~= top + (seq!['\r'] + body + erase + end));
    text::law_prefixes_and_suffixes(t, top, seq!['\r'] + body + erase + end);
    text::law_prefixes_and_suffixes(t, end, top + seq!['\r'] + body + erase);
    assert(t =~= (top + seq!['\r'] + body) + (erase + end));
    text::law_prefixes_and_suffixes(t, erase + end, top + seq!['\r'] + body);
    if 0 <= i < lines.len() && (full || d.standing()[i] != lines[i]) {
        lemma_written_occurs(lines, d.standing(), full, w, n, i);
        assert(t =~= (top + seq!['\r']) + body + (erase + end));
        text::lemma_occurs_within(
            t,
            top + seq!['\r'],
            body,
            erase + end,
            cut(lines[i], w) + "\x1b[K"@ + "\r\n"@,
        );
    }
}

proof fn lemma_written_occurs(
    lines: Seq<Seq<char>>,
    prev: Seq<Seq<char>>,
    full: bool,
    w: usize,
    n: int,
    i: int,
)
    requires
        0 <= i < n <= lines.len(),
        full || i >= prev.len() || prev[i] != lines[i],
    ensures
        text::occurs(
            written(lines, prev, full, w, n),
            cut(lines[i], w) + "\x1b[K"@ + "\r\n"@,
        ),
    decreases n,
{
    let all = written(lines, prev, full, w, n);
    let before = written(lines, prev, full, w, n - 1);
    let e = Seq::<char>::empty();
    let part = cut(lines[i], w) + "\x1b[K"@ + "\r\n"@;
    if i == n - 1 {
        assert(all =~= before + part + e);
    } else {
        lemma_written_occurs(lines, prev, full, w, n - 1, i);
        let rest = all.skip(before.len() as int);
        assert(all =~= e + before + rest);
        text::lemma_occurs_within(all, e, before, rest, part);
    }
}

/// Lines that stand already are only stepped over.
pub proof fn law_standing_lines_are_stepped_over(lines: Seq<Seq<char>>, w: usize, n: int)
    requires
        0 <= n <= lines.len(),
    ensures
        written(lines, lines, false, w, n).len() == 2 * n,
        forall|k: int|
            0 <= k < n ==> #[trigger] written(lines, lines, false, w, n)[2 * k] == '\r' && written(
                lines,
                lines,
                false,
                w,
                n,
            )[2 * k + 1] == '\n',
    decreases n,
{
    reveal_strlit("\r\n");
    if n > 0 {
        law_standing_lines_are_stepped_over(lines, w, n - 1);
        let before = written(lines, lines, false, w, n - 1);
        let all = written(lines, lines, false, w, n);
        assert(all =~= before + "\r\n"@);
        assert forall|k: int| 0 <= k < n implies #[trigger] all[2 * k] == '\r' && all[2 * k + 1]
            == '\n' by {
            if k < n - 1 {
                assert(all[2 * k] == before[2 * k]);
                assert(all[2 * k + 1] == before[2 * k + 1]);
            }
        }
    }
}

/// A message above the block shows each of its lines, cut to the width, on a row of
/// its own.
pub proof fn law_messages_show_every_line(lines: Seq<Seq<char>>, w: usize, n: int, i: int)
    requires
        0 <= i < n <= lines.len(),
    ensures
        text::occurs(noted(lines, w, n), cut(lines[i], w) + "\x1b[K\r\n"@),
    decreases n,
{
    let all = noted(lines, w, n);
    let before = noted(lines, w, n - 1);
    let last = cut(lines[n - 1], w) + "\x1b[K\r\n"@;
    let e = Seq::<char>::empty();
    assert(all =~= e + before + last);
    if i == n - 1 {
        assert(all =~= before + last + e);
    } else {
        law_messages_show_every_line(lines, w, n - 1, i);
        text::lemma_occurs_within(all, e, before, last, cut(lines[i], w) + "\x1b[K\r\n"@);
    }
}

/// The planned width clears whatever a run can show: the phases, the systems where
/// there are several, the ref of a pull request and the expression compared, each of
/// the latter two columns in; and it is no wider than the widest of them.
pub proof fn law_planned_width_clears_every_label(
    systems: Seq<Seq<char>>,
    pr: Option<u64>,
    compare: Option<Seq<char>>,
)
    ensures
        planned_width(systems, pr, compare) >= 11,
        pr is Some ==> planned_width(systems, pr, compare) >= 2 + ("refs/pull/"@ + text::decimal(
            pr->0 as nat,
        ) + "/merge"@).len(),
        compare is Some ==> planned_width(systems, pr, compare) >= 2 + compare->0.len(),
        planned_width(systems, pr, compare) == 11 || (pr is Some && planned_width(
            systems,
            pr,
            compare,
        ) == 2 + ("refs/pull/"@ + text::decimal(pr->0 as nat) + "/merge"@).len()) || (compare is Some
            && planned_width(systems, pr, compare) == 2 + compare->0.len()) || (systems.len() > 1
            && exists|i: int|
            0 <= i < systems.len() && planned_width(systems, pr, compare) == 2 + (
            #[trigger] systems[i]).len()),
{
    lemma_widest_phase();
    lemma_systems_width_tight(systems, 11);
}

proof fn lemma_systems_width_tight(systems: Seq<Seq<char>>, least: nat)
    ensures
        systems_width(systems, least) >= least,
        systems_width(systems, least) == least || exists|i: int|
            0 <= i < systems.len() && systems_width(systems, least) == 2 + (
            #[trigger] systems[i]).len(),
    decreases systems.len(),
{
    if systems.len() > 0 {
        let before = systems.drop_last();
        lemma_systems_width_tight(before, least);
        if systems_width(systems, least) == systems_width(before, least) {
            if systems_width(before, least) != least {
                let i = choose|i: int|
                    0 <= i < before.len() && systems_width(before, least) == 2 + (
                    #[trigger] before[i]).len();
                assert(before[i] == systems[i]);
                assert(systems_width(systems, least) == 2 + systems[i].len());
            }
        } else {
            assert(systems[systems.len() - 1] == systems.last());
        }
    }
}

/// A subtree goes behind all children of its phase whose keys are no larger, and
/// before the first one whose key is, but never out of its phase.
pub proof fn law_slots_are_found_by_key(rows: Seq<NodeData>, pd: nat, key: i64, i: int, m: int)
    requires
        0 <= i <= rows.len(),
    ensures
        i <= slot(rows, pd, key, i) <= rows.len(),
        i <= m < slot(rows, pd, key, i) ==> rows[m].depth > pd && (rows[m].depth == pd + 1
            ==> rows[m].sort_key <= key),
        slot(rows, pd, key, i) < rows.len() ==> rows[slot(rows, pd, key, i)].depth <= pd || (
        rows[slot(rows, pd, key, i)].depth == pd + 1 && rows[slot(rows, pd, key, i)].sort_key
            > key),
{
    lemma_slot(rows, pd, key, i);
}

/// Where the settings are as in another tree, all of them are.
pub proof fn law_settings_are_kept_together(a: Tree, b: Tree)
    requires
        a.set_as(b),
    ensures
        a.least() == b.least(),
        a.is_multi() == b.is_multi(),
        a.colored() == b.colored(),
{
}

/// Lines are cut to their width with nothing put at the end, and the printable ones are
/// those of characters from the space to the tilde.
pub proof fn law_lines_are_cut_without_a_mark(line: Seq<char>, w: usize)
    ensures
        cut(line, w) == truncated(line, w, Seq::empty()),
        printable(line) <==> forall|i: int| 0 <= i < line.len() ==> 32 <= #[trigger] line[i] <= 126,
{
    reveal_strlit("");
    assert(""@ =~= Seq::empty());
}

} // verus!
