//! Sorting, and sets and maps with text keys kept in key order.

use vstd::prelude::*;
use vstd::relations::*;

use crate::text;

verus! {

/// Values that are put in order by a key.
pub trait Ranked: Sized {
    /// What a value is ordered by.
    type Key;

    /// The key of a value.
    spec fn key(self) -> Self::Key;

    /// Whether the key `a` may stand before the key `b`.
    spec fn upto(a: Self::Key, b: Self::Key) -> bool;

    /// The order is total.
    proof fn order_is_total()
        ensures
            total_ordering(|a: Self::Key, b: Self::Key| Self::upto(a, b)),
    ;

    /// Whether `self` may stand before `other`.
    fn ranks_upto(&self, other: &Self) -> (r: bool)
        ensures
            r == Self::upto(self.key(), other.key()),
    ;
}

/// The keys of a list of values.
pub open spec fn keys_of<T: Ranked>(v: Seq<T>) -> Seq<T::Key> {
    v.map_values(|t: T| t.key())
}

/// The order of the keys of `T` as a relation.
pub open spec fn order_of<T: Ranked>() -> spec_fn(T::Key, T::Key) -> bool {
    |a: T::Key, b: T::Key| T::upto(a, b)
}

/// Whether the keys of `v` ascend.
pub open spec fn ascending<T: Ranked>(v: Seq<T>) -> bool {
    forall|i: int, j: int| 0 <= i < j < v.len() ==> T::upto(#[trigger] v[i].key(), #[trigger] v[j].key())
}

/// Merges two ascending lists, emptying them.
fn merge<T: Ranked>(a: Vec<T>, b: Vec<T>) -> (r: Vec<T>)
    requires
        ascending(a@),
        ascending(b@),
    ensures
        ascending(r@),
        r@.to_multiset() == a@.to_multiset().add(b@.to_multiset()),
{
    let mut a = a;
    let mut b = b;
    let ghost all = a@.to_multiset().add(b@.to_multiset());
    // The merged list, last value first.
    let mut down: Vec<T> = Vec::new();
    proof {
        T::order_is_total();
        vstd::seq_lib::to_multiset_len(down@);
        assert(down@.to_multiset() =~= vstd::multiset::Multiset::empty());
    }
    while a.len() > 0 || b.len() > 0
        invariant
            ascending(a@),
            ascending(b@),
            total_ordering(|x: T::Key, y: T::Key| T::upto(x, y)),
            forall|i: int, j: int|
                0 <= i < j < down@.len() ==> T::upto(#[trigger] down@[j].key(), #[trigger] down@[i].key()),
            forall|i: int, j: int|
                0 <= i < a@.len() && 0 <= j < down@.len() ==> T::upto(
                    #[trigger] a@[i].key(),
                    #[trigger] down@[j].key(),
                ),
            forall|i: int, j: int|
                0 <= i < b@.len() && 0 <= j < down@.len() ==> T::upto(
                    #[trigger] b@[i].key(),
                    #[trigger] down@[j].key(),
                ),
            a@.to_multiset().add(b@.to_multiset()).add(down@.to_multiset()) =~= all,
        decreases a.len() + b.len(),
    {
        broadcast use vstd::seq_lib::group_to_multiset_ensures;

        let ghost a0 = a@;
        let ghost b0 = b@;
        let ghost d0 = down@;
        let from_a = if a.len() == 0 {
            false
        } else if b.len() == 0 {
            true
        } else {
            b[b.len() - 1].ranks_upto(&a[a.len() - 1])
        };
        let ghost rel = |x: T::Key, y: T::Key| T::upto(x, y);
        if from_a {
            let t = a.pop().unwrap();
            assert(a0 =~= a@.push(t));
            assert forall|i: int| 0 <= i < b@.len() implies T::upto(
                #[trigger] b@[i].key(),
                t.key(),
            ) by {
                let l = b@[b@.len() - 1].key();
                assert(rel(l, t.key()));
                assert(rel(b@[i].key(), l)) by {
                    assert(rel(l, l));
                }
                assert(rel(b@[i].key(), t.key()));
            }
            assert(forall|i: int| 0 <= i < a@.len() ==> a0[i] == a@[i]);
            assert(a0[a0.len() - 1] == t);
            down.push(t);
        } else {
            let t = b.pop().unwrap();
            assert(b0 =~= b@.push(t));
            assert forall|i: int| 0 <= i < a@.len() implies T::upto(
                #[trigger] a@[i].key(),
                t.key(),
            ) by {
                let l = a@[a@.len() - 1].key();
                assert(rel(l, t.key()) || rel(t.key(), l));
                assert(rel(a@[i].key(), l)) by {
                    assert(rel(l, l));
                }
                assert(rel(a@[i].key(), t.key()));
            }
            assert(forall|i: int| 0 <= i < b@.len() ==> b0[i] == b@[i]);
            assert(b0[b0.len() - 1] == t);
            down.push(t);
        }
    }
    proof {
        vstd::seq_lib::to_multiset_len(a@);
        vstd::seq_lib::to_multiset_len(b@);
        assert(a@.to_multiset() =~= vstd::multiset::Multiset::empty());
        assert(b@.to_multiset() =~= vstd::multiset::Multiset::empty());
        assert(down@.to_multiset() =~= all);
    }
    let mut r: Vec<T> = Vec::new();
    proof {
        vstd::seq_lib::to_multiset_len(r@);
        assert(r@.to_multiset() =~= vstd::multiset::Multiset::empty());
    }
    while down.len() > 0
        invariant
            ascending(r@),
            forall|i: int, j: int|
                0 <= i < j < down@.len() ==> T::upto(#[trigger] down@[j].key(), #[trigger] down@[i].key()),
            forall|i: int, j: int|
                0 <= i < r@.len() && 0 <= j < down@.len() ==> T::upto(
                    #[trigger] r@[i].key(),
                    #[trigger] down@[j].key(),
                ),
            r@.to_multiset().add(down@.to_multiset()) =~= all,
        decreases down.len(),
    {
        broadcast use vstd::seq_lib::group_to_multiset_ensures;

        let ghost d0 = down@;
        let t = down.pop().unwrap();
        assert(d0 =~= down@.push(t));
        assert(forall|i: int| 0 <= i < down@.len() ==> d0[i] == down@[i]);
        assert(d0[d0.len() - 1] == t);
        r.push(t);
    }
    proof {
        vstd::seq_lib::to_multiset_len(down@);
        assert(down@.to_multiset() =~= vstd::multiset::Multiset::empty());
        assert(r@.to_multiset() =~= all);
    }
    r
}

/// The values of `v` in ascending order of their keys.
pub fn sort_values<T: Ranked>(v: Vec<T>) -> (r: Vec<T>)
    ensures
        ascending(r@),
        r@.to_multiset() == v@.to_multiset(),
    decreases v.len(),
{
    let mut a = v;
    let n = a.len();
    if n < 2 {
        return a;
    }
    let ghost all = a@;
    let b = a.split_off(n / 2);
    proof {
        assert(all =~= a@ + b@);
        vstd::seq_lib::lemma_multiset_commutative(a@, b@);
    }
    let x = sort_values(a);
    let y = sort_values(b);
    merge(x, y)
}

proof fn lemma_map_values_multiset<A, B>(x: Seq<A>, y: Seq<A>, f: spec_fn(A) -> B)
    requires
        x.to_multiset() == y.to_multiset(),
    ensures
        x.map_values(f).to_multiset() == y.map_values(f).to_multiset(),
    decreases x.len(),
{
    broadcast use vstd::seq_lib::group_to_multiset_ensures;

    if x.len() == 0 {
        assert(x.to_multiset().len() == 0);
        assert(y.to_multiset().len() == 0);
        assert(x.map_values(f) =~= y.map_values(f));
    } else {
        assert(x.to_multiset().count(x[0]) > 0) by {
            assert(x.contains(x[0]));
        }
        assert(y.contains(x[0]));
        let i = choose|i: int| 0 <= i < y.len() && y[i] == x[0];
        assert(x.remove(0).to_multiset() =~= y.remove(i).to_multiset());
        lemma_map_values_multiset(x.remove(0), y.remove(i), f);
        assert(x.map_values(f).remove(0) =~= x.remove(0).map_values(f));
        assert(y.map_values(f).remove(i) =~= y.remove(i).map_values(f));
        let mx = x.map_values(f);
        let my = y.map_values(f);
        assert(mx.remove(0).insert(0, mx[0]) =~= mx);
        assert(my.remove(i).insert(i, my[i]) =~= my);
        assert(mx.to_multiset() =~= mx.remove(0).to_multiset().insert(mx[0]));
        assert(my.to_multiset() =~= my.remove(i).to_multiset().insert(my[i]));
    }
}

/// The values of `v` in ascending order of their keys: the keys come out as
/// the sorted keys of `v`.
pub fn sort<T: Ranked>(v: Vec<T>) -> (r: Vec<T>)
    ensures
        keys_of(r@) == keys_of(v@).sort_by(order_of::<T>()),
        r@.to_multiset() == v@.to_multiset(),
{
    let ghost given = v@;
    let r = sort_values(v);
    proof {
        let rel = order_of::<T>();
        T::order_is_total();
        assert(total_ordering(rel)) by {
            assert(rel =~= (|a: T::Key, b: T::Key| T::upto(a, b)));
        }
        keys_of(given).lemma_sort_by_ensures(rel);
        lemma_map_values_multiset(r@, given, |t: T| t.key());
        assert(sorted_by(keys_of(r@), rel)) by {
            assert forall|i: int, j: int| 0 <= i < j < keys_of(r@).len() implies #[trigger] rel(
                keys_of(r@)[i],
                keys_of(r@)[j],
            ) by {
                assert(T::upto(r@[i].key(), r@[j].key()));
            }
        }
        vstd::seq_lib::lemma_sorted_unique(keys_of(r@), keys_of(given).sort_by(rel), rel);
    }
    r
}

impl Ranked for String {
    type Key = Seq<char>;

    open spec fn key(self) -> Seq<char> {
        self@
    }

    open spec fn upto(a: Seq<char>, b: Seq<char>) -> bool {
        text::lex_upto(a, b)
    }

    proof fn order_is_total() {
        let rel = |a: Seq<char>, b: Seq<char>| Self::upto(a, b);
        assert forall|a: Seq<char>, b: Seq<char>| #[trigger] rel(a, b) || #[trigger] rel(b, a) by {
            text::lemma_lex_order(a, b, a);
        }
        assert forall|a: Seq<char>, b: Seq<char>| #[trigger]
            rel(a, b) && #[trigger] rel(b, a) implies a == b by {
            text::lemma_lex_order(a, b, a);
        }
        assert(reflexive(rel));
        assert forall|a: Seq<char>, b: Seq<char>, c: Seq<char>| #[trigger]
            rel(a, b) && #[trigger] rel(b, c) implies rel(a, c) by {
            text::lemma_lex_order(a, b, c);
        }
        assert(total_ordering(rel));
        assert(rel =~= (|a: Self::Key, b: Self::Key| Self::upto(a, b)));
    }

    fn ranks_upto(&self, other: &Self) -> (r: bool) {
        proof {
            text::lemma_lex_order(self@, other@, self@);
        }
        !text::before(other.as_str(), self.as_str())
    }
}

/// A list of texts in lexicographic order.
pub open spec fn in_order(s: Seq<Seq<char>>) -> Seq<Seq<char>> {
    s.sort_by(|a: Seq<char>, b: Seq<char>| text::lex_upto(a, b))
}

/// A list of strings in lexicographic order.
pub fn sort_strings(v: Vec<String>) -> (r: Vec<String>)
    ensures
        text::texts(r@) == in_order(text::texts(v@)),
        r@.to_multiset() == v@.to_multiset(),
{
    let ghost given = v@;
    let r = sort(v);
    proof {
        assert(keys_of(given) =~= text::texts(given));
        assert(keys_of(r@) =~= text::texts(r@));
        assert(order_of::<String>() =~= (|a: Seq<char>, b: Seq<char>| text::lex_upto(a, b)));
    }
    r
}

// --- sets and maps with text keys --------------------------------------------

/// Whether the keys ascend strictly.
pub open spec fn strictly_ascending(keys: Seq<Seq<char>>) -> bool {
    forall|i: int, j: int| 0 <= i < j < keys.len() ==> text::lex_before(#[trigger] keys[i], #[trigger] keys[j])
}

/// Where `key` stands among strictly ascending keys, or would.
fn locate(keys: &Vec<String>, key: &str) -> (at: usize)
    requires
        strictly_ascending(text::texts(keys@)),
    ensures
        at <= keys.len(),
        forall|i: int| 0 <= i < at ==> text::lex_before(#[trigger] text::texts(keys@)[i], key@),
        forall|i: int| at <= i < keys@.len() ==> !text::lex_before(#[trigger] text::texts(keys@)[i], key@),
{
    let mut lo: usize = 0;
    let mut hi: usize = keys.len();
    while lo < hi
        invariant
            lo <= hi <= keys.len(),
            strictly_ascending(text::texts(keys@)),
            forall|i: int| 0 <= i < lo ==> text::lex_before(#[trigger] text::texts(keys@)[i], key@),
            forall|i: int| hi <= i < keys@.len() ==> !text::lex_before(#[trigger] text::texts(keys@)[i], key@),
        decreases hi - lo,
    {
        let mid: usize = lo + (hi - lo) / 2;
        assert(text::texts(keys@)[mid as int] == keys@[mid as int]@);
        if text::before(keys[mid].as_str(), key) {
            assert forall|i: int| 0 <= i < mid + 1 implies text::lex_before(
                #[trigger] text::texts(keys@)[i],
                key@,
            ) by {
                text::lemma_lex_order(text::texts(keys@)[i], text::texts(keys@)[mid as int], key@);
            }
            lo = mid + 1;
        } else {
            assert forall|i: int| mid <= i < keys@.len() implies !text::lex_before(
                #[trigger] text::texts(keys@)[i],
                key@,
            ) by {
                text::lemma_lex_order(text::texts(keys@)[mid as int], text::texts(keys@)[i], key@);
            }
            hi = mid;
        }
    }
    lo
}

/// A set of texts, kept in order.
#[derive(Clone, Debug, PartialEq, Eq)]
pub struct StringSet {
    items: Vec<String>,
}

impl StringSet {
    /// The members, in order.
    pub closed spec fn members(self) -> Seq<Seq<char>> {
        text::texts(self.items@)
    }

    /// The members ascend, so that none occurs twice.
    pub closed spec fn wf(self) -> bool {
        strictly_ascending(text::texts(self.items@))
    }

    /// The set of the members.
    pub open spec fn view(self) -> Set<Seq<char>> {
        self.members().to_set()
    }

    /// The members of a set ascend.
    pub proof fn lemma_members_ascend(self)
        requires
            self.wf(),
        ensures
            strictly_ascending(self.members()),
    {
    }

    /// The empty set.
    pub fn new() -> (r: StringSet)
        ensures
            r.wf(),
            r@ == Set::<Seq<char>>::empty(),
            r.members().len() == 0,
    {
        let r = StringSet { items: Vec::new() };
        assert(r@ =~= Set::<Seq<char>>::empty());
        r
    }

    /// How many members there are.
    pub fn len(&self) -> (n: usize)
        ensures
            n == self.members().len(),
    {
        self.items.len()
    }

    /// Whether there is no member.
    pub fn is_empty(&self) -> (r: bool)
        ensures
            r == (self@ =~= Set::<Seq<char>>::empty()),
            r == (self.members().len() == 0),
    {
        let r = self.items.len() == 0;
        proof {
            if !r {
                assert(self.members().contains(self.members()[0]));
                assert(self@.contains(self.members()[0]));
            }
        }
        r
    }

    /// The member at the position `i` of the order.
    pub fn at(&self, i: usize) -> (r: &String)
        requires
            i < self.members().len(),
        ensures
            r@ == self.members()[i as int],
            self@.contains(r@),
    {
        assert(self.members().contains(self.members()[i as int]));
        &self.items[i]
    }

    /// Whether `key` is a member.
    pub fn contains(&self, key: &str) -> (r: bool)
        requires
            self.wf(),
        ensures
            r == self@.contains(key@),
    {
        let at = locate(&self.items, key);
        let r = at < self.items.len() && text::same(self.items[at].as_str(), key);
        proof {
            if r {
                assert(self.members()[at as int] == key@);
            } else if self.members().contains(key@) {
                let i = choose|i: int| 0 <= i < self.members().len() && self.members()[i] == key@;
                text::lemma_lex_order(key@, key@, key@);
                assert(i >= at);
                if i > at {
                    text::lemma_lex_order(self.members()[at as int], self.members()[i], key@);
                }
            }
        }
        r
    }

    /// Adds a member; says whether it is new.
    pub fn insert(&mut self, key: String) -> (new: bool)
        requires
            old(self).wf(),
        ensures
            final(self).wf(),
            final(self)@ == old(self)@.insert(key@),
            new == !old(self)@.contains(key@),
    {
        let was = self.contains(key.as_str());
        if was {
            assert(self@ =~= old(self)@.insert(key@));
            return false;
        }
        let at = locate(&self.items, key.as_str());
        let ghost k = key@;
        let ghost m = self.members();
        self.items.insert(at, key);
        proof {
            assert(self.members() =~= m.insert(at as int, k));
            assert forall|i: int, j: int| 0 <= i < j < self.members().len() implies text::lex_before(
                #[trigger] self.members()[i],
                #[trigger] self.members()[j],
            ) by {
                if j == at {
                } else if i == at {
                    assert(self.members()[j] == m[j - 1]);
                    assert(m.contains(m[j - 1]));
                    text::lemma_lex_order(m[j - 1], k, k);
                } else {
                    let a = if i < at {
                        i
                    } else {
                        i - 1
                    };
                    let b = if j < at {
                        j
                    } else {
                        j - 1
                    };
                    assert(self.members()[i] == m[a]);
                    assert(self.members()[j] == m[b]);
                }
            }
            assert(self@ =~= old(self)@.insert(k)) by {
                assert forall|x: Seq<char>| self@.contains(x) == old(self)@.insert(k).contains(x) by {
                    if self.members().contains(x) {
                        let i = choose|i: int|
                            0 <= i < self.members().len() && self.members()[i] == x;
                        if i < at {
                            assert(m[i] == x);
                        } else if i > at {
                            assert(m[i - 1] == x);
                        }
                    }
                    if m.contains(x) {
                        let i = choose|i: int| 0 <= i < m.len() && m[i] == x;
                        if i < at {
                            assert(self.members()[i] == x);
                        } else {
                            assert(self.members()[i + 1] == x);
                        }
                    }
                    if x == k {
                        assert(self.members()[at as int] == x);
                    }
                }
            }
        }
        true
    }
}

/// The set of the strings of a list.
pub fn set_of(list: &[String]) -> (r: StringSet)
    ensures
        r.wf(),
        r@ == text::texts(list@).to_set(),
{
    let mut r = StringSet::new();
    let mut i: usize = 0;
    assert(text::texts(list@).take(0).to_set() =~= Set::<Seq<char>>::empty());
    while i < list.len()
        invariant
            i <= list.len(),
            r.wf(),
            r@ == text::texts(list@).take(i as int).to_set(),
        decreases list.len() - i,
    {
        r.insert(list[i].clone());
        proof {
            let t = text::texts(list@);
            assert(t.take(i + 1) =~= t.take(i as int).push(t[i as int]));
            assert(t.take(i + 1).to_set() =~= t.take(i as int).to_set().insert(t[i as int])) by {
                broadcast use vstd::seq_lib::group_seq_properties;

            }
        }
        i = i + 1;
    }
    assert(text::texts(list@).take(i as int) =~= text::texts(list@));
    r
}

/// A map from texts, kept in key order.
#[derive(Clone, Debug, PartialEq, Eq)]
pub struct StringMap<V> {
    keys: Vec<String>,
    values: Vec<V>,
}

/// The map that takes the key at each position to the value at that position.
pub open spec fn paired<V>(keys: Seq<Seq<char>>, values: Seq<V>) -> Map<Seq<char>, V> {
    Map::new(
        |k: Seq<char>| keys.contains(k),
        |k: Seq<char>| values[choose|i: int| 0 <= i < keys.len() && #[trigger] keys[i] == k],
    )
}

proof fn lemma_paired<V>(keys: Seq<Seq<char>>, values: Seq<V>, i: int)
    requires
        strictly_ascending(keys),
        0 <= i < keys.len(),
    ensures
        paired(keys, values).contains_key(keys[i]),
        paired(keys, values)[keys[i]] == values[i],
{
    assert(keys.contains(keys[i]));
    let j = choose|j: int| 0 <= j < keys.len() && #[trigger] keys[j] == keys[i];
    text::lemma_lex_order(keys[i], keys[i], keys[i]);
    if j < i {
        assert(text::lex_before(keys[j], keys[i]));
    } else if i < j {
        assert(text::lex_before(keys[i], keys[j]));
    }
}

impl<V> StringMap<V> {
    /// The keys, in order.
    pub closed spec fn keys(self) -> Seq<Seq<char>> {
        text::texts(self.keys@)
    }

    /// The values, in the order of their keys.
    pub closed spec fn values(self) -> Seq<V> {
        self.values@
    }

    /// The keys ascend, and each has its value.
    pub closed spec fn wf(self) -> bool {
        strictly_ascending(self.keys()) && self.keys().len() == self.values().len()
    }

    /// The mapping.
    pub open spec fn view(self) -> Map<Seq<char>, V> {
        paired(self.keys(), self.values())
    }

    /// The keys of a map ascend, there are as many values, and the key at each
    /// position has the value there.
    pub proof fn lemma_entries(self)
        requires
            self.wf(),
        ensures
            strictly_ascending(self.keys()),
            self.keys().len() == self.values().len(),
            forall|i: int|
                0 <= i < self.keys().len() ==> self@.contains_key(#[trigger] self.keys()[i])
                    && self@[self.keys()[i]] == self.values()[i],
    {
        assert forall|i: int| 0 <= i < self.keys().len() implies self@.contains_key(
            #[trigger] self.keys()[i],
        ) && self@[self.keys()[i]] == self.values()[i] by {
            lemma_paired(self.keys(), self.values(), i);
        }
    }

    /// The empty map.
    pub fn new() -> (r: StringMap<V>)
        ensures
            r.wf(),
            r@ == Map::<Seq<char>, V>::empty(),
            r.keys().len() == 0,
    {
        let r = StringMap { keys: Vec::new(), values: Vec::new() };
        assert(r@ =~= Map::<Seq<char>, V>::empty());
        r
    }

    /// How many keys there are.
    pub fn len(&self) -> (n: usize)
        ensures
            n == self.keys().len(),
    {
        self.keys.len()
    }

    /// The key at the position `i` of the order.
    pub fn key_at(&self, i: usize) -> (r: &String)
        requires
            i < self.keys().len(),
        ensures
            r@ == self.keys()[i as int],
    {
        &self.keys[i]
    }

    /// The value at the position `i` of the order.
    pub fn value_at(&self, i: usize) -> (r: &V)
        requires
            self.wf(),
            i < self.keys().len(),
        ensures
            *r == self.values()[i as int],
            self@[self.keys()[i as int]] == *r,
    {
        proof {
            self.lemma_entries();
        }
        &self.values[i]
    }

    /// The position of `key`, if it is there.
    fn position(&self, key: &str) -> (r: Option<usize>)
        requires
            self.wf(),
        ensures
            match r {
                Some(i) => i < self.keys().len() && self.keys()[i as int] == key@
                    && self@.contains_key(key@) && self@[key@] == self.values()[i as int],
                None => !self@.contains_key(key@),
            },
    {
        let at = locate(&self.keys, key);
        let found = at < self.keys.len() && text::same(self.keys[at].as_str(), key);
        if found {
            assert(self.keys()[at as int] == key@);
            proof {
                lemma_paired(self.keys(), self.values(), at as int);
            }
            Some(at)
        } else {
            proof {
                if self.keys().contains(key@) {
                    let i = choose|i: int| 0 <= i < self.keys().len() && self.keys()[i] == key@;
                    text::lemma_lex_order(key@, key@, key@);
                    assert(i >= at);
                    assert(self.keys()[at as int] == self.keys@[at as int]@);
                    if i > at {
                        text::lemma_lex_order(self.keys()[at as int], self.keys()[i], key@);
                    }
                }
            }
            None
        }
    }

    /// Whether there is a value for `key`.
    pub fn contains_key(&self, key: &str) -> (r: bool)
        requires
            self.wf(),
        ensures
            r == self@.contains_key(key@),
    {
        match self.position(key) {
            Some(_) => true,
            None => false,
        }
    }

    /// The value for `key`, if there is one.
    pub fn get(&self, key: &str) -> (r: Option<&V>)
        requires
            self.wf(),
        ensures
            match r {
                Some(v) => self@.contains_key(key@) && *v == self@[key@],
                None => !self@.contains_key(key@),
            },
    {
        match self.position(key) {
            Some(i) => Some(&self.values[i]),
            None => None,
        }
    }

    /// Sets the value for `key`, and returns the one it had.
    pub fn insert(&mut self, key: String, value: V) -> (was: Option<V>)
        requires
            old(self).wf(),
        ensures
            final(self).wf(),
            final(self)@ == old(self)@.insert(key@, value),
            match was {
                Some(v) => old(self)@.contains_key(key@) && v == old(self)@[key@],
                None => !old(self)@.contains_key(key@),
            },
    {
        let found = self.position(key.as_str());
        let ghost k = key@;
        let ghost ks = self.keys();
        let ghost vs = self.values();
        match found {
            Some(i) => {
                let mut value = value;
                let ghost v = value;
                std::mem::swap(&mut self.values[i], &mut value);
                proof {
                    assert(self.values() =~= vs.update(i as int, v));
                    assert(self.keys() == ks);
                    assert forall|x: Seq<char>| self@.contains_key(x) implies #[trigger] self@[x]
                        == old(self)@.insert(k, v)[x] by {
                        let j = choose|j: int| 0 <= j < ks.len() && ks[j] == x;
                        lemma_paired(ks, vs, j);
                        lemma_paired(ks, self.values(), j);
                        lemma_paired(ks, vs, i as int);
                        lemma_paired(ks, self.values(), i as int);
                    }
                    assert(self@ =~= old(self)@.insert(k, v));
                }
                Some(value)
            },
            None => {
                let at = locate(&self.keys, key.as_str());
                self.keys.insert(at, key);
                self.values.insert(at, value);
                proof {
                    assert(self.keys() =~= ks.insert(at as int, k));
                    assert(self.values() =~= vs.insert(at as int, value));
                    assert(!ks.contains(k));
                    assert forall|i: int, j: int| 0 <= i < j < self.keys().len() implies text::lex_before(
                        #[trigger] self.keys()[i],
                        #[trigger] self.keys()[j],
                    ) by {
                        if j == at {
                        } else if i == at {
                            assert(self.keys()[j] == ks[j - 1]);
                            assert(ks.contains(ks[j - 1]));
                            text::lemma_lex_order(ks[j - 1], k, k);
                        } else {
                            let a = if i < at {
                                i
                            } else {
                                i - 1
                            };
                            let b = if j < at {
                                j
                            } else {
                                j - 1
                            };
                            assert(self.keys()[i] == ks[a]);
                            assert(self.keys()[j] == ks[b]);
                        }
                    }
                    assert forall|x: Seq<char>| self@.contains_key(x) == old(self)@.insert(
                        k,
                        value,
                    ).contains_key(x) by {
                        if self.keys().contains(x) {
                            let j = choose|j: int| 0 <= j < self.keys().len() && self.keys()[j] == x;
                            if j < at {
                                assert(ks[j] == x);
                            } else if j > at {
                                assert(ks[j - 1] == x);
                            }
                        }
                        if ks.contains(x) {
                            let j = choose|j: int| 0 <= j < ks.len() && ks[j] == x;
                            if j < at {
                                assert(self.keys()[j] == x);
                            } else {
                                assert(self.keys()[j + 1] == x);
                            }
                        }
                        if x == k {
                            assert(self.keys()[at as int] == x);
                        }
                    }
                    assert forall|x: Seq<char>| self@.contains_key(x) implies #[trigger] self@[x]
                        == old(self)@.insert(k, value)[x] by {
                        let j = choose|j: int| 0 <= j < self.keys().len() && self.keys()[j] == x;
                        lemma_paired(self.keys(), self.values(), j);
                        if j < at {
                            lemma_paired(ks, vs, j);
                        } else if j > at {
                            lemma_paired(ks, vs, j - 1);
                        }
                    }
                    assert(self@ =~= old(self)@.insert(k, value));
                }
                None
            },
        }
    }
}

impl<T> StringMap<Vec<T>> {
    /// Appends `item` to the list kept for `key`.
    pub fn append(&mut self, key: &str, item: T)
        requires
            old(self).wf(),
        ensures
            final(self).wf(),
            final(self)@.dom() == old(self)@.dom().insert(key@),
            final(self)@[key@]@ == listed(old(self)@, key@).push(item),
            forall|k: Seq<char>|
                k != key@ && old(self)@.contains_key(k) ==> #[trigger] final(self)@[k] == old(self)@[k],
    {
        let mut list: Vec<T> = Vec::new();
        let found = self.position(key);
        if let Some(i) = found {
            std::mem::swap(&mut self.values[i], &mut list);
            proof {
                assert(self.keys() == old(self).keys());
                assert forall|x: Seq<char>| self@.contains_key(x) && x != key@ implies #[trigger] self@[x]
                    == old(self)@[x] by {
                    let ks = self.keys();
                    let j = choose|j: int| 0 <= j < ks.len() && ks[j] == x;
                    lemma_paired(ks, self.values(), j);
                    lemma_paired(ks, old(self).values(), j);
                }
            }
        }
        list.push(item);
        self.insert(text::copy(key), list);
        assert(self@.dom() =~= old(self)@.dom().insert(key@));
    }
}

/// The list kept for `key`: empty, if none is.
pub open spec fn listed<T>(m: Map<Seq<char>, Vec<T>>, key: Seq<char>) -> Seq<T> {
    if m.contains_key(key) {
        m[key]@
    } else {
        Seq::empty()
    }
}

/// Sorting texts puts them in lexicographic order and keeps each as often as it
/// was.
pub proof fn law_sorting_orders_and_keeps(s: Seq<Seq<char>>, i: int, j: int)
    ensures
        in_order(s).to_multiset() == s.to_multiset(),
        in_order(s).len() == s.len(),
        0 <= i < j < s.len() ==> in_order(s)[i] == in_order(s)[j] || text::lex_before(
            in_order(s)[i],
            in_order(s)[j],
        ),
{
    broadcast use vstd::seq_lib::group_to_multiset_ensures;

    let rel = |a: Seq<char>, b: Seq<char>| text::lex_upto(a, b);
    String::order_is_total();
    assert(rel =~= (|a: Seq<char>, b: Seq<char>| String::upto(a, b)));
    s.lemma_sort_by_ensures(rel);
    assert(in_order(s).to_multiset().len() == in_order(s).len());
    assert(s.to_multiset().len() == s.len());
    if 0 <= i < j < s.len() {
        assert(rel(in_order(s)[i], in_order(s)[j]));
    }
}

} // verus!
