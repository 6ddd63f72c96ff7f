//! Tables whose rows are found by several texts together.

use vstd::prelude::*;

use crate::text;

verus! {

/// A key: the texts of its columns.
pub type Key = Seq<Seq<char>>;

/// Keys as texts.
pub open spec fn keys_in(v: Seq<Vec<String>>) -> Seq<Key> {
    v.map_values(|k: Vec<String>| text::texts(k@))
}

/// Rows in the order they were put in, at most one for each key.
#[derive(Debug, PartialEq, Eq)]
pub struct Table<V> {
    keys: Vec<Vec<String>>,
    values: Vec<V>,
}

/// The map that takes the key at each position to the value there.
pub open spec fn keyed<V>(keys: Seq<Key>, values: Seq<V>) -> Map<Key, V> {
    Map::new(
        |k: Key| keys.contains(k),
        |k: Key| values[choose|i: int| 0 <= i < keys.len() && #[trigger] keys[i] == k],
    )
}

proof fn lemma_keyed<V>(keys: Seq<Key>, values: Seq<V>, i: int)
    requires
        keys.no_duplicates(),
        0 <= i < keys.len(),
    ensures
        keyed(keys, values).contains_key(keys[i]),
        keyed(keys, values)[keys[i]] == values[i],
{
    assert(keys.contains(keys[i]));
}

/// Whether a key begins with some columns.
pub open spec fn under(key: Key, prefix: Key) -> bool {
    prefix.len() <= key.len() && key.take(prefix.len() as int) == prefix
}

fn same_key(a: &[String], b: &[String]) -> (r: bool)
    ensures
        r == (text::texts(a@) == text::texts(b@)),
{
    if a.len() != b.len() {
        assert(text::texts(a@).len() != text::texts(b@).len());
        return false;
    }
    let mut i: usize = 0;
    while i < a.len()
        invariant
            i <= a@.len(),
            a@.len() == b@.len(),
            forall|k: int| 0 <= k < i ==> (#[trigger] a@[k])@ == b@[k]@,
        decreases a@.len() - i,
    {
        if !text::same(a[i].as_str(), b[i].as_str()) {
            assert(text::texts(a@)[i as int] != text::texts(b@)[i as int]);
            return false;
        }
        i = i + 1;
    }
    assert(text::texts(a@) =~= text::texts(b@));
    true
}

fn key_under(key: &[String], prefix: &[String]) -> (r: bool)
    ensures
        r == under(text::texts(key@), text::texts(prefix@)),
{
    if prefix.len() > key.len() {
        return false;
    }
    let mut i: usize = 0;
    while i < prefix.len()
        invariant
            i <= prefix@.len() <= key@.len(),
            forall|k: int| 0 <= k < i ==> (#[trigger] key@[k])@ == prefix@[k]@,
        decreases prefix@.len() - i,
    {
        if !text::same(key[i].as_str(), prefix[i].as_str()) {
            assert(text::texts(key@).take(prefix@.len() as int)[i as int] != text::texts(
                prefix@,
            )[i as int]);
            return false;
        }
        i = i + 1;
    }
    assert(text::texts(key@).take(prefix@.len() as int) =~= text::texts(prefix@));
    true
}

/// Among keys without repetition, as many are under some columns as the set of
/// them has there.
proof fn lemma_count(keys: Seq<Key>, prefix: Key)
    requires
        keys.no_duplicates(),
    ensures
        keys.filter(|k: Key| under(k, prefix)).len() == keys.to_set().filter(
            |k: Key| under(k, prefix),
        ).len(),
    decreases keys.len(),
{
    let gone = |k: Key| under(k, prefix);
    reveal(Seq::filter);
    if keys.len() == 0 {
        assert(keys.to_set().filter(gone) =~= Set::empty());
    } else {
        let rest = keys.drop_last();
        let last = keys.last();
        lemma_count(rest, prefix);
        assert(!rest.contains(last));
        assert(keys =~= rest.push(last));
        assert(keys.to_set() =~= rest.to_set().insert(last));
        if gone(last) {
            assert(keys.to_set().filter(gone) =~= rest.to_set().filter(gone).insert(last));
        } else {
            assert(keys.to_set().filter(gone) =~= rest.to_set().filter(gone));
        }
    }
}

impl<V> Table<V> {
    /// The keys, in the order of the rows.
    pub closed spec fn keys(self) -> Seq<Key> {
        keys_in(self.keys@)
    }

    /// The values, in the order of the rows.
    pub closed spec fn values(self) -> Seq<V> {
        self.values@
    }

    /// No key occurs twice, and each has its value.
    pub closed spec fn wf(self) -> bool {
        self.keys().no_duplicates() && self.keys().len() == self.values().len()
    }

    /// The rows as a map.
    pub open spec fn view(self) -> Map<Key, V> {
        keyed(self.keys(), self.values())
    }

    /// The key at each position has the value there, and there are no others.
    pub proof fn lemma_rows(self)
        requires
            self.wf(),
        ensures
            self.keys().no_duplicates(),
            self.keys().len() == self.values().len(),
            forall|i: int|
                0 <= i < self.keys().len() ==> self@.contains_key(#[trigger] self.keys()[i])
                    && self@[self.keys()[i]] == self.values()[i],
    {
        assert forall|i: int| 0 <= i < self.keys().len() implies self@.contains_key(
            #[trigger] self.keys()[i],
        ) && self@[self.keys()[i]] == self.values()[i] by {
            lemma_keyed(self.keys(), self.values(), i);
        }
    }

    /// No rows.
    pub fn new() -> (r: Table<V>)
        ensures
            r.wf(),
            r@ == Map::<Key, V>::empty(),
            r.keys() == Seq::<Key>::empty(),
    {
        let r = Table { keys: Vec::new(), values: Vec::new() };
        assert(r.keys() =~= Seq::<Key>::empty());
        assert(r@ =~= Map::<Key, V>::empty());
        r
    }

    /// How many rows there are.
    pub fn len(&self) -> (n: usize)
        ensures
            n == self.keys().len(),
    {
        self.keys.len()
    }

    /// The key of the row `i`.
    pub fn key_at(&self, i: usize) -> (r: &Vec<String>)
        requires
            i < self.keys().len(),
        ensures
            text::texts(r@) == self.keys()[i as int],
    {
        &self.keys[i]
    }

    /// The value of the row `i`.
    pub fn value_at(&self, i: usize) -> (r: &V)
        requires
            self.wf(),
            i < self.keys().len(),
        ensures
            *r == self.values()[i as int],
            self@.contains_key(self.keys()[i as int]),
            self@[self.keys()[i as int]] == *r,
    {
        proof {
            lemma_keyed(self.keys(), self.values(), i as int);
        }
        &self.values[i]
    }

    fn find(&self, key: &[String]) -> (r: Option<usize>)
        requires
            self.wf(),
        ensures
            match r {
                Some(i) => i < self.keys().len() && self.keys()[i as int] == text::texts(key@)
                    && self@.contains_key(text::texts(key@)) && self@[text::texts(key@)]
                    == self.values()[i as int],
                None => !self@.contains_key(text::texts(key@)),
            },
    {
        let mut i: usize = 0;
        while i < self.keys.len()
            invariant
                self.wf(),
                i <= self.keys@.len(),
                forall|k: int| 0 <= k < i ==> #[trigger] self.keys()[k] != text::texts(key@),
            decreases self.keys@.len() - i,
        {
            assert(self.keys()[i as int] == text::texts(self.keys@[i as int]@));
            if same_key(self.keys[i].as_slice(), key) {
                proof {
                    lemma_keyed(self.keys(), self.values(), i as int);
                }
                return Some(i);
            }
            i = i + 1;
        }
        None
    }

    /// The value for a key, if there is one.
    pub fn get(&self, key: &[String]) -> (r: Option<&V>)
        requires
            self.wf(),
        ensures
            match r {
                Some(v) => self@.contains_key(text::texts(key@)) && *v == self@[text::texts(key@)],
                None => !self@.contains_key(text::texts(key@)),
            },
    {
        match self.find(key) {
            Some(i) => Some(&self.values[i]),
            None => None,
        }
    }

    /// Puts a row in, in place of the one with its key if there is one.
    pub fn put(&mut self, key: Vec<String>, value: V)
        requires
            old(self).wf(),
        ensures
            final(self).wf(),
            final(self)@ == old(self)@.insert(text::texts(key@), value),
    {
        let ghost k = text::texts(key@);
        let ghost ks = self.keys();
        let ghost vs = self.values();
        match self.find(key.as_slice()) {
            Some(i) => {
                self.values[i] = value;
                proof {
                    assert(self.keys() == ks);
                    assert(self.values() =~= vs.update(i as int, value));
                    assert forall|x: Key| self@.contains_key(x) implies #[trigger] self@[x]
                        == old(self)@.insert(k, value)[x] by {
                        let j = choose|j: int| 0 <= j < ks.len() && ks[j] == x;
                        lemma_keyed(ks, vs, j);
                        lemma_keyed(ks, self.values(), j);
                    }
                    assert(self@ =~= old(self)@.insert(k, value));
                }
            },
            None => {
                self.keys.push(key);
                self.values.push(value);
                proof {
                    assert(self.keys() =~= ks.push(k));
                    assert(self.values() =~= vs.push(value));
                    assert(!ks.contains(k));
                    assert forall|i: int, j: int|
                        0 <= i < self.keys().len() && 0 <= j < self.keys().len() && i
                            != j implies self.keys()[i] != self.keys()[j] by {
                        if i < ks.len() && j < ks.len() {
                            assert(ks[i] != ks[j]);
                        } else if i < ks.len() {
                            assert(ks.contains(ks[i]));
                        } else {
                            assert(ks.contains(ks[j]));
                        }
                    }
                    assert(self.keys().no_duplicates());
                    assert forall|x: Key| self@.contains_key(x) == old(self)@.insert(
                        k,
                        value,
                    ).contains_key(x) by {
                        if ks.contains(x) {
                            let j = choose|j: int| 0 <= j < ks.len() && ks[j] == x;
                            assert(self.keys()[j] == x);
                        }
                        if x == k {
                            assert(self.keys()[ks.len() as int] == x);
                        }
                        if self.keys().contains(x) {
                            let j = choose|j: int|
                                0 <= j < self.keys().len() && self.keys()[j] == x;
                            if j < ks.len() {
                                assert(ks[j] == x);
                            }
                        }
                    }
                    assert forall|x: Key| self@.contains_key(x) implies #[trigger] self@[x]
                        == old(self)@.insert(k, value)[x] by {
                        let j = choose|j: int| 0 <= j < self.keys().len() && self.keys()[j] == x;
                        lemma_keyed(self.keys(), self.values(), j);
                        if j < ks.len() {
                            lemma_keyed(ks, vs, j);
                        }
                    }
                    assert(self@ =~= old(self)@.insert(k, value));
                }
            },
        }
    }

    /// Removes the rows whose keys begin with some columns; says how many.
    pub fn remove_under(&mut self, prefix: &[String]) -> (n: usize)
        requires
            old(self).wf(),
        ensures
            final(self).wf(),
            n == old(self)@.dom().filter(|k: Key| under(k, text::texts(prefix@))).len(),
            forall|k: Key| #[trigger]
                final(self)@.contains_key(k) <==> old(self)@.contains_key(k) && !under(
                    k,
                    text::texts(prefix@),
                ),
            forall|k: Key| #[trigger]
                final(self)@.contains_key(k) ==> final(self)@[k] == old(self)@[k],
    {
        let ghost p = text::texts(prefix@);
        let ghost ks = self.keys();
        let ghost vs = self.values();
        let ghost gone = |k: Key| under(k, p);
        let mut keys: Vec<Vec<String>> = Vec::new();
        let mut values: Vec<V> = Vec::new();
        std::mem::swap(&mut keys, &mut self.keys);
        std::mem::swap(&mut values, &mut self.values);
        let total = keys.len();
        let mut i: usize = 0;
        let mut n: usize = 0;
        // Where each row that stays came from.
        let ghost mut from: Seq<int> = Seq::empty();
        assert(ks.take(0).filter(gone) =~= Seq::<Key>::empty()) by {
            reveal(Seq::filter);
        }
        assert(keys_in(keys@) =~= ks.skip(0));
        assert(values@ =~= vs.skip(0));
        while i < total
            invariant
                i <= total,
                total == ks.len(),
                ks.len() == vs.len(),
                ks.no_duplicates(),
                p == text::texts(prefix@),
                gone == (|k: Key| under(k, p)),
                keys_in(keys@) == ks.skip(i as int),
                values@ == vs.skip(i as int),
                n == ks.take(i as int).filter(gone).len(),
                n <= i,
                from.len() == self.keys@.len(),
                self.keys@.len() == self.values@.len(),
                forall|j: int|
                    0 <= j < from.len() ==> 0 <= #[trigger] from[j] < i && self.keys()[j] == ks[from[j]]
                        && self.values()[j] == vs[from[j]] && !under(ks[from[j]], p),
                forall|a: int, b: int|
                    0 <= a < b < from.len() ==> #[trigger] from[a] < #[trigger] from[b],
                forall|k: int|
                    0 <= k < i && !under(#[trigger] ks[k], p) ==> from.contains(k),
            decreases total - i,
        {
            let ghost left = keys_in(keys@);
            assert(left.len() == keys@.len());
            let key = keys.remove(0);
            let value = values.remove(0);
            proof {
                assert(text::texts(key@) == ks[i as int]) by {
                    assert(ks.skip(i as int)[0] == ks[i as int]);
                }
                assert(value == vs[i as int]);
                assert(keys_in(keys@) =~= left.skip(1));
                assert(left.skip(1) =~= ks.skip(i + 1));
                assert(values@ =~= vs.skip(i + 1));
                assert(ks.take(i + 1).drop_last() =~= ks.take(i as int));
                assert(ks.take(i + 1).last() == ks[i as int]);
                reveal(Seq::filter);
            }
            if key_under(key.as_slice(), prefix) {
                n = n + 1;
            } else {
                let ghost old_from = from;
                let ghost k0 = self.keys();
                let ghost v0 = self.values();
                self.keys.push(key);
                self.values.push(value);
                proof {
                    from = from.push(i as int);
                    assert(self.keys() =~= k0.push(text::texts(key@)));
                    assert(self.values() =~= v0.push(value));
                    assert forall|j: int| 0 <= j < from.len() implies 0 <= #[trigger] from[j] < i + 1
                        && self.keys()[j] == ks[from[j]] && self.values()[j] == vs[from[j]] && !under(
                        ks[from[j]],
                        p,
                    ) by {
                        if j < old_from.len() {
                            assert(from[j] == old_from[j]);
                        }
                    }
                    assert forall|k: int| 0 <= k < i + 1 && !under(#[trigger] ks[k], p) implies from.contains(
                        k,
                    ) by {
                        if k < i {
                            assert(old_from.contains(k));
                            let j = choose|j: int| 0 <= j < old_from.len() && old_from[j] == k;
                            assert(from[j] == k);
                        } else {
                            assert(from[old_from.len() as int] == k);
                        }
                    }
                }
            }
            i = i + 1;
        }
        proof {
            assert(ks.take(i as int) =~= ks);
            lemma_count(ks, p);
            assert(old(self)@.dom() =~= ks.to_set());
            assert(self.keys().len() == self.keys@.len());
            assert forall|a: int, b: int|
                0 <= a < self.keys().len() && 0 <= b < self.keys().len() && a
                    != b implies self.keys()[a] != self.keys()[b] by {
                assert(self.keys()[a] == ks[from[a]] && self.keys()[b] == ks[from[b]]);
                if a < b {
                    assert(from[a] < from[b]);
                } else {
                    assert(from[b] < from[a]);
                }
            }
            assert forall|k: Key| #[trigger] self@.contains_key(k) <==> old(self)@.contains_key(k)
                && !under(k, p) by {
                if self.keys().contains(k) {
                    let j = choose|j: int| 0 <= j < self.keys().len() && self.keys()[j] == k;
                    assert(ks[from[j]] == k);
                    assert(ks.contains(k));
                }
                if ks.contains(k) && !under(k, p) {
                    let m = choose|m: int| 0 <= m < ks.len() && ks[m] == k;
                    assert(from.contains(m));
                    let j = choose|j: int| 0 <= j < from.len() && from[j] == m;
                    assert(self.keys()[j] == k);
                }
            }
            assert forall|k: Key| #[trigger] self@.contains_key(k) implies self@[k]
                == old(self)@[k] by {
                let j = choose|j: int| 0 <= j < self.keys().len() && self.keys()[j] == k;
                lemma_keyed(self.keys(), self.values(), j);
                lemma_keyed(ks, vs, from[j]);
            }
        }
        n
    }
}

} // verus!
