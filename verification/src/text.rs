//! Characters and strings: the few operations on text that the rest of the
//! library is stated over, each with its meaning as a sequence of characters.

use vstd::prelude::*;
use vstd::string::*;
use vstd::utf8::*;

verus! {

/// `String::push` appends the character at the end.
pub assume_specification[ String::push ](s: &mut String, c: char)
    ensures
        final(s)@ == old(s)@.push(c),
;

/// A string of its own with the characters of `s`.
pub fn copy(s: &str) -> (r: String)
    ensures
        r@ == s@,
{
    s.to_owned()
}

/// `String::from_utf8`: the string with these bytes, unless they are not UTF-8.
#[verifier::external_body]
pub(crate) fn from_utf8(bytes: Vec<u8>) -> (r: Option<String>)
    ensures
        match r {
            Some(s) => encode_utf8(s@) == bytes@,
            None => !valid_utf8(bytes@),
        },
{
    String::from_utf8(bytes).ok()
}

/// An optional string as an optional text.
pub open spec fn opt(o: Option<String>) -> Option<Seq<char>> {
    match o {
        Some(s) => Some(s@),
        None => None,
    }
}

/// The lists of texts in a map.
pub open spec fn lists(m: Map<Seq<char>, Vec<String>>) -> Map<Seq<char>, Seq<Seq<char>>> {
    m.map_values(|v: Vec<String>| texts(v@))
}

/// A copy of an optional string.
pub fn copy_opt(o: &Option<String>) -> (r: Option<String>)
    ensures
        opt(r) == opt(*o),
{
    match o {
        Some(s) => Some(s.clone()),
        None => None,
    }
}

/// The characters of `s`, in order.
pub fn chars_of(s: &str) -> (v: Vec<char>)
    ensures
        v@ == s@,
{
    let mut v: Vec<char> = Vec::new();
    for c in it: s.chars()
        invariant
            it.seq() == s@,
            v@ == s@.take(it.index()),
    {
        v.push(c);
    }
    assert(s@.take(s@.len() as int) =~= s@);
    v
}

/// The string that the characters `from..to` of `v` make up.
pub fn string_between(v: &[char], from: usize, to: usize) -> (s: String)
    requires
        from <= to <= v.len(),
    ensures
        s@ == v@.subrange(from as int, to as int),
{
    let mut s = String::new();
    let mut i: usize = from;
    while i < to
        invariant
            from <= i <= to <= v.len(),
            s@ == v@.subrange(from as int, i as int),
        decreases to - i,
    {
        s.push(v[i]);
        i = i + 1;
    }
    s
}

/// Whether two strings hold the same characters.
pub fn same(a: &str, b: &str) -> (r: bool)
    ensures
        r == (a@ == b@),
{
    let x = a.as_bytes();
    let y = b.as_bytes();
    proof {
        vstd::utf8::encode_utf8_decode_utf8(a@);
        vstd::utf8::encode_utf8_decode_utf8(b@);
    }
    if x.len() != y.len() {
        return false;
    }
    let mut i: usize = 0;
    while i < x.len()
        invariant
            i <= x@.len(),
            x@.len() == y@.len(),
            x@ == vstd::utf8::encode_utf8(a@),
            y@ == vstd::utf8::encode_utf8(b@),
            forall|j: int| 0 <= j < i ==> x@[j] == y@[j],
        decreases x.len() - i,
    {
        if x[i] != y[i] {
            return false;
        }
        i = i + 1;
    }
    assert(x@ =~= y@);
    true
}

/// Whether two optional strings are the same.
pub fn same_opt(a: &Option<String>, b: &Option<String>) -> (r: bool)
    ensures
        r == (opt(*a) == opt(*b)),
{
    match (a, b) {
        (None, None) => true,
        (Some(x), Some(y)) => same(x.as_str(), y.as_str()),
        _ => false,
    }
}

/// The texts of a list of strings.
pub open spec fn texts(v: Seq<String>) -> Seq<Seq<char>> {
    v.map_values(|s: String| s@)
}

/// The texts of a list with one more string.
pub proof fn lemma_texts_push(v: Seq<String>, s: String)
    ensures
        texts(v.push(s)) == texts(v).push(s@),
{
    assert(texts(v.push(s)) =~= texts(v).push(s@));
}

/// A copy of a list of strings.
pub fn copy_all(v: &[String]) -> (r: Vec<String>)
    ensures
        texts(r@) == texts(v@),
        r@.len() == v@.len(),
{
    let mut r: Vec<String> = Vec::new();
    let mut i: usize = 0;
    while i < v.len()
        invariant
            i <= v.len(),
            texts(r@) == texts(v@).take(i as int),
        decreases v.len() - i,
    {
        let s = v[i].clone();
        proof {
            lemma_texts_push(r@, s);
            assert(texts(v@).take(i + 1) =~= texts(v@).take(i as int).push(texts(v@)[i as int]));
        }
        r.push(s);
        i = i + 1;
    }
    assert(texts(v@).take(i as int) =~= texts(v@));
    assert(texts(r@).len() == r@.len());
    r
}

/// Whether `s` is among the strings.
pub fn has(v: &[String], s: &str) -> (r: bool)
    ensures
        r == texts(v@).contains(s@),
{
    let mut i: usize = 0;
    while i < v.len()
        invariant
            i <= v.len(),
            forall|j: int| 0 <= j < i ==> #[trigger] texts(v@)[j] != s@,
        decreases v.len() - i,
    {
        if same(v[i].as_str(), s) {
            assert(texts(v@)[i as int] == s@);
            return true;
        }
        i = i + 1;
    }
    false
}

// --- order -------------------------------------------------------------------

/// `a` and `b` agree below `k`, and `k` ends one of them or tells them apart.
pub open spec fn parts_at(a: Seq<char>, b: Seq<char>, k: int) -> bool {
    &&& 0 <= k <= a.len()
    &&& k <= b.len()
    &&& forall|i: int| 0 <= i < k ==> a[i] == b[i]
    &&& (k == a.len() || k == b.len() || a[k] != b[k])
}

/// Strict lexicographic order by code point, which is also the order of the
/// UTF-8 encodings byte by byte.
pub open spec fn lex_before(a: Seq<char>, b: Seq<char>) -> bool {
    exists|k: int| #[trigger] parts_at(a, b, k) && k < b.len() && (k == a.len() || a[k] < b[k])
}

/// Lexicographic order with equality.
pub open spec fn lex_upto(a: Seq<char>, b: Seq<char>) -> bool {
    a == b || lex_before(a, b)
}

proof fn lemma_parts_somewhere(a: Seq<char>, b: Seq<char>, k: int) -> (r: int)
    requires
        0 <= k <= a.len(),
        k <= b.len(),
        forall|i: int| 0 <= i < k ==> a[i] == b[i],
    ensures
        parts_at(a, b, r),
    decreases a.len() - k,
{
    if k == a.len() || k == b.len() || a[k] != b[k] {
        assert(parts_at(a, b, k));
        k
    } else {
        lemma_parts_somewhere(a, b, k + 1)
    }
}

/// The lexicographic order is a strict total order on texts.
pub proof fn lemma_lex_order(a: Seq<char>, b: Seq<char>, c: Seq<char>)
    ensures
        !lex_before(a, a),
        lex_before(a, b) ==> !lex_before(b, a),
        lex_before(a, b) && lex_before(b, c) ==> lex_before(a, c),
        a != b ==> lex_before(a, b) || lex_before(b, a),
{
    if lex_before(a, b) && lex_before(b, c) {
        let k = choose|k: int| #[trigger]
            parts_at(a, b, k) && k < b.len() && (k == a.len() || a[k] < b[k]);
        let l = choose|l: int| #[trigger]
            parts_at(b, c, l) && l < c.len() && (l == b.len() || b[l] < c[l]);
        let m = if k < l {
            k
        } else {
            l
        };
        assert(parts_at(a, c, m));
    }
    if lex_before(a, b) && lex_before(b, a) {
        let k = choose|k: int| #[trigger]
            parts_at(a, b, k) && k < b.len() && (k == a.len() || a[k] < b[k]);
        let l = choose|l: int| #[trigger]
            parts_at(b, a, l) && l < a.len() && (l == b.len() || b[l] < a[l]);
        assert(k == l);
    }
    if a != b {
        let k = lemma_parts_somewhere(a, b, 0);
        if k == a.len() && k == b.len() {
            assert(a =~= b);
        }
        assert(parts_at(a, b, k));
        assert(parts_at(b, a, k));
    }
}

/// Whether `a` comes strictly before `b`.
pub fn before(a: &str, b: &str) -> (r: bool)
    ensures
        r == lex_before(a@, b@),
{
    let mut x = a.chars();
    let mut y = b.chars();
    let ghost mut k: int = 0;
    assert(a@.skip(0) =~= a@);
    assert(b@.skip(0) =~= b@);
    loop
        invariant
            0 <= k <= a@.len(),
            k <= b@.len(),
            forall|i: int| 0 <= i < k ==> a@[i] == b@[i],
            vstd::std_specs::iter::IteratorSpec::obeys_prophetic_iter_laws(&x),
            vstd::std_specs::iter::IteratorSpec::obeys_prophetic_iter_laws(&y),
            vstd::std_specs::iter::IteratorSpec::remaining(&x) == a@.skip(k),
            vstd::std_specs::iter::IteratorSpec::remaining(&y) == b@.skip(k),
        decreases a@.len() - k,
    {
        let p = x.next();
        let q = y.next();
        match (p, q) {
            (None, None) => {
                proof {
                    assert(a@ =~= b@);
                    lemma_lex_order(a@, b@, a@);
                }
                return false;
            },
            (None, Some(_)) => {
                assert(parts_at(a@, b@, k));
                return true;
            },
            (Some(_), None) => {
                proof {
                    assert(parts_at(b@, a@, k));
                    lemma_lex_order(b@, a@, a@);
                }
                return false;
            },
            (Some(c), Some(d)) => {
                assert(c == a@[k] && d == b@[k]);
                if c != d {
                    proof {
                        assert(parts_at(a@, b@, k));
                        assert(parts_at(b@, a@, k));
                        lemma_lex_order(b@, a@, a@);
                    }
                    return c < d;
                }
                proof {
                    assert(a@.skip(k).drop_first() =~= a@.skip(k + 1));
                    assert(b@.skip(k).drop_first() =~= b@.skip(k + 1));
                    k = k + 1;
                }
            },
        }
    }
}

// --- decimal numbers ---------------------------------------------------------

/// The decimal digit `d`.
pub open spec fn digit(d: nat) -> char {
    ((48 + d) as u8) as char
}

/// A natural number in decimal, without leading zeros.
pub open spec fn decimal(n: nat) -> Seq<char>
    decreases n,
{
    if n < 10 {
        seq![digit(n)]
    } else {
        decimal(n / 10).push(digit(n % 10))
    }
}

/// An integer in decimal, with a leading `-` where it is negative.
pub open spec fn signed_decimal(n: int) -> Seq<char> {
    if n < 0 {
        seq!['-'] + decimal((-n) as nat)
    } else {
        decimal(n as nat)
    }
}

/// A decimal number holds digits only, and at least one.
pub proof fn lemma_decimal_digits(n: nat)
    ensures
        decimal(n).len() > 0,
        forall|i: int| 0 <= i < decimal(n).len() ==> '0' <= #[trigger] decimal(n)[i] <= '9',
    decreases n,
{
    if n >= 10 {
        lemma_decimal_digits(n / 10);
    }
}

proof fn lemma_decimal_bound(n: nat, k: nat)
    requires
        n < vstd::arithmetic::power::pow(10, k),
        k > 0,
    ensures
        decimal(n).len() <= k,
    decreases k,
{
    reveal(vstd::arithmetic::power::pow);
    if n >= 10 {
        if k == 1 {
            assert(vstd::arithmetic::power::pow(10, 0) == 1);
            assert(false);
        }
        assert(vstd::arithmetic::power::pow(10, k) == 10 * vstd::arithmetic::power::pow(
            10,
            (k - 1) as nat,
        ));
        lemma_decimal_bound(n / 10, (k - 1) as nat);
    }
}

/// A 64-bit number has at most twenty digits.
pub proof fn lemma_decimal_length(n: u64)
    ensures
        decimal(n as nat).len() <= 20,
{
    assert(n < vstd::arithmetic::power::pow(10, 20)) by {
        reveal_with_fuel(vstd::arithmetic::power::pow, 21);
    }
    lemma_decimal_bound(n as nat, 20);
}

/// `n` in decimal.
pub fn decimal_u64(n: u64) -> (s: String)
    ensures
        s@ == decimal(n as nat),
    decreases n,
{
    let d: u8 = 48 + (n % 10) as u8;
    let c: char = d as char;
    if n < 10 {
        let mut s = String::new();
        s.push(c);
        assert(s@ =~= decimal(n as nat));
        s
    } else {
        let mut s = decimal_u64(n / 10);
        s.push(c);
        s
    }
}

/// `n` in decimal.
pub fn decimal_usize(n: usize) -> (s: String)
    ensures
        s@ == decimal(n as nat),
{
    decimal_u64(n as u64)
}

/// `n` in decimal, with its sign where it is negative.
pub fn decimal_i64(n: i64) -> (s: String)
    ensures
        s@ == signed_decimal(n as int),
{
    if n < 0 {
        let m: u64 = (-(n as i128)) as u64;
        let mut s = String::new();
        s.push('-');
        let d = decimal_u64(m);
        s.append(d.as_str());
        assert(s@ =~= signed_decimal(n as int));
        s
    } else {
        decimal_u64(n as u64)
    }
}

// --- padding -----------------------------------------------------------------

/// `n` copies of `c`.
pub open spec fn copies(c: char, n: nat) -> Seq<char> {
    Seq::new(n, |i: int| c)
}

/// `s` with spaces before it up to the width `w`.
pub open spec fn right_aligned(s: Seq<char>, w: nat) -> Seq<char> {
    if s.len() < w {
        copies(' ', (w - s.len()) as nat) + s
    } else {
        s
    }
}

/// `s` with spaces after it up to the width `w`.
pub open spec fn left_aligned(s: Seq<char>, w: nat) -> Seq<char> {
    if s.len() < w {
        s + copies(' ', (w - s.len()) as nat)
    } else {
        s
    }
}

/// `n` copies of `c`.
pub fn repeat(c: char, n: u128) -> (s: String)
    ensures
        s@ == copies(c, n as nat),
{
    let mut s = String::new();
    let mut i: u128 = 0;
    while i < n
        invariant
            i <= n,
            s@ == copies(c, i as nat),
        decreases n - i,
    {
        s.push(c);
        i = i + 1;
        assert(s@ =~= copies(c, i as nat));
    }
    assert(s@ =~= copies(c, n as nat));
    s
}

/// `s` padded on the left to the width `w`.
pub fn align_right(s: &str, w: usize) -> (r: String)
    ensures
        r@ == right_aligned(s@, w as nat),
{
    let n = s.unicode_len();
    if n < w {
        let mut r = repeat(' ', (w - n) as u128);
        r.append(s);
        r
    } else {
        s.to_owned()
    }
}

/// `s` padded on the right to the width `w`.
pub fn align_left(s: &str, w: u128) -> (r: String)
    ensures
        r@ == left_aligned(s@, w as nat),
{
    let n: u128 = s.unicode_len() as u128;
    let mut r = s.to_owned();
    if n < w {
        let pad = repeat(' ', w - n);
        r.append(pad.as_str());
    }
    r
}

// --- white space -------------------------------------------------------------

/// The characters with the Unicode property `White_Space`.
pub open spec fn is_white(c: char) -> bool {
    let n = c as u32;
    ||| 0x9 <= n <= 0xd
    ||| n == 0x20
    ||| n == 0x85
    ||| n == 0xa0
    ||| n == 0x1680
    ||| 0x2000 <= n <= 0x200a
    ||| n == 0x2028
    ||| n == 0x2029
    ||| n == 0x202f
    ||| n == 0x205f
    ||| n == 0x3000
}

/// Whether `c` is white space.
pub fn white(c: char) -> (r: bool)
    ensures
        r == is_white(c),
{
    let n = c as u32;
    (0x9 <= n && n <= 0xd) || n == 0x20 || n == 0x85 || n == 0xa0 || n == 0x1680 || (0x2000 <= n
        && n <= 0x200a) || n == 0x2028 || n == 0x2029 || n == 0x202f || n == 0x205f || n == 0x3000
}

/// `s` without its leading white space.
pub open spec fn trimmed_start(s: Seq<char>) -> Seq<char>
    decreases s.len(),
{
    if s.len() > 0 && is_white(s[0]) {
        trimmed_start(s.skip(1))
    } else {
        s
    }
}

/// `s` without its trailing white space.
pub open spec fn trimmed_end(s: Seq<char>) -> Seq<char>
    decreases s.len(),
{
    if s.len() > 0 && is_white(s.last()) {
        trimmed_end(s.drop_last())
    } else {
        s
    }
}

/// `s` without the white space around it.
pub open spec fn trimmed(s: Seq<char>) -> Seq<char> {
    trimmed_end(trimmed_start(s))
}

/// `s` without the white space around it.
pub fn trim(s: &str) -> (r: String)
    ensures
        r@ == trimmed(s@),
{
    let v = chars_of(s);
    let mut from: usize = 0;
    assert(v@.skip(0) =~= v@);
    while from < v.len() && white(v[from])
        invariant
            from <= v.len(),
            v@ == s@,
            trimmed_start(v@.skip(from as int)) == trimmed_start(s@),
        decreases v.len() - from,
    {
        assert(v@.skip(from as int).skip(1) =~= v@.skip(from + 1));
        from = from + 1;
    }
    assert(trimmed_start(s@) == v@.skip(from as int));
    let mut to: usize = v.len();
    assert(v@.subrange(from as int, to as int) =~= v@.skip(from as int));
    while to > from && white(v[to - 1])
        invariant
            from <= to <= v.len(),
            v@ == s@,
            trimmed_end(v@.subrange(from as int, to as int)) == trimmed(s@),
        decreases to,
    {
        assert(v@.subrange(from as int, to as int).drop_last() =~= v@.subrange(
            from as int,
            to - 1,
        ));
        to = to - 1;
    }
    string_between(v.as_slice(), from, to)
}

/// How many characters stand before the first white space.
pub open spec fn word_len(s: Seq<char>) -> int
    decreases s.len(),
{
    if s.len() == 0 || is_white(s[0]) {
        0
    } else {
        1 + word_len(s.skip(1))
    }
}

/// A word is no longer than the text.
pub proof fn lemma_word_len(s: Seq<char>)
    ensures
        0 <= word_len(s) <= s.len(),
        s.len() > 0 && !is_white(s[0]) ==> word_len(s) > 0,
        forall|i: int| 0 <= i < word_len(s) ==> !is_white(s[i]),
        word_len(s) < s.len() ==> is_white(s[word_len(s)]),
    decreases s.len(),
{
    if s.len() > 0 && !is_white(s[0]) {
        lemma_word_len(s.skip(1));
        assert forall|i: int| 0 <= i < word_len(s) implies !is_white(s[i]) by {
            if i > 0 {
                assert(s.skip(1)[i - 1] == s[i]);
            }
        }
    }
}

/// The words of a text: what stands between its white space.
pub open spec fn words(s: Seq<char>) -> Seq<Seq<char>>
    decreases s.len(),
{
    if s.len() == 0 {
        Seq::empty()
    } else if is_white(s[0]) {
        words(s.skip(1))
    } else {
        proof {
            lemma_word_len(s);
        }
        seq![s.take(word_len(s))] + words(s.skip(word_len(s)))
    }
}

/// The words of `s`.
pub fn split_words(s: &str) -> (r: Vec<String>)
    ensures
        texts(r@) == words(s@),
{
    let v = chars_of(s);
    let mut r: Vec<String> = Vec::new();
    let mut i: usize = 0;
    assert(v@.skip(0) =~= v@);
    assert(texts(r@) + words(v@.skip(0)) =~= words(v@));
    while i < v.len()
        invariant
            i <= v@.len(),
            texts(r@) + words(v@.skip(i as int)) == words(v@),
        decreases v@.len() - i,
    {
        let ghost rest = v@.skip(i as int);
        if white(v[i]) {
            assert(rest.skip(1) =~= v@.skip(i + 1));
            i = i + 1;
        } else {
            let mut k: usize = i;
            proof {
                lemma_word_len(rest);
            }
            while k < v.len() && !white(v[k])
                invariant
                    i <= k <= v@.len(),
                    rest == v@.skip(i as int),
                    k - i <= word_len(rest) <= rest.len(),
                    word_len(rest) < rest.len() ==> is_white(rest[word_len(rest)]),
                decreases v@.len() - k,
            {
                proof {
                    if k - i == word_len(rest) {
                        assert(rest[word_len(rest)] == v@[k as int]);
                    }
                }
                k = k + 1;
            }
            proof {
                if k - i < word_len(rest) {
                    lemma_word_len(rest);
                    assert(!is_white(rest[k - i]));
                    assert(rest[k - i] == v@[k as int]);
                }
            }
            let word = string_between(v.as_slice(), i, k);
            let ghost was = texts(r@);
            proof {
                lemma_texts_push(r@, word);
                assert(word@ =~= rest.take(word_len(rest)));
                assert(rest.skip(word_len(rest)) =~= v@.skip(k as int));
                assert(was + (seq![word@] + words(v@.skip(k as int))) =~= was.push(word@) + words(
                    v@.skip(k as int),
                ));
                lemma_word_len(rest);
            }
            r.push(word);
            i = k;
        }
    }
    assert(texts(r@) + words(v@.skip(i as int)) =~= texts(r@));
    r
}

// --- reading numbers ---------------------------------------------------------

/// Whether a text holds digits only.
pub open spec fn all_digits(s: Seq<char>) -> bool {
    forall|i: int| 0 <= i < s.len() ==> '0' <= #[trigger] s[i] <= '9'
}

/// The number that digits stand for.
pub open spec fn digits_value(s: Seq<char>) -> nat
    decreases s.len(),
{
    if s.len() == 0 {
        0
    } else {
        (digits_value(s.drop_last()) * 10 + (s.last() as int - '0' as int)) as nat
    }
}

/// The number that a text stands for: digits, at least one, perhaps behind a
/// plus sign.
pub open spec fn number(s: Seq<char>) -> Option<nat> {
    let d = if s.len() > 0 && s[0] == '+' {
        s.skip(1)
    } else {
        s
    };
    if d.len() > 0 && all_digits(d) {
        Some(digits_value(d))
    } else {
        None
    }
}

/// The number that a text stands for, unless it is larger than `max`.
pub fn parse_number(s: &str, max: u64) -> (r: Option<u64>)
    ensures
        match r {
            Some(n) => number(s@) == Some(n as nat) && n <= max,
            None => number(s@) is None || number(s@)->0 > max,
        },
{
    let v = chars_of(s);
    let start: usize = if v.len() > 0 && v[0] == '+' {
        1
    } else {
        0
    };
    let ghost d = v@.skip(start as int);
    proof {
        if start == 0 {
            assert(d =~= v@);
        }
    }
    if start == v.len() {
        return None;
    }
    let mut n: u64 = 0;
    let mut i: usize = start;
    assert(d.take(0) =~= Seq::<char>::empty());
    let mut over = false;
    while i < v.len()
        invariant
            start <= i <= v@.len(),
            d == v@.skip(start as int),
            number(s@) == (if d.len() > 0 && all_digits(d) {
                Some(digits_value(d))
            } else {
                None
            }),
            forall|k: int| 0 <= k < i - start ==> '0' <= #[trigger] d[k] <= '9',
            !over ==> n == digits_value(d.take(i - start)) && n <= max,
            over ==> digits_value(d.take(i - start)) > max,
        decreases v@.len() - i,
    {
        let c = v[i];
        assert(d[i - start] == c);
        if c < '0' || c > '9' {
            assert(!all_digits(d));
            return None;
        }
        let x: u64 = (c as u32 - '0' as u32) as u64;
        let next: u128 = (n as u128) * 10 + (x as u128);
        proof {
            assert(d.take(i - start + 1).drop_last() =~= d.take(i - start));
        }
        if !over && next <= max as u128 {
            n = next as u64;
        } else {
            over = true;
        }
        i = i + 1;
    }
    assert(d.take(i - start) =~= d);
    if over {
        None
    } else {
        Some(n)
    }
}

// --- searching and splitting -------------------------------------------------

/// Whether `c` occurs nowhere in `s`.
pub open spec fn lacks(s: Seq<char>, c: char) -> bool {
    forall|i: int| 0 <= i < s.len() ==> s[i] != c
}

/// The position of the first `c` in `s`, or the length of `s` without one.
pub open spec fn first_at(s: Seq<char>, c: char) -> int
    decreases s.len(),
{
    if s.len() == 0 || s[0] == c {
        0
    } else {
        1 + first_at(s.skip(1), c)
    }
}

/// What `first_at` gives: nothing before it is `c`, and it is `c` unless it is
/// the end.
pub proof fn lemma_first_at(s: Seq<char>, c: char)
    ensures
        0 <= first_at(s, c) <= s.len(),
        forall|i: int| 0 <= i < first_at(s, c) ==> s[i] != c,
        first_at(s, c) < s.len() ==> s[first_at(s, c)] == c,
        first_at(s, c) == s.len() <==> lacks(s, c),
    decreases s.len(),
{
    if s.len() > 0 && s[0] != c {
        lemma_first_at(s.skip(1), c);
        assert forall|i: int| 0 <= i < first_at(s, c) implies s[i] != c by {
            if i > 0 {
                assert(s.skip(1)[i - 1] == s[i]);
            }
        }
        if first_at(s, c) == s.len() {
            assert(lacks(s, c));
        }
    }
}

/// A position with the properties of `first_at` is `first_at`.
pub proof fn lemma_first_at_unique(s: Seq<char>, c: char, k: int)
    requires
        0 <= k <= s.len(),
        forall|i: int| 0 <= i < k ==> s[i] != c,
        k < s.len() ==> s[k] == c,
    ensures
        first_at(s, c) == k,
{
    lemma_first_at(s, c);
}

/// The position of the first `c` at or after `from`, or the length without one.
pub fn find_from(v: &[char], c: char, from: usize) -> (k: usize)
    requires
        from <= v.len(),
    ensures
        k == from + first_at(v@.skip(from as int), c),
        from <= k <= v.len(),
{
    let mut k: usize = from;
    while k < v.len() && v[k] != c
        invariant
            from <= k <= v.len(),
            forall|i: int| from <= i < k ==> v@[i] != c,
        decreases v.len() - k,
    {
        k = k + 1;
    }
    proof {
        lemma_first_at_unique(v@.skip(from as int), c, k - from);
    }
    k
}

/// The pieces of `s` between the occurrences of `c`; one piece without any.
pub open spec fn split_on(s: Seq<char>, c: char) -> Seq<Seq<char>>
    decreases s.len(),
{
    let k = first_at(s, c);
    if k == s.len() {
        seq![s]
    } else {
        proof {
            lemma_first_at(s, c);
        }
        seq![s.take(k)] + split_on(s.skip(k + 1), c)
    }
}

/// The pieces of `s` between the occurrences of `c`.
pub fn split(s: &str, c: char) -> (r: Vec<String>)
    ensures
        texts(r@) == split_on(s@, c),
{
    let v = chars_of(s);
    let mut r: Vec<String> = Vec::new();
    let mut from: usize = 0;
    assert(v@.skip(0) =~= v@);
    assert(texts(r@) + split_on(v@.skip(0), c) =~= split_on(v@, c));
    loop
        invariant_except_break
            from <= v.len(),
            texts(r@) + split_on(v@.skip(from as int), c) == split_on(v@, c),
        ensures
            texts(r@) == split_on(v@, c),
        decreases v.len() - from,
    {
        let k = find_from(v.as_slice(), c, from);
        let ghost old_r = texts(r@);
        proof {
            lemma_first_at(v@.skip(from as int), c);
        }
        let piece = string_between(v.as_slice(), from, k);
        assert(k < v.len() ==> piece@ =~= v@.skip(from as int).take(k - from));
        assert(k == v.len() ==> piece@ =~= v@.skip(from as int));
        r.push(piece);
        assert(texts(r@) =~= old_r.push(piece@));
        if k == v.len() {
            assert(texts(r@) =~= old_r + seq![piece@]);
            break;
        }
        assert(v@.skip(from as int).skip(k - from + 1) =~= v@.skip(k + 1));
        assert(old_r + (seq![piece@] + split_on(v@.skip(k + 1), c)) =~= texts(r@) + split_on(
            v@.skip(k + 1),
            c,
        ));
        from = k + 1;
    }
    r
}

/// `s` without a carriage return at its end.
pub open spec fn without_cr(s: Seq<char>) -> Seq<char> {
    if s.len() > 0 && s.last() == '\r' {
        s.drop_last()
    } else {
        s
    }
}

/// The lines of `s`: each ends in a line feed, which may follow a carriage
/// return; the last one need not end in either.
pub open spec fn lines_of(s: Seq<char>) -> Seq<Seq<char>>
    decreases s.len(),
{
    let k = first_at(s, '\n');
    if s.len() == 0 {
        seq![]
    } else if k == s.len() {
        seq![s]
    } else {
        proof {
            lemma_first_at(s, '\n');
        }
        seq![without_cr(s.take(k))] + lines_of(s.skip(k + 1))
    }
}

/// The lines of `s`.
pub fn split_lines(s: &str) -> (r: Vec<String>)
    ensures
        texts(r@) == lines_of(s@),
{
    let v = chars_of(s);
    let mut r: Vec<String> = Vec::new();
    let mut from: usize = 0;
    assert(v@.skip(0) =~= v@);
    assert(texts(r@) + lines_of(v@.skip(0)) =~= lines_of(v@));
    while from < v.len()
        invariant
            from <= v.len(),
            texts(r@) + lines_of(v@.skip(from as int)) == lines_of(v@),
        decreases v.len() - from,
    {
        let k = find_from(v.as_slice(), '\n', from);
        let ghost old_r = texts(r@);
        proof {
            lemma_first_at(v@.skip(from as int), '\n');
        }
        if k == v.len() {
            let piece = string_between(v.as_slice(), from, k);
            assert(piece@ =~= v@.skip(from as int));
            r.push(piece);
            assert(texts(r@) =~= old_r + seq![piece@]);
            assert(v@.skip(k as int) =~= Seq::<char>::empty());
            assert(lines_of(v@.skip(k as int)) =~= Seq::<Seq<char>>::empty());
            assert(texts(r@) + lines_of(v@.skip(k as int)) =~= texts(r@));
            from = k;
        } else {
            let mut to: usize = k;
            if k > from && v[k - 1] == '\r' {
                to = k - 1;
            }
            let piece = string_between(v.as_slice(), from, to);
            assert(piece@ =~= without_cr(v@.skip(from as int).take(k - from)));
            r.push(piece);
            assert(texts(r@) =~= old_r.push(piece@));
            assert(v@.skip(from as int).skip(k - from + 1) =~= v@.skip(k + 1));
            assert(old_r + (seq![piece@] + lines_of(v@.skip(k + 1))) =~= texts(r@) + lines_of(
                v@.skip(k + 1),
            ));
            from = k + 1;
        }
    }
    proof {
        assert(v@.skip(from as int) =~= Seq::<char>::empty());
        assert(lines_of(v@.skip(from as int)) =~= Seq::<Seq<char>>::empty());
        assert(texts(r@) + lines_of(v@.skip(from as int)) =~= texts(r@));
    }
    r
}

// --- joining -----------------------------------------------------------------

/// The parts one after the other with `sep` between them.
pub open spec fn joined(parts: Seq<Seq<char>>, sep: Seq<char>) -> Seq<char>
    decreases parts.len(),
{
    if parts.len() == 0 {
        seq![]
    } else if parts.len() == 1 {
        parts[0]
    } else {
        joined(parts.drop_last(), sep) + sep + parts.last()
    }
}

/// The parts one after the other with `sep` between them.
pub fn join(parts: &[String], sep: &str) -> (r: String)
    ensures
        r@ == joined(texts(parts@), sep@),
{
    let mut r = String::new();
    let mut i: usize = 0;
    while i < parts.len()
        invariant
            i <= parts.len(),
            r@ == joined(texts(parts@).take(i as int), sep@),
        decreases parts.len() - i,
    {
        assert(texts(parts@).take(i + 1).drop_last() =~= texts(parts@).take(i as int));
        if i > 0 {
            r.append(sep);
            r.append(parts[i].as_str());
        } else {
            r.append(parts[i].as_str());
            assert(r@ =~= parts@[0]@);
        }
        i = i + 1;
    }
    assert(texts(parts@).take(i as int) =~= texts(parts@));
    r
}

/// Joining with a character and splitting at it again gives the parts back, as
/// long as there are some and none of them holds the character.
pub proof fn lemma_split_of_joined(parts: Seq<Seq<char>>, c: char)
    requires
        parts.len() > 0,
        forall|i: int| 0 <= i < parts.len() ==> lacks(#[trigger] parts[i], c),
    ensures
        split_on(joined(parts, seq![c]), c) == parts,
    decreases parts.len(),
{
    lemma_joined_first(parts, seq![c]);
    lemma_first_at(parts[0], c);
    if parts.len() == 1 {
        assert(split_on(parts[0], c) =~= parts);
    } else {
        let tail = parts.skip(1);
        assert forall|i: int| 0 <= i < tail.len() implies lacks(#[trigger] tail[i], c) by {
            assert(tail[i] == parts[i + 1]);
        }
        lemma_split_of_joined(tail, c);
        let whole = joined(parts, seq![c]);
        let k = parts[0].len() as int;
        lemma_first_at_unique(whole, c, k);
        assert(whole.take(k) =~= parts[0]);
        assert(whole.skip(k + 1) =~= joined(tail, seq![c]));
        assert(split_on(whole, c) =~= parts);
    }
}

/// A join seen from its first part.
pub proof fn lemma_joined_first(parts: Seq<Seq<char>>, sep: Seq<char>)
    requires
        parts.len() > 0,
    ensures
        joined(parts, sep) == if parts.len() == 1 {
            parts[0]
        } else {
            parts[0] + sep + joined(parts.skip(1), sep)
        },
    decreases parts.len(),
{
    if parts.len() == 2 {
        assert(parts.drop_last() =~= seq![parts[0]]);
        assert(parts.skip(1) =~= seq![parts[1]]);
        assert(joined(parts.drop_last(), sep) == parts[0]);
        assert(joined(parts.skip(1), sep) == parts[1]);
    } else if parts.len() > 2 {
        lemma_joined_first(parts.drop_last(), sep);
        assert(parts.drop_last().skip(1) =~= parts.skip(1).drop_last());
        assert(joined(parts, sep) =~= parts[0] + sep + joined(parts.skip(1), sep));
    }
}

// --- prefixes, suffixes, replacing -------------------------------------------

/// Whether `s` begins with `p`.
pub open spec fn begins(s: Seq<char>, p: Seq<char>) -> bool {
    p.len() <= s.len() && s.take(p.len() as int) == p
}

/// Whether `s` ends with `p`.
pub open spec fn ends(s: Seq<char>, p: Seq<char>) -> bool {
    p.len() <= s.len() && s.skip(s.len() - p.len()) == p
}

/// Whether `p` stands in `v` at the position `at`.
pub fn stands_at(v: &[char], p: &[char], at: usize) -> (r: bool)
    requires
        at <= v.len(),
    ensures
        r == begins(v@.skip(at as int), p@),
{
    if v.len() - at < p.len() {
        return false;
    }
    let mut i: usize = 0;
    while i < p.len()
        invariant
            i <= p.len(),
            at + p.len() <= v.len(),
            forall|j: int| 0 <= j < i ==> v@[at + j] == p@[j],
        decreases p.len() - i,
    {
        if v[at + i] != p[i] {
            assert(v@.skip(at as int).take(p@.len() as int)[i as int] != p@[i as int]);
            return false;
        }
        i = i + 1;
    }
    assert(v@.skip(at as int).take(p@.len() as int) =~= p@);
    true
}

/// `s` with every occurrence of `pat` replaced by `to`, taken from the left
/// without overlap. An empty `pat` replaces nothing.
pub open spec fn replaced(s: Seq<char>, pat: Seq<char>, to: Seq<char>) -> Seq<char>
    decreases s.len(),
{
    if s.len() == 0 || pat.len() == 0 {
        s
    } else if begins(s, pat) {
        to + replaced(s.skip(pat.len() as int), pat, to)
    } else {
        seq![s[0]] + replaced(s.skip(1), pat, to)
    }
}

/// `s` with every occurrence of `pat` replaced by `to`.
pub fn replace(s: &str, pat: &str, to: &str) -> (r: String)
    ensures
        r@ == replaced(s@, pat@, to@),
{
    let v = chars_of(s);
    let p = chars_of(pat);
    if p.len() == 0 {
        return s.to_owned();
    }
    let mut r = String::new();
    let mut i: usize = 0;
    assert(v@.skip(0) =~= v@);
    assert(r@ + replaced(v@.skip(0), p@, to@) =~= replaced(v@, p@, to@));
    while i < v.len()
        invariant
            i <= v.len(),
            p.len() > 0,
            r@ + replaced(v@.skip(i as int), p@, to@) == replaced(v@, p@, to@),
        decreases v.len() - i,
    {
        let ghost old_r = r@;
        if stands_at(v.as_slice(), p.as_slice(), i) {
            r.append(to);
            assert(v@.skip(i as int).skip(p@.len() as int) =~= v@.skip(i + p.len()));
            assert(old_r + (to@ + replaced(v@.skip(i + p.len()), p@, to@)) =~= r@ + replaced(
                v@.skip(i + p.len()),
                p@,
                to@,
            ));
            i = i + p.len();
        } else {
            r.push(v[i]);
            assert(v@.skip(i as int).skip(1) =~= v@.skip(i + 1));
            assert(old_r + (seq![v@[i as int]] + replaced(v@.skip(i + 1), p@, to@)) =~= r@
                + replaced(v@.skip(i + 1), p@, to@));
            i = i + 1;
        }
    }
    proof {
        assert(v@.skip(i as int) =~= Seq::<char>::empty());
        assert(r@ + replaced(v@.skip(i as int), p@, to@) =~= r@);
    }
    r
}

// --- case --------------------------------------------------------------------

/// `c` in lower case if it is an ASCII letter, else `c` itself.
pub open spec fn lowered_char(c: char) -> char {
    if 'A' <= c <= 'Z' {
        (c as u32 + 32) as char
    } else {
        c
    }
}

/// `s` with its ASCII letters in lower case.
pub open spec fn lowered(s: Seq<char>) -> Seq<char> {
    s.map_values(|c: char| lowered_char(c))
}

/// `s` with its ASCII letters in lower case.
pub fn lower(s: &str) -> (r: String)
    ensures
        r@ == lowered(s@),
{
    let v = chars_of(s);
    let mut r = String::new();
    let mut i: usize = 0;
    while i < v.len()
        invariant
            i <= v@.len(),
            v@ == s@,
            r@ == lowered(s@).take(i as int),
        decreases v@.len() - i,
    {
        let c = v[i];
        if 'A' <= c && c <= 'Z' {
            let b = c as u8;
            r.push((b + 32) as char);
        } else {
            r.push(c);
        }
        assert(lowered(s@).take(i + 1) =~= lowered(s@).take(i as int).push(
            lowered_char(s@[i as int]),
        ));
        i = i + 1;
    }
    assert(lowered(s@).take(i as int) =~= lowered(s@));
    r
}

// --- what the operations promise ---------------------------------------------

/// Whether `part` stands somewhere in `s`.
pub open spec fn occurs(s: Seq<char>, part: Seq<char>) -> bool {
    exists|a: Seq<char>, b: Seq<char>| s == #[trigger] (a + part + b)
}

/// What stands in a part of a text stands in the text.
pub proof fn lemma_occurs_within(
    s: Seq<char>,
    a: Seq<char>,
    mid: Seq<char>,
    b: Seq<char>,
    part: Seq<char>,
)
    requires
        s == a + mid + b,
        occurs(mid, part),
    ensures
        occurs(s, part),
{
    let (x, y) = choose|x: Seq<char>, y: Seq<char>| mid == #[trigger] (x + part + y);
    assert(s =~= (a + x) + part + (y + b));
}

/// A text begins with another exactly when it is that text with something behind
/// it, and ends with it exactly when it is that text with something before it.
pub proof fn law_prefixes_and_suffixes(s: Seq<char>, p: Seq<char>, t: Seq<char>)
    ensures
        begins(p + t, p),
        ends(t + p, p),
        begins(s, p) ==> s == p + s.skip(p.len() as int),
        ends(s, p) ==> s == s.take(s.len() - p.len()) + p,
{
    assert((p + t).take(p.len() as int) =~= p);
    assert((t + p).skip((t + p).len() - p.len()) =~= p);
    if begins(s, p) {
        assert(s =~= s.take(p.len() as int) + s.skip(p.len() as int));
    }
    if ends(s, p) {
        assert(s =~= s.take(s.len() - p.len()) + s.skip(s.len() - p.len()));
    }
}

/// The order of two texts is that of the first characters that differ; and what
/// a text begins with comes before it.
pub proof fn law_first_difference_decides_the_order(
    p: Seq<char>,
    c: char,
    x: Seq<char>,
    d: char,
    y: Seq<char>,
)
    ensures
        lex_before(p + seq![c] + x, p + seq![d] + y) <== c < d,
        !lex_before(p + seq![d] + y, p + seq![c] + x) <== c < d,
        lex_before(p, p + seq![d] + y),
        !lex_before(p + seq![d] + y, p),
{
    let a = p + seq![c] + x;
    let b = p + seq![d] + y;
    let n = p.len() as int;
    assert(parts_at(p, b, n));
    lemma_lex_order(p, b, p);
    if c < d {
        assert(a[n] == c && b[n] == d);
        assert(parts_at(a, b, n));
        lemma_lex_order(a, b, a);
    }
}

proof fn lemma_trim_start(a: Seq<char>, w: Seq<char>)
    requires
        forall|i: int| 0 <= i < a.len() ==> is_white(#[trigger] a[i]),
        w.len() > 0 ==> !is_white(w[0]),
    ensures
        trimmed_start(a + w) == w,
    decreases a.len(),
{
    if a.len() == 0 {
        assert(a + w =~= w);
    } else {
        assert((a + w)[0] == a[0]);
        assert((a + w).skip(1) =~= a.skip(1) + w);
        assert forall|i: int| 0 <= i < a.skip(1).len() implies is_white(#[trigger] a.skip(1)[i]) by {
            assert(a.skip(1)[i] == a[i + 1]);
        }
        lemma_trim_start(a.skip(1), w);
    }
}

proof fn lemma_trim_end(w: Seq<char>, b: Seq<char>)
    requires
        forall|i: int| 0 <= i < b.len() ==> is_white(#[trigger] b[i]),
        w.len() > 0 ==> !is_white(w.last()),
    ensures
        trimmed_end(w + b) == w,
    decreases b.len(),
{
    if b.len() == 0 {
        assert(w + b =~= w);
    } else {
        assert((w + b).last() == b.last());
        assert(is_white(b[b.len() - 1]));
        assert((w + b).drop_last() =~= w + b.drop_last());
        assert forall|i: int| 0 <= i < b.drop_last().len() implies is_white(
            #[trigger] b.drop_last()[i],
        ) by {
            assert(b.drop_last()[i] == b[i]);
        }
        lemma_trim_end(w, b.drop_last());
    }
}

/// Trimming takes exactly the white space around a text away.
pub proof fn law_trimming_takes_the_white_space_around(a: Seq<char>, w: Seq<char>, b: Seq<char>)
    requires
        forall|i: int| 0 <= i < a.len() ==> is_white(#[trigger] a[i]),
        forall|i: int| 0 <= i < b.len() ==> is_white(#[trigger] b[i]),
        w.len() > 0 ==> !is_white(w[0]) && !is_white(w.last()),
    ensures
        trimmed(a + w + b) == w,
{
    if w.len() > 0 {
        assert(a + w + b =~= a + (w + b));
        assert((w + b)[0] == w[0]);
        lemma_trim_start(a, w + b);
        lemma_trim_end(w, b);
    } else {
        let all = a + w + b;
        assert forall|i: int| 0 <= i < all.len() implies is_white(#[trigger] all[i]) by {
            if i < a.len() {
                assert(all[i] == a[i]);
            } else {
                assert(all[i] == b[i - a.len()]);
            }
        }
        assert(all + w =~= all);
        lemma_trim_start(all, w);
        lemma_trim_end(w, w);
        assert(w + w =~= w);
    }
}

/// Of ASCII, the space and the control characters from the tab to the carriage
/// return are white space, and nothing else is.
pub proof fn law_white_space_of_ascii(c: char)
    requires
        c as u32 <= 0x7f,
    ensures
        is_white(c) <==> c == ' ' || c == '\t' || c == '\n' || c == '\r' || c == '\x0b' || c
            == '\x0c',
{
}

proof fn lemma_digits_push(s: Seq<char>, c: char)
    requires
        '0' <= c <= '9',
    ensures
        digits_value(s.push(c)) == digits_value(s) * 10 + (c as int - '0' as int),
{
    assert(s.push(c).drop_last() =~= s);
}

proof fn lemma_decimal_value(n: nat)
    ensures
        digits_value(decimal(n)) == n,
        all_digits(decimal(n)),
        decimal(n).len() > 0,
        decimal(n)[0] == '0' ==> n == 0,
    decreases n,
{
    lemma_decimal_digits(n);
    reveal_with_fuel(digits_value, 2);
    if n < 10 {
        assert(decimal(n) =~= Seq::<char>::empty().push(digit(n)));
        lemma_digits_push(Seq::empty(), digit(n));
    } else {
        lemma_decimal_value(n / 10);
        lemma_digits_push(decimal(n / 10), digit(n % 10));
        assert(decimal(n)[0] == decimal(n / 10)[0]);
    }
}

/// A number comes back from its digits, with or without a plus sign, and it is
/// written without leading zeros.
pub proof fn law_numbers_read_back(n: nat)
    ensures
        number(decimal(n)) == Some(n),
        number(seq!['+'] + decimal(n)) == Some(n),
        decimal(n)[0] == '0' ==> n == 0,
{
    lemma_decimal_value(n);
    let p = seq!['+'] + decimal(n);
    assert(p.skip(1) =~= decimal(n));
    assert('0' <= decimal(n)[0] <= '9');
}

/// A text with anything but digits in it is no number, unless that is a plus sign
/// in front; nor is the empty text.
pub proof fn law_only_digits_are_numbers(s: Seq<char>, i: int)
    requires
        s.len() == 0 || (0 <= i < s.len() && !('0' <= s[i] <= '9') && (i > 0 || s[i] != '+')),
    ensures
        number(s) is None,
{
    if s.len() > 0 {
        let d = if s[0] == '+' {
            s.skip(1)
        } else {
            s
        };
        if s[0] == '+' {
            assert(d[i - 1] == s[i]);
        } else {
            assert(d[i] == s[i]);
        }
    }
}

/// A negative integer is its digits behind a minus sign; any other has its digits
/// alone.
pub proof fn law_signs_stand_in_front(n: int)
    ensures
        n >= 0 ==> number(signed_decimal(n)) == Some(n as nat),
        n < 0 ==> signed_decimal(n)[0] == '-' && number(signed_decimal(n).skip(1)) == Some(
            (-n) as nat,
        ),
{
    if n >= 0 {
        law_numbers_read_back(n as nat);
    } else {
        law_numbers_read_back((-n) as nat);
        assert(signed_decimal(n).skip(1) =~= decimal((-n) as nat));
    }
}

/// Aligning keeps the text at its end of the column, fills with spaces up to the
/// width, and never cuts.
pub proof fn law_aligning_fills_with_spaces(s: Seq<char>, w: nat)
    ensures
        right_aligned(s, w).len() == (if s.len() < w {
            w
        } else {
            s.len()
        }),
        left_aligned(s, w).len() == right_aligned(s, w).len(),
        ends(right_aligned(s, w), s),
        begins(left_aligned(s, w), s),
        forall|i: int|
            0 <= i < right_aligned(s, w).len() - s.len() ==> #[trigger] right_aligned(s, w)[i]
                == ' ',
        forall|i: int|
            s.len() <= i < left_aligned(s, w).len() ==> #[trigger] left_aligned(s, w)[i] == ' ',
{
    let r = right_aligned(s, w);
    let l = left_aligned(s, w);
    assert(r.skip(r.len() - s.len()) =~= s);
    assert(l.take(s.len() as int) =~= s);
}

/// Splitting at a character cuts exactly there: the pieces do not hold it, and
/// with it between them they are the text again.
pub proof fn law_pieces_make_up_the_text(s: Seq<char>, c: char)
    ensures
        split_on(s, c).len() > 0,
        joined(split_on(s, c), seq![c]) == s,
        forall|i: int| 0 <= i < split_on(s, c).len() ==> lacks(#[trigger] split_on(s, c)[i], c),
    decreases s.len(),
{
    lemma_first_at(s, c);
    let k = first_at(s, c);
    let all = split_on(s, c);
    if k < s.len() {
        let rest = s.skip(k + 1);
        law_pieces_make_up_the_text(rest, c);
        assert(all =~= seq![s.take(k)] + split_on(rest, c));
        lemma_joined_first(all, seq![c]);
        assert(all.skip(1) =~= split_on(rest, c));
        assert(s =~= s.take(k) + seq![c] + rest);
        assert forall|i: int| 0 <= i < all.len() implies lacks(#[trigger] all[i], c) by {
            if i > 0 {
                assert(all[i] == split_on(rest, c)[i - 1]);
            }
        }
    }
}

/// A line ends at its line feed, and a carriage return before that does not
/// belong to it; the last line needs no line feed.
pub proof fn law_lines_end_at_line_feeds(l: Seq<char>, rest: Seq<char>)
    requires
        lacks(l, '\n'),
    ensures
        l.len() == 0 || l.last() != '\r' ==> lines_of(l + seq!['\n'] + rest) == seq![l] + lines_of(
            rest,
        ),
        lines_of(l + seq!['\r', '\n'] + rest) == seq![l] + lines_of(rest),
        lines_of(l) == (if l.len() == 0 {
            Seq::empty()
        } else {
            seq![l]
        }),
{
    let a = l + seq!['\n'] + rest;
    let n = l.len() as int;
    assert(a[n] == '\n');
    assert forall|i: int| 0 <= i < n implies a[i] != '\n' by {
        assert(a[i] == l[i]);
    }
    lemma_first_at_unique(a, '\n', n);
    assert(a.take(n) =~= l);
    assert(a.skip(n + 1) =~= rest);
    let b = l + seq!['\r', '\n'] + rest;
    assert(b[n] == '\r' && b[n + 1] == '\n');
    assert forall|i: int| 0 <= i < n + 1 implies b[i] != '\n' by {
        if i < n {
            assert(b[i] == l[i]);
        }
    }
    lemma_first_at_unique(b, '\n', n + 1);
    assert(b.take(n + 1) =~= l.push('\r'));
    assert(b.take(n + 1).drop_last() =~= l);
    assert(b.skip(n + 2) =~= rest);
    lemma_first_at(l, '\n');
}

/// White space ends a word, and a word is whatever stands between white space.
pub proof fn law_words_stand_between_white_space(w: Seq<char>, c: char, rest: Seq<char>)
    requires
        forall|i: int| 0 <= i < w.len() ==> !is_white(#[trigger] w[i]),
        is_white(c),
    ensures
        words(w + seq![c] + rest) == (if w.len() == 0 {
            words(rest)
        } else {
            seq![w] + words(rest)
        }),
        words(w) == (if w.len() == 0 {
            Seq::empty()
        } else {
            seq![w]
        }),
{
    let s = w + seq![c] + rest;
    let n = w.len() as int;
    assert(s[n] == c);
    if n == 0 {
        assert(s.skip(1) =~= rest);
    } else {
        assert(s[0] == w[0]);
        lemma_word_len(s);
        let k = word_len(s);
        if k < n {
            assert(s[k] == w[k]);
        }
        assert(k == n);
        assert(s.take(n) =~= w);
        let tail = s.skip(n);
        assert(tail[0] == c);
        assert(tail.skip(1) =~= rest);
        assert(words(tail) == words(rest));
        assert(words(s) == seq![s.take(k)] + words(s.skip(k)));
        lemma_word_len(w);
        assert(word_len(w) == n);
        assert(w.take(n) =~= w);
        assert(w.skip(n) =~= Seq::<char>::empty());
        assert(words(w.skip(n)) =~= Seq::<Seq<char>>::empty());
        assert(words(w) =~= seq![w]);
    }
}

/// Replacing changes the first place where the pattern stands, and goes on behind
/// it.
pub proof fn law_replacing_goes_from_place_to_place(
    x: Seq<char>,
    pat: Seq<char>,
    to: Seq<char>,
    y: Seq<char>,
)
    requires
        pat.len() > 0,
        forall|i: int| 0 <= i < x.len() ==> !begins(#[trigger] (x + pat + y).skip(i), pat),
    ensures
        replaced(x + pat + y, pat, to) == x + to + replaced(y, pat, to),
    decreases x.len(),
{
    let s = x + pat + y;
    if x.len() == 0 {
        assert(s.take(pat.len() as int) =~= pat);
        assert(s.skip(pat.len() as int) =~= y);
        assert(x + to + replaced(y, pat, to) =~= to + replaced(y, pat, to));
    } else {
        assert(s.skip(0) =~= s);
        assert(!begins(s.skip(0), pat));
        let x1 = x.skip(1);
        assert(s.skip(1) =~= x1 + pat + y);
        assert forall|i: int| 0 <= i < x1.len() implies !begins(
            #[trigger] (x1 + pat + y).skip(i),
            pat,
        ) by {
            assert((x1 + pat + y).skip(i) =~= s.skip(i + 1));
        }
        law_replacing_goes_from_place_to_place(x1, pat, to, y);
        assert(seq![s[0]] + (x1 + to + replaced(y, pat, to)) =~= x + to + replaced(y, pat, to));
    }
}

/// A text in which the pattern stands nowhere stays as it is.
pub proof fn law_nothing_to_replace(s: Seq<char>, pat: Seq<char>, to: Seq<char>)
    requires
        forall|i: int| 0 <= i < s.len() ==> !begins(#[trigger] s.skip(i), pat),
    ensures
        replaced(s, pat, to) == s,
    decreases s.len(),
{
    if s.len() > 0 && pat.len() > 0 {
        assert(s.skip(0) =~= s);
        assert(!begins(s.skip(0), pat));
        let r = s.skip(1);
        assert forall|i: int| 0 <= i < r.len() implies !begins(#[trigger] r.skip(i), pat) by {
            assert(r.skip(i) =~= s.skip(i + 1));
        }
        law_nothing_to_replace(r, pat, to);
        assert(seq![s[0]] + r =~= s);
    }
}

/// Lowering changes the capital letters of ASCII alone, each to its small one.
pub proof fn law_lowering_changes_capitals_alone(s: Seq<char>, i: int)
    requires
        0 <= i < s.len(),
    ensures
        lowered(s).len() == s.len(),
        'A' <= s[i] <= 'Z' ==> 'a' <= lowered(s)[i] <= 'z' && lowered(s)[i] as int - 'a' as int
            == s[i] as int - 'A' as int,
        !('A' <= s[i] <= 'Z') ==> lowered(s)[i] == s[i],
{
}

/// A digit behind a number makes it ten times as large, and adds the digit; so
/// leading zeros change nothing.
pub proof fn law_digits_count_by_their_place(s: Seq<char>, d: nat)
    requires
        d < 10,
    ensures
        number(seq![digit(d)]) == Some(d),
        number(s) is Some ==> number(s.push(digit(d))) == Some(10 * number(s)->0 + d),
{
    lemma_digits_push(Seq::empty(), digit(d));
    assert(Seq::<char>::empty().push(digit(d)) =~= seq![digit(d)]);
    assert('0' <= digit(d) <= '9');
    assert(digit(d) as int - '0' as int == d);
    if number(s) is Some {
        let t = s.push(digit(d));
        let a = if s[0] == '+' {
            s.skip(1)
        } else {
            s
        };
        assert(s.len() > 0);
        assert(t[0] == s[0]);
        let b = if t[0] == '+' {
            t.skip(1)
        } else {
            t
        };
        assert(b =~= a.push(digit(d)));
        lemma_digits_push(a, digit(d));
        assert(all_digits(b)) by {
            assert forall|i: int| 0 <= i < b.len() implies '0' <= #[trigger] b[i] <= '9' by {
                if i < a.len() {
                    assert(b[i] == a[i]);
                }
            }
        }
    }
}

/// Lists are joined with the separator between each two neighbours, and nowhere else.
pub proof fn law_joining_puts_the_separator_between(
    a: Seq<Seq<char>>,
    b: Seq<Seq<char>>,
    sep: Seq<char>,
)
    requires
        a.len() > 0,
        b.len() > 0,
    ensures
        joined(a + b, sep) == joined(a, sep) + sep + joined(b, sep),
        joined(seq![a[0]], sep) == a[0],
        joined(Seq::empty(), sep) == Seq::<char>::empty(),
    decreases b.len(),
{
    assert((a + b).drop_last() =~= a + b.drop_last());
    assert((a + b).last() == b.last());
    if b.len() == 1 {
        assert((a + b).drop_last() =~= a);
        assert(joined(b, sep) == b[0]);
    } else {
        law_joining_puts_the_separator_between(a, b.drop_last(), sep);
        assert(joined(a + b, sep) =~= joined(a, sep) + sep + joined(b, sep));
    }
}

/// The texts of strings are those strings, one for one and in their order.
pub proof fn law_texts_are_those_of_the_strings(v: Seq<String>, i: int, s: String)
    ensures
        texts(v).len() == v.len(),
        0 <= i < v.len() ==> texts(v)[i] == v[i]@,
        opt(Some(s)) == Some(s@),
        opt(None) is None,
{
}

} // verus!
