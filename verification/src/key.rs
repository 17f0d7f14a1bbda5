//! Ordering of keys.
//!
//! Every key is viewed as a finite sequence of integers, and keys are ordered
//! lexicographically on that view. An integer key is the one-element sequence
//! holding its value; a string key is the sequence of its UTF-8 bytes, which is
//! the order `Ord` gives `String` and `str`.
use vstd::prelude::*;
use vstd::utf8::{encode_utf8, encode_utf8_decode_utf8};

verus! {

/// The outcome of comparing two keys.
#[derive(Clone, Copy, Debug, PartialEq, Eq, Structural)]
pub enum KeyOrder {
    Less,
    Equal,
    Greater,
}

/// Strict lexicographic order on integer sequences.
pub open spec fn seq_lt(a: Seq<int>, b: Seq<int>) -> bool
    decreases a.len(),
{
    if a.len() == 0 {
        b.len() > 0
    } else if b.len() == 0 {
        false
    } else if a[0] != b[0] {
        a[0] < b[0]
    } else {
        seq_lt(a.drop_first(), b.drop_first())
    }
}

/// The result a three-way comparison of two key views must give.
pub open spec fn compare_views(a: Seq<int>, b: Seq<int>) -> KeyOrder {
    if seq_lt(a, b) {
        KeyOrder::Less
    } else if a == b {
        KeyOrder::Equal
    } else {
        KeyOrder::Greater
    }
}

/// No sequence is below itself.
pub proof fn lemma_seq_lt_irreflexive(a: Seq<int>)
    ensures
        !seq_lt(a, a),
    decreases a.len(),
{
    if a.len() > 0 {
        lemma_seq_lt_irreflexive(a.drop_first());
    }
}

/// The order is transitive.
pub proof fn lemma_seq_lt_transitive(a: Seq<int>, b: Seq<int>, c: Seq<int>)
    requires
        seq_lt(a, b),
        seq_lt(b, c),
    ensures
        seq_lt(a, c),
    decreases a.len(),
{
    if a.len() > 0 && b.len() > 0 && c.len() > 0 {
        if a[0] == b[0] && b[0] == c[0] {
            lemma_seq_lt_transitive(a.drop_first(), b.drop_first(), c.drop_first());
        }
    }
}

/// Two different sequences are comparable, and at most one is below the other.
pub proof fn lemma_seq_lt_total(a: Seq<int>, b: Seq<int>)
    ensures
        a != b ==> (seq_lt(a, b) || seq_lt(b, a)),
        !(seq_lt(a, b) && seq_lt(b, a)),
        seq_lt(a, b) ==> a != b,
    decreases a.len(),
{
    lemma_seq_lt_irreflexive(a);
    if a.len() > 0 && b.len() > 0 {
        lemma_seq_lt_total(a.drop_first(), b.drop_first());
        if a[0] == b[0] && a.drop_first() == b.drop_first() {
            assert(a =~= seq![a[0]] + a.drop_first());
            assert(b =~= seq![b[0]] + b.drop_first());
        }
    } else if a.len() == 0 && b.len() == 0 {
        assert(a =~= b);
    }
}

/// The comparison outcome is `Equal` exactly for equal views, and flips when
/// the operands are swapped.
pub proof fn lemma_compare_views(a: Seq<int>, b: Seq<int>)
    ensures
        (compare_views(a, b) == KeyOrder::Equal) == (a == b),
        (compare_views(a, b) == KeyOrder::Less) == seq_lt(a, b),
        (compare_views(a, b) == KeyOrder::Greater) == seq_lt(b, a),
{
    lemma_seq_lt_total(a, b);
    lemma_seq_lt_irreflexive(a);
}

/// Sequences that agree on their first `i` elements compare as their
/// remainders after those elements do.
proof fn lemma_seq_lt_common_prefix(a: Seq<int>, b: Seq<int>, i: int)
    requires
        0 <= i <= a.len(),
        i <= b.len(),
        a.subrange(0, i) == b.subrange(0, i),
    ensures
        seq_lt(a, b) == seq_lt(a.skip(i), b.skip(i)),
    decreases i,
{
    if i > 0 {
        assert(a[0] == a.subrange(0, i)[0]);
        assert(b[0] == b.subrange(0, i)[0]);
        assert(a.drop_first().subrange(0, i - 1) =~= a.subrange(0, i).drop_first());
        assert(b.drop_first().subrange(0, i - 1) =~= b.subrange(0, i).drop_first());
        lemma_seq_lt_common_prefix(a.drop_first(), b.drop_first(), i - 1);
        assert(a.drop_first().skip(i - 1) =~= a.skip(i));
        assert(b.drop_first().skip(i - 1) =~= b.skip(i));
    } else {
        assert(a.skip(0) =~= a);
        assert(b.skip(0) =~= b);
    }
}

/// The integer view of a byte sequence.
pub open spec fn bytes_view(s: Seq<u8>) -> Seq<int> {
    s.map_values(|x: u8| x as int)
}

/// The integer view of a string: its UTF-8 bytes.
pub open spec fn str_view(s: Seq<char>) -> Seq<int> {
    bytes_view(encode_utf8(s))
}

/// The byte view keeps every byte: it is as long as the byte sequence and
/// holds each byte's value at the same index.
pub proof fn lemma_bytes_view_bytes(s: Seq<u8>)
    ensures
        bytes_view(s).len() == s.len(),
        forall|i: int| 0 <= i < s.len() ==> #[trigger] bytes_view(s)[i] == s[i] as int,
{
}

/// Two byte sequences have the same view exactly when they are equal.
pub proof fn lemma_bytes_view_injective(a: Seq<u8>, b: Seq<u8>)
    ensures
        (bytes_view(a) == bytes_view(b)) == (a == b),
{
    lemma_bytes_view_bytes(a);
    lemma_bytes_view_bytes(b);
    if bytes_view(a) == bytes_view(b) {
        assert forall|i: int| 0 <= i < a.len() implies a[i] == b[i] by {
            assert(bytes_view(a)[i] == bytes_view(b)[i]);
        }
        assert(a =~= b);
    }
}

/// Two strings have the same key view exactly when they hold the same
/// characters: a string key matches only an identical string.
pub proof fn lemma_string_views_equal(a: Seq<char>, b: Seq<char>)
    ensures
        (str_view(a) == str_view(b)) == (a == b),
{
    lemma_bytes_view_injective(encode_utf8(a), encode_utf8(b));
    if encode_utf8(a) == encode_utf8(b) {
        encode_utf8_decode_utf8(a);
        encode_utf8_decode_utf8(b);
    }
}

/// The key order is lexicographic: `a` is below `b` exactly when, after a
/// common prefix of length `i`, either `a` ends while `b` goes on, or the
/// next element of `a` is smaller than that of `b`.
pub proof fn lemma_seq_lt_first_difference(a: Seq<int>, b: Seq<int>)
    ensures
        seq_lt(a, b) == exists|i: int|
            0 <= i <= a.len() && i <= b.len() && #[trigger] a.take(i) == b.take(i) && (
            (i == a.len() && i < b.len()) || (i < a.len() && i < b.len() && a[i] < b[i])),
    decreases a.len(),
{
    if seq_lt(a, b) {
        if a.len() == 0 || a[0] != b[0] {
            assert(a.take(0) =~= b.take(0));
        } else {
            lemma_seq_lt_first_difference(a.drop_first(), b.drop_first());
            let j = choose|j: int|
                0 <= j <= a.drop_first().len() && j <= b.drop_first().len()
                    && #[trigger] a.drop_first().take(j) == b.drop_first().take(j) && (
                (j == a.drop_first().len() && j < b.drop_first().len()) || (j
                    < a.drop_first().len() && j < b.drop_first().len() && a.drop_first()[j]
                    < b.drop_first()[j]));
            assert(a.take(j + 1) =~= seq![a[0]] + a.drop_first().take(j));
            assert(b.take(j + 1) =~= seq![b[0]] + b.drop_first().take(j));
        }
    } else {
        if exists|i: int|
            0 <= i <= a.len() && i <= b.len() && #[trigger] a.take(i) == b.take(i) && (
            (i == a.len() && i < b.len()) || (i < a.len() && i < b.len() && a[i] < b[i])) {
            let i = choose|i: int|
                0 <= i <= a.len() && i <= b.len() && #[trigger] a.take(i) == b.take(i) && (
                (i == a.len() && i < b.len()) || (i < a.len() && i < b.len() && a[i] < b[i]));
            if i > 0 {
                assert(a[0] == a.take(i)[0]);
                assert(b[0] == b.take(i)[0]);
                assert(a.drop_first().take(i - 1) =~= a.take(i).drop_first());
                assert(b.drop_first().take(i - 1) =~= b.take(i).drop_first());
                lemma_seq_lt_first_difference(a.drop_first(), b.drop_first());
                assert(a.drop_first().take(i - 1) == b.drop_first().take(i - 1));
                assert(false);
            }
        }
    }
}

/// Lexicographic three-way comparison of two byte slices.
fn compare_bytes(a: &[u8], b: &[u8]) -> (c: KeyOrder)
    ensures
        c == compare_views(bytes_view(a@), bytes_view(b@)),
        (c == KeyOrder::Equal) == (a@ == b@),
{
    proof {
        lemma_bytes_view_injective(a@, b@);
        lemma_compare_views(bytes_view(a@), bytes_view(b@));
    }
    let ghost av = bytes_view(a@);
    let ghost bv = bytes_view(b@);
    let mut i: usize = 0;
    while i < a.len() && i < b.len()
        invariant
            i <= a.len(),
            i <= b.len(),
            av == bytes_view(a@),
            bv == bytes_view(b@),
            av.subrange(0, i as int) == bv.subrange(0, i as int),
        decreases a.len() - i,
    {
        if a[i] != b[i] {
            proof {
                lemma_seq_lt_common_prefix(av, bv, i as int);
                lemma_compare_views(av, bv);
                assert(av.skip(i as int)[0] == a[i as int] as int);
                assert(bv.skip(i as int)[0] == b[i as int] as int);
                assert(av[i as int] != bv[i as int]);
            }
            if a[i] < b[i] {
                return KeyOrder::Less;
            } else {
                return KeyOrder::Greater;
            }
        }
        proof {
            assert(av.subrange(0, i + 1) =~= av.subrange(0, i as int).push(av[i as int]));
            assert(bv.subrange(0, i + 1) =~= bv.subrange(0, i as int).push(bv[i as int]));
        }
        i = i + 1;
    }
    proof {
        lemma_seq_lt_common_prefix(av, bv, i as int);
        lemma_compare_views(av, bv);
        if i == a.len() {
            assert(av.skip(i as int).len() == 0);
        }
        if i == b.len() {
            assert(bv.skip(i as int).len() == 0);
        }
        if a.len() == b.len() {
            assert(av =~= av.subrange(0, i as int));
            assert(bv =~= bv.subrange(0, i as int));
        } else {
            assert(av.len() != bv.len());
        }
    }
    if a.len() < b.len() {
        KeyOrder::Less
    } else if a.len() == b.len() {
        KeyOrder::Equal
    } else {
        KeyOrder::Greater
    }
}

/// A type whose values can order the nodes of a tree.
///
/// `key_view` places the value in the lexicographic order of integer
/// sequences, and `compare` computes that order.
pub trait TreeKey {
    spec fn key_view(&self) -> Seq<int>;

    fn compare(&self, other: &Self) -> (c: KeyOrder)
        ensures
            c == compare_views(self.key_view(), other.key_view()),
    ;
}

/// A value that can be looked up among keys of type `K`: a key itself, or a
/// borrowed form of it such as `str` for `String`.
pub trait KeyQuery<K: TreeKey> {
    spec fn query_view(&self) -> Seq<int>;

    fn compare_key(&self, key: &K) -> (c: KeyOrder)
        ensures
            c == compare_views(self.query_view(), key.key_view()),
    ;
}

impl<K: TreeKey> KeyQuery<K> for K {
    open spec fn query_view(&self) -> Seq<int> {
        self.key_view()
    }

    fn compare_key(&self, key: &K) -> (c: KeyOrder) {
        self.compare(key)
    }
}

/// The order of two integers seen as one-element sequences.
proof fn lemma_compare_singletons(a: int, b: int)
    ensures
        compare_views(seq![a], seq![b]) == (if a < b {
            KeyOrder::Less
        } else if a == b {
            KeyOrder::Equal
        } else {
            KeyOrder::Greater
        }),
{
    let sa = seq![a];
    let sb = seq![b];
    assert(sa.drop_first() =~= Seq::<int>::empty());
    assert(sb.drop_first() =~= Seq::<int>::empty());
    assert(!seq_lt(sa.drop_first(), sb.drop_first()));
    if a != b {
        assert(sa != sb) by {
            assert(sa[0] != sb[0]);
        }
    }
}

/// One-element sequences are ordered and equal as their elements are.
proof fn lemma_singleton_order(a: int, b: int)
    ensures
        seq_lt(seq![a], seq![b]) == (a < b),
        (seq![a] == seq![b]) == (a == b),
{
    lemma_compare_singletons(a, b);
    lemma_compare_views(seq![a], seq![b]);
    if seq![a] == seq![b] {
        assert(seq![a][0] == seq![b][0]);
    }
}

/// `i32` keys are ordered by their values: one key view is below another
/// exactly when the first value is smaller, and two views are equal exactly
/// when the values are.
pub proof fn lemma_i32_key_order(a: i32, b: i32)
    ensures
        seq_lt(a.key_view(), b.key_view()) == (a < b),
        (a.key_view() == b.key_view()) == (a == b),
{
    lemma_singleton_order(a as int, b as int);
}

/// `i64` keys are ordered by their values: one key view is below another
/// exactly when the first value is smaller, and two views are equal exactly
/// when the values are.
pub proof fn lemma_i64_key_order(a: i64, b: i64)
    ensures
        seq_lt(a.key_view(), b.key_view()) == (a < b),
        (a.key_view() == b.key_view()) == (a == b),
{
    lemma_singleton_order(a as int, b as int);
}

/// `u32` keys are ordered by their values: one key view is below another
/// exactly when the first value is smaller, and two views are equal exactly
/// when the values are.
pub proof fn lemma_u32_key_order(a: u32, b: u32)
    ensures
        seq_lt(a.key_view(), b.key_view()) == (a < b),
        (a.key_view() == b.key_view()) == (a == b),
{
    lemma_singleton_order(a as int, b as int);
}

/// `u64` keys are ordered by their values: one key view is below another
/// exactly when the first value is smaller, and two views are equal exactly
/// when the values are.
pub proof fn lemma_u64_key_order(a: u64, b: u64)
    ensures
        seq_lt(a.key_view(), b.key_view()) == (a < b),
        (a.key_view() == b.key_view()) == (a == b),
{
    lemma_singleton_order(a as int, b as int);
}

/// `usize` keys are ordered by their values: one key view is below another
/// exactly when the first value is smaller, and two views are equal exactly
/// when the values are.
pub proof fn lemma_usize_key_order(a: usize, b: usize)
    ensures
        seq_lt(a.key_view(), b.key_view()) == (a < b),
        (a.key_view() == b.key_view()) == (a == b),
{
    lemma_singleton_order(a as int, b as int);
}

impl TreeKey for i32 {
    open spec fn key_view(&self) -> Seq<int> {
        seq![*self as int]
    }

    /// Compares the two values as integers.
    fn compare(&self, other: &Self) -> (c: KeyOrder)
        ensures
            (c == KeyOrder::Less) == (*self < *other),
            (c == KeyOrder::Equal) == (*self == *other),
            (c == KeyOrder::Greater) == (*self > *other),
    {
        proof {
            lemma_compare_singletons(*self as int, *other as int);
        }
        if *self < *other {
            KeyOrder::Less
        } else if *self == *other {
            KeyOrder::Equal
        } else {
            KeyOrder::Greater
        }
    }
}

impl TreeKey for i64 {
    open spec fn key_view(&self) -> Seq<int> {
        seq![*self as int]
    }

    /// Compares the two values as integers.
    fn compare(&self, other: &Self) -> (c: KeyOrder)
        ensures
            (c == KeyOrder::Less) == (*self < *other),
            (c == KeyOrder::Equal) == (*self == *other),
            (c == KeyOrder::Greater) == (*self > *other),
    {
        proof {
            lemma_compare_singletons(*self as int, *other as int);
        }
        if *self < *other {
            KeyOrder::Less
        } else if *self == *other {
            KeyOrder::Equal
        } else {
            KeyOrder::Greater
        }
    }
}

impl TreeKey for u32 {
    open spec fn key_view(&self) -> Seq<int> {
        seq![*self as int]
    }

    /// Compares the two values as integers.
    fn compare(&self, other: &Self) -> (c: KeyOrder)
        ensures
            (c == KeyOrder::Less) == (*self < *other),
            (c == KeyOrder::Equal) == (*self == *other),
            (c == KeyOrder::Greater) == (*self > *other),
    {
        proof {
            lemma_compare_singletons(*self as int, *other as int);
        }
        if *self < *other {
            KeyOrder::Less
        } else if *self == *other {
            KeyOrder::Equal
        } else {
            KeyOrder::Greater
        }
    }
}

impl TreeKey for u64 {
    open spec fn key_view(&self) -> Seq<int> {
        seq![*self as int]
    }

    /// Compares the two values as integers.
    fn compare(&self, other: &Self) -> (c: KeyOrder)
        ensures
            (c == KeyOrder::Less) == (*self < *other),
            (c == KeyOrder::Equal) == (*self == *other),
            (c == KeyOrder::Greater) == (*self > *other),
    {
        proof {
            lemma_compare_singletons(*self as int, *other as int);
        }
        if *self < *other {
            KeyOrder::Less
        } else if *self == *other {
            KeyOrder::Equal
        } else {
            KeyOrder::Greater
        }
    }
}

impl TreeKey for usize {
    open spec fn key_view(&self) -> Seq<int> {
        seq![*self as int]
    }

    /// Compares the two values as integers.
    fn compare(&self, other: &Self) -> (c: KeyOrder)
        ensures
            (c == KeyOrder::Less) == (*self < *other),
            (c == KeyOrder::Equal) == (*self == *other),
            (c == KeyOrder::Greater) == (*self > *other),
    {
        proof {
            lemma_compare_singletons(*self as int, *other as int);
        }
        if *self < *other {
            KeyOrder::Less
        } else if *self == *other {
            KeyOrder::Equal
        } else {
            KeyOrder::Greater
        }
    }
}

impl TreeKey for String {
    open spec fn key_view(&self) -> Seq<int> {
        str_view(self@)
    }

    /// Compares the UTF-8 bytes of the two strings.
    fn compare(&self, other: &Self) -> (c: KeyOrder)
        ensures
            (c == KeyOrder::Equal) == (self@ == other@),
    {
        proof {
            lemma_string_views_equal(self@, other@);
            lemma_compare_views(self.key_view(), other.key_view());
        }
        compare_bytes(self.as_str().as_bytes(), other.as_str().as_bytes())
    }
}

impl KeyQuery<String> for str {
    open spec fn query_view(&self) -> Seq<int> {
        str_view(self@)
    }

    /// Compares the UTF-8 bytes of the query with those of the key.
    fn compare_key(&self, key: &String) -> (c: KeyOrder)
        ensures
            (c == KeyOrder::Equal) == (self@ == key@),
    {
        proof {
            lemma_string_views_equal(self@, key@);
            lemma_compare_views(self.query_view(), key.key_view());
        }
        compare_bytes(self.as_bytes(), key.as_str().as_bytes())
    }
}

/// A `String` key's view is its UTF-8 bytes, each as an integer, and two
/// `String` keys have equal views exactly when the strings are equal.
pub proof fn lemma_string_key_view(a: &String, b: &String)
    ensures
        a.key_view().len() == encode_utf8(a@).len(),
        forall|i: int| 0 <= i < encode_utf8(a@).len() ==> #[trigger] a.key_view()[i] == encode_utf8(a@)[i] as int,
        (a.key_view() == b.key_view()) == (a@ == b@),
{
    lemma_bytes_view_bytes(encode_utf8(a@));
    lemma_string_views_equal(a@, b@);
}

/// A `str` query matches a `String` key exactly when they hold the same
/// characters.
pub proof fn lemma_str_query_matches(q: &str, k: &String)
    ensures
        (q.query_view() == k.key_view()) == (q@ == k@),
{
    lemma_string_views_equal(q@, k@);
}

} // verus!
