//! Lexicographic order of texts and stable sorting.
use crate::text;
use vstd::prelude::*;

verus! {

/// Lexicographic order by code point, which is also the order of the UTF-8 encodings.
pub open spec fn text_le(a: Seq<char>, b: Seq<char>) -> bool
    decreases a.len(),
{
    if a.len() == 0 {
        true
    } else if b.len() == 0 {
        false
    } else if a[0] != b[0] {
        a[0] < b[0]
    } else {
        text_le(a.drop_first(), b.drop_first())
    }
}

/// Strict lexicographic order.
pub open spec fn text_lt(a: Seq<char>, b: Seq<char>) -> bool {
    text_le(a, b) && a != b
}

/// Any two texts are comparable.
pub proof fn lemma_text_le_total(a: Seq<char>, b: Seq<char>)
    ensures
        text_le(a, b) || text_le(b, a),
    decreases a.len(),
{
    if a.len() > 0 && b.len() > 0 && a[0] == b[0] {
        lemma_text_le_total(a.drop_first(), b.drop_first());
    }
}

/// The order of texts is transitive.
pub proof fn lemma_text_le_transitive(a: Seq<char>, b: Seq<char>, c: Seq<char>)
    requires
        text_le(a, b),
        text_le(b, c),
    ensures
        text_le(a, c),
    decreases a.len(),
{
    if a.len() > 0 && b.len() > 0 && c.len() > 0 && a[0] == b[0] && b[0] == c[0] {
        lemma_text_le_transitive(a.drop_first(), b.drop_first(), c.drop_first());
    }
}

/// Texts that are each at most the other are equal.
pub proof fn lemma_text_le_antisymmetric(a: Seq<char>, b: Seq<char>)
    requires
        text_le(a, b),
        text_le(b, a),
    ensures
        a == b,
    decreases a.len(),
{
    if a.len() > 0 && b.len() > 0 {
        lemma_text_le_antisymmetric(a.drop_first(), b.drop_first());
        assert(a == seq![a[0]] + a.drop_first());
        assert(b == seq![b[0]] + b.drop_first());
    } else {
        assert(a == b);
    }
}

/// Whether `a` is at most `b`.
pub fn at_most_chars(a: &[char], b: &[char]) -> (r: bool)
    ensures
        r == text_le(a@, b@),
{
    let mut i: usize = 0;
    proof {
        assert(a@.skip(0) == a@);
        assert(b@.skip(0) == b@);
    }
    while i < a.len()
        invariant
            i <= a@.len(),
            i <= b@.len(),
            text_le(a@, b@) == text_le(a@.skip(i as int), b@.skip(i as int)),
        decreases a@.len() - i,
    {
        let ghost x = a@.skip(i as int);
        let ghost y = b@.skip(i as int);
        if i >= b.len() {
            return false;
        }
        assert(x[0] == a@[i as int] && y[0] == b@[i as int]);
        if a[i] != b[i] {
            return a[i] < b[i];
        }
        proof {
            assert(x.drop_first() == a@.skip(i + 1));
            assert(y.drop_first() == b@.skip(i + 1));
        }
        i += 1;
    }
    true
}

/// Whether `a` is at most `b`.
pub fn at_most(a: &str, b: &str) -> (r: bool)
    ensures
        r == text_le(a@, b@),
{
    at_most_chars(&text::chars_of(a), &text::chars_of(b))
}

/// A total preorder of mathematical values, as a type that names it.
pub trait Preorder<V> {
    /// The order.
    spec fn le(a: V, b: V) -> bool;

    /// Any two values are comparable.
    proof fn total(a: V, b: V)
        ensures
            Self::le(a, b) || Self::le(b, a),
    ;

    /// The order is transitive.
    proof fn transitive(a: V, b: V, c: V)
        requires
            Self::le(a, b),
            Self::le(b, c),
        ensures
            Self::le(a, c),
    ;
}

/// A preorder of the views of a type that can be decided.
pub trait Arranges<T: View>: Preorder<T::V> {
    /// Whether `a` is at most `b`.
    fn precedes(a: &T, b: &T) -> (r: bool)
        ensures
            r == Self::le(a@, b@),
    ;
}

/// Values whose views can be told apart.
pub trait SameView: View {
    /// Whether the two views are equal.
    fn same_view(&self, other: &Self) -> (r: bool)
        ensures
            r == (self@ == other@),
    ;
}

/// The views of a sequence of values.
pub open spec fn keys<T: View>(s: Seq<T>) -> Seq<T::V> {
    Seq::new(s.len(), |i: int| s[i]@)
}

/// Whether every value is at most those after it.
pub open spec fn sorted<V, O: Preorder<V>>(s: Seq<V>) -> bool {
    forall|i: int, j: int| 0 <= i < j < s.len() ==> O::le(#[trigger] s[i], #[trigger] s[j])
}

/// How many values of a sorted sequence stand before a new value: those up to the last one that is
/// at most the new value.
pub open spec fn slot<V, O: Preorder<V>>(s: Seq<V>, x: V) -> int
    decreases s.len(),
{
    if s.len() == 0 {
        0
    } else if O::le(s.last(), x) {
        s.len() as int
    } else {
        slot::<V, O>(s.drop_last(), x)
    }
}

/// The stable sort of a sequence: each value goes behind the earlier ones that are at most it.
pub open spec fn sort_of<V, O: Preorder<V>>(s: Seq<V>) -> Seq<V>
    decreases s.len(),
{
    if s.len() == 0 {
        s
    } else {
        let rest = sort_of::<V, O>(s.drop_last());
        rest.insert(slot::<V, O>(rest, s.last()), s.last())
    }
}

/// The slot of a value lies within the sequence.
proof fn lemma_slot_bounds<V, O: Preorder<V>>(s: Seq<V>, x: V)
    ensures
        0 <= slot::<V, O>(s, x) <= s.len(),
        slot::<V, O>(s, x) > 0 ==> O::le(s[slot::<V, O>(s, x) - 1], x),
        forall|i: int| slot::<V, O>(s, x) <= i < s.len() ==> !O::le(#[trigger] s[i], x),
    decreases s.len(),
{
    if s.len() > 0 && !O::le(s.last(), x) {
        lemma_slot_bounds::<V, O>(s.drop_last(), x);
        assert forall|i: int| slot::<V, O>(s, x) <= i < s.len() implies !O::le(#[trigger] s[i], x) by {
            if i < s.len() - 1 {
                assert(s.drop_last()[i] == s[i]);
            }
        }
    }
}

/// The slot is where the values that are at most `x` end.
proof fn lemma_slot_unique<V, O: Preorder<V>>(s: Seq<V>, x: V, k: int)
    requires
        0 <= k <= s.len(),
        k > 0 ==> O::le(s[k - 1], x),
        forall|i: int| k <= i < s.len() ==> !O::le(#[trigger] s[i], x),
    ensures
        slot::<V, O>(s, x) == k,
{
    lemma_slot_bounds::<V, O>(s, x);
    let m = slot::<V, O>(s, x);
    if m < k {
        assert(!O::le(s[k - 1], x));
    } else if k < m {
        assert(!O::le(s[m - 1], x));
    }
}

/// A sorted sequence stays sorted when a value goes to its slot.
proof fn lemma_insert_sorted<V, O: Preorder<V>>(s: Seq<V>, x: V)
    requires
        sorted::<V, O>(s),
    ensures
        sorted::<V, O>(s.insert(slot::<V, O>(s, x), x)),
{
    lemma_slot_bounds::<V, O>(s, x);
    let k = slot::<V, O>(s, x);
    let t = s.insert(k, x);
    assert forall|i: int, j: int| 0 <= i < j < t.len() implies O::le(#[trigger] t[i], #[trigger] t[j]) by {
        if i < k && j == k {
            if i < k - 1 {
                assert(O::le(s[i], s[k - 1]));
                O::transitive(s[i], s[k - 1], x);
            }
        } else if i == k && j > k {
            assert(!O::le(s[j - 1], x));
            O::total(s[j - 1], x);
        } else if i < k && j > k {
            assert(O::le(s[i], s[j - 1]));
        } else if i > k {
            assert(O::le(s[i - 1], s[j - 1]));
        } else {
            assert(O::le(s[i], s[j]));
        }
    }
}

/// Sorting gives a sorted sequence of the same values, each as often as before.
pub proof fn lemma_sort_of<V, O: Preorder<V>>(s: Seq<V>)
    ensures
        sorted::<V, O>(sort_of::<V, O>(s)),
        sort_of::<V, O>(s).len() == s.len(),
        sort_of::<V, O>(s).to_multiset() == s.to_multiset(),
        forall|x: V| #[trigger] sort_of::<V, O>(s).contains(x) <==> s.contains(x),
    decreases s.len(),
{
    broadcast use vstd::seq_lib::group_to_multiset_ensures;

    if s.len() > 0 {
        let rest = sort_of::<V, O>(s.drop_last());
        lemma_sort_of::<V, O>(s.drop_last());
        lemma_slot_bounds::<V, O>(rest, s.last());
        lemma_insert_sorted::<V, O>(rest, s.last());
        assert(s == s.drop_last().push(s.last()));
        assert(sort_of::<V, O>(s).to_multiset() == rest.to_multiset().insert(s.last()));
        assert(s.to_multiset() == s.drop_last().to_multiset().insert(s.last()));
    }
    assert forall|x: V| #[trigger] sort_of::<V, O>(s).contains(x) <==> s.contains(x) by {
        assert(sort_of::<V, O>(s).contains(x) <==> sort_of::<V, O>(s).to_multiset().contains(x));
        assert(s.contains(x) <==> s.to_multiset().contains(x));
    }
}

/// Finds the slot of a value by bisection.
fn find_slot<T: View, O: Arranges<T>>(v: &Vec<T>, x: &T) -> (k: usize)
    requires
        sorted::<T::V, O>(keys::<T>(v@)),
    ensures
        k == slot::<T::V, O>(keys::<T>(v@), x@),
        k <= v@.len(),
{
    let mut lo: usize = 0;
    let mut hi: usize = v.len();
    let ghost s = keys::<T>(v@);
    while lo < hi
        invariant
            lo <= hi <= v@.len(),
            s == keys::<T>(v@),
            sorted::<T::V, O>(s),
            lo > 0 ==> O::le(s[lo - 1], x@),
            forall|i: int| hi <= i < s.len() ==> !O::le(#[trigger] s[i], x@),
        decreases hi - lo,
    {
        let mid: usize = lo + (hi - lo) / 2;
        assert(s[mid as int] == v@[mid as int]@);
        if O::precedes(&v[mid], x) {
            lo = mid + 1;
        } else {
            proof {
                assert forall|i: int| mid <= i < s.len() implies !O::le(#[trigger] s[i], x@) by {
                    if i > mid && O::le(s[i], x@) {
                        assert(O::le(s[mid as int], s[i]));
                        O::transitive(s[mid as int], s[i], x@);
                    }
                }
            }
            hi = mid;
        }
    }
    proof {
        lemma_slot_unique::<T::V, O>(s, x@, lo as int);
    }
    lo
}

/// Sorts the values by the order of their views; values that tie keep their order.
pub fn sort<T: View, O: Arranges<T>>(v: Vec<T>) -> (r: Vec<T>)
    ensures
        keys::<T>(r@) == sort_of::<T::V, O>(keys::<T>(v@)),
{
    let mut r: Vec<T> = Vec::new();
    let mut rest = v;
    let ghost all = keys::<T>(v@);
    let mut waiting: Vec<T> = Vec::new();
    while rest.len() > 0
        invariant
            waiting@.len() + rest@.len() == v@.len(),
            forall|i: int| 0 <= i < rest@.len() ==> rest@[i] == v@[i],
            forall|i: int| 0 <= i < waiting@.len() ==> waiting@[i] == v@[v@.len() - 1 - i],
        decreases rest@.len(),
    {
        if let Some(x) = rest.pop() {
            waiting.push(x);
        }
    }
    while waiting.len() > 0
        invariant
            all == keys::<T>(v@),
            waiting@.len() + r@.len() == v@.len(),
            forall|i: int| 0 <= i < waiting@.len() ==> waiting@[i] == v@[v@.len() - 1 - i],
            keys::<T>(r@) == sort_of::<T::V, O>(all.take(r@.len() as int)),
        decreases waiting@.len(),
    {
        let ghost before = keys::<T>(r@);
        let ghost n = r@.len() as int;
        if let Some(x) = waiting.pop() {
            proof {
                lemma_sort_of::<T::V, O>(all.take(n));
                assert(all[n] == x@);
                assert(all.take(n + 1).drop_last() == all.take(n));
            }
            let k: usize = find_slot::<T, O>(&r, &x);
            r.insert(k, x);
            proof {
                assert(keys::<T>(r@) == before.insert(k as int, x@));
            }
        }
    }
    proof {
        assert(all.take(v@.len() as int) == all);
    }
    r
}

/// The first values of a sequence, at most `n`.
pub open spec fn first<V>(s: Seq<V>, n: nat) -> Seq<V> {
    if n < s.len() {
        s.take(n as int)
    } else {
        s
    }
}

/// The first values after an insertion do not depend on the later ones.
proof fn lemma_first_of_insert<V, O: Preorder<V>>(s: Seq<V>, x: V, n: nat)
    requires
        sorted::<V, O>(s),
    ensures
        first(s.insert(slot::<V, O>(s, x), x), n) == first(
            first(s, n).insert(slot::<V, O>(first(s, n), x), x),
            n,
        ),
{
    let t = first(s, n);
    let k = slot::<V, O>(s, x);
    lemma_slot_bounds::<V, O>(s, x);
    if n < s.len() {
        let m = if k < n {
            k
        } else {
            n as int
        };
        if m > 0 {
            assert(t[m - 1] == s[m - 1]);
            if m < k {
                assert(O::le(s[m - 1], s[k - 1]));
                O::transitive(s[m - 1], s[k - 1], x);
            }
        }
        assert forall|i: int| m <= i < t.len() implies !O::le(#[trigger] t[i], x) by {
            assert(t[i] == s[i]);
        }
        lemma_slot_unique::<V, O>(t, x, m);
        assert(first(s.insert(k, x), n) == first(t.insert(m, x), n));
    }
}

/// Sorting one value more keeps the first values of both.
pub proof fn lemma_first_of_sort<V, O: Preorder<V>>(s: Seq<V>, n: nat)
    requires
        s.len() > 0,
    ensures
        first(sort_of::<V, O>(s), n) == first(
            first(sort_of::<V, O>(s.drop_last()), n).insert(
                slot::<V, O>(first(sort_of::<V, O>(s.drop_last()), n), s.last()),
                s.last(),
            ),
            n,
        ),
        sorted::<V, O>(first(sort_of::<V, O>(s.drop_last()), n)),
{
    lemma_sort_of::<V, O>(s.drop_last());
    lemma_first_of_insert::<V, O>(sort_of::<V, O>(s.drop_last()), s.last(), n);
}

/// Puts a value in its place among sorted ones and keeps the first `limit`.
pub fn keep_least<T: View, O: Arranges<T>>(v: &mut Vec<T>, x: T, limit: usize)
    requires
        sorted::<T::V, O>(keys::<T>(old(v)@)),
    ensures
        keys::<T>(final(v)@) == first(
            keys::<T>(old(v)@).insert(slot::<T::V, O>(keys::<T>(old(v)@), x@), x@),
            limit as nat,
        ),
{
    let ghost before = keys::<T>(v@);
    let k: usize = find_slot::<T, O>(v, &x);
    v.insert(k, x);
    proof {
        assert(keys::<T>(v@) == before.insert(k as int, x@));
    }
    let ghost whole = keys::<T>(v@);
    v.truncate(limit);
    proof {
        assert(keys::<T>(v@) == first(whole, limit as nat));
    }
}

/// The lexicographic order of texts.
pub struct ByText;

impl Preorder<Seq<char>> for ByText {
    open spec fn le(a: Seq<char>, b: Seq<char>) -> bool {
        text_le(a, b)
    }

    proof fn total(a: Seq<char>, b: Seq<char>) {
        lemma_text_le_total(a, b);
    }

    proof fn transitive(a: Seq<char>, b: Seq<char>, c: Seq<char>) {
        lemma_text_le_transitive(a, b, c);
    }
}

impl Arranges<String> for ByText {
    fn precedes(a: &String, b: &String) -> (r: bool) {
        at_most(a.as_str(), b.as_str())
    }
}

impl SameView for String {
    fn same_view(&self, other: &Self) -> (r: bool) {
        text::same(self.as_str(), other.as_str())
    }
}

/// The order of pairs of texts: by the first, then by the second.
pub struct ByPair;

/// Whether a pair of texts is at most another.
pub open spec fn pair_le(a: (Seq<char>, Seq<char>), b: (Seq<char>, Seq<char>)) -> bool {
    text_lt(a.0, b.0) || (a.0 == b.0 && text_le(a.1, b.1))
}

/// The order of pairs is transitive.
pub proof fn lemma_pair_le_transitive(
    a: (Seq<char>, Seq<char>),
    b: (Seq<char>, Seq<char>),
    c: (Seq<char>, Seq<char>),
)
    requires
        pair_le(a, b),
        pair_le(b, c),
    ensures
        pair_le(a, c),
{
    if text_lt(a.0, b.0) && text_lt(b.0, c.0) {
        lemma_text_le_transitive(a.0, b.0, c.0);
        if a.0 == c.0 {
            lemma_text_le_antisymmetric(a.0, b.0);
        }
    }
    if a.0 == b.0 && b.0 == c.0 {
        lemma_text_le_transitive(a.1, b.1, c.1);
    }
}

/// Any two pairs are comparable.
pub proof fn lemma_pair_le_total(a: (Seq<char>, Seq<char>), b: (Seq<char>, Seq<char>))
    ensures
        pair_le(a, b) || pair_le(b, a),
{
    lemma_text_le_total(a.0, b.0);
    lemma_text_le_total(a.1, b.1);
}

/// Pairs that are each at most the other are equal.
pub proof fn lemma_pair_le_antisymmetric(
    a: (Seq<char>, Seq<char>),
    b: (Seq<char>, Seq<char>),
)
    requires
        pair_le(a, b),
        pair_le(b, a),
    ensures
        a == b,
{
    if a.0 != b.0 {
        lemma_text_le_antisymmetric(a.0, b.0);
    } else {
        lemma_text_le_antisymmetric(a.1, b.1);
    }
}

/// Sorting forgets the order in which pairs come.
pub proof fn lemma_sorted_pairs_unique(
    s: Seq<(Seq<char>, Seq<char>)>,
    t: Seq<(Seq<char>, Seq<char>)>,
)
    requires
        s.to_multiset() == t.to_multiset(),
    ensures
        sort_of::<(Seq<char>, Seq<char>), ByPair>(s) == sort_of::<(Seq<char>, Seq<char>), ByPair>(t),
{
    let le = |a: (Seq<char>, Seq<char>), b: (Seq<char>, Seq<char>)| pair_le(a, b);
    let x = sort_of::<(Seq<char>, Seq<char>), ByPair>(s);
    let y = sort_of::<(Seq<char>, Seq<char>), ByPair>(t);
    lemma_sort_of::<(Seq<char>, Seq<char>), ByPair>(s);
    lemma_sort_of::<(Seq<char>, Seq<char>), ByPair>(t);
    assert(vstd::relations::sorted_by(x, le)) by {
        assert forall|i: int, j: int| 0 <= i < j < x.len() implies #[trigger] le(x[i], x[j]) by {
            assert(<ByPair as Preorder<(Seq<char>, Seq<char>)>>::le(x[i], x[j]));
        }
    }
    assert(vstd::relations::sorted_by(y, le)) by {
        assert forall|i: int, j: int| 0 <= i < j < y.len() implies #[trigger] le(y[i], y[j]) by {
            assert(<ByPair as Preorder<(Seq<char>, Seq<char>)>>::le(y[i], y[j]));
        }
    }
    assert forall|a: (Seq<char>, Seq<char>)| #[trigger] le(a, a) by {
        lemma_pair_le_total(a, a);
    }
    assert forall|a: (Seq<char>, Seq<char>), b: (Seq<char>, Seq<char>)| #[trigger]
        le(a, b) && #[trigger] le(b, a) implies a == b by {
        lemma_pair_le_antisymmetric(a, b);
    }
    assert forall|
        a: (Seq<char>, Seq<char>),
        b: (Seq<char>, Seq<char>),
        c: (Seq<char>, Seq<char>),
    | #[trigger]
        le(a, b) && #[trigger] le(b, c) implies le(a, c) by {
        lemma_pair_le_transitive(a, b, c);
    }
    assert forall|a: (Seq<char>, Seq<char>), b: (Seq<char>, Seq<char>)| #[trigger]
        le(a, b) || #[trigger] le(b, a) by {
        lemma_pair_le_total(a, b);
    }
    vstd::seq_lib::lemma_sorted_unique(x, y, le);
}

/// Whether a pair of strings is at most another.
pub fn pair_at_most(a0: &str, a1: &str, b0: &str, b1: &str) -> (r: bool)
    ensures
        r == pair_le((a0@, a1@), (b0@, b1@)),
{
    let a = text::chars_of(a0);
    let b = text::chars_of(b0);
    if text::equal(&a, &b) {
        at_most(a1, b1)
    } else {
        at_most_chars(&a, &b)
    }
}

impl Preorder<(Seq<char>, Seq<char>)> for ByPair {
    open spec fn le(a: (Seq<char>, Seq<char>), b: (Seq<char>, Seq<char>)) -> bool {
        pair_le(a, b)
    }

    proof fn total(a: (Seq<char>, Seq<char>), b: (Seq<char>, Seq<char>)) {
        lemma_pair_le_total(a, b);
    }

    proof fn transitive(
        a: (Seq<char>, Seq<char>),
        b: (Seq<char>, Seq<char>),
        c: (Seq<char>, Seq<char>),
    ) {
        lemma_pair_le_transitive(a, b, c);
    }
}

impl Arranges<(String, String)> for ByPair {
    fn precedes(a: &(String, String), b: &(String, String)) -> (r: bool) {
        pair_at_most(a.0.as_str(), a.1.as_str(), b.0.as_str(), b.1.as_str())
    }
}

/// The sequence without each value that equals the one before it.
pub open spec fn dedup_of<V>(s: Seq<V>) -> Seq<V>
    decreases s.len(),
{
    if s.len() <= 1 {
        s
    } else if s.last() == s[s.len() - 2] {
        dedup_of(s.drop_last())
    } else {
        dedup_of(s.drop_last()).push(s.last())
    }
}

/// Sorted, without repetition.
pub open spec fn sort_dedup_of(s: Seq<Seq<char>>) -> Seq<Seq<char>> {
    dedup_of(sort_of::<Seq<char>, ByText>(s))
}

/// Dropping neighbours that are equal keeps the last value and the set of values.
proof fn lemma_dedup_of(s: Seq<Seq<char>>)
    requires
        sorted::<Seq<char>, ByText>(s),
    ensures
        s.len() > 0 ==> dedup_of(s).len() > 0 && dedup_of(s).last() == s.last(),
        dedup_of(s).len() <= s.len(),
        forall|x: Seq<char>| #[trigger] dedup_of(s).contains(x) <==> s.contains(x),
        forall|i: int, j: int|
            0 <= i < j < dedup_of(s).len() ==> text_lt(#[trigger] dedup_of(s)[i], #[trigger] dedup_of(s)[j]),
    decreases s.len(),
{
    if s.len() > 1 {
        let rest = s.drop_last();
        let d = dedup_of(rest);
        assert(sorted::<Seq<char>, ByText>(rest));
        lemma_dedup_of(rest);
        assert(rest.last() == s[s.len() - 2]);
        assert forall|x: Seq<char>| #[trigger] dedup_of(s).contains(x) <==> s.contains(x) by {
            if s.contains(x) {
                let i = choose|i: int| 0 <= i < s.len() && s[i] == x;
                if i < s.len() - 1 {
                    assert(rest[i] == x);
                    assert(rest.contains(x));
                    assert(d.contains(x));
                    let j = choose|j: int| 0 <= j < d.len() && d[j] == x;
                    assert(dedup_of(s)[j] == x);
                } else {
                    assert(dedup_of(s).last() == x);
                }
            }
            if dedup_of(s).contains(x) {
                let j = choose|j: int| 0 <= j < dedup_of(s).len() && dedup_of(s)[j] == x;
                if j < d.len() {
                    assert(d[j] == x);
                    assert(d.contains(x));
                    assert(rest.contains(x));
                    let i = choose|i: int| 0 <= i < rest.len() && rest[i] == x;
                    assert(s[i] == x);
                } else {
                    assert(s.last() == x);
                }
            }
        }
        if s.last() != s[s.len() - 2] {
            assert forall|i: int, j: int|
                0 <= i < j < dedup_of(s).len() implies text_lt(#[trigger] dedup_of(s)[i], #[trigger] dedup_of(s)[j]) by {
                if j == d.len() {
                    assert(text_le(s[s.len() - 2], s.last()));
                    if i < d.len() - 1 {
                        assert(text_lt(d[i], d[d.len() - 1]));
                        lemma_text_le_transitive(d[i], d.last(), s.last());
                        if d[i] == s.last() {
                            lemma_text_le_antisymmetric(d.last(), s.last());
                        }
                    }
                } else {
                    assert(text_lt(d[i], d[j]));
                }
            }
        }
    }
}

/// Sorting without repetition gives the same texts, in strictly increasing order.
pub proof fn lemma_sort_dedup_of(s: Seq<Seq<char>>)
    ensures
        forall|x: Seq<char>| #[trigger] sort_dedup_of(s).contains(x) <==> s.contains(x),
        forall|i: int, j: int|
            0 <= i < j < sort_dedup_of(s).len() ==> text_lt(
                #[trigger] sort_dedup_of(s)[i],
                #[trigger] sort_dedup_of(s)[j],
            ),
{
    lemma_sort_of::<Seq<char>, ByText>(s);
    lemma_dedup_of(sort_of::<Seq<char>, ByText>(s));
}

/// Dropping equal neighbours keeps the last value.
proof fn lemma_dedup_last<V>(s: Seq<V>)
    requires
        s.len() > 0,
    ensures
        dedup_of(s).len() > 0,
        dedup_of(s).last() == s.last(),
    decreases s.len(),
{
    if s.len() > 1 {
        lemma_dedup_last(s.drop_last());
    }
}

/// The values in the order in which they were, each run of equal values once.
fn dedup<T: SameView>(v: Vec<T>) -> (r: Vec<T>)
    ensures
        keys::<T>(r@) == dedup_of(keys::<T>(v@)),
{
    let ghost all = keys::<T>(v@);
    let mut rest = v;
    let mut waiting: Vec<T> = Vec::new();
    while rest.len() > 0
        invariant
            waiting@.len() + rest@.len() == v@.len(),
            forall|i: int| 0 <= i < rest@.len() ==> rest@[i] == v@[i],
            forall|i: int| 0 <= i < waiting@.len() ==> waiting@[i] == v@[v@.len() - 1 - i],
        decreases rest@.len(),
    {
        if let Some(x) = rest.pop() {
            waiting.push(x);
        }
    }
    let mut r: Vec<T> = Vec::new();
    proof {
        assert(keys::<T>(r@) == dedup_of(all.take(0)));
    }
    while waiting.len() > 0
        invariant
            all == keys::<T>(v@),
            waiting@.len() <= v@.len(),
            forall|i: int| 0 <= i < waiting@.len() ==> waiting@[i] == v@[v@.len() - 1 - i],
            keys::<T>(r@) == dedup_of(all.take(v@.len() - waiting@.len())),
            r@.len() == 0 <==> waiting@.len() == v@.len(),
        decreases waiting@.len(),
    {
        let ghost before = keys::<T>(r@);
        let ghost n = v@.len() - waiting@.len();
        if let Some(x) = waiting.pop() {
            proof {
                assert(all[n] == x@);
                assert(all.take(n + 1).drop_last() == all.take(n));
                assert(all.take(n + 1).last() == x@);
                if n > 0 {
                    lemma_dedup_last(all.take(n));
                    assert(all.take(n + 1)[n - 1] == all.take(n).last());
                    assert(before.last() == r@[r@.len() - 1]@);
                } else {
                    assert(all.take(1) == all.take(0).push(x@));
                }
            }
            if r.len() == 0 || !r[r.len() - 1].same_view(&x) {
                r.push(x);
                proof {
                    assert(keys::<T>(r@) == before.push(x@));
                }
            }
        }
    }
    proof {
        assert(all.take(v@.len() as int) == all);
    }
    r
}

/// The values in increasing order, each once.
pub fn sort_unique<T: SameView, O: Arranges<T>>(v: Vec<T>) -> (r: Vec<T>)
    ensures
        keys::<T>(r@) == dedup_of(sort_of::<T::V, O>(keys::<T>(v@))),
{
    dedup::<T>(sort::<T, O>(v))
}

/// The strings in increasing order, each once.
pub fn sort_dedup(v: Vec<String>) -> (r: Vec<String>)
    ensures
        text::views(r@) == sort_dedup_of(text::views(v@)),
{
    let r = sort_unique::<String, ByText>(v);
    proof {
        assert(text::views(r@) == keys::<String>(r@));
        assert(text::views(v@) == keys::<String>(v@));
    }
    r
}

/// Texts are ordered by the first character in which they differ, and a text comes before the longer
/// ones that start with it.
pub proof fn law_texts_are_ordered_by_characters(
    shared: Seq<char>,
    a: Seq<char>,
    b: Seq<char>,
    c: char,
    d: char,
)
    ensures
        c < d ==> text_le(shared.push(c) + a, shared.push(d) + b) && !text_le(
            shared.push(d) + b,
            shared.push(c) + a,
        ),
        text_le(shared, shared + a),
        a.len() > 0 ==> !text_le(shared + a, shared),
    decreases shared.len(),
{
    let x = shared.push(c) + a;
    let y = shared.push(d) + b;
    if shared.len() > 0 {
        let rest = shared.drop_first();
        law_texts_are_ordered_by_characters(rest, a, b, c, d);
        assert(x.drop_first() == rest.push(c) + a);
        assert(y.drop_first() == rest.push(d) + b);
        assert(x[0] == shared[0] && y[0] == shared[0]);
        assert((shared + a).drop_first() == rest + a);
        assert((shared + a)[0] == shared[0]);
    } else {
        assert(x[0] == c && y[0] == d);
        assert(shared + a == a);
    }
}

/// Pairs are ordered by their first texts, and where these are the same by their second ones.
pub proof fn law_pairs_are_ordered_by_their_texts(
    a: (Seq<char>, Seq<char>),
    b: (Seq<char>, Seq<char>),
)
    ensures
        a.0 == b.0 ==> (pair_le(a, b) <==> text_le(a.1, b.1)),
        a.0 != b.0 ==> (pair_le(a, b) <==> text_le(a.0, b.0)),
{
}

} // verus!
