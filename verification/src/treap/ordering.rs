//! Sequences of entries in key order, and on which side of a split key an
//! entry falls.

use crate::order::{
    le, lemma_lt_asymmetric, lemma_lt_irreflexive, lemma_lt_total, lemma_lt_transitive, lt,
    total_order,
};
use crate::treap::payload::Payload;
use vstd::prelude::*;

verus! {

/// The keys of `s` increase strictly from each entry to the next.
pub open spec fn sorted<P: Payload>(s: Seq<P::Entry>) -> bool {
    forall|i: int, j: int|
        0 <= i < j < s.len() ==> lt(P::entry_key(#[trigger] s[i]), P::entry_key(#[trigger] s[j]))
}

/// Whether a key `k` belongs to the left part of a split at `split`: the
/// keys before `split` do, and `split` itself where `to_left` is set.
pub open spec fn goes_left<K: Ord>(k: K, split: K, to_left: bool) -> bool {
    lt(k, split) || (to_left && k == split)
}

/// Every entry of `s` belongs to the left part of the split.
pub open spec fn all_left<P: Payload>(s: Seq<P::Entry>, split: P::Key, to_left: bool) -> bool {
    forall|i: int| 0 <= i < s.len() ==> goes_left(P::entry_key(#[trigger] s[i]), split, to_left)
}

/// No entry of `s` belongs to the left part of the split.
pub open spec fn none_left<P: Payload>(s: Seq<P::Entry>, split: P::Key, to_left: bool) -> bool {
    forall|i: int| 0 <= i < s.len() ==> !goes_left(P::entry_key(#[trigger] s[i]), split, to_left)
}

/// The parts of a sequence in key order are in key order, and every key of
/// the first part comes before every key of the second.
pub proof fn lemma_sorted_parts<P: Payload>(a: Seq<P::Entry>, b: Seq<P::Entry>)
    requires
        sorted::<P>(a + b),
    ensures
        sorted::<P>(a),
        sorted::<P>(b),
        forall|i: int, j: int|
            0 <= i < a.len() && 0 <= j < b.len() ==> lt(
                P::entry_key(#[trigger] a[i]),
                P::entry_key(#[trigger] b[j]),
            ),
{
    let s = a + b;
    assert forall|i: int, j: int| 0 <= i < j < a.len() implies lt(
        P::entry_key(#[trigger] a[i]),
        P::entry_key(#[trigger] a[j]),
    ) by {
        assert(s[i] == a[i] && s[j] == a[j]);
    }
    assert forall|i: int, j: int| 0 <= i < j < b.len() implies lt(
        P::entry_key(#[trigger] b[i]),
        P::entry_key(#[trigger] b[j]),
    ) by {
        assert(s[a.len() + i] == b[i] && s[a.len() + j] == b[j]);
    }
    assert forall|i: int, j: int| 0 <= i < a.len() && 0 <= j < b.len() implies lt(
        P::entry_key(#[trigger] a[i]),
        P::entry_key(#[trigger] b[j]),
    ) by {
        assert(s[i] == a[i] && s[a.len() + j] == b[j]);
    }
}

/// Two sequences in key order, the keys of the first all before those of
/// the second, join to one in key order.
pub proof fn lemma_sorted_join<P: Payload>(a: Seq<P::Entry>, b: Seq<P::Entry>)
    requires
        sorted::<P>(a),
        sorted::<P>(b),
        forall|i: int, j: int|
            0 <= i < a.len() && 0 <= j < b.len() ==> lt(
                P::entry_key(#[trigger] a[i]),
                P::entry_key(#[trigger] b[j]),
            ),
    ensures
        sorted::<P>(a + b),
{
    let s = a + b;
    assert forall|i: int, j: int| 0 <= i < j < s.len() implies lt(
        P::entry_key(#[trigger] s[i]),
        P::entry_key(#[trigger] s[j]),
    ) by {
        if j < a.len() {
            assert(s[i] == a[i] && s[j] == a[j]);
        } else if i >= a.len() {
            assert(s[i] == b[i - a.len()] && s[j] == b[j - a.len()]);
        } else {
            assert(s[i] == a[i] && s[j] == b[j - a.len()]);
        }
    }
}

/// Where an entry belongs to the left part of a split, so does every entry
/// with a smaller key.
pub proof fn lemma_goes_left_down<K: Ord>(small: K, k: K, split: K, to_left: bool)
    requires
        total_order::<K>(),
        lt(small, k),
        goes_left(k, split, to_left),
    ensures
        goes_left(small, split, to_left),
{
    if lt(k, split) {
        lemma_lt_transitive(small, k, split);
    }
}

/// Where an entry does not belong to the left part of a split, neither
/// does any entry with a larger key.
pub proof fn lemma_goes_left_up<K: Ord>(k: K, large: K, split: K, to_left: bool)
    requires
        total_order::<K>(),
        lt(k, large),
        !goes_left(k, split, to_left),
    ensures
        !goes_left(large, split, to_left),
{
    lemma_lt_total(k, split);
    if lt(large, split) {
        lemma_lt_transitive(k, large, split);
    }
    if large == split {
        lemma_lt_asymmetric(k, large);
    }
    if lt(split, k) {
        lemma_lt_transitive(split, k, large);
        lemma_lt_asymmetric(split, large);
    }
}

/// One end of a range of keys.
pub enum Bound<T> {
    /// The range reaches to this key and holds it.
    Included(T),
    /// The range reaches to this key and does not hold it.
    Excluded(T),
    /// The range has no end on this side.
    Unbounded,
}

/// Whether the key `k` lies before the start `start` of a range.
pub open spec fn below_start<K: Ord>(k: K, start: Bound<&K>) -> bool {
    match start {
        Bound::Included(b) => goes_left(k, *b, false),
        Bound::Excluded(b) => goes_left(k, *b, true),
        Bound::Unbounded => false,
    }
}

/// Whether the key `k` lies behind the end `end` of a range.
pub open spec fn above_end<K: Ord>(k: K, end: Bound<&K>) -> bool {
    match end {
        Bound::Included(b) => !goes_left(k, *b, true),
        Bound::Excluded(b) => !goes_left(k, *b, false),
        Bound::Unbounded => false,
    }
}

/// Whether the key `k` lies in the range from `start` to `end`.
pub open spec fn in_range<K: Ord>(k: K, start: Bound<&K>, end: Bound<&K>) -> bool {
    !below_start(k, start) && !above_end(k, end)
}

/// Whether some entry of `s` has the key `k`.
pub open spec fn contains_key<P: Payload>(s: Seq<P::Entry>, k: P::Key) -> bool {
    exists|i: int| 0 <= i < s.len() && P::entry_key(#[trigger] s[i]) == k
}

/// Whether `k` lies above `bound`: behind it, or, unless `strict`, on it.
pub open spec fn key_above<K: Ord>(k: K, bound: K, strict: bool) -> bool {
    if strict {
        lt(bound, k)
    } else {
        le(bound, k)
    }
}

/// Whether `k` lies below `bound`: before it, or, unless `strict`, on it.
pub open spec fn key_below<K: Ord>(k: K, bound: K, strict: bool) -> bool {
    if strict {
        lt(k, bound)
    } else {
        le(k, bound)
    }
}

/// No entry of `s` lies above `bound`.
pub open spec fn none_above<P: Payload>(s: Seq<P::Entry>, bound: P::Key, strict: bool) -> bool {
    forall|j: int| 0 <= j < s.len() ==> !key_above(P::entry_key(#[trigger] s[j]), bound, strict)
}

/// No entry of `s` lies below `bound`.
pub open spec fn none_below<P: Payload>(s: Seq<P::Entry>, bound: P::Key, strict: bool) -> bool {
    forall|j: int| 0 <= j < s.len() ==> !key_below(P::entry_key(#[trigger] s[j]), bound, strict)
}

/// The entry at `i` is the first of `s` that lies above `bound`.
pub open spec fn first_above<P: Payload>(
    s: Seq<P::Entry>,
    i: int,
    bound: P::Key,
    strict: bool,
) -> bool {
    &&& 0 <= i < s.len()
    &&& key_above(P::entry_key(s[i]), bound, strict)
    &&& none_above::<P>(s.take(i), bound, strict)
}

/// The entry at `i` is the last of `s` that lies below `bound`.
pub open spec fn last_below<P: Payload>(
    s: Seq<P::Entry>,
    i: int,
    bound: P::Key,
    strict: bool,
) -> bool {
    &&& 0 <= i < s.len()
    &&& key_below(P::entry_key(s[i]), bound, strict)
    &&& none_below::<P>(s.skip(i + 1), bound, strict)
}

/// What lies above a bound stays above it for every larger key.
pub proof fn lemma_above_up<K: Ord>(k: K, large: K, bound: K, strict: bool)
    requires
        total_order::<K>(),
        lt(k, large),
        key_above(k, bound, strict),
    ensures
        key_above(large, bound, strict),
{
    if lt(bound, k) {
        lemma_lt_transitive(bound, k, large);
    }
}

/// What lies below a bound stays below it for every smaller key.
pub proof fn lemma_below_down<K: Ord>(small: K, k: K, bound: K, strict: bool)
    requires
        total_order::<K>(),
        lt(small, k),
        key_below(k, bound, strict),
    ensures
        key_below(small, bound, strict),
{
    if lt(k, bound) {
        lemma_lt_transitive(small, k, bound);
    }
}

/// In a sequence in key order around a root that does not lie above the
/// bound, nothing to the left of the root lies above it either.
pub proof fn lemma_left_not_above<P: Payload>(
    left: Seq<P::Entry>,
    root: P::Entry,
    bound: P::Key,
    strict: bool,
)
    requires
        total_order::<P::Key>(),
        sorted::<P>(left + seq![root]),
        !key_above(P::entry_key(root), bound, strict),
    ensures
        none_above::<P>(left, bound, strict),
        none_above::<P>(left + seq![root], bound, strict),
{
    lemma_sorted_parts::<P>(left, seq![root]);
    assert forall|j: int| 0 <= j < left.len() implies !key_above(
        P::entry_key(#[trigger] left[j]),
        bound,
        strict,
    ) by {
        assert(seq![root][0] == root);
        if key_above(P::entry_key(left[j]), bound, strict) {
            lemma_above_up(P::entry_key(left[j]), P::entry_key(root), bound, strict);
        }
    }
    let s = left + seq![root];
    assert forall|j: int| 0 <= j < s.len() implies !key_above(
        P::entry_key(#[trigger] s[j]),
        bound,
        strict,
    ) by {
        if j < left.len() {
            assert(s[j] == left[j]);
        } else {
            assert(s[j] == root);
        }
    }
}

/// In a sequence in key order around a root that does not lie below the
/// bound, nothing to the right of the root lies below it either.
pub proof fn lemma_right_not_below<P: Payload>(
    root: P::Entry,
    right: Seq<P::Entry>,
    bound: P::Key,
    strict: bool,
)
    requires
        total_order::<P::Key>(),
        sorted::<P>(seq![root] + right),
        !key_below(P::entry_key(root), bound, strict),
    ensures
        none_below::<P>(right, bound, strict),
        none_below::<P>(seq![root] + right, bound, strict),
{
    lemma_sorted_parts::<P>(seq![root], right);
    assert forall|j: int| 0 <= j < right.len() implies !key_below(
        P::entry_key(#[trigger] right[j]),
        bound,
        strict,
    ) by {
        assert(seq![root][0] == root);
        if key_below(P::entry_key(right[j]), bound, strict) {
            lemma_below_down(P::entry_key(root), P::entry_key(right[j]), bound, strict);
        }
    }
    let s = seq![root] + right;
    assert forall|j: int| 0 <= j < s.len() implies !key_below(
        P::entry_key(#[trigger] s[j]),
        bound,
        strict,
    ) by {
        if j == 0 {
            assert(s[j] == root);
        } else {
            assert(s[j] == right[j - 1]);
        }
    }
}

/// The first entry above the bound in the left part is the first in the
/// whole.
pub proof fn lemma_above_from_left<P: Payload>(
    left: Seq<P::Entry>,
    root: P::Entry,
    right: Seq<P::Entry>,
    i: int,
    bound: P::Key,
    strict: bool,
)
    requires
        first_above::<P>(left, i, bound, strict),
    ensures
        first_above::<P>(left + seq![root] + right, i, bound, strict),
        (left + seq![root] + right)[i] == left[i],
{
    let s = left + seq![root] + right;
    assert(s.take(i) =~= left.take(i));
}

/// Where nothing in the left part lies above the bound and the root does,
/// the root is the first that does.
pub proof fn lemma_above_at_root<P: Payload>(
    left: Seq<P::Entry>,
    root: P::Entry,
    right: Seq<P::Entry>,
    bound: P::Key,
    strict: bool,
)
    requires
        none_above::<P>(left, bound, strict),
        key_above(P::entry_key(root), bound, strict),
    ensures
        first_above::<P>(left + seq![root] + right, left.len() as int, bound, strict),
        (left + seq![root] + right)[left.len() as int] == root,
{
    let s = left + seq![root] + right;
    assert(s.take(left.len() as int) =~= left);
}

/// Where nothing up to the root lies above the bound, the first entry of
/// the right part that does is the first in the whole.
pub proof fn lemma_above_from_right<P: Payload>(
    left: Seq<P::Entry>,
    root: P::Entry,
    right: Seq<P::Entry>,
    i: int,
    bound: P::Key,
    strict: bool,
)
    requires
        none_above::<P>(left + seq![root], bound, strict),
        first_above::<P>(right, i, bound, strict),
    ensures
        first_above::<P>(left + seq![root] + right, left.len() + 1 + i, bound, strict),
        (left + seq![root] + right)[left.len() + 1 + i] == right[i],
{
    let s = left + seq![root] + right;
    let head = left + seq![root];
    let t = s.take(left.len() + 1 + i);
    assert forall|j: int| 0 <= j < t.len() implies !key_above(
        P::entry_key(#[trigger] t[j]),
        bound,
        strict,
    ) by {
        if j < head.len() {
            assert(t[j] == head[j]);
        } else {
            assert(t[j] == right.take(i)[j - head.len()]);
        }
    }
}

/// Where nothing up to the root and nothing in the right part lies above
/// the bound, nothing does.
pub proof fn lemma_above_nowhere<P: Payload>(
    left: Seq<P::Entry>,
    root: P::Entry,
    right: Seq<P::Entry>,
    bound: P::Key,
    strict: bool,
)
    requires
        none_above::<P>(left + seq![root], bound, strict),
        none_above::<P>(right, bound, strict),
    ensures
        none_above::<P>(left + seq![root] + right, bound, strict),
{
    let s = left + seq![root] + right;
    let head = left + seq![root];
    assert forall|j: int| 0 <= j < s.len() implies !key_above(
        P::entry_key(#[trigger] s[j]),
        bound,
        strict,
    ) by {
        if j < head.len() {
            assert(s[j] == head[j]);
        } else {
            assert(s[j] == right[j - head.len()]);
        }
    }
}

/// The last entry below the bound in the right part is the last in the
/// whole.
pub proof fn lemma_below_from_right<P: Payload>(
    left: Seq<P::Entry>,
    root: P::Entry,
    right: Seq<P::Entry>,
    i: int,
    bound: P::Key,
    strict: bool,
)
    requires
        last_below::<P>(right, i, bound, strict),
    ensures
        last_below::<P>(left + seq![root] + right, left.len() + 1 + i, bound, strict),
        (left + seq![root] + right)[left.len() + 1 + i] == right[i],
{
    let s = left + seq![root] + right;
    assert(s.skip(left.len() as int + 1 + i + 1) =~= right.skip(i + 1));
}

/// Where nothing in the right part lies below the bound and the root does,
/// the root is the last that does.
pub proof fn lemma_below_at_root<P: Payload>(
    left: Seq<P::Entry>,
    root: P::Entry,
    right: Seq<P::Entry>,
    bound: P::Key,
    strict: bool,
)
    requires
        none_below::<P>(right, bound, strict),
        key_below(P::entry_key(root), bound, strict),
    ensures
        last_below::<P>(left + seq![root] + right, left.len() as int, bound, strict),
        (left + seq![root] + right)[left.len() as int] == root,
{
    let s = left + seq![root] + right;
    assert(s.skip(left.len() as int + 1) =~= right);
}

/// Where nothing from the root on lies below the bound, the last entry of
/// the left part that does is the last in the whole.
pub proof fn lemma_below_from_left<P: Payload>(
    left: Seq<P::Entry>,
    root: P::Entry,
    right: Seq<P::Entry>,
    i: int,
    bound: P::Key,
    strict: bool,
)
    requires
        none_below::<P>(seq![root] + right, bound, strict),
        last_below::<P>(left, i, bound, strict),
    ensures
        last_below::<P>(left + seq![root] + right, i, bound, strict),
        (left + seq![root] + right)[i] == left[i],
{
    let s = left + seq![root] + right;
    let tail = seq![root] + right;
    let t = s.skip(i + 1);
    let rest = left.skip(i + 1);
    assert forall|j: int| 0 <= j < t.len() implies !key_below(
        P::entry_key(#[trigger] t[j]),
        bound,
        strict,
    ) by {
        if j < rest.len() {
            assert(t[j] == rest[j]);
        } else {
            assert(t[j] == tail[j - rest.len()]);
        }
    }
}

/// Where nothing from the root on and nothing in the left part lies below
/// the bound, nothing does.
pub proof fn lemma_below_nowhere<P: Payload>(
    left: Seq<P::Entry>,
    root: P::Entry,
    right: Seq<P::Entry>,
    bound: P::Key,
    strict: bool,
)
    requires
        none_below::<P>(seq![root] + right, bound, strict),
        none_below::<P>(left, bound, strict),
    ensures
        none_below::<P>(left + seq![root] + right, bound, strict),
{
    let s = left + seq![root] + right;
    let tail = seq![root] + right;
    assert forall|j: int| 0 <= j < s.len() implies !key_below(
        P::entry_key(#[trigger] s[j]),
        bound,
        strict,
    ) by {
        if j < left.len() {
            assert(s[j] == left[j]);
        } else {
            assert(s[j] == tail[j - left.len()]);
        }
    }
}

/// Where exactly the entries from `lo` up to `hi` satisfy `pred`, filtering
/// by `pred` leaves exactly that stretch.
pub proof fn lemma_filter_window<A>(s: Seq<A>, pred: spec_fn(A) -> bool, lo: int, hi: int)
    requires
        0 <= lo <= hi <= s.len(),
        forall|i: int| 0 <= i < s.len() ==> (pred(#[trigger] s[i]) <==> lo <= i < hi),
    ensures
        s.filter(pred) == s.subrange(lo, hi),
    decreases s.len(),
{
    reveal(Seq::filter);
    if s.len() == 0 {
        assert(s.subrange(lo, hi) =~= s);
    } else {
        let rest = s.drop_last();
        assert forall|i: int| 0 <= i < rest.len() implies rest[i] == s[i] by {}
        if lo == hi {
            lemma_filter_window(rest, pred, 0, 0);
            assert(rest.subrange(0, 0) =~= s.subrange(lo, hi));
        } else if hi == s.len() {
            lemma_filter_window(rest, pred, lo, hi - 1);
            assert(rest.subrange(lo, hi - 1).push(s.last()) =~= s.subrange(lo, hi));
        } else {
            lemma_filter_window(rest, pred, lo, hi);
            assert(rest.subrange(lo, hi) =~= s.subrange(lo, hi));
        }
    }
}

/// In a sequence in key order, every entry behind the first that lies
/// above a bound lies above it too.
pub proof fn lemma_first_above_splits<P: Payload>(
    s: Seq<P::Entry>,
    i: int,
    bound: P::Key,
    strict: bool,
)
    requires
        total_order::<P::Key>(),
        sorted::<P>(s),
        first_above::<P>(s, i, bound, strict),
    ensures
        forall|j: int|
            0 <= j < s.len() ==> (key_above(P::entry_key(#[trigger] s[j]), bound, strict) <==> i
                <= j),
{
    assert forall|j: int| 0 <= j < s.len() implies (key_above(
        P::entry_key(#[trigger] s[j]),
        bound,
        strict,
    ) <==> i <= j) by {
        if j < i {
            assert(s.take(i)[j] == s[j]);
        } else if j > i {
            lemma_above_up(P::entry_key(s[i]), P::entry_key(s[j]), bound, strict);
        }
    }
}

/// In a sequence in key order, every entry before the last that lies
/// below a bound lies below it too.
pub proof fn lemma_last_below_splits<P: Payload>(
    s: Seq<P::Entry>,
    i: int,
    bound: P::Key,
    strict: bool,
)
    requires
        total_order::<P::Key>(),
        sorted::<P>(s),
        last_below::<P>(s, i, bound, strict),
    ensures
        forall|j: int|
            0 <= j < s.len() ==> (key_below(P::entry_key(#[trigger] s[j]), bound, strict) <==> j
                <= i),
{
    assert forall|j: int| 0 <= j < s.len() implies (key_below(
        P::entry_key(#[trigger] s[j]),
        bound,
        strict,
    ) <==> j <= i) by {
        if j > i {
            assert(s.skip(i + 1)[j - i - 1] == s[j]);
        } else if j < i {
            lemma_below_down(P::entry_key(s[j]), P::entry_key(s[i]), bound, strict);
        }
    }
}

/// A key lies before a range's start exactly where it does not lie above
/// the start's key, and behind its end exactly where it does not lie below
/// the end's key.
pub proof fn lemma_bounds<K: Ord>(k: K, b: K)
    requires
        total_order::<K>(),
    ensures
        below_start(k, Bound::Included(&b)) == !key_above(k, b, false),
        below_start(k, Bound::Excluded(&b)) == !key_above(k, b, true),
        above_end(k, Bound::Included(&b)) == !key_below(k, b, false),
        above_end(k, Bound::Excluded(&b)) == !key_below(k, b, true),
{
    lemma_lt_total(k, b);
    lemma_lt_irreflexive(k);
    if lt(k, b) {
        lemma_lt_asymmetric(k, b);
    }
    if lt(b, k) {
        lemma_lt_asymmetric(b, k);
    }
}

/// The test "belongs to the left part of a split at `split`", on entries.
pub open spec fn left_of<P: Payload>(split: P::Key, to_left: bool) -> spec_fn(P::Entry) -> bool {
    |e: P::Entry| goes_left(P::entry_key(e), split, to_left)
}

/// The test "belongs to the right part of a split at `split`", on entries.
pub open spec fn right_of<P: Payload>(split: P::Key, to_left: bool) -> spec_fn(P::Entry) -> bool {
    |e: P::Entry| !goes_left(P::entry_key(e), split, to_left)
}

/// The test "lies before the start of the range", on entries.
pub open spec fn before<P: Payload>(start: Bound<&P::Key>) -> spec_fn(P::Entry) -> bool {
    |e: P::Entry| below_start(P::entry_key(e), start)
}

/// The test "lies in the range", on entries.
pub open spec fn within<P: Payload>(start: Bound<&P::Key>, end: Bound<&P::Key>) -> spec_fn(
    P::Entry,
) -> bool {
    |e: P::Entry| in_range(P::entry_key(e), start, end)
}

/// The test "lies behind the end of the range and not before its start",
/// on entries.
pub open spec fn behind<P: Payload>(start: Bound<&P::Key>, end: Bound<&P::Key>) -> spec_fn(
    P::Entry,
) -> bool {
    |e: P::Entry| !below_start(P::entry_key(e), start) && above_end(P::entry_key(e), end)
}

/// The entries of `s` that satisfy `pred`, in their order.
#[verifier::opaque]
pub open spec fn keep<A>(s: Seq<A>, pred: spec_fn(A) -> bool) -> Seq<A> {
    s.filter(pred)
}

/// Where exactly the entries from `lo` up to `hi` satisfy `pred`, keeping
/// those that satisfy `pred` leaves exactly that stretch.
pub proof fn lemma_keep_window<A>(s: Seq<A>, pred: spec_fn(A) -> bool, lo: int, hi: int)
    requires
        0 <= lo <= hi <= s.len(),
        forall|i: int| 0 <= i < s.len() ==> (pred(#[trigger] s[i]) <==> lo <= i < hi),
    ensures
        keep(s, pred) == s.subrange(lo, hi),
{
    reveal(keep);
    lemma_filter_window(s, pred, lo, hi);
}

/// Two parts of a sequence, of which the first holds exactly the entries
/// that satisfy `pred`, are what keeping by `pred` and by its opposite
/// leaves.
pub proof fn lemma_parts_are_kept<A>(
    whole: Seq<A>,
    left: Seq<A>,
    right: Seq<A>,
    pred: spec_fn(A) -> bool,
    opposite: spec_fn(A) -> bool,
)
    requires
        left + right == whole,
        forall|i: int| 0 <= i < left.len() ==> pred(#[trigger] left[i]) && !opposite(left[i]),
        forall|i: int| 0 <= i < right.len() ==> !pred(#[trigger] right[i]) && opposite(right[i]),
    ensures
        left == keep(whole, pred),
        right == keep(whole, opposite),
{
    let n = left.len() as int;
    assert forall|i: int| 0 <= i < whole.len() implies (pred(#[trigger] whole[i]) <==> 0 <= i
        < n) by {
        if i < n {
            assert(whole[i] == left[i]);
        } else {
            assert(whole[i] == right[i - n]);
        }
    }
    lemma_keep_window(whole, pred, 0, n);
    assert(whole.subrange(0, n) =~= left);
    assert forall|i: int| 0 <= i < whole.len() implies (opposite(#[trigger] whole[i]) <==> n <= i
        < whole.len()) by {
        if i < n {
            assert(whole[i] == left[i]);
        } else {
            assert(whole[i] == right[i - n]);
        }
    }
    lemma_keep_window(whole, opposite, n, whole.len() as int);
    assert(whole.subrange(n, whole.len() as int) =~= right);
}

/// In a sequence in key order the entries that belong to the left part of
/// a split come first: there is an index before which all do and from
/// which on none does.
pub proof fn lemma_split_index<P: Payload>(s: Seq<P::Entry>, split: P::Key, to_left: bool) -> (n:
    int)
    requires
        total_order::<P::Key>(),
        sorted::<P>(s),
    ensures
        0 <= n <= s.len(),
        forall|i: int|
            0 <= i < s.len() ==> (goes_left(P::entry_key(#[trigger] s[i]), split, to_left) <==> i
                < n),
    decreases s.len(),
{
    if s.len() == 0 {
        0
    } else {
        let rest = s.drop_last();
        let last = s.last();
        assert forall|i: int, j: int| 0 <= i < j < rest.len() implies lt(
            P::entry_key(#[trigger] rest[i]),
            P::entry_key(#[trigger] rest[j]),
        ) by {
            assert(rest[i] == s[i] && rest[j] == s[j]);
        }
        let n0 = lemma_split_index::<P>(rest, split, to_left);
        if goes_left(P::entry_key(last), split, to_left) {
            assert forall|i: int| 0 <= i < s.len() implies (goes_left(
                P::entry_key(#[trigger] s[i]),
                split,
                to_left,
            ) <==> i < s.len()) by {
                if i < s.len() - 1 {
                    lemma_goes_left_down(P::entry_key(s[i]), P::entry_key(last), split, to_left);
                }
            }
            s.len() as int
        } else {
            assert forall|i: int| 0 <= i < s.len() implies (goes_left(
                P::entry_key(#[trigger] s[i]),
                split,
                to_left,
            ) <==> i < n0) by {
                if i < s.len() - 1 {
                    assert(rest[i] == s[i]);
                }
            }
            n0
        }
    }
}

/// Split and merge undo each other: the two parts that a split at `split`
/// leaves of entries in key order, joined again, are the entries as they
/// were, and the split key parts them: every key of the left part comes
/// before it (or is it, where `to_left` is set) and no key of the right
/// part does.
pub proof fn lemma_split_merge_inverse<P: Payload>(
    whole: Seq<P::Entry>,
    split: P::Key,
    to_left: bool,
)
    requires
        total_order::<P::Key>(),
        sorted::<P>(whole),
    ensures
        keep(whole, left_of::<P>(split, to_left)) + keep(whole, right_of::<P>(split, to_left))
            == whole,
        all_left::<P>(keep(whole, left_of::<P>(split, to_left)), split, to_left),
        none_left::<P>(keep(whole, right_of::<P>(split, to_left)), split, to_left),
{
    let lp = left_of::<P>(split, to_left);
    let rp = right_of::<P>(split, to_left);
    let n = lemma_split_index::<P>(whole, split, to_left);
    let a = whole.subrange(0, n);
    let b = whole.subrange(n, whole.len() as int);
    assert forall|i: int| 0 <= i < whole.len() implies (lp(#[trigger] whole[i]) <==> 0 <= i
        < n) by {}
    assert forall|i: int| 0 <= i < whole.len() implies (rp(#[trigger] whole[i]) <==> n <= i
        < whole.len()) by {}
    lemma_keep_window(whole, lp, 0, n);
    lemma_keep_window(whole, rp, n, whole.len() as int);
    assert(a + b =~= whole);
    assert forall|i: int| 0 <= i < a.len() implies goes_left(
        P::entry_key(#[trigger] a[i]),
        split,
        to_left,
    ) by {
        assert(a[i] == whole[i]);
    }
    assert forall|i: int| 0 <= i < b.len() implies !goes_left(
        P::entry_key(#[trigger] b[i]),
        split,
        to_left,
    ) by {
        assert(b[i] == whole[n + i]);
    }
}

/// Three parts of a sequence, each holding the entries that satisfy one of
/// three tests and none of the others, are what keeping by each test
/// leaves.
pub proof fn lemma_three_parts_are_kept<A>(
    whole: Seq<A>,
    a: Seq<A>,
    b: Seq<A>,
    c: Seq<A>,
    pa: spec_fn(A) -> bool,
    pb: spec_fn(A) -> bool,
    pc: spec_fn(A) -> bool,
)
    requires
        a + b + c == whole,
        forall|i: int| 0 <= i < a.len() ==> pa(#[trigger] a[i]) && !pb(a[i]) && !pc(a[i]),
        forall|i: int| 0 <= i < b.len() ==> !pa(#[trigger] b[i]) && pb(b[i]) && !pc(b[i]),
        forall|i: int| 0 <= i < c.len() ==> !pa(#[trigger] c[i]) && !pb(c[i]) && pc(c[i]),
    ensures
        a == keep(whole, pa),
        b == keep(whole, pb),
        c == keep(whole, pc),
{
    let n = a.len() as int;
    let m = n + b.len();
    let len = whole.len() as int;
    assert forall|i: int| 0 <= i < len implies (pa(#[trigger] whole[i]) <==> 0 <= i < n) && (pb(
        whole[i],
    ) <==> n <= i < m) && (pc(whole[i]) <==> m <= i < len) by {
        if i < n {
            assert(whole[i] == a[i]);
        } else if i < m {
            assert(whole[i] == b[i - n]);
        } else {
            assert(whole[i] == c[i - m]);
        }
    }
    lemma_keep_window(whole, pa, 0, n);
    lemma_keep_window(whole, pb, n, m);
    lemma_keep_window(whole, pc, m, len);
    assert(whole.subrange(0, n) =~= a);
    assert(whole.subrange(n, m) =~= b);
    assert(whole.subrange(m, len) =~= c);
}

/// Of two entries of a sequence in key order the earlier has the smaller
/// key.
pub proof fn lemma_sorted_at<P: Payload>(s: Seq<P::Entry>, i: int, j: int)
    requires
        sorted::<P>(s),
        0 <= i < j < s.len(),
    ensures
        lt(P::entry_key(s[i]), P::entry_key(s[j])),
{
}

} // verus!
