//! An ordered map and an ordered set on the treap engine.

use crate::order::{
    lemma_lt_asymmetric, lemma_lt_irreflexive, lemma_lt_total, lt, total_order,
};
use crate::treap::iter::Iter;
use crate::treap::node::TreapNode;
use crate::treap::ordering::{
    keep, lemma_keep_window, lemma_sorted_at, lemma_sorted_join, lemma_sorted_parts, sorted,
    within, Bound,
};
use crate::treap::payload::{KeyPayload, Payload, PureDataPayload, SizePayload};
use vstd::prelude::*;

verus! {

/// The payload of a map's node: the value, below a count of the subtree,
/// below the key.
pub type TreapValue<T, V> = KeyPayload<T, SizePayload<PureDataPayload<V>>>;

/// The test "has the key `k`", on a map's entries.
pub open spec fn key_is<T, V>(k: T) -> spec_fn((T, V)) -> bool {
    |e: (T, V)| e.0 == k
}

/// The test "has another key than `k`", on a map's entries.
pub open spec fn key_is_not<T, V>(k: T) -> spec_fn((T, V)) -> bool {
    |e: (T, V)| e.0 != k
}

/// The test "has a key before `k`", on a map's entries.
pub open spec fn key_before<T: Ord, V>(k: T) -> spec_fn((T, V)) -> bool {
    |e: (T, V)| lt(e.0, k)
}

/// The test "has a key behind `k`", on a map's entries.
pub open spec fn key_behind<T: Ord, V>(k: T) -> spec_fn((T, V)) -> bool {
    |e: (T, V)| lt(k, e.0)
}

/// The value that the entries `s` hold under the key `k`, if any.
pub open spec fn lookup<T, V>(s: Seq<(T, V)>, k: T) -> Option<V> {
    let found = keep(s, key_is::<T, V>(k));
    if found.len() > 0 {
        Some(found[0].1)
    } else {
        None
    }
}

/// The entries `s` after `k` was given the value `v`: those before `k`,
/// then `k` with `v`, then those behind `k`.
pub open spec fn inserted<T: Ord, V>(s: Seq<(T, V)>, k: T, v: V) -> Seq<(T, V)> {
    keep(s, key_before::<T, V>(k)) + seq![(k, v)] + keep(s, key_behind::<T, V>(k))
}

/// The entries `s` without the key `k`.
pub open spec fn removed<T, V>(s: Seq<(T, V)>, k: T) -> Seq<(T, V)> {
    keep(s, key_is_not::<T, V>(k))
}

/// Entries in key order fall into three stretches around a key `k`: those
/// before it, at most one with it, and those behind it.
pub proof fn lemma_around_key<T: Ord, V>(s: Seq<(T, V)>, k: T) -> (at: (int, int))
    requires
        total_order::<T>(),
        sorted::<TreapValue<T, V>>(s),
    ensures
        0 <= at.0 <= at.1 <= s.len(),
        at.1 <= at.0 + 1,
        keep(s, key_before::<T, V>(k)) == s.subrange(0, at.0),
        keep(s, key_is::<T, V>(k)) == s.subrange(at.0, at.1),
        keep(s, key_behind::<T, V>(k)) == s.subrange(at.1, s.len() as int),
        keep(s, key_is_not::<T, V>(k)) == s.subrange(0, at.0) + s.subrange(at.1, s.len() as int),
        forall|i: int| 0 <= i < at.0 ==> lt((#[trigger] s[i]).0, k),
        forall|i: int| at.0 <= i < at.1 ==> (#[trigger] s[i]).0 == k,
        forall|i: int| at.1 <= i < s.len() ==> lt(k, (#[trigger] s[i]).0),
    decreases s.len(),
{
    let len = s.len() as int;
    if len == 0 {
        lemma_keep_window(s, key_before::<T, V>(k), 0, 0);
        lemma_keep_window(s, key_is::<T, V>(k), 0, 0);
        lemma_keep_window(s, key_behind::<T, V>(k), 0, 0);
        lemma_keep_window(s, key_is_not::<T, V>(k), 0, 0);
        assert(s.subrange(0, 0) =~= s.subrange(0, 0) + s.subrange(0, 0));
        (0, 0)
    } else {
        let rest = s.drop_last();
        let last = s.last();
        assert(rest + seq![last] =~= s);
        lemma_sorted_parts::<TreapValue<T, V>>(rest, seq![last]);
        let (a0, b0) = lemma_around_key::<T, V>(rest, k);
        lemma_lt_total(last.0, k);
        lemma_lt_irreflexive(k);
        let at: (int, int) = if lt(last.0, k) {
            (len, len)
        } else if last.0 == k {
            (len - 1, len)
        } else {
            (a0, b0)
        };
        assert forall|i: int| 0 <= i < len implies (lt((#[trigger] s[i]).0, k) <==> i < at.0) && (
        s[i].0 == k <==> at.0 <= i < at.1) && (lt(k, s[i].0) <==> at.1 <= i) by {
            lemma_lt_total(s[i].0, k);
            lemma_lt_irreflexive(s[i].0);
            if lt(s[i].0, k) {
                lemma_lt_asymmetric(s[i].0, k);
            }
            if i < len - 1 {
                assert(rest[i] == s[i]);
                lemma_sorted_at::<TreapValue<T, V>>(s, i, len - 1);
                if lt(last.0, k) {
                    crate::order::lemma_lt_transitive(s[i].0, last.0, k);
                }
            }
        }
        assert(at.0 <= at.1 <= at.0 + 1);
        let before = key_before::<T, V>(k);
        let is = key_is::<T, V>(k);
        let behind = key_behind::<T, V>(k);
        let is_not = key_is_not::<T, V>(k);
        assert forall|i: int| 0 <= i < len implies (before(#[trigger] s[i]) <==> 0 <= i < at.0) by {}
        assert forall|i: int| 0 <= i < len implies (is(#[trigger] s[i]) <==> at.0 <= i < at.1) by {}
        assert forall|i: int| 0 <= i < len implies (behind(#[trigger] s[i]) <==> at.1 <= i
            < len) by {}
        lemma_keep_window(s, before, 0, at.0);
        lemma_keep_window(s, is, at.0, at.1);
        lemma_keep_window(s, behind, at.1, len);
        if at.0 == at.1 {
            assert forall|i: int| 0 <= i < len implies (is_not(#[trigger] s[i]) <==> 0 <= i
                < len) by {}
            lemma_keep_window(s, is_not, 0, len);
            assert(s.subrange(0, len) =~= s.subrange(0, at.0) + s.subrange(at.1, len));
        } else {
            let head = s.subrange(0, at.0);
            let tail = s.subrange(at.1, len);
            let gone = s.subrange(at.0, at.1);
            assert(head + gone + tail =~= s);
            lemma_keep_apart(head, gone, tail, is_not);
        }
        at
    }
}

/// Where the outer two of three stretches satisfy `pred` throughout and
/// the middle one nowhere, keeping by `pred` leaves the outer two.
pub proof fn lemma_keep_apart<A>(
    head: Seq<A>,
    gone: Seq<A>,
    tail: Seq<A>,
    pred: spec_fn(A) -> bool,
)
    requires
        forall|i: int| 0 <= i < head.len() ==> pred(#[trigger] head[i]),
        forall|i: int| 0 <= i < gone.len() ==> !pred(#[trigger] gone[i]),
        forall|i: int| 0 <= i < tail.len() ==> pred(#[trigger] tail[i]),
    ensures
        keep(head + gone + tail, pred) == head + tail,
    decreases tail.len(),
{
    let s = head + gone + tail;
    if tail.len() == 0 {
        assert forall|i: int| 0 <= i < s.len() implies (pred(#[trigger] s[i]) <==> 0 <= i
            < head.len()) by {
            if i < head.len() {
                assert(s[i] == head[i]);
            } else {
                assert(s[i] == gone[i - head.len()]);
            }
        }
        lemma_keep_window(s, pred, 0, head.len() as int);
        assert(s.subrange(0, head.len() as int) =~= head + tail);
    } else {
        let shorter = tail.drop_last();
        assert forall|i: int| 0 <= i < shorter.len() implies pred(#[trigger] shorter[i]) by {
            assert(shorter[i] == tail[i]);
        }
        lemma_keep_apart(head, gone, shorter, pred);
        reveal(keep);
        reveal(Seq::filter);
        assert(s.drop_last() =~= head + gone + shorter);
        assert(s.last() == tail.last());
        assert((head + shorter).push(tail.last()) =~= head + tail);
    }
}

/// An ordered map from keys to values, kept in a treap.
pub struct TreapMap<T: Ord, V> {
    root: TreapNode<TreapValue<T, V>>,
}

impl<T: Ord, V> View for TreapMap<T, V> {
    type V = Seq<(T, V)>;

    /// The entries of the map in key order.
    closed spec fn view(&self) -> Seq<(T, V)> {
        self.root@
    }
}

impl<T: Ord, V> TreapMap<T, V> {
    /// What every operation keeps: the treap is well formed and its entries
    /// stand in key order.
    pub closed spec fn wf(&self) -> bool {
        self.root.wf() && sorted::<TreapValue<T, V>>(self.root@)
    }

    /// The treap that holds the map.
    pub closed spec fn treap(&self) -> TreapNode<TreapValue<T, V>> {
        self.root
    }

    /// The keys of a map increase strictly from each entry to the next.
    pub proof fn lemma_keys_increase(&self)
        requires
            self.wf(),
        ensures
            self.treap().wf(),
            self.treap()@ == self@,
            sorted::<TreapValue<T, V>>(self@),
            forall|i: int, j: int|
                0 <= i < j < self@.len() ==> lt((#[trigger] self@[i]).0, (#[trigger] self@[j]).0),
    {
    }

    /// An empty map.
    pub fn new() -> (m: Self)
        ensures
            m.wf(),
            m@ == Seq::<(T, V)>::empty(),
    {
        Self { root: TreapNode::none() }
    }

    /// The number of entries, read off the count that the root keeps.
    pub fn len(&self) -> (n: usize)
        requires
            self.wf(),
        ensures
            n == self@.len(),
    {
        proof {
            self.root.lemma_entries();
            if self.root.nonempty() {
                self.root.lemma_wf();
            }
        }
        match self.root.payload() {
            Some(p) => p.inner.size as usize,
            None => 0,
        }
    }

    /// Gives `key` the value `value` and returns the value it had, if it
    /// had one.
    pub fn insert(&mut self, key: T, value: V) -> (held: Option<V>)
        requires
            total_order::<T>(),
            old(self).wf(),
            lookup(old(self)@, key).is_some() || old(self)@.len() < u32::MAX,
        ensures
            final(self).wf(),
            held == lookup(old(self)@, key),
            final(self)@ == inserted(old(self)@, key, value),
    {
        let ghost s = self.root@;
        let mut root = TreapNode::none();
        std::mem::swap(&mut self.root, &mut root);
        proof {
            if root.nonempty() {
                root.lemma_wf();
            }
            root.lemma_entries();
        }
        let (left, mut node, right) = root.split_range(
            Bound::Included(&key),
            Bound::Included(&key),
        );
        let ghost at = lemma_around_key::<T, V>(s, key);
        proof {
            lemma_parts_around::<T, V>(s, left@, node@, right@, key);
            lemma_lt_irreflexive(key);
            node.lemma_entries();
        }
        let held = if node.is_some() {
            proof {
                node.lemma_wf();
                node.left_child().lemma_entries();
                node.right_child().lemma_entries();
            }
            let held = node.replace(value);
            proof {
                assert(node@ =~= seq![(key, value)]);
            }
            Some(held)
        } else {
            node = TreapNode::new(KeyPayload::from((key, value)));
            None
        };
        proof {
            assert(node@ == seq![(key, value)]);
            assert(left@ + node@ + right@ =~= left@ + (node@ + right@));
            lemma_sorted_around::<T, V>(left@, (key, value), right@);
        }
        let rest = TreapNode::merge_unsafe(node, right);
        self.root = TreapNode::merge_unsafe(left, rest);
        held
    }

    /// Takes `key` out of the map and returns the value it had, if it had
    /// one.
    pub fn remove(&mut self, key: &T) -> (held: Option<V>)
        requires
            total_order::<T>(),
            old(self).wf(),
        ensures
            final(self).wf(),
            held == lookup(old(self)@, *key),
            final(self)@ == removed(old(self)@, *key),
    {
        let ghost s = self.root@;
        let mut root = TreapNode::none();
        std::mem::swap(&mut self.root, &mut root);
        proof {
            if root.nonempty() {
                root.lemma_wf();
            }
            root.lemma_entries();
        }
        let (left, node, right) = root.split_range(Bound::Included(key), Bound::Included(key));
        let ghost at = lemma_around_key::<T, V>(s, *key);
        proof {
            lemma_parts_around::<T, V>(s, left@, node@, right@, *key);
            node.lemma_entries();
            if node.nonempty() {
                node.left_child().lemma_entries();
                node.right_child().lemma_entries();
            }
            lemma_sorted_parts::<TreapValue<T, V>>(left@ + node@, right@);
            lemma_sorted_parts::<TreapValue<T, V>>(left@, node@);
            assert forall|i: int, j: int| 0 <= i < left@.len() && 0 <= j < right@.len() implies lt(
                (#[trigger] left@[i]).0,
                (#[trigger] right@[j]).0,
            ) by {
                crate::order::lemma_lt_transitive(left@[i].0, *key, right@[j].0);
            }
            lemma_sorted_join::<TreapValue<T, V>>(left@, right@);
            TreapValue::<T, V>::lemma_fits_fewer(s.len(), left@.len() + right@.len());
        }
        self.root = TreapNode::merge_unsafe(left, right);
        match node.into_payload() {
            Some(data) => Some(data.inner.inner.data),
            None => None,
        }
    }

    /// The value under `key`, if it has one.
    pub fn search(&self, key: &T) -> (found: Option<&V>)
        requires
            total_order::<T>(),
            self.wf(),
        ensures
            match found {
                Some(v) => lookup(self@, *key) == Some(*v),
                None => lookup(self@, *key).is_none(),
            },
    {
        let ghost s = self.root@;
        let ghost at = lemma_around_key::<T, V>(s, *key);
        let node = self.root.find(key);
        proof {
            node.lemma_entries();
            lemma_lt_irreflexive(*key);
            if node.nonempty() {
                let i = choose|i: int| 0 <= i < s.len() && s[i] == node.root_entry();
                assert(at.0 <= i < at.1);
                assert(s.subrange(at.0, at.1)[0] == s[i]);
            } else {
                if at.0 < at.1 {
                    assert(s[at.0].0 == *key);
                }
            }
        }
        match node.payload() {
            Some(data) => Some(&data.inner.inner.data),
            None => None,
        }
    }

    /// A cursor over the entries whose keys lie in the range from `start`
    /// to `end`.
    pub fn range<'s>(&'s self, start: Bound<&T>, end: Bound<&T>) -> (it: Iter<
        's,
        TreapValue<T, V>,
    >)
        requires
            total_order::<T>(),
            self.wf(),
        ensures
            it.wf(),
            it.tree() == self@,
            it.remaining() == keep(self@, within::<TreapValue<T, V>>(start, end)),
    {
        self.root.range(start, end)
    }
}

/// The three parts that a split at the one key `k` leaves of entries in
/// key order are the three stretches around `k`.
pub proof fn lemma_parts_around<T: Ord, V>(
    s: Seq<(T, V)>,
    left: Seq<(T, V)>,
    middle: Seq<(T, V)>,
    right: Seq<(T, V)>,
    k: T,
)
    requires
        total_order::<T>(),
        sorted::<TreapValue<T, V>>(s),
        left + middle + right == s,
        left == keep(s, crate::treap::ordering::before::<TreapValue<T, V>>(Bound::Included(&k))),
        middle == keep(
            s,
            within::<TreapValue<T, V>>(Bound::Included(&k), Bound::Included(&k)),
        ),
        right == keep(
            s,
            crate::treap::ordering::behind::<TreapValue<T, V>>(
                Bound::Included(&k),
                Bound::Included(&k),
            ),
        ),
    ensures
        left == keep(s, key_before::<T, V>(k)),
        middle == keep(s, key_is::<T, V>(k)),
        right == keep(s, key_behind::<T, V>(k)),
        left + right == keep(s, key_is_not::<T, V>(k)),
        middle.len() <= 1,
        sorted::<TreapValue<T, V>>(left),
        sorted::<TreapValue<T, V>>(right),
        forall|i: int| 0 <= i < left.len() ==> lt((#[trigger] left[i]).0, k),
        forall|i: int| 0 <= i < middle.len() ==> (#[trigger] middle[i]).0 == k,
        forall|i: int| 0 <= i < right.len() ==> lt(k, (#[trigger] right[i]).0),
{
    let at = lemma_around_key::<T, V>(s, k);
    let len = s.len() as int;
    let start = Bound::Included(&k);
    let pa = crate::treap::ordering::before::<TreapValue<T, V>>(start);
    let pb = within::<TreapValue<T, V>>(start, start);
    let pc = crate::treap::ordering::behind::<TreapValue<T, V>>(start, start);
    assert forall|i: int| 0 <= i < len implies (pa(#[trigger] s[i]) <==> 0 <= i < at.0) && (pb(
        s[i],
    ) <==> at.0 <= i < at.1) && (pc(s[i]) <==> at.1 <= i < len) by {
        lemma_lt_total(s[i].0, k);
        lemma_lt_irreflexive(s[i].0);
        if lt(s[i].0, k) {
            lemma_lt_asymmetric(s[i].0, k);
        }
        if lt(k, s[i].0) {
            lemma_lt_asymmetric(k, s[i].0);
        }
    }
    lemma_keep_window(s, pa, 0, at.0);
    lemma_keep_window(s, pb, at.0, at.1);
    lemma_keep_window(s, pc, at.1, len);
    assert(s.subrange(0, at.0) + s.subrange(at.1, len) =~= left + right);
    assert(s =~= (left + middle) + right);
    lemma_sorted_parts::<TreapValue<T, V>>(left + middle, right);
    lemma_sorted_parts::<TreapValue<T, V>>(left, middle);
}

/// Entries in key order before a key and entries in key order behind it
/// stand in key order with an entry of that key between them.
pub proof fn lemma_sorted_around<T: Ord, V>(left: Seq<(T, V)>, e: (T, V), right: Seq<(T, V)>)
    requires
        total_order::<T>(),
        sorted::<TreapValue<T, V>>(left),
        sorted::<TreapValue<T, V>>(right),
        forall|i: int| 0 <= i < left.len() ==> lt((#[trigger] left[i]).0, e.0),
        forall|i: int| 0 <= i < right.len() ==> lt(e.0, (#[trigger] right[i]).0),
    ensures
        sorted::<TreapValue<T, V>>(left + seq![e] + right),
        sorted::<TreapValue<T, V>>(seq![e] + right),
{
    let mid = seq![e];
    assert(sorted::<TreapValue<T, V>>(mid));
    lemma_sorted_join::<TreapValue<T, V>>(mid, right);
    let tail = mid + right;
    assert forall|i: int, j: int| 0 <= i < left.len() && 0 <= j < tail.len() implies lt(
        (#[trigger] left[i]).0,
        (#[trigger] tail[j]).0,
    ) by {
        if j > 0 {
            assert(tail[j] == right[j - 1]);
            crate::order::lemma_lt_transitive(left[i].0, e.0, right[j - 1].0);
        }
    }
    lemma_sorted_join::<TreapValue<T, V>>(left, tail);
    assert(left + tail =~= left + mid + right);
}

/// Looking up a key twice in the same entries gives the same answer: the
/// contract of `search` admits one result only.
pub proof fn lemma_search_repeatable<T, V>(
    s: Seq<(T, V)>,
    k: T,
    first: Option<&V>,
    second: Option<&V>,
)
    requires
        match first {
            Some(v) => lookup(s, k) == Some(*v),
            None => lookup(s, k).is_none(),
        },
        match second {
            Some(v) => lookup(s, k) == Some(*v),
            None => lookup(s, k).is_none(),
        },
    ensures
        first == second,
{
}

/// Insert and remove undo each other: where the entries `s`, in key order,
/// hold no key `k`, giving `k` a value `v` and taking `k` out again
/// returns `v` and leaves `s`.
pub proof fn lemma_insert_remove_inverse<T: Ord, V>(s: Seq<(T, V)>, k: T, v: V)
    requires
        total_order::<T>(),
        sorted::<TreapValue<T, V>>(s),
        lookup(s, k).is_none(),
    ensures
        sorted::<TreapValue<T, V>>(inserted(s, k, v)),
        lookup(inserted(s, k, v), k) == Some(v),
        removed(inserted(s, k, v), k) == s,
{
    let len = s.len() as int;
    let at = lemma_around_key::<T, V>(s, k);
    let c = at.0;
    assert(at.1 == c);
    let head = s.subrange(0, c);
    let tail = s.subrange(c, len);
    let t = inserted(s, k, v);
    assert(head + tail =~= s);
    lemma_sorted_parts::<TreapValue<T, V>>(head, tail);
    assert forall|i: int| 0 <= i < head.len() implies lt((#[trigger] head[i]).0, k) by {
        assert(head[i] == s[i]);
    }
    assert forall|i: int| 0 <= i < tail.len() implies lt(k, (#[trigger] tail[i]).0) by {
        assert(tail[i] == s[c + i]);
    }
    lemma_sorted_around::<T, V>(head, (k, v), tail);
    let to = lemma_around_key::<T, V>(t, k);
    assert(t[c] == (k, v));
    lemma_lt_irreflexive(k);
    assert(to.0 == c && to.1 == c + 1);
    assert(t.subrange(c, c + 1)[0] == t[c]);
    assert(t.subrange(0, c) + t.subrange(c + 1, t.len() as int) =~= s);
}

/// The count of elements that the root of a map's treap keeps; 0 where
/// the treap is empty.
pub open spec fn stored_size<T: Ord, V>(node: TreapNode<TreapValue<T, V>>) -> nat {
    match node.spec_payload() {
        Some(p) => p.inner.size as nat,
        None => 0,
    }
}

/// At every node of a well-formed treap under a map, the count kept is one
/// more than the counts kept by the two children together, and it is the
/// number of entries below the node.
pub proof fn lemma_stored_size<T: Ord, V>(node: TreapNode<TreapValue<T, V>>)
    requires
        node.wf(),
    ensures
        stored_size(node) == node@.len(),
        node.nonempty() ==> stored_size(node) == 1 + stored_size(node.left_child()) + stored_size(
            node.right_child(),
        ),
{
    node.lemma_entries();
    if node.nonempty() {
        node.lemma_wf();
        let l = node.left_child();
        let r = node.right_child();
        l.lemma_entries();
        r.lemma_entries();
        if l.nonempty() {
            l.lemma_wf();
        }
        if r.nonempty() {
            r.lemma_wf();
        }
    }
}

impl<T: Ord, V> Default for TreapMap<T, V> {
    fn default() -> (m: Self)
        ensures
            m.wf(),
            m@ == Seq::<(T, V)>::empty(),
    {
        Self::new()
    }
}

/// An ordered set of keys: a map from the keys to nothing.
pub struct TreapSet<T: Ord>(TreapMap<T, ()>);

impl<T: Ord> View for TreapSet<T> {
    type V = Seq<(T, ())>;

    /// The keys of the set in order, each paired with the empty value.
    closed spec fn view(&self) -> Seq<(T, ())> {
        self.0@
    }
}

impl<T: Ord> TreapSet<T> {
    /// What every operation keeps: the map below is well formed.
    pub closed spec fn wf(&self) -> bool {
        self.0.wf()
    }

    /// The map from the keys to nothing that holds the set.
    pub closed spec fn map(&self) -> TreapMap<T, ()> {
        self.0
    }

    /// The keys of a set increase strictly from each to the next, and the
    /// set is a well-formed map of its keys.
    pub proof fn lemma_keys_increase(&self)
        requires
            self.wf(),
        ensures
            self.map().wf(),
            self.map()@ == self@,
            sorted::<TreapValue<T, ()>>(self@),
            forall|i: int, j: int|
                0 <= i < j < self@.len() ==> lt((#[trigger] self@[i]).0, (#[trigger] self@[j]).0),
    {
        self.0.lemma_keys_increase();
    }

    /// An empty set.
    pub fn new() -> (set: Self)
        ensures
            set.wf(),
            set@ == Seq::<(T, ())>::empty(),
    {
        Self(TreapMap::new())
    }

    /// Puts `key` into the set and says whether it was there already.
    pub fn insert(&mut self, key: T) -> (was_there: bool)
        requires
            total_order::<T>(),
            old(self).wf(),
            lookup(old(self)@, key).is_some() || old(self)@.len() < u32::MAX,
        ensures
            final(self).wf(),
            was_there == lookup(old(self)@, key).is_some(),
            final(self)@ == inserted(old(self)@, key, ()),
    {
        self.0.insert(key, ()).is_some()
    }

    /// Takes `key` out of the set and says whether it was there.
    pub fn remove(&mut self, key: &T) -> (was_there: bool)
        requires
            total_order::<T>(),
            old(self).wf(),
        ensures
            final(self).wf(),
            was_there == lookup(old(self)@, *key).is_some(),
            final(self)@ == removed(old(self)@, *key),
    {
        self.0.remove(key).is_some()
    }

    /// Whether `key` is in the set: the empty value under it, if it is.
    pub fn search(&self, key: &T) -> (found: Option<&()>)
        requires
            total_order::<T>(),
            self.wf(),
        ensures
            found.is_some() == lookup(self@, *key).is_some(),
    {
        self.0.search(key)
    }

    /// The number of keys.
    pub fn len(&self) -> (n: usize)
        requires
            self.wf(),
        ensures
            n == self@.len(),
    {
        self.0.len()
    }

    /// A cursor over the keys that lie in the range from `start` to `end`.
    pub fn range<'s>(&'s self, start: Bound<&T>, end: Bound<&T>) -> (it: Iter<
        's,
        TreapValue<T, ()>,
    >)
        requires
            total_order::<T>(),
            self.wf(),
        ensures
            it.wf(),
            it.tree() == self@,
            it.remaining() == keep(self@, within::<TreapValue<T, ()>>(start, end)),
    {
        self.0.range(start, end)
    }
}

impl<T: Ord> Default for TreapSet<T> {
    fn default() -> (set: Self)
        ensures
            set.wf(),
            set@ == Seq::<(T, ())>::empty(),
    {
        Self::new()
    }
}

/// Keeping by a test one stretch after another is keeping by it in the
/// two stretches together.
pub proof fn lemma_keep_joined<A>(a: Seq<A>, b: Seq<A>, pred: spec_fn(A) -> bool)
    ensures
        keep(a + b, pred) == keep(a, pred) + keep(b, pred),
{
    reveal(keep);
    Seq::filter_distributes_over_add(a, b, pred);
}

/// Giving a value to one key, or taking one key out, leaves what the
/// entries hold under every other key.
pub proof fn lemma_others_stay<T: Ord, V>(s: Seq<(T, V)>, k: T, v: V, other: T)
    requires
        total_order::<T>(),
        sorted::<TreapValue<T, V>>(s),
        other != k,
    ensures
        lookup(inserted(s, k, v), other) == lookup(s, other),
        lookup(removed(s, k), other) == lookup(s, other),
{
    let len = s.len() as int;
    let at = lemma_around_key::<T, V>(s, k);
    let head = s.subrange(0, at.0);
    let mid = s.subrange(at.0, at.1);
    let tail = s.subrange(at.1, len);
    let one = seq![(k, v)];
    let is = key_is::<T, V>(other);
    assert(s =~= head + mid + tail);
    assert(inserted(s, k, v) == head + one + tail);
    assert(removed(s, k) == head + tail);
    assert forall|i: int| 0 <= i < mid.len() implies (is(#[trigger] mid[i]) <==> 0 <= i < 0) by {
        assert(mid[i] == s[at.0 + i]);
    }
    lemma_keep_window(mid, is, 0, 0);
    assert forall|i: int| 0 <= i < one.len() implies (is(#[trigger] one[i]) <==> 0 <= i < 0) by {}
    lemma_keep_window(one, is, 0, 0);
    lemma_keep_joined(head + mid, tail, is);
    lemma_keep_joined(head, mid, is);
    lemma_keep_joined(head + one, tail, is);
    lemma_keep_joined(head, one, is);
    lemma_keep_joined(head, tail, is);
    assert(keep(head, is) + mid.subrange(0, 0) =~= keep(head, is));
    assert(keep(head, is) + one.subrange(0, 0) =~= keep(head, is));
}

/// Taking out a key that the entries do not hold changes nothing.
pub proof fn lemma_remove_absent<T: Ord, V>(s: Seq<(T, V)>, k: T)
    requires
        total_order::<T>(),
        sorted::<TreapValue<T, V>>(s),
        lookup(s, k).is_none(),
    ensures
        removed(s, k) == s,
{
    let at = lemma_around_key::<T, V>(s, k);
    assert(s.subrange(0, at.0) + s.subrange(at.1, s.len() as int) =~= s);
}

/// Giving a value to a key that the entries hold exchanges the value in
/// its place: the entries are as many as before, and the key now has the
/// new value.
pub proof fn lemma_insert_present<T: Ord, V>(s: Seq<(T, V)>, k: T, v: V)
    requires
        total_order::<T>(),
        sorted::<TreapValue<T, V>>(s),
        lookup(s, k).is_some(),
    ensures
        inserted(s, k, v).len() == s.len(),
        sorted::<TreapValue<T, V>>(inserted(s, k, v)),
        lookup(inserted(s, k, v), k) == Some(v),
{
    let len = s.len() as int;
    let at = lemma_around_key::<T, V>(s, k);
    let c = at.0;
    assert(at.1 == c + 1);
    let head = s.subrange(0, c);
    let tail = s.subrange(c + 1, len);
    let t = inserted(s, k, v);
    assert(head + s.subrange(c, c + 1) + tail =~= s);
    lemma_sorted_parts::<TreapValue<T, V>>(head + s.subrange(c, c + 1), tail);
    lemma_sorted_parts::<TreapValue<T, V>>(head, s.subrange(c, c + 1));
    assert forall|i: int| 0 <= i < head.len() implies lt((#[trigger] head[i]).0, k) by {
        assert(head[i] == s[i]);
    }
    assert forall|i: int| 0 <= i < tail.len() implies lt(k, (#[trigger] tail[i]).0) by {
        assert(tail[i] == s[c + 1 + i]);
    }
    lemma_sorted_around::<T, V>(head, (k, v), tail);
    let to = lemma_around_key::<T, V>(t, k);
    assert(t[c] == (k, v));
    lemma_lt_irreflexive(k);
    assert(to.0 == c && to.1 == c + 1);
    assert(t.subrange(c, c + 1)[0] == t[c]);
}

} // verus!
