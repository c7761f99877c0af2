//! The treap engine: nodes that own their subtrees, and the operations that
//! split, merge and search them.

use crate::order::{
    key_eq, key_le, key_lt, lemma_lt_asymmetric, lemma_lt_irreflexive, lt, total_order,
};
use crate::treap::iter::Iter;
use crate::treap::ordering::{
    above_end, all_left, before, behind, below_start, contains_key, first_above, goes_left,
    in_range, keep, last_below, left_of, lemma_above_at_root, lemma_above_from_left,
    lemma_above_from_right, lemma_above_nowhere, lemma_below_at_root, lemma_below_from_left,
    lemma_below_from_right, lemma_below_nowhere, lemma_goes_left_down, lemma_goes_left_up,
    lemma_left_not_above, lemma_parts_are_kept, lemma_right_not_below, lemma_sorted_join,
    lemma_sorted_parts, lemma_three_parts_are_kept, none_above, none_below, none_left, right_of,
    sorted, within, Bound,
};
use crate::treap::payload::{Direction, Payload, Pushable, Replaceable};
use rand::Rng;
use vstd::prelude::*;
use vstd::std_specs::convert::FromSpecImpl;

verus! {

/// A treap: empty, or a root with its two subtrees.
pub struct TreapNode<P> {
    inner: Option<TreapNodeInner<P>>,
}

/// The root of a treap that is not empty.
pub struct TreapNodeInner<P> {
    priority: u64,
    payload: P,
    left: Box<TreapNode<P>>,
    right: Box<TreapNode<P>>,
}

/// Draws a priority for a new node: a call of `rand::thread_rng` and of
/// `Rng::gen` on it. The value is random, so nothing is claimed of it.
#[verifier::external_body]
fn random_priority() -> u64 {
    rand::thread_rng().gen()
}

impl<P: Payload> TreapNodeInner<P> {
    fn new(payload: P, priority: u64) -> (node: Self)
        ensures
            node.payload == payload,
            node.priority == priority,
            !node.left.nonempty(),
            !node.right.nonempty(),
            node.left@ == Seq::<P::Entry>::empty(),
            node.right@ == Seq::<P::Entry>::empty(),
            node.left.wf(),
            node.right.wf(),
            node.left.spec_priority() == 0,
            node.right.spec_priority() == 0,
    {
        Self {
            priority,
            payload,
            left: Box::new(TreapNode::none()),
            right: Box::new(TreapNode::none()),
        }
    }

    /// Recomputes the payload's aggregate fields from the two children.
    fn update(&mut self)
        requires
            old(self).left.wf(),
            old(self).right.wf(),
            P::fits(1 + old(self).left@.len() + old(self).right@.len()),
        ensures
            final(self).left == old(self).left,
            final(self).right == old(self).right,
            final(self).priority == old(self).priority,
            final(self).payload.entry() == old(self).payload.entry(),
            final(self).payload.spans(1 + old(self).left@.len() + old(self).right@.len()),
    {
        let left_data = self.left.payload();
        let right_data = self.right.payload();
        proof {
            let nl = self.left@.len();
            let nr = self.right@.len();
            assert(match left_data {
                Some(l) => l.spans(nl),
                None => nl == 0,
            });
            assert(match right_data {
                Some(r) => r.spans(nr),
                None => nr == 0,
            });
            assert(P::fits(1 + nl + nr));
        }
        self.payload.update(left_data, right_data);
    }

    /// Hands the pending delta to both children and clears it.
    fn push_down(&mut self)
        ensures
            final(self).left@ == old(self).left@,
            final(self).right@ == old(self).right@,
            final(self).left.wf() == old(self).left.wf(),
            final(self).right.wf() == old(self).right.wf(),
            final(self).left.spec_priority() == old(self).left.spec_priority(),
            final(self).right.spec_priority() == old(self).right.spec_priority(),
            final(self).left.priorities() == old(self).left.priorities(),
            final(self).right.priorities() == old(self).right.priorities(),
            final(self).priority == old(self).priority,
            final(self).payload.entry() == old(self).payload.entry(),
            forall|n: nat| final(self).payload.spans(n) == old(self).payload.spans(n),
            !final(self).payload.pending(),
            !old(self).payload.pending() ==> final(self).left == old(self).left && final(self).right
                == old(self).right,
    {
        self.left.push(&self.payload, Direction::Left);
        self.right.push(&self.payload, Direction::Right);
        self.payload.reset_delta();
    }

    /// Hands the delta that waits on a parent's payload to this node's
    /// payload, which takes it as the child on the side `direction`.
    fn push(&mut self, parent_payload: &P, direction: Direction)
        ensures
            final(self).payload == old(self).payload.took(parent_payload, direction),
            final(self).left == old(self).left,
            final(self).right == old(self).right,
            final(self).priority == old(self).priority,
            final(self).payload.entry() == old(self).payload.entry(),
            forall|n: nat| final(self).payload.spans(n) == old(self).payload.spans(n),
            !parent_payload.pending() ==> *final(self) == *old(self),
    {
        self.payload.push_delta(parent_payload, direction);
    }

    fn push_delta<Delta>(&mut self, delta: Delta) where P: Pushable<Delta>
        ensures
            final(self).left == old(self).left,
            final(self).right == old(self).right,
            final(self).priority == old(self).priority,
            final(self).payload.entry() == P::pushed(old(self).payload.entry(), delta),
            forall|n: nat| final(self).payload.spans(n) == old(self).payload.spans(n),
    {
        self.payload.push(delta);
    }

    fn key(&self) -> (k: &P::Key)
        requires
            P::has_key(),
        ensures
            *k == self.payload.spec_key(),
    {
        self.payload.key()
    }

    fn into_payload(self) -> (payload: P)
        ensures
            payload == self.payload,
    {
        self.payload
    }
}

impl<P: Payload> View for TreapNode<P> {
    type V = Seq<P::Entry>;

    /// The entries of the treap from left to right.
    open spec fn view(&self) -> Seq<P::Entry> {
        self.entries()
    }
}

impl<P: Payload> TreapNode<P> {
    /// The entries of the treap from left to right.
    pub closed spec fn entries(&self) -> Seq<P::Entry>
        decreases self,
    {
        match self.inner {
            None => Seq::empty(),
            Some(node) => node.left.entries() + seq![node.payload.entry()] + node.right.entries(),
        }
    }

    /// Whether the treap has a root.
    pub closed spec fn nonempty(&self) -> bool {
        self.inner.is_some()
    }

    /// The payload at the root.
    pub closed spec fn spec_payload(&self) -> Option<P> {
        match self.inner {
            None => None,
            Some(node) => Some(node.payload),
        }
    }

    /// The priority of the root; 0 for the empty treap.
    pub closed spec fn spec_priority(&self) -> u64 {
        match self.inner {
            None => 0,
            Some(node) => node.priority,
        }
    }

    /// The priorities of the nodes, in the order of their entries.
    pub closed spec fn priorities(&self) -> Seq<u64>
        decreases self,
    {
        match self.inner {
            None => Seq::empty(),
            Some(node) => node.left.priorities() + seq![node.priority] + node.right.priorities(),
        }
    }

    /// The payload at the root, by reference.
    pub open spec fn payload_ref(&self) -> Option<&P> {
        match self.spec_payload() {
            Some(payload) => Some(&payload),
            None => None,
        }
    }

    /// The subtree to the left of the root.
    pub closed spec fn left_child(&self) -> Self {
        match self.inner {
            None => *self,
            Some(node) => *node.left,
        }
    }

    /// The subtree to the right of the root.
    pub closed spec fn right_child(&self) -> Self {
        match self.inner {
            None => *self,
            Some(node) => *node.right,
        }
    }

    /// The shape that every operation keeps: below every node both subtrees
    /// are well formed, no child outranks its parent, and the payload's
    /// aggregate fields account for exactly the entries of the subtree.
    pub closed spec fn wf(&self) -> bool
        decreases self,
    {
        match self.inner {
            None => true,
            Some(node) => {
                &&& node.left.wf()
                &&& node.right.wf()
                &&& node.priority >= node.left.spec_priority()
                &&& node.priority >= node.right.spec_priority()
                &&& node.payload.spans(self.entries().len())
                &&& P::fits(self.entries().len())
            },
        }
    }

    /// The empty treap.
    pub fn none() -> (node: Self)
        ensures
            !node.nonempty(),
            node@ == Seq::<P::Entry>::empty(),
            node.priorities() == Seq::<u64>::empty(),
            node.wf(),
            node.spec_priority() == 0,
    {
        Self { inner: None }
    }

    /// A treap of the one element of `payload`, under a random priority.
    pub fn new(payload: P) -> (node: Self)
        ensures
            node.nonempty(),
            node.spec_payload() == Some(payload),
            node@ == seq![payload.entry()],
            node.priorities().len() == 1,
            !node.left_child().nonempty(),
            !node.right_child().nonempty(),
            payload.spans(1) && P::fits(1) ==> node.wf(),
    {
        Self::with_priority(payload, random_priority())
    }

    /// A treap of the one element of `payload`, under the priority
    /// `priority`.
    pub fn with_priority(payload: P, priority: u64) -> (node: Self)
        ensures
            node.nonempty(),
            node.spec_payload() == Some(payload),
            node.spec_priority() == priority,
            node@ == seq![payload.entry()],
            node.priorities() == seq![priority],
            !node.left_child().nonempty(),
            !node.right_child().nonempty(),
            payload.spans(1) && P::fits(1) ==> node.wf(),
    {
        let node = Self { inner: Some(TreapNodeInner::new(payload, priority)) };
        proof {
            assert(node.entries() =~= seq![payload.entry()]);
            assert(node.left_child().priorities() =~= Seq::<u64>::empty());
            assert(node.right_child().priorities() =~= Seq::<u64>::empty());
            assert(node.priorities() =~= seq![priority]);
        }
        node
    }

    pub fn is_some(&self) -> (b: bool)
        ensures
            b == self.nonempty(),
    {
        self.inner.is_some()
    }

    pub fn is_none(&self) -> (b: bool)
        ensures
            b == !self.nonempty(),
    {
        self.inner.is_none()
    }

    /// The payload at the root, if there is a root.
    pub fn payload(&self) -> (payload: Option<&P>)
        ensures
            payload == self.payload_ref(),
            match payload {
                Some(p) => self.spec_payload() == Some(*p),
                None => self.spec_payload().is_none(),
            },
    {
        match &self.inner {
            Some(node) => Some(&node.payload),
            None => None,
        }
    }

    pub fn into_payload(self) -> (payload: Option<P>)
        ensures
            payload == self.spec_payload(),
    {
        match self.inner {
            Some(node) => Some(node.into_payload()),
            None => None,
        }
    }

    /// The priority of the root; 0 for the empty treap.
    pub fn priority(&self) -> (p: u64)
        ensures
            p == self.spec_priority(),
    {
        match &self.inner {
            Some(node) => node.priority,
            None => 0,
        }
    }

    /// The key of the root, if there is a root.
    pub fn key(&self) -> (k: Option<&P::Key>)
        requires
            P::has_key(),
        ensures
            match k {
                Some(k) => self.spec_payload().is_some() && *k == self.spec_payload().unwrap().spec_key(),
                None => !self.nonempty(),
            },
    {
        match &self.inner {
            Some(node) => Some(node.key()),
            None => None,
        }
    }

    /// Exchanges the data at the root for `data` and returns what was
    /// there.
    pub fn replace<Data>(&mut self, data: Data) -> (held: Data) where P: Replaceable<Data>
        requires
            old(self).nonempty(),
        ensures
            final(self).nonempty(),
            held == P::data_of(old(self).spec_payload().unwrap().entry()),
            final(self).spec_payload().unwrap().entry() == P::with_data(
                old(self).spec_payload().unwrap().entry(),
                data,
            ),
            final(self)@ == old(self)@.update(
                old(self).left_child()@.len() as int,
                P::with_data(old(self).spec_payload().unwrap().entry(), data),
            ),
            final(self)@.len() == old(self)@.len(),
            final(self).left_child() == old(self).left_child(),
            final(self).right_child() == old(self).right_child(),
            final(self).spec_priority() == old(self).spec_priority(),
            final(self).priorities() == old(self).priorities(),
            final(self).wf() == old(self).wf(),
            P::keyed() && sorted::<P>(old(self)@) ==> sorted::<P>(final(self)@),
    {
        match &mut self.inner {
            Some(node) => {
                let ghost at = node.left@.len() as int;
                let ghost was = node.payload.entry();
                let held = node.payload.replace(data);
                proof {
                    let before = old(self).entries();
                    let after = final(self).entries();
                    assert(after =~= before.update(at, P::with_data(was, data)));
                    P::lemma_with_data_keeps_key(was, data);
                    if P::keyed() && sorted::<P>(before) {
                        assert forall|i: int, j: int| 0 <= i < j < after.len() implies lt(
                            P::entry_key(#[trigger] after[i]),
                            P::entry_key(#[trigger] after[j]),
                        ) by {
                            assert(P::entry_key(after[i]) == P::entry_key(before[i]));
                            assert(P::entry_key(after[j]) == P::entry_key(before[j]));
                        }
                    }
                }
                held
            },
            None => vstd::pervasive::unreached(),
        }
    }

    /// Hands the delta that waits on a parent's payload to the root, whose
    /// payload takes it as the child on the side `direction`, on which the
    /// treap hangs below that parent. A parent on which no delta waits
    /// changes nothing, and so does an empty treap.
    pub fn push(&mut self, parent_payload: &P, direction: Direction)
        ensures
            final(self).spec_payload() == match old(self).spec_payload() {
                Some(payload) => Some(payload.took(parent_payload, direction)),
                None => None,
            },
            !parent_payload.pending() ==> *final(self) == *old(self),
            final(self)@ == old(self)@,
            final(self).priorities() == old(self).priorities(),
            final(self).wf() == old(self).wf(),
            final(self).nonempty() == old(self).nonempty(),
            final(self).spec_priority() == old(self).spec_priority(),
            final(self).left_child() == old(self).left_child(),
            final(self).right_child() == old(self).right_child(),
    {
        match &mut self.inner {
            Some(node) => {
                node.push(parent_payload, direction);
            },
            None => {},
        }
    }

    /// Applies a delta from outside to the payload at the root.
    pub fn push_delta<Delta>(&mut self, delta: Delta) where P: Pushable<Delta>
        ensures
            final(self).nonempty() == old(self).nonempty(),
            final(self).spec_priority() == old(self).spec_priority(),
            final(self).priorities() == old(self).priorities(),
            final(self).left_child() == old(self).left_child(),
            final(self).right_child() == old(self).right_child(),
            final(self).wf() == old(self).wf(),
            old(self).nonempty() ==> final(self)@ == old(self)@.update(
                old(self).left_child()@.len() as int,
                P::pushed(old(self).spec_payload().unwrap().entry(), delta),
            ),
            !old(self).nonempty() ==> final(self)@ == old(self)@,
    {
        match &mut self.inner {
            Some(node) => {
                node.push_delta(delta);
                assert(final(self).entries() =~= old(self).entries().update(
                    old(self).left_child().entries().len() as int,
                    P::pushed(old(self).spec_payload().unwrap().entry(), delta),
                ));
            },
            None => {},
        }
    }

    /// Splits the treap at `split_key` into the entries that belong to the
    /// left of it and those that do not; an entry with the key itself goes
    /// left where `to_left` is set. The parts keep the order of the
    /// entries.
    pub fn split(self, split_key: &P::Key, to_left: bool) -> (parts: (Self, Self))
        requires
            P::keyed(),
            total_order::<P::Key>(),
            self.wf(),
        ensures
            parts.0.wf(),
            parts.1.wf(),
            parts.0@ + parts.1@ == self@,
            parts.0.priorities() + parts.1.priorities() == self.priorities(),
            parts.0.spec_priority() <= self.spec_priority(),
            parts.1.spec_priority() <= self.spec_priority(),
            sorted::<P>(self@) ==> all_left::<P>(parts.0@, *split_key, to_left) && none_left::<P>(
                parts.1@,
                *split_key,
                to_left,
            ),
            sorted::<P>(self@) ==> parts.0@ == keep(self@, left_of::<P>(*split_key, to_left)),
            sorted::<P>(self@) ==> parts.1@ == keep(self@, right_of::<P>(*split_key, to_left)),
        decreases self@.len(),
    {
        let ghost whole = self@;
        let ghost ranks = self.priorities();
        match self.inner {
            Some(mut node) => {
                node.push_down();
                let ghost below = node.left@;
                let ghost above = node.right@;
                let ghost root = node.payload.entry();
                proof {
                    node.payload.lemma_keyed();
                    assert(whole == below + seq![root] + above);
                    P::lemma_fits_fewer(whole.len(), whole.len());
                }
                let root_left = key_lt(node.key(), split_key) || (to_left && key_eq(
                    node.key(),
                    split_key,
                ));
                if root_left {
                    let (left, right) = node.right.split(split_key, to_left);
                    proof {
                        assert(left@.len() + right@.len() == above.len()) by {
                            assert((left@ + right@).len() == above.len());
                        }
                        P::lemma_fits_fewer(whole.len(), 1 + below.len() + left@.len());
                        P::lemma_fits_fewer(whole.len(), right@.len());
                    }
                    node.right = Box::new(left);
                    node.update();
                    let kept = Self { inner: Some(node) };
                    proof {
                        assert(kept.entries() =~= below + seq![root] + left@);
                        assert(kept@ + right@ =~= whole);
                        assert(kept.priorities() + right.priorities() =~= ranks);
                        if sorted::<P>(whole) {
                            lemma_sorted_parts::<P>(below + seq![root], above);
                            lemma_sorted_parts::<P>(below, seq![root]);
                            assert forall|i: int| 0 <= i < kept@.len() implies goes_left(
                                P::entry_key(#[trigger] kept@[i]),
                                *split_key,
                                to_left,
                            ) by {
                                if i < below.len() {
                                    assert(kept@[i] == below[i]);
                                    assert(seq![root][0] == root);
                                    lemma_goes_left_down(
                                        P::entry_key(below[i]),
                                        P::entry_key(root),
                                        *split_key,
                                        to_left,
                                    );
                                } else if i == below.len() {
                                    assert(kept@[i] == root);
                                } else {
                                    assert(kept@[i] == left@[i - below.len() - 1]);
                                }
                            }
                            lemma_parts_are_kept(
                                whole,
                                kept@,
                                right@,
                                left_of::<P>(*split_key, to_left),
                                right_of::<P>(*split_key, to_left),
                            );
                        }
                    }
                    (kept, right)
                } else {
                    let (left, right) = node.left.split(split_key, to_left);
                    proof {
                        assert(left@.len() + right@.len() == below.len()) by {
                            assert((left@ + right@).len() == below.len());
                        }
                        P::lemma_fits_fewer(whole.len(), 1 + right@.len() + above.len());
                        P::lemma_fits_fewer(whole.len(), left@.len());
                    }
                    node.left = Box::new(right);
                    node.update();
                    let kept = Self { inner: Some(node) };
                    proof {
                        assert(kept.entries() =~= right@ + seq![root] + above);
                        assert(left@ + kept@ =~= whole);
                        assert(left.priorities() + kept.priorities() =~= ranks);
                        if sorted::<P>(whole) {
                            lemma_sorted_parts::<P>(below + seq![root], above);
                            lemma_sorted_parts::<P>(below, seq![root]);
                            assert forall|i: int| 0 <= i < kept@.len() implies !goes_left(
                                P::entry_key(#[trigger] kept@[i]),
                                *split_key,
                                to_left,
                            ) by {
                                if i < right@.len() {
                                    assert(kept@[i] == right@[i]);
                                } else if i == right@.len() {
                                    assert(kept@[i] == root);
                                } else {
                                    assert(kept@[i] == above[i - right@.len() - 1]);
                                    assert((below + seq![root])[below.len() as int] == root);
                                    lemma_goes_left_up(
                                        P::entry_key(root),
                                        P::entry_key(above[i - right@.len() - 1]),
                                        *split_key,
                                        to_left,
                                    );
                                }
                            }
                            lemma_parts_are_kept(
                                whole,
                                left@,
                                kept@,
                                left_of::<P>(*split_key, to_left),
                                right_of::<P>(*split_key, to_left),
                            );
                        }
                    }
                    (left, kept)
                }
            },
            None => {
                let left = Self::none();
                let right = Self::none();
                proof {
                    assert(left@ + right@ =~= whole);
                    assert(left.priorities() + right.priorities() =~= ranks);
                    lemma_parts_are_kept(
                        whole,
                        left@,
                        right@,
                        left_of::<P>(*split_key, to_left),
                        right_of::<P>(*split_key, to_left),
                    );
                }
                (left, right)
            },
        }
    }

    /// The entry at the root.
    pub open spec fn root_entry(&self) -> P::Entry {
        self.spec_payload().unwrap().entry()
    }

    /// A treap with a root holds the root's entry between the entries of
    /// its two subtrees; one without holds nothing.
    pub proof fn lemma_entries(&self)
        ensures
            self.nonempty() ==> self@ == self.left_child()@ + seq![self.root_entry()]
                + self.right_child()@,
            !self.nonempty() ==> self@ == Seq::<P::Entry>::empty(),
            self.nonempty() == self.spec_payload().is_some(),
            !self.nonempty() ==> self.spec_priority() == 0,
            self.nonempty() ==> self.priorities() == self.left_child().priorities()
                + seq![self.spec_priority()] + self.right_child().priorities(),
            !self.nonempty() ==> self.priorities() == Seq::<u64>::empty(),
    {
    }

    /// Every node has one entry and one priority.
    pub proof fn lemma_priorities(&self)
        ensures
            self.priorities().len() == self@.len(),
        decreases self,
    {
        match self.inner {
            None => {},
            Some(node) => {
                node.left.lemma_priorities();
                node.right.lemma_priorities();
            },
        }
    }

    /// In a well-formed treap both subtrees are well formed, no child has a
    /// higher priority than the root, and the root's payload accounts for
    /// as many elements as the treap holds.
    pub proof fn lemma_wf(&self)
        requires
            self.wf(),
            self.nonempty(),
        ensures
            self.left_child().wf(),
            self.right_child().wf(),
            self.spec_priority() >= self.left_child().spec_priority(),
            self.spec_priority() >= self.right_child().spec_priority(),
            self.spec_payload().unwrap().spans(
                1 + self.left_child()@.len() + self.right_child()@.len(),
            ),
            P::fits(self@.len()),
    {
    }

    /// Splits the treap in three: the entries before the range from `start`
    /// to `end`, those in it, and those behind it.
    pub fn split_range(self, start: Bound<&P::Key>, end: Bound<&P::Key>) -> (parts: (
        Self,
        Self,
        Self,
    ))
        requires
            P::keyed(),
            total_order::<P::Key>(),
            self.wf(),
        ensures
            parts.0.wf(),
            parts.1.wf(),
            parts.2.wf(),
            parts.0@ + parts.1@ + parts.2@ == self@,
            parts.0.priorities() + parts.1.priorities() + parts.2.priorities() == self.priorities(),
            sorted::<P>(self@) ==> {
                &&& forall|i: int|
                    0 <= i < parts.0@.len() ==> below_start(
                        P::entry_key(#[trigger] parts.0@[i]),
                        start,
                    )
                &&& forall|i: int|
                    0 <= i < parts.1@.len() ==> in_range(
                        P::entry_key(#[trigger] parts.1@[i]),
                        start,
                        end,
                    )
                &&& forall|i: int|
                    0 <= i < parts.2@.len() ==> !below_start(
                        P::entry_key(#[trigger] parts.2@[i]),
                        start,
                    ) && above_end(P::entry_key(parts.2@[i]), end)
            },
            sorted::<P>(self@) ==> {
                &&& parts.0@ == keep(self@, before::<P>(start))
                &&& parts.1@ == keep(self@, within::<P>(start, end))
                &&& parts.2@ == keep(self@, behind::<P>(start, end))
            },
    {
        let ghost whole = self@;
        let ghost ranks = self.priorities();
        let (left, right) = match start {
            Bound::Included(left_bound) => self.split(left_bound, false),
            Bound::Excluded(left_bound) => self.split(left_bound, true),
            Bound::Unbounded => (Self::none(), self),
        };
        let ghost rest = right@;
        let ghost rest_ranks = right.priorities();
        proof {
            assert(left@ + rest =~= whole);
            assert(left.priorities() + rest_ranks =~= ranks);
            if sorted::<P>(whole) {
                lemma_sorted_parts::<P>(left@, rest);
            }
        }
        let (middle, right) = match end {
            Bound::Included(right_bound) => right.split(right_bound, true),
            Bound::Excluded(right_bound) => right.split(right_bound, false),
            Bound::Unbounded => (right, Self::none()),
        };
        proof {
            assert(middle@ + right@ =~= rest);
            assert(left@ + middle@ + right@ =~= whole);
            assert(middle.priorities() + right.priorities() =~= rest_ranks);
            assert(left.priorities() + middle.priorities() + right.priorities() =~= ranks);
            if sorted::<P>(whole) {
                assert forall|i: int| 0 <= i < middle@.len() implies in_range(
                    P::entry_key(#[trigger] middle@[i]),
                    start,
                    end,
                ) by {
                    assert(rest[i] == middle@[i]);
                }
                assert forall|i: int| 0 <= i < right@.len() implies !below_start(
                    P::entry_key(#[trigger] right@[i]),
                    start,
                ) && above_end(P::entry_key(right@[i]), end) by {
                    assert(rest[middle@.len() + i] == right@[i]);
                }
                lemma_three_parts_are_kept(
                    whole,
                    left@,
                    middle@,
                    right@,
                    before::<P>(start),
                    within::<P>(start, end),
                    behind::<P>(start, end),
                );
            }
        }
        (left, middle, right)
    }

    /// The node that holds the first entry.
    pub fn leftmost(&self) -> (found: Option<&Self>)
        ensures
            match found {
                Some(n) => self.nonempty() && n.nonempty() && n.root_entry() == self@[0],
                None => !self.nonempty(),
            },
            self.nonempty() ==> self@.len() > 0,
        decreases self,
    {
        match &self.inner {
            None => None,
            Some(node) => {
                proof {
                    node.left.lemma_entries();
                }
                match node.left.leftmost() {
                    Some(n) => {
                        assert(self@[0] == node.left@[0]);
                        Some(n)
                    },
                    None => Some(self),
                }
            },
        }
    }

    /// The node that holds the last entry.
    pub fn rightmost(&self) -> (found: Option<&Self>)
        ensures
            match found {
                Some(n) => self.nonempty() && n.nonempty() && n.root_entry() == self@.last(),
                None => !self.nonempty(),
            },
            self.nonempty() ==> self@.len() > 0,
        decreases self,
    {
        match &self.inner {
            None => None,
            Some(node) => {
                proof {
                    node.right.lemma_entries();
                }
                match node.right.rightmost() {
                    Some(n) => {
                        assert(self@.last() == node.right@.last());
                        Some(n)
                    },
                    None => Some(self),
                }
            },
        }
    }

    /// The node with the largest key before `key`.
    pub fn lower(&self, key: &P::Key) -> (found: Option<&Self>)
        requires
            P::keyed(),
            total_order::<P::Key>(),
            sorted::<P>(self@),
        ensures
            match found {
                Some(n) => n.nonempty() && exists|i: int|
                    #[trigger] last_below::<P>(self@, i, *key, true) && self@[i] == n.root_entry(),
                None => none_below::<P>(self@, *key, true),
            },
        decreases self,
    {
        match &self.inner {
            None => None,
            Some(node) => {
                let ghost below = node.left@;
                let ghost above = node.right@;
                let ghost root = node.payload.entry();
                proof {
                    node.payload.lemma_keyed();
                    lemma_sorted_parts::<P>(below + seq![root], above);
                    lemma_sorted_parts::<P>(below, seq![root]);
                    assert(below + seq![root] + above =~= below + (seq![root] + above));
                    lemma_sorted_parts::<P>(below, seq![root] + above);
                }
                if key_lt(node.key(), key) {
                    match node.right.lower(key) {
                        Some(n) => {
                            proof {
                                let i = choose|i: int|
                                    #[trigger] last_below::<P>(above, i, *key, true) && above[i]
                                        == n.root_entry();
                                lemma_below_from_right::<P>(below, root, above, i, *key, true);
                            }
                            Some(n)
                        },
                        None => {
                            proof {
                                lemma_below_at_root::<P>(below, root, above, *key, true);
                            }
                            Some(self)
                        },
                    }
                } else {
                    proof {
                        lemma_right_not_below::<P>(root, above, *key, true);
                    }
                    match node.left.lower(key) {
                        Some(n) => {
                            proof {
                                let i = choose|i: int|
                                    #[trigger] last_below::<P>(below, i, *key, true) && below[i]
                                        == n.root_entry();
                                lemma_below_from_left::<P>(below, root, above, i, *key, true);
                            }
                            Some(n)
                        },
                        None => {
                            proof {
                                lemma_below_nowhere::<P>(below, root, above, *key, true);
                            }
                            None
                        },
                    }
                }
            },
        }
    }

    /// The node with the largest key that is `key` or before it.
    pub fn floor(&self, key: &P::Key) -> (found: Option<&Self>)
        requires
            P::keyed(),
            total_order::<P::Key>(),
            sorted::<P>(self@),
        ensures
            match found {
                Some(n) => n.nonempty() && exists|i: int|
                    #[trigger] last_below::<P>(self@, i, *key, false) && self@[i] == n.root_entry(),
                None => none_below::<P>(self@, *key, false),
            },
        decreases self,
    {
        match &self.inner {
            None => None,
            Some(node) => {
                let ghost below = node.left@;
                let ghost above = node.right@;
                let ghost root = node.payload.entry();
                proof {
                    node.payload.lemma_keyed();
                    lemma_sorted_parts::<P>(below + seq![root], above);
                    lemma_sorted_parts::<P>(below, seq![root]);
                    assert(below + seq![root] + above =~= below + (seq![root] + above));
                    lemma_sorted_parts::<P>(below, seq![root] + above);
                }
                if key_le(node.key(), key) {
                    match node.right.floor(key) {
                        Some(n) => {
                            proof {
                                let i = choose|i: int|
                                    #[trigger] last_below::<P>(above, i, *key, false) && above[i]
                                        == n.root_entry();
                                lemma_below_from_right::<P>(below, root, above, i, *key, false);
                            }
                            Some(n)
                        },
                        None => {
                            proof {
                                lemma_below_at_root::<P>(below, root, above, *key, false);
                            }
                            Some(self)
                        },
                    }
                } else {
                    proof {
                        lemma_right_not_below::<P>(root, above, *key, false);
                    }
                    match node.left.floor(key) {
                        Some(n) => {
                            proof {
                                let i = choose|i: int|
                                    #[trigger] last_below::<P>(below, i, *key, false) && below[i]
                                        == n.root_entry();
                                lemma_below_from_left::<P>(below, root, above, i, *key, false);
                            }
                            Some(n)
                        },
                        None => {
                            proof {
                                lemma_below_nowhere::<P>(below, root, above, *key, false);
                            }
                            None
                        },
                    }
                }
            },
        }
    }

    /// The node with the smallest key behind `key`.
    pub fn higher(&self, key: &P::Key) -> (found: Option<&Self>)
        requires
            P::keyed(),
            total_order::<P::Key>(),
            sorted::<P>(self@),
        ensures
            match found {
                Some(n) => n.nonempty() && exists|i: int|
                    #[trigger] first_above::<P>(self@, i, *key, true) && self@[i] == n.root_entry(),
                None => none_above::<P>(self@, *key, true),
            },
        decreases self,
    {
        match &self.inner {
            None => None,
            Some(node) => {
                let ghost below = node.left@;
                let ghost above = node.right@;
                let ghost root = node.payload.entry();
                proof {
                    node.payload.lemma_keyed();
                    lemma_sorted_parts::<P>(below + seq![root], above);
                    lemma_sorted_parts::<P>(below, seq![root]);
                }
                if key_lt(key, node.key()) {
                    match node.left.higher(key) {
                        Some(n) => {
                            proof {
                                let i = choose|i: int|
                                    #[trigger] first_above::<P>(below, i, *key, true) && below[i]
                                        == n.root_entry();
                                lemma_above_from_left::<P>(below, root, above, i, *key, true);
                            }
                            Some(n)
                        },
                        None => {
                            proof {
                                lemma_above_at_root::<P>(below, root, above, *key, true);
                            }
                            Some(self)
                        },
                    }
                } else {
                    proof {
                        lemma_left_not_above::<P>(below, root, *key, true);
                    }
                    match node.right.higher(key) {
                        Some(n) => {
                            proof {
                                let i = choose|i: int|
                                    #[trigger] first_above::<P>(above, i, *key, true) && above[i]
                                        == n.root_entry();
                                lemma_above_from_right::<P>(below, root, above, i, *key, true);
                            }
                            Some(n)
                        },
                        None => {
                            proof {
                                lemma_above_nowhere::<P>(below, root, above, *key, true);
                            }
                            None
                        },
                    }
                }
            },
        }
    }

    /// The node with the smallest key that is `key` or behind it.
    pub fn ceil(&self, key: &P::Key) -> (found: Option<&Self>)
        requires
            P::keyed(),
            total_order::<P::Key>(),
            sorted::<P>(self@),
        ensures
            match found {
                Some(n) => n.nonempty() && exists|i: int|
                    #[trigger] first_above::<P>(self@, i, *key, false) && self@[i] == n.root_entry(),
                None => none_above::<P>(self@, *key, false),
            },
        decreases self,
    {
        match &self.inner {
            None => None,
            Some(node) => {
                let ghost below = node.left@;
                let ghost above = node.right@;
                let ghost root = node.payload.entry();
                proof {
                    node.payload.lemma_keyed();
                    lemma_sorted_parts::<P>(below + seq![root], above);
                    lemma_sorted_parts::<P>(below, seq![root]);
                }
                if key_le(key, node.key()) {
                    match node.left.ceil(key) {
                        Some(n) => {
                            proof {
                                let i = choose|i: int|
                                    #[trigger] first_above::<P>(below, i, *key, false) && below[i]
                                        == n.root_entry();
                                lemma_above_from_left::<P>(below, root, above, i, *key, false);
                            }
                            Some(n)
                        },
                        None => {
                            proof {
                                lemma_above_at_root::<P>(below, root, above, *key, false);
                            }
                            Some(self)
                        },
                    }
                } else {
                    proof {
                        lemma_left_not_above::<P>(below, root, *key, false);
                    }
                    match node.right.ceil(key) {
                        Some(n) => {
                            proof {
                                let i = choose|i: int|
                                    #[trigger] first_above::<P>(above, i, *key, false) && above[i]
                                        == n.root_entry();
                                lemma_above_from_right::<P>(below, root, above, i, *key, false);
                            }
                            Some(n)
                        },
                        None => {
                            proof {
                                lemma_above_nowhere::<P>(below, root, above, *key, false);
                            }
                            None
                        },
                    }
                }
            },
        }
    }

    /// Joins two treaps into one that holds the entries of `left` followed
    /// by those of `right`. Nothing is asked of the keys: where the
    /// entries of both are in key order and those of `left` come first, so
    /// are the entries of the result.
    pub fn merge_unsafe(left: Self, right: Self) -> (merged: Self)
        requires
            left.wf(),
            right.wf(),
            left.nonempty() && right.nonempty() ==> P::fits(left@.len() + right@.len()),
        ensures
            merged.wf(),
            merged@ == left@ + right@,
            merged.priorities() == left.priorities() + right.priorities(),
            merged.spec_priority() == if left.spec_priority() > right.spec_priority() {
                left.spec_priority()
            } else {
                right.spec_priority()
            },
        decreases left@.len() + right@.len(),
    {
        let ghost total = left@.len() + right@.len();
        let ghost left_seq = left@;
        let ghost right_seq = right@;
        let ghost left_ranks = left.priorities();
        let ghost right_ranks = right.priorities();
        match left.inner {
            None => {
                assert(left_seq + right_seq =~= right_seq);
                assert(left_ranks + right_ranks =~= right_ranks);
                right
            },
            Some(mut l) => match right.inner {
                None => {
                    let kept = TreapNode { inner: Some(l) };
                    assert(left_seq + right_seq =~= left_seq);
                    assert(left_ranks + right_ranks =~= left_ranks);
                    kept
                },
                Some(mut r) => {
                    if l.priority > r.priority {
                        l.push_down();
                        let ghost below = l.left@;
                        let ghost above = l.right@;
                        let ghost root = l.payload.entry();
                        proof {
                            assert(left_seq == below + seq![root] + above);
                            P::lemma_fits_fewer(total, above.len() + right_seq.len());
                        }
                        let joined = Self::merge_unsafe(*l.right, Self { inner: Some(r) });
                        l.right = Box::new(joined);
                        l.update();
                        let kept = TreapNode { inner: Some(l) };
                        assert(kept.entries() =~= left_seq + right_seq);
                        assert(kept.priorities() =~= left_ranks + right_ranks);
                        kept
                    } else {
                        r.push_down();
                        let ghost below = r.left@;
                        let ghost above = r.right@;
                        let ghost root = r.payload.entry();
                        proof {
                            assert(right_seq == below + seq![root] + above);
                            P::lemma_fits_fewer(total, left_seq.len() + below.len());
                        }
                        let joined = Self::merge_unsafe(Self { inner: Some(l) }, *r.left);
                        r.left = Box::new(joined);
                        r.update();
                        let kept = TreapNode { inner: Some(r) };
                        assert(kept.entries() =~= left_seq + right_seq);
                        assert(kept.priorities() =~= left_ranks + right_ranks);
                        kept
                    }
                },
            },
        }
    }

    /// Whether every key of `left` comes before every key of `right`, as
    /// `merge` asks: whether one of them is empty or the last key of
    /// `left` comes before the first of `right`.
    pub fn mergeable(left: &Self, right: &Self) -> (ok: bool)
        requires
            P::keyed(),
            total_order::<P::Key>(),
        ensures
            ok == (left@.len() == 0 || right@.len() == 0 || lt(
                P::entry_key(left@.last()),
                P::entry_key(right@[0]),
            )),
    {
        proof {
            left.lemma_entries();
            right.lemma_entries();
        }
        match left.rightmost() {
            None => true,
            Some(last) => match right.leftmost() {
                None => true,
                Some(first) => match (last.payload(), first.payload()) {
                    (Some(a), Some(b)) => {
                        proof {
                            a.lemma_keyed();
                            b.lemma_keyed();
                        }
                        key_lt(a.key(), b.key())
                    },
                    _ => true,
                },
            },
        }
    }

    /// Joins two treaps in key order, the keys of `left` all before those
    /// of `right`, into one in key order.
    pub fn merge(left: Self, right: Self) -> (merged: Self)
        requires
            P::keyed(),
            total_order::<P::Key>(),
            left.wf(),
            right.wf(),
            left.nonempty() && right.nonempty() ==> P::fits(left@.len() + right@.len()),
            left@.len() == 0 || right@.len() == 0 || lt(
                P::entry_key(left@.last()),
                P::entry_key(right@[0]),
            ),
        ensures
            merged.wf(),
            merged@ == left@ + right@,
            merged.priorities() == left.priorities() + right.priorities(),
            sorted::<P>(left@) && sorted::<P>(right@) ==> sorted::<P>(merged@),
    {
        proof {
            if sorted::<P>(left@) && sorted::<P>(right@) {
                let a = left@;
                let b = right@;
                assert forall|i: int, j: int| 0 <= i < a.len() && 0 <= j < b.len() implies lt(
                    P::entry_key(#[trigger] a[i]),
                    P::entry_key(#[trigger] b[j]),
                ) by {
                    if i < a.len() - 1 {
                        crate::order::lemma_lt_transitive(
                            P::entry_key(a[i]),
                            P::entry_key(a.last()),
                            P::entry_key(b[0]),
                        );
                    }
                    if j > 0 {
                        crate::order::lemma_lt_transitive(
                            P::entry_key(a[i]),
                            P::entry_key(b[0]),
                            P::entry_key(b[j]),
                        );
                    }
                }
                lemma_sorted_join::<P>(a, b);
            }
        }
        Self::merge_unsafe(left, right)
    }

    /// The node whose root has the key `key`, or an empty treap where no
    /// entry has it.
    pub fn find(&self, key: &P::Key) -> (found: &Self)
        requires
            P::keyed(),
            total_order::<P::Key>(),
            sorted::<P>(self@),
        ensures
            found.nonempty() == contains_key::<P>(self@, *key),
            found.nonempty() ==> P::entry_key(found.root_entry()) == *key && self@.contains(
                found.root_entry(),
            ),
        decreases self,
    {
        match &self.inner {
            None => self,
            Some(node) => {
                let ghost below = node.left@;
                let ghost above = node.right@;
                let ghost root = node.payload.entry();
                let ghost whole = self@;
                proof {
                    node.payload.lemma_keyed();
                    lemma_sorted_parts::<P>(below + seq![root], above);
                    lemma_sorted_parts::<P>(below, seq![root]);
                    assert(whole[below.len() as int] == root);
                    assert((below + seq![root])[below.len() as int] == root);
                    assert(seq![root][0] == root);
                }
                if key_lt(node.key(), key) {
                    let found = node.right.find(key);
                    proof {
                        if found.nonempty() {
                            let i = choose|i: int| 0 <= i < above.len() && above[i] == found.root_entry();
                            assert(whole[below.len() + 1 + i] == above[i]);
                        }
                        if contains_key::<P>(whole, *key) {
                            let i = choose|i: int|
                                0 <= i < whole.len() && P::entry_key(#[trigger] whole[i]) == *key;
                            if i < below.len() {
                                assert(whole[i] == below[i]);
                                lemma_lt_asymmetric(P::entry_key(below[i]), P::entry_key(root));
                            } else if i == below.len() {
                                lemma_lt_irreflexive(*key);
                            } else {
                                assert(whole[i] == above[i - below.len() - 1]);
                            }
                        }
                    }
                    found
                } else if key_eq(node.key(), key) {
                    self
                } else {
                    let found = node.left.find(key);
                    proof {
                        crate::order::lemma_lt_total(P::entry_key(root), *key);
                        if found.nonempty() {
                            let i = choose|i: int| 0 <= i < below.len() && below[i] == found.root_entry();
                            assert(whole[i] == below[i]);
                        }
                        if contains_key::<P>(whole, *key) {
                            let i = choose|i: int|
                                0 <= i < whole.len() && P::entry_key(#[trigger] whole[i]) == *key;
                            if i < below.len() {
                                assert(whole[i] == below[i]);
                            } else if i == below.len() {
                            } else {
                                assert(whole[i] == above[i - below.len() - 1]);
                                assert((below + seq![root])[below.len() as int] == root);
                                lemma_lt_asymmetric(P::entry_key(root), *key);
                            }
                        }
                    }
                    found
                }
            },
        }
    }

    /// Whether `f` may be asked at every node of the treap, with the node's
    /// key, its payload and the payloads of its two children.
    pub closed spec fn askable<'s, F>(&'s self, f: F) -> bool where
        F: FnMut(&'s P::Key, &'s P, Option<&'s P>, Option<&'s P>) -> Option<Direction>,

        decreases self,
    {
        match &self.inner {
            None => true,
            Some(node) => {
                &&& forall|k: &'s P::Key|
                    *k == node.payload.spec_key() ==> #[trigger] f.requires(
                        (k, &node.payload, node.left.payload_ref(), node.right.payload_ref()),
                    )
                &&& node.left.askable(f)
                &&& node.right.askable(f)
            },
        }
    }

    /// Whether a walk by the answers of `f` can have gone down the treap:
    /// at the root `f` gave an answer when it was asked with the root's
    /// key, its payload and the payloads of its two children, and where
    /// the answer named a side, such a walk went on in the subtree of that
    /// side. The walk of an empty treap asks nothing.
    pub closed spec fn walked<'s, F>(&'s self, f: F) -> bool where
        F: FnMut(&'s P::Key, &'s P, Option<&'s P>, Option<&'s P>) -> Option<Direction>,

        decreases self,
    {
        match &self.inner {
            None => true,
            Some(node) => exists|k: &'s P::Key, d: Option<Direction>|
                {
                    &&& *k == node.payload.spec_key()
                    &&& #[trigger] f.ensures(
                        (k, &node.payload, node.left.payload_ref(), node.right.payload_ref()),
                        d,
                    )
                    &&& match d {
                        Some(Direction::Left) => node.left.walked(f),
                        Some(Direction::Right) => node.right.walked(f),
                        None => true,
                    }
                },
        }
    }

    /// What `askable` says of a treap with a root, and that a function
    /// which may be asked anything may be asked at every node.
    pub proof fn lemma_askable<'s, F>(&'s self, f: F) where
        F: FnMut(&'s P::Key, &'s P, Option<&'s P>, Option<&'s P>) -> Option<Direction>,

        ensures
            !self.nonempty() ==> self.askable(f),
            self.nonempty() ==> (self.askable(f) <==> {
                &&& forall|k: &'s P::Key|
                    *k == self.spec_payload().unwrap().spec_key() ==> #[trigger] f.requires(
                        (
                            k,
                            &self.spec_payload().unwrap(),
                            self.left_child().payload_ref(),
                            self.right_child().payload_ref(),
                        ),
                    )
                &&& self.left_child().askable(f)
                &&& self.right_child().askable(f)
            }),
            (forall|k: &'s P::Key, p: &'s P, l: Option<&'s P>, r: Option<&'s P>|
                f.requires((k, p, l, r))) ==> self.askable(f),
        decreases self,
    {
        match &self.inner {
            None => {},
            Some(node) => {
                node.left.lemma_askable(f);
                node.right.lemma_askable(f);
            },
        }
    }

    /// What `walked` says of a treap with a root: `f` gave an answer at
    /// the root, and the walk went on at the side that the answer named.
    pub proof fn lemma_walked<'s, F>(&'s self, f: F) where
        F: FnMut(&'s P::Key, &'s P, Option<&'s P>, Option<&'s P>) -> Option<Direction>,

        ensures
            !self.nonempty() ==> self.walked(f),
            self.nonempty() ==> (self.walked(f) <==> exists|k: &'s P::Key, d: Option<Direction>|
                {
                    &&& *k == self.spec_payload().unwrap().spec_key()
                    &&& #[trigger] f.ensures(
                        (
                            k,
                            &self.spec_payload().unwrap(),
                            self.left_child().payload_ref(),
                            self.right_child().payload_ref(),
                        ),
                        d,
                    )
                    &&& match d {
                        Some(Direction::Left) => self.left_child().walked(f),
                        Some(Direction::Right) => self.right_child().walked(f),
                        None => true,
                    }
                }),
    {
    }

    /// Walks down from the root, asking `f` at every node, with the node's
    /// key, its payload and the payloads of its two children, on which
    /// side to go on, until `f` says to stop or the walk leaves the tree.
    /// The treap is not changed.
    pub fn binary_search<'s, F>(&'s self, f: F) where
        F: FnMut(&'s P::Key, &'s P, Option<&'s P>, Option<&'s P>) -> Option<Direction>,

        requires
            P::has_key(),
            self.askable(f),
        ensures
            self.walked(f),
        decreases self,
    {
        let mut f = f;
        match &self.inner {
            Some(node) => {
                let key = node.key();
                let left = node.left.payload();
                let right = node.right.payload();
                let direction = f(key, &node.payload, left, right);
                match direction {
                    Some(Direction::Left) => {
                        node.left.binary_search(f);
                    },
                    Some(Direction::Right) => {
                        node.right.binary_search(f);
                    },
                    None => {},
                }
                proof {
                    assert(f.ensures(
                        (key, &node.payload, node.left.payload_ref(), node.right.payload_ref()),
                        direction,
                    ));
                }
            },
            None => {},
        }
    }

    /// A cursor over the entries whose keys lie in the range from `start`
    /// to `end`.
    pub fn range<'s>(&'s self, start: Bound<&P::Key>, end: Bound<&P::Key>) -> (it: Iter<'s, P>)
        requires
            P::keyed(),
            total_order::<P::Key>(),
            sorted::<P>(self@),
        ensures
            it.wf(),
            it.tree() == self@,
            it.remaining() == keep(self@, within::<P>(start, end)),
    {
        Iter::new(self, start, end)
    }
}

impl<P: Payload> Default for TreapNode<P> {
    fn default() -> (node: Self)
        ensures
            !node.nonempty(),
            node.wf(),
            node@ == Seq::<P::Entry>::empty(),
    {
        Self::none()
    }
}

impl<P: Payload> From<TreapNode<P>> for Option<P> {
    fn from(data: TreapNode<P>) -> (payload: Self) {
        data.into_payload()
    }
}

impl<P: Payload> FromSpecImpl<TreapNode<P>> for Option<P> {
    open spec fn obeys_from_spec() -> bool {
        true
    }

    open spec fn from_spec(data: TreapNode<P>) -> Self {
        data.spec_payload()
    }
}

} // verus!
