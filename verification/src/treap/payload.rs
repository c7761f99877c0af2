//! What a treap node carries: the payload contract and the payload layers
//! that stack on one another.

use vstd::prelude::*;
use vstd::std_specs::convert::{FromSpecImpl, IntoSpec};

verus! {

/// The side of a parent on which a child hangs.
#[derive(Copy, Clone, PartialEq, Eq, Debug)]
pub enum Direction {
    Left,
    Right,
}

/// The data a treap node carries and keeps up to date as the tree changes
/// shape.
///
/// A payload holds an *entry*, the element it stands for, which no upkeep
/// call changes, and aggregate fields which `update` recomputes from the
/// children. A pending delta is handed down with `push_delta` and cleared
/// with `reset_delta`.
pub trait Payload: Sized {
    type Key: Ord;

    /// The element that the payload stands for.
    type Entry;

    /// The element held; upkeep calls leave it alone.
    spec fn entry(&self) -> Self::Entry;

    /// Whether `key` may be called on payloads of this type.
    spec fn has_key() -> bool;

    /// What `key` returns.
    spec fn spec_key(&self) -> Self::Key;

    /// Whether the key is a part of the entry, so that a tree can be
    /// ordered by it.
    spec fn keyed() -> bool;

    /// The key of an entry, for keyed payloads.
    spec fn entry_key(e: Self::Entry) -> Self::Key;

    /// Whether the aggregate fields are those of a subtree of `n` elements.
    spec fn spans(&self, n: nat) -> bool;

    /// Whether the aggregate fields can account for `n` elements.
    spec fn fits(n: nat) -> bool;

    /// Whether a delta waits to be pushed to the children.
    spec fn pending(&self) -> bool;

    /// A keyed payload has a key, and it is the key of its entry.
    proof fn lemma_keyed(&self)
        ensures
            Self::keyed() ==> Self::has_key() && self.spec_key() == Self::entry_key(self.entry()),
    ;

    /// What can account for `n` elements can account for fewer.
    proof fn lemma_fits_fewer(n: nat, m: nat)
        requires
            Self::fits(n),
            m <= n,
        ensures
            Self::fits(m),
    ;

    fn key(&self) -> (k: &Self::Key)
        requires
            Self::has_key(),
        ensures
            *k == self.spec_key(),
    ;

    /// Clears the pending delta.
    fn reset_delta(&mut self)
        ensures
            final(self).entry() == old(self).entry(),
            forall|n: nat| final(self).spans(n) == old(self).spans(n),
            !final(self).pending(),
    ;

    /// Recomputes the aggregate fields from the children's.
    fn update(&mut self, left: Option<&Self>, right: Option<&Self>)
        requires
            exists|nl: nat, nr: nat|
                {
                    &&& match left {
                        Some(l) => l.spans(nl),
                        None => nl == 0,
                    }
                    &&& match right {
                        Some(r) => r.spans(nr),
                        None => nr == 0,
                    }
                    &&& #[trigger] Self::fits(1 + nl + nr)
                },
        ensures
            final(self).entry() == old(self).entry(),
            final(self).pending() == old(self).pending(),
            forall|nl: nat, nr: nat|
                {
                    &&& match left {
                        Some(l) => l.spans(nl),
                        None => nl == 0,
                    }
                    &&& match right {
                        Some(r) => r.spans(nr),
                        None => nr == 0,
                    }
                    &&& #[trigger] Self::fits(1 + nl + nr)
                } ==> final(self).spans(1 + nl + nr),
    ;

    /// The payload after it took over the delta that waits on the parent
    /// `delta`, as the child on the side `direction`.
    spec fn took(&self, delta: &Self, direction: Direction) -> Self;

    /// Takes over the delta that waits on the parent `delta`. A parent
    /// without a pending delta changes nothing.
    fn push_delta(&mut self, delta: &Self, direction: Direction)
        ensures
            *final(self) == old(self).took(delta, direction),
            final(self).entry() == old(self).entry(),
            forall|n: nat| final(self).spans(n) == old(self).spans(n),
            !delta.pending() ==> *final(self) == *old(self),
    ;
}

/// A payload to which a delta of type `Delta` can be applied from outside.
pub trait Pushable<Delta>: Payload {
    /// The entry after `delta` was applied to `e`.
    spec fn pushed(e: Self::Entry, delta: Delta) -> Self::Entry;

    fn push(&mut self, delta: Delta)
        ensures
            final(self).entry() == Self::pushed(old(self).entry(), delta),
            forall|n: nat| final(self).spans(n) == old(self).spans(n),
    ;
}

/// A payload whose data can be exchanged for other data of type `Delta`.
pub trait Replaceable<Delta>: Payload {
    /// The data held in the entry `e`.
    spec fn data_of(e: Self::Entry) -> Delta;

    /// The entry `e` with its data exchanged for `d`.
    spec fn with_data(e: Self::Entry, d: Delta) -> Self::Entry;

    /// Exchanging the data leaves the key of a keyed entry alone.
    proof fn lemma_with_data_keeps_key(e: Self::Entry, d: Delta)
        ensures
            Self::keyed() ==> Self::entry_key(Self::with_data(e, d)) == Self::entry_key(e),
    ;

    /// Puts `delta` in the place of the data held and returns what was
    /// held.
    fn replace(&mut self, delta: Delta) -> (held: Delta)
        ensures
            held == Self::data_of(old(self).entry()),
            final(self).entry() == Self::with_data(old(self).entry(), delta),
            forall|n: nat| final(self).spans(n) == old(self).spans(n),
    ;
}

impl<'a, P: Payload> Pushable<&'a P> for P {
    open spec fn pushed(e: Self::Entry, delta: &'a P) -> Self::Entry {
        e
    }

    /// Takes over the delta that waits on `delta`, as a left child would.
    /// A payload on which no delta waits changes nothing.
    fn push(&mut self, delta: &'a P)
        ensures
            *final(self) == old(self).took(delta, Direction::Left),
            !delta.pending() ==> *final(self) == *old(self),
    {
        self.push_delta(delta, Direction::Left);
    }
}

/// The innermost layer: the data of an element and nothing else. It has no
/// key of its own.
pub struct PureDataPayload<Data> {
    pub data: Data,
}

impl<Data> From<Data> for PureDataPayload<Data> {
    fn from(data: Data) -> (payload: Self) {
        Self { data }
    }
}

impl<Data> FromSpecImpl<Data> for PureDataPayload<Data> {
    open spec fn obeys_from_spec() -> bool {
        true
    }

    open spec fn from_spec(data: Data) -> Self {
        Self { data }
    }
}

impl<Data> Payload for PureDataPayload<Data> {
    type Key = usize;

    type Entry = Data;

    open spec fn entry(&self) -> Data {
        self.data
    }

    open spec fn has_key() -> bool {
        false
    }

    open spec fn spec_key(&self) -> usize {
        0
    }

    open spec fn keyed() -> bool {
        false
    }

    open spec fn entry_key(e: Data) -> usize {
        0
    }

    open spec fn spans(&self, n: nat) -> bool {
        true
    }

    open spec fn fits(n: nat) -> bool {
        true
    }

    open spec fn pending(&self) -> bool {
        false
    }

    open spec fn took(&self, delta: &Self, direction: Direction) -> Self {
        *self
    }

    proof fn lemma_keyed(&self) {
    }

    proof fn lemma_fits_fewer(n: nat, m: nat) {
    }

    /// Bare data has no key: nothing can call this.
    fn key(&self) -> (k: &usize) {
        vstd::pervasive::unreached()
    }

    fn reset_delta(&mut self) {
    }

    fn update(&mut self, left: Option<&Self>, right: Option<&Self>) {
    }

    fn push_delta(&mut self, delta: &Self, direction: Direction) {
    }
}

impl<Data> Replaceable<Data> for PureDataPayload<Data> {
    open spec fn data_of(e: Data) -> Data {
        e
    }

    open spec fn with_data(e: Data, d: Data) -> Data {
        d
    }

    proof fn lemma_with_data_keeps_key(e: Data, d: Data) {
    }

    fn replace(&mut self, data: Data) -> (held: Data) {
        let mut data = data;
        std::mem::swap(&mut self.data, &mut data);
        data
    }
}

/// A layer that counts the elements of the subtree below its node.
pub struct SizePayload<InnerPayload: Payload> {
    pub inner: InnerPayload,
    pub size: u32,
}

impl<Data> From<Data> for SizePayload<PureDataPayload<Data>> {
    fn from(data: Data) -> (payload: Self) {
        Self { inner: PureDataPayload { data }, size: 1 }
    }
}

impl<Data> FromSpecImpl<Data> for SizePayload<PureDataPayload<Data>> {
    open spec fn obeys_from_spec() -> bool {
        true
    }

    open spec fn from_spec(data: Data) -> Self {
        Self { inner: PureDataPayload { data }, size: 1 }
    }
}

impl<InnerPayload: Payload> Payload for SizePayload<InnerPayload> {
    type Key = InnerPayload::Key;

    type Entry = InnerPayload::Entry;

    open spec fn entry(&self) -> Self::Entry {
        self.inner.entry()
    }

    open spec fn has_key() -> bool {
        InnerPayload::has_key()
    }

    open spec fn spec_key(&self) -> Self::Key {
        self.inner.spec_key()
    }

    open spec fn keyed() -> bool {
        InnerPayload::keyed()
    }

    open spec fn entry_key(e: Self::Entry) -> Self::Key {
        InnerPayload::entry_key(e)
    }

    open spec fn spans(&self, n: nat) -> bool {
        self.size == n && self.inner.spans(n)
    }

    open spec fn fits(n: nat) -> bool {
        n <= u32::MAX && InnerPayload::fits(n)
    }

    open spec fn pending(&self) -> bool {
        self.inner.pending()
    }

    open spec fn took(&self, delta: &Self, direction: Direction) -> Self {
        SizePayload { inner: self.inner.took(&delta.inner, direction), size: self.size }
    }

    proof fn lemma_keyed(&self) {
        self.inner.lemma_keyed();
    }

    proof fn lemma_fits_fewer(n: nat, m: nat) {
        InnerPayload::lemma_fits_fewer(n, m);
    }

    fn key(&self) -> (k: &Self::Key) {
        self.inner.key()
    }

    fn reset_delta(&mut self) {
        self.inner.reset_delta();
    }

    fn update(&mut self, left: Option<&Self>, right: Option<&Self>) {
        let left_inner = match left {
            Some(node) => Some(&node.inner),
            None => None,
        };
        let right_inner = match right {
            Some(node) => Some(&node.inner),
            None => None,
        };
        let left_size: u32 = match left {
            Some(node) => node.size,
            None => 0,
        };
        let right_size: u32 = match right {
            Some(node) => node.size,
            None => 0,
        };
        proof {
            let (nl, nr) = choose|nl: nat, nr: nat|
                {
                    &&& match left {
                        Some(l) => l.spans(nl),
                        None => nl == 0,
                    }
                    &&& match right {
                        Some(r) => r.spans(nr),
                        None => nr == 0,
                    }
                    &&& #[trigger] Self::fits(1 + nl + nr)
                };
            assert(nl == left_size && nr == right_size);
            assert(InnerPayload::fits(1 + nl + nr));
        }
        self.inner.update(left_inner, right_inner);
        self.size = 1 + left_size + right_size;
    }

    fn push_delta(&mut self, delta: &Self, direction: Direction) {
        self.inner.push_delta(&delta.inner, direction);
    }
}

impl<Data, InnerPayload: Payload + Replaceable<Data>> Replaceable<Data> for SizePayload<
    InnerPayload,
> {
    open spec fn data_of(e: Self::Entry) -> Data {
        InnerPayload::data_of(e)
    }

    open spec fn with_data(e: Self::Entry, d: Data) -> Self::Entry {
        InnerPayload::with_data(e, d)
    }

    proof fn lemma_with_data_keeps_key(e: Self::Entry, d: Data) {
        InnerPayload::lemma_with_data_keeps_key(e, d);
    }

    fn replace(&mut self, delta: Data) -> (held: Data) {
        self.inner.replace(delta)
    }
}

/// A layer that gives the element a key of its own, by which a tree can be
/// ordered.
pub struct KeyPayload<Key: Ord, InnerPayload: Payload> {
    pub inner: InnerPayload,
    pub key: Key,
}

impl<Key: Ord, InnerPayload: Payload, Data: Into<InnerPayload>> From<(Key, Data)> for KeyPayload<Key, InnerPayload> {
    fn from(pair: (Key, Data)) -> (payload: Self) {
        let (key, data) = pair;
        Self { inner: data.into(), key }
    }
}

impl<Key: Ord, InnerPayload: Payload, Data: Into<InnerPayload>> FromSpecImpl<(Key, Data)> for KeyPayload<Key, InnerPayload> {
    open spec fn obeys_from_spec() -> bool {
        <Data as IntoSpec<InnerPayload>>::obeys_into_spec()
    }

    open spec fn from_spec(pair: (Key, Data)) -> Self {
        Self { inner: pair.1.into_spec(), key: pair.0 }
    }
}

impl<Key: Ord, InnerPayload: Payload> Payload for KeyPayload<Key, InnerPayload> {
    type Key = Key;

    type Entry = (Key, InnerPayload::Entry);

    open spec fn entry(&self) -> Self::Entry {
        (self.key, self.inner.entry())
    }

    open spec fn has_key() -> bool {
        true
    }

    open spec fn spec_key(&self) -> Key {
        self.key
    }

    open spec fn keyed() -> bool {
        true
    }

    open spec fn entry_key(e: Self::Entry) -> Key {
        e.0
    }

    open spec fn spans(&self, n: nat) -> bool {
        self.inner.spans(n)
    }

    open spec fn fits(n: nat) -> bool {
        InnerPayload::fits(n)
    }

    open spec fn pending(&self) -> bool {
        self.inner.pending()
    }

    open spec fn took(&self, delta: &Self, direction: Direction) -> Self {
        KeyPayload { inner: self.inner.took(&delta.inner, direction), key: self.key }
    }

    proof fn lemma_keyed(&self) {
    }

    proof fn lemma_fits_fewer(n: nat, m: nat) {
        InnerPayload::lemma_fits_fewer(n, m);
    }

    fn key(&self) -> (k: &Key) {
        &self.key
    }

    fn reset_delta(&mut self) {
        self.inner.reset_delta();
    }

    fn update(&mut self, left: Option<&Self>, right: Option<&Self>) {
        let left_inner = match left {
            Some(node) => Some(&node.inner),
            None => None,
        };
        let right_inner = match right {
            Some(node) => Some(&node.inner),
            None => None,
        };
        self.inner.update(left_inner, right_inner);
    }

    fn push_delta(&mut self, delta: &Self, direction: Direction) {
        self.inner.push_delta(&delta.inner, direction);
    }
}

impl<Data, Key: Ord, InnerPayload: Payload + Replaceable<Data>> Replaceable<Data> for KeyPayload<
    Key,
    InnerPayload,
> {
    open spec fn data_of(e: Self::Entry) -> Data {
        InnerPayload::data_of(e.1)
    }

    open spec fn with_data(e: Self::Entry, d: Data) -> Self::Entry {
        (e.0, InnerPayload::with_data(e.1, d))
    }

    proof fn lemma_with_data_keeps_key(e: Self::Entry, d: Data) {
    }

    fn replace(&mut self, delta: Data) -> (held: Data) {
        self.inner.replace(delta)
    }
}

/// A layer whose key is the size of the subtree below its node, for trees
/// addressed by position. Such a key changes with the tree.
pub struct ImpliedKeyPayload<InnerPayload: Payload> {
    pub inner: SizePayload<InnerPayload>,
}

impl<InnerPayload: Payload> From<InnerPayload> for ImpliedKeyPayload<InnerPayload> {
    fn from(inner: InnerPayload) -> (payload: Self) {
        Self { inner: SizePayload { inner, size: 1 } }
    }
}

impl<InnerPayload: Payload> FromSpecImpl<InnerPayload> for ImpliedKeyPayload<InnerPayload> {
    open spec fn obeys_from_spec() -> bool {
        true
    }

    open spec fn from_spec(inner: InnerPayload) -> Self {
        Self { inner: SizePayload { inner, size: 1 } }
    }
}

impl<InnerPayload: Payload> Payload for ImpliedKeyPayload<InnerPayload> {
    type Key = u32;

    type Entry = InnerPayload::Entry;

    open spec fn entry(&self) -> Self::Entry {
        self.inner.entry()
    }

    open spec fn has_key() -> bool {
        true
    }

    open spec fn spec_key(&self) -> u32 {
        self.inner.size
    }

    open spec fn keyed() -> bool {
        false
    }

    open spec fn entry_key(e: Self::Entry) -> u32 {
        0
    }

    open spec fn spans(&self, n: nat) -> bool {
        self.inner.spans(n)
    }

    open spec fn fits(n: nat) -> bool {
        SizePayload::<InnerPayload>::fits(n)
    }

    open spec fn pending(&self) -> bool {
        self.inner.pending()
    }

    open spec fn took(&self, delta: &Self, direction: Direction) -> Self {
        ImpliedKeyPayload { inner: self.inner.took(&delta.inner, direction) }
    }

    proof fn lemma_keyed(&self) {
    }

    proof fn lemma_fits_fewer(n: nat, m: nat) {
        SizePayload::<InnerPayload>::lemma_fits_fewer(n, m);
    }

    fn key(&self) -> (k: &u32) {
        &self.inner.size
    }

    fn reset_delta(&mut self) {
        self.inner.reset_delta();
    }

    fn update(&mut self, left: Option<&Self>, right: Option<&Self>) {
        let left_inner = match left {
            Some(node) => Some(&node.inner),
            None => None,
        };
        let right_inner = match right {
            Some(node) => Some(&node.inner),
            None => None,
        };
        self.inner.update(left_inner, right_inner);
    }

    fn push_delta(&mut self, delta: &Self, direction: Direction) {
        self.inner.push_delta(&delta.inner, direction);
    }
}

impl<Data, InnerPayload: Payload + Replaceable<Data>> Replaceable<Data> for ImpliedKeyPayload<
    InnerPayload,
> {
    open spec fn data_of(e: Self::Entry) -> Data {
        InnerPayload::data_of(e)
    }

    open spec fn with_data(e: Self::Entry, d: Data) -> Self::Entry {
        InnerPayload::with_data(e, d)
    }

    proof fn lemma_with_data_keeps_key(e: Self::Entry, d: Data) {
    }

    fn replace(&mut self, data: Data) -> (held: Data) {
        self.inner.inner.replace(data)
    }
}

} // verus!
