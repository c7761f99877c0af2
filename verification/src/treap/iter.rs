//! A cursor over the entries of a treap whose keys lie in a range, from
//! either end.

use crate::order::{key_le, lemma_lt_asymmetric, lemma_lt_irreflexive, lt, total_order};
use crate::treap::node::TreapNode;
use crate::treap::ordering::{
    above_end, below_start, first_above, keep, last_below, lemma_bounds,
    lemma_first_above_splits, lemma_keep_window, lemma_last_below_splits, sorted, within, Bound,
};
use crate::treap::payload::Payload;
use vstd::prelude::*;

verus! {

/// A cursor over a stretch of a treap's entries. `next` takes entries from
/// the front of the stretch, `next_back` from its back, until none is left.
pub struct Iter<'a, P> {
    root: &'a TreapNode<P>,
    from: Option<&'a TreapNode<P>>,
    to: Option<&'a TreapNode<P>>,
    lo: Ghost<int>,
    hi: Ghost<int>,
}

impl<'a, P: Payload> Iter<'a, P> {
    /// The entries of the treap that the cursor walks.
    pub closed spec fn tree(&self) -> Seq<P::Entry> {
        self.root@
    }

    /// The entries still to come, in key order.
    pub closed spec fn remaining(&self) -> Seq<P::Entry> {
        if self.lo@ <= self.hi@ {
            self.root@.subrange(self.lo@, self.hi@ + 1)
        } else {
            Seq::empty()
        }
    }

    /// The cursor's two ends stand on entries of a treap in key order.
    pub closed spec fn wf(&self) -> bool {
        &&& P::keyed()
        &&& total_order::<P::Key>()
        &&& sorted::<P>(self.root@)
        &&& match self.from {
            Some(n) => n.nonempty() && 0 <= self.lo@ < self.root@.len() && self.root@[self.lo@]
                == n.root_entry(),
            None => self.lo@ == self.root@.len(),
        }
        &&& match self.to {
            Some(n) => n.nonempty() && 0 <= self.hi@ < self.root@.len() && self.root@[self.hi@]
                == n.root_entry(),
            None => self.hi@ == -1,
        }
    }

    /// A cursor over the entries of `root` whose keys lie in the range from
    /// `start` to `end`.
    pub fn new(root: &'a TreapNode<P>, start: Bound<&P::Key>, end: Bound<&P::Key>) -> (it: Self)
        requires
            P::keyed(),
            total_order::<P::Key>(),
            sorted::<P>(root@),
        ensures
            it.wf(),
            it.tree() == root@,
            it.remaining() == keep(root@, within::<P>(start, end)),
    {
        let ghost s = root@;
        let ghost mut lo: int = 0;
        let ghost mut hi: int = 0;
        proof {
            root.lemma_entries();
        }
        let from = match start {
            Bound::Included(key) => {
                let found = root.ceil(key);
                proof {
                    match found {
                        Some(n) => {
                            lo = choose|i: int| #[trigger]
                                first_above::<P>(s, i, *key, false) && s[i] == n.root_entry();
                            lemma_first_above_splits::<P>(s, lo, *key, false);
                        },
                        None => {
                            lo = s.len() as int;
                        },
                    }
                    assert forall|j: int| 0 <= j < s.len() implies (!below_start(
                        P::entry_key(#[trigger] s[j]),
                        start,
                    ) <==> lo <= j) by {
                        lemma_bounds(P::entry_key(s[j]), *key);
                    }
                }
                found
            },
            Bound::Excluded(key) => {
                let found = root.higher(key);
                proof {
                    match found {
                        Some(n) => {
                            lo = choose|i: int| #[trigger]
                                first_above::<P>(s, i, *key, true) && s[i] == n.root_entry();
                            lemma_first_above_splits::<P>(s, lo, *key, true);
                        },
                        None => {
                            lo = s.len() as int;
                        },
                    }
                    assert forall|j: int| 0 <= j < s.len() implies (!below_start(
                        P::entry_key(#[trigger] s[j]),
                        start,
                    ) <==> lo <= j) by {
                        lemma_bounds(P::entry_key(s[j]), *key);
                    }
                }
                found
            },
            Bound::Unbounded => {
                let found = root.leftmost();
                proof {
                    lo = 0;
                }
                found
            },
        };
        let to = match end {
            Bound::Included(key) => {
                let found = root.floor(key);
                proof {
                    match found {
                        Some(n) => {
                            hi = choose|i: int| #[trigger]
                                last_below::<P>(s, i, *key, false) && s[i] == n.root_entry();
                            lemma_last_below_splits::<P>(s, hi, *key, false);
                        },
                        None => {
                            hi = -1;
                        },
                    }
                    assert forall|j: int| 0 <= j < s.len() implies (!above_end(
                        P::entry_key(#[trigger] s[j]),
                        end,
                    ) <==> j <= hi) by {
                        lemma_bounds(P::entry_key(s[j]), *key);
                    }
                }
                found
            },
            Bound::Excluded(key) => {
                let found = root.lower(key);
                proof {
                    match found {
                        Some(n) => {
                            hi = choose|i: int| #[trigger]
                                last_below::<P>(s, i, *key, true) && s[i] == n.root_entry();
                            lemma_last_below_splits::<P>(s, hi, *key, true);
                        },
                        None => {
                            hi = -1;
                        },
                    }
                    assert forall|j: int| 0 <= j < s.len() implies (!above_end(
                        P::entry_key(#[trigger] s[j]),
                        end,
                    ) <==> j <= hi) by {
                        lemma_bounds(P::entry_key(s[j]), *key);
                    }
                }
                found
            },
            Bound::Unbounded => {
                let found = root.rightmost();
                proof {
                    hi = s.len() - 1;
                }
                found
            },
        };
        let it = Self { root, from, to, lo: Ghost(lo), hi: Ghost(hi) };
        proof {
            let pred = within::<P>(start, end);
            assert forall|j: int| 0 <= j < s.len() implies (pred(#[trigger] s[j]) <==> lo <= j
                < hi + 1) by {}
            if lo <= hi {
                lemma_keep_window(s, pred, lo, hi + 1);
            } else {
                lemma_keep_window(s, pred, 0, 0);
                assert(s.subrange(0, 0) =~= Seq::<P::Entry>::empty());
            }
        }
        it
    }

    /// Takes the first of the entries still to come.
    pub fn next(&mut self) -> (item: Option<&'a TreapNode<P>>)
        requires
            old(self).wf(),
        ensures
            final(self).wf(),
            final(self).tree() == old(self).tree(),
            match item {
                Some(n) => {
                    &&& old(self).remaining().len() > 0
                    &&& n.nonempty()
                    &&& n.root_entry() == old(self).remaining()[0]
                    &&& final(self).remaining() == old(self).remaining().drop_first()
                },
                None => old(self).remaining().len() == 0 && final(self).remaining() == old(
                    self,
                ).remaining(),
            },
    {
        let ghost s = self.root@;
        let ghost lo = self.lo@;
        let ghost hi = self.hi@;
        let from = match self.from {
            Some(n) => n,
            None => {
                return None;
            },
        };
        let to = match self.to {
            Some(n) => n,
            None => {
                return None;
            },
        };
        proof {
            from.spec_payload().unwrap().lemma_keyed();
            to.spec_payload().unwrap().lemma_keyed();
            from.lemma_entries();
            to.lemma_entries();
        }
        let from_key = from.key().unwrap();
        let to_key = to.key().unwrap();
        if key_le(from_key, to_key) {
            proof {
                if lo > hi {
                    lemma_lt_asymmetric(P::entry_key(s[hi]), P::entry_key(s[lo]));
                }
            }
            let next = self.root.higher(from_key);
            let ghost mut new_lo: int = 0;
            proof {
                match next {
                    Some(m) => {
                        new_lo = choose|i: int| #[trigger]
                            first_above::<P>(s, i, *from_key, true) && s[i] == m.root_entry();
                        if new_lo < lo {
                            lemma_lt_asymmetric(P::entry_key(s[new_lo]), P::entry_key(s[lo]));
                        }
                        if new_lo == lo {
                            lemma_lt_irreflexive(P::entry_key(s[lo]));
                        }
                        if new_lo > lo + 1 {
                            assert(s.take(new_lo)[lo + 1] == s[lo + 1]);
                        }
                        assert(new_lo == lo + 1);
                    },
                    None => {
                        new_lo = s.len() as int;
                        if lo + 1 < s.len() {
                            assert(lt(P::entry_key(s[lo]), P::entry_key(s[lo + 1])));
                        }
                        assert(new_lo == lo + 1);
                    },
                }
                if new_lo <= hi {
                    assert(s.subrange(new_lo, hi + 1) =~= s.subrange(lo, hi + 1).drop_first());
                } else {
                    assert(Seq::<P::Entry>::empty() =~= s.subrange(lo, hi + 1).drop_first());
                }
            }
            self.from = next;
            self.lo = Ghost(new_lo);
            Some(from)
        } else {
            proof {
                if lo <= hi {
                    if lo < hi {
                        assert(lt(P::entry_key(s[lo]), P::entry_key(s[hi])));
                    }
                }
            }
            None
        }
    }

    /// Takes the last of the entries still to come.
    pub fn next_back(&mut self) -> (item: Option<&'a TreapNode<P>>)
        requires
            old(self).wf(),
        ensures
            final(self).wf(),
            final(self).tree() == old(self).tree(),
            match item {
                Some(n) => {
                    &&& old(self).remaining().len() > 0
                    &&& n.nonempty()
                    &&& n.root_entry() == old(self).remaining().last()
                    &&& final(self).remaining() == old(self).remaining().drop_last()
                },
                None => old(self).remaining().len() == 0 && final(self).remaining() == old(
                    self,
                ).remaining(),
            },
    {
        let ghost s = self.root@;
        let ghost lo = self.lo@;
        let ghost hi = self.hi@;
        let from = match self.from {
            Some(n) => n,
            None => {
                return None;
            },
        };
        let to = match self.to {
            Some(n) => n,
            None => {
                return None;
            },
        };
        proof {
            from.spec_payload().unwrap().lemma_keyed();
            to.spec_payload().unwrap().lemma_keyed();
            from.lemma_entries();
            to.lemma_entries();
        }
        let from_key = from.key().unwrap();
        let to_key = to.key().unwrap();
        if key_le(from_key, to_key) {
            proof {
                if lo > hi {
                    lemma_lt_asymmetric(P::entry_key(s[hi]), P::entry_key(s[lo]));
                }
            }
            let next = self.root.lower(to_key);
            let ghost mut new_hi: int = 0;
            proof {
                match next {
                    Some(m) => {
                        new_hi = choose|i: int| #[trigger]
                            last_below::<P>(s, i, *to_key, true) && s[i] == m.root_entry();
                        if new_hi > hi {
                            lemma_lt_asymmetric(P::entry_key(s[hi]), P::entry_key(s[new_hi]));
                        }
                        if new_hi == hi {
                            lemma_lt_irreflexive(P::entry_key(s[hi]));
                        }
                        if new_hi < hi - 1 {
                            assert(s.skip(new_hi + 1)[hi - 1 - new_hi - 1] == s[hi - 1]);
                        }
                        assert(new_hi == hi - 1);
                    },
                    None => {
                        new_hi = -1;
                        if hi >= 1 {
                            assert(lt(P::entry_key(s[hi - 1]), P::entry_key(s[hi])));
                            assert(s[hi - 1] == s[hi - 1]);
                        }
                        assert(new_hi == hi - 1);
                    },
                }
                if lo <= new_hi {
                    assert(s.subrange(lo, new_hi + 1) =~= s.subrange(lo, hi + 1).drop_last());
                } else {
                    assert(Seq::<P::Entry>::empty() =~= s.subrange(lo, hi + 1).drop_last());
                }
            }
            self.to = next;
            self.hi = Ghost(new_hi);
            Some(to)
        } else {
            proof {
                if lo <= hi {
                    if lo < hi {
                        assert(lt(P::entry_key(s[lo]), P::entry_key(s[hi])));
                    }
                }
            }
            None
        }
    }
}

} // verus!
