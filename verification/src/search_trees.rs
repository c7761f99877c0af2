//! Two plain binary trees of numbers for comparison with the treap: one
//! that keeps its keys in search order and records the depth of each, and
//! one that hangs each new key on a side chosen by a coin.

use rand::Rng;
use vstd::multiset::Multiset;
use vstd::prelude::*;

verus! {

/// A node of a binary search tree that records at what depth it was hung.
pub struct EBSTNode {
    key: u32,
    left: Option<Box<EBSTNode>>,
    right: Option<Box<EBSTNode>>,
    depth: usize,
}

impl EBSTNode {
    /// Whether the tree holds the key `k` with the depth `d` recorded.
    pub closed spec fn holds(&self, k: u32, d: usize) -> bool
        decreases self,
    {
        ||| (k == self.key && d == self.depth)
        ||| (match self.left {
            Some(left) => left.holds(k, d),
            None => false,
        })
        ||| (match self.right {
            Some(right) => right.holds(k, d),
            None => false,
        })
    }

    /// Whether the tree holds the key `k`.
    pub open spec fn has(&self, k: u32) -> bool {
        exists|d: usize| self.holds(k, d)
    }

    /// The number of nodes below the root on the longest way down.
    pub closed spec fn height(&self) -> nat
        decreases self,
    {
        let l = match self.left {
            Some(left) => left.height() + 1,
            None => 0,
        };
        let r = match self.right {
            Some(right) => right.height() + 1,
            None => 0,
        };
        if l > r {
            l
        } else {
            r
        }
    }

    /// The number of nodes that a search for `k` passes below the root,
    /// up to the node with `k` or to the place where `k` would hang.
    pub closed spec fn path_len(&self, k: u32) -> nat
        decreases self,
    {
        if k < self.key {
            match self.left {
                Some(left) => left.path_len(k) + 1,
                None => 1,
            }
        } else if k > self.key {
            match self.right {
                Some(right) => right.path_len(k) + 1,
                None => 1,
            }
        } else {
            0
        }
    }

    /// The keys stand in search order: at every node the keys to the left
    /// are smaller and those to the right larger.
    pub closed spec fn wf(&self) -> bool
        decreases self,
    {
        &&& (match self.left {
            Some(left) => left.wf() && (forall|k: u32, d: usize|
                left.holds(k, d) ==> k < self.key),
            None => true,
        })
        &&& (match self.right {
            Some(right) => right.wf() && (forall|k: u32, d: usize|
                right.holds(k, d) ==> k > self.key),
            None => true,
        })
    }

    /// What a tree holds is what its root and its two sides hold, and in a
    /// tree in search order the sides are in search order, the left one
    /// below the root's key and the right one above it.
    proof fn lemma_sides(&self)
        ensures
            forall|k: u32, d: usize|
                self.holds(k, d) <==> (k == self.key && d == self.depth) || (self.left.is_some()
                    && self.left.unwrap().holds(k, d)) || (self.right.is_some()
                    && self.right.unwrap().holds(k, d)),
            self.wf() <==> {
                &&& self.left.is_some() ==> self.left.unwrap().wf() && (forall|k: u32, d: usize|
                    self.left.unwrap().holds(k, d) ==> k < self.key)
                &&& self.right.is_some() ==> self.right.unwrap().wf() && (forall|k: u32, d: usize|
                    self.right.unwrap().holds(k, d) ==> k > self.key)
            },
    {
    }

    /// A tree of the one key `key`, recorded at `depth`.
    pub fn new(key: u32, depth: usize) -> (node: Self)
        ensures
            node.wf(),
            node.height() == 0,
            forall|k: u32, d: usize| node.holds(k, d) <==> k == key && d == depth,
            forall|k: u32| node.path_len(k) <= 1,
    {
        EBSTNode { key, left: None, right: None, depth }
    }

    /// Hangs `key` into the tree, unless it is there, and records for it
    /// the depth `depth` of the root plus the nodes passed on the way
    /// down.
    pub fn insert(&mut self, key: u32, depth: usize)
        requires
            old(self).wf(),
            depth + old(self).height() < usize::MAX,
        ensures
            final(self).wf(),
            final(self).height() <= old(self).height() + 1,
            forall|k: u32, d: usize|
                final(self).holds(k, d) <==> old(self).holds(k, d) || (k == key && !old(self).has(
                    key,
                ) && d == depth + old(self).path_len(key)),
        decreases old(self).height(),
    {
        let ghost before = *self;
        if key < self.key {
            match self.left.take() {
                Some(mut left) => {
                    let ghost sub = *left;
                    left.insert(key, depth + 1);
                    self.left = Some(left);
                    proof {
                        before.lemma_sides();
                        self.lemma_sides();
                        if sub.has(key) {
                            let d0 = choose|d0: usize| sub.holds(key, d0);
                            assert(before.holds(key, d0));
                        }
                        if before.has(key) {
                            let d1 = choose|d1: usize| before.holds(key, d1);
                            assert(sub.holds(key, d1));
                        }
                    }
                },
                None => {
                    self.left = Some(Box::new(EBSTNode::new(key, depth + 1)));
                    proof {
                        before.lemma_sides();
                        self.lemma_sides();
                        if before.has(key) {
                            let d1 = choose|d1: usize| before.holds(key, d1);
                            assert(false);
                        }
                    }
                },
            }
        } else if key > self.key {
            match self.right.take() {
                Some(mut right) => {
                    let ghost sub = *right;
                    right.insert(key, depth + 1);
                    self.right = Some(right);
                    proof {
                        before.lemma_sides();
                        self.lemma_sides();
                        if sub.has(key) {
                            let d0 = choose|d0: usize| sub.holds(key, d0);
                            assert(before.holds(key, d0));
                        }
                        if before.has(key) {
                            let d1 = choose|d1: usize| before.holds(key, d1);
                            assert(sub.holds(key, d1));
                        }
                    }
                },
                None => {
                    self.right = Some(Box::new(EBSTNode::new(key, depth + 1)));
                    proof {
                        before.lemma_sides();
                        self.lemma_sides();
                        if before.has(key) {
                            let d1 = choose|d1: usize| before.holds(key, d1);
                            assert(false);
                        }
                    }
                },
            }
        } else {
            proof {
                before.lemma_sides();
                assert(before.holds(key, before.depth));
            }
        }
    }

    /// The depth recorded for `key`, if the tree holds it.
    pub fn search(&self, key: u32) -> (found: Option<usize>)
        requires
            self.wf(),
        ensures
            match found {
                Some(d) => self.holds(key, d),
                None => !self.has(key),
            },
        decreases self,
    {
        proof {
            self.lemma_sides();
        }
        if key == self.key {
            Some(self.depth)
        } else if key < self.key {
            let found = match &self.left {
                Some(left) => left.search(key),
                None => None,
            };
            proof {
                self.lemma_sides();
            }
            found
        } else {
            let found = match &self.right {
                Some(right) => right.search(key),
                None => None,
            };
            proof {
                self.lemma_sides();
            }
            found
        }
    }

    /// Removal is not offered by this tree: nothing is taken out and
    /// nothing is returned.
    pub fn remove(&mut self, key: u32) -> (removed: Option<u32>)
        ensures
            removed.is_none(),
            *final(self) == *old(self),
    {
        None
    }
}

/// Throws a fair coin: a call of `rand::thread_rng` and of `Rng::gen_ratio`
/// with the ratio 1 to 2. The outcome is random, so nothing is claimed of
/// it.
#[verifier::external_body]
fn flip_coin() -> bool {
    rand::thread_rng().gen_ratio(1, 2)
}

/// A node of a binary tree that hangs each new key on a side chosen by a
/// coin at every node on the way down.
pub struct RBSTNode {
    key: u32,
    left: Option<Box<RBSTNode>>,
    right: Option<Box<RBSTNode>>,
}

impl RBSTNode {
    /// The keys of the tree, each as often as it was hung.
    pub closed spec fn keys(&self) -> Multiset<u32>
        decreases self,
    {
        let l = match self.left {
            Some(left) => left.keys(),
            None => Multiset::empty(),
        };
        let r = match self.right {
            Some(right) => right.keys(),
            None => Multiset::empty(),
        };
        l.add(r).insert(self.key)
    }

    /// Whether `k` lies on the way that a search by comparison takes from
    /// the root: to the left of larger keys and to the right of smaller.
    pub closed spec fn on_search_path(&self, k: u32) -> bool
        decreases self,
    {
        if k == self.key {
            true
        } else if k < self.key {
            match self.left {
                Some(left) => left.on_search_path(k),
                None => false,
            }
        } else {
            match self.right {
                Some(right) => right.on_search_path(k),
                None => false,
            }
        }
    }

    /// What a search finds is a key of the tree.
    pub proof fn lemma_found_is_key(&self, k: u32)
        requires
            self.on_search_path(k),
        ensures
            self.keys().count(k) > 0,
        decreases self,
    {
        if k == self.key {
        } else if k < self.key {
            if let Some(left) = self.left {
                left.lemma_found_is_key(k);
            }
        } else {
            if let Some(right) = self.right {
                right.lemma_found_is_key(k);
            }
        }
    }

    /// A tree of the one key `key`.
    pub fn new(key: u32) -> (node: Self)
        ensures
            node.keys() =~= Multiset::singleton(key),
    {
        RBSTNode { key, left: None, right: None }
    }

    /// Hangs `key` at the end of a way down the tree on which a coin
    /// chooses the side at every node.
    pub fn insert(&mut self, key: u32)
        ensures
            final(self).keys() =~= old(self).keys().insert(key),
        decreases *old(self),
    {
        if flip_coin() {
            match self.left.take() {
                Some(mut left) => {
                    left.insert(key);
                    self.left = Some(left);
                },
                None => {
                    self.left = Some(Box::new(RBSTNode::new(key)));
                },
            }
        } else {
            match self.right.take() {
                Some(mut right) => {
                    right.insert(key);
                    self.right = Some(right);
                },
                None => {
                    self.right = Some(Box::new(RBSTNode::new(key)));
                },
            }
        }
    }

    /// Whether a search by comparison finds `key`. The keys do not stand in
    /// search order, so a key of the tree may be missed.
    pub fn search(&self, key: u32) -> (found: bool)
        ensures
            found == self.on_search_path(key),
            found ==> self.keys().count(key) > 0,
        decreases self,
    {
        let found = if key == self.key {
            true
        } else if key < self.key {
            match &self.left {
                Some(left) => left.search(key),
                None => false,
            }
        } else {
            match &self.right {
                Some(right) => right.search(key),
                None => false,
            }
        };
        proof {
            if found {
                self.lemma_found_is_key(key);
            }
        }
        found
    }

    /// Removal is not offered by this tree: nothing is taken out and
    /// nothing is returned.
    pub fn remove(&mut self, key: u32) -> (removed: Option<u32>)
        ensures
            removed.is_none(),
            *final(self) == *old(self),
    {
        None
    }
}

} // verus!
