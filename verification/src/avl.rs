//! A search tree of numbers that rebalances itself by rotations after
//! every change.

use vstd::prelude::*;

verus! {

/// A node of the tree, with the height of the subtree below it.
pub struct TreeNode {
    value: i32,
    left: Option<Box<TreeNode>>,
    right: Option<Box<TreeNode>>,
    height: i32,
}

/// Whether the tree below `node` holds the value `x`.
pub closed spec fn has(node: Option<Box<TreeNode>>, x: i32) -> bool
    decreases node,
{
    match node {
        None => false,
        Some(n) => x == n.value || has(n.left, x) || has(n.right, x),
    }
}

/// The number of nodes below `node`.
pub closed spec fn size(node: Option<Box<TreeNode>>) -> nat
    decreases node,
{
    match node {
        None => 0,
        Some(n) => 1 + size(n.left) + size(n.right),
    }
}

/// The number of nodes on the longest way down from `node`.
pub closed spec fn tall(node: Option<Box<TreeNode>>) -> nat
    decreases node,
{
    match node {
        None => 0,
        Some(n) => 1 + if tall(n.left) > tall(n.right) {
            tall(n.left)
        } else {
            tall(n.right)
        },
    }
}

/// The values stand in search order: at every node the values to the left
/// are smaller and those to the right larger.
pub closed spec fn ordered(node: Option<Box<TreeNode>>) -> bool
    decreases node,
{
    match node {
        None => true,
        Some(n) => {
            &&& ordered(n.left)
            &&& ordered(n.right)
            &&& forall|x: i32| has(n.left, x) ==> x < n.value
            &&& forall|x: i32| has(n.right, x) ==> x > n.value
        },
    }
}

/// Every node records the height of the subtree below it.
pub closed spec fn heights_ok(node: Option<Box<TreeNode>>) -> bool
    decreases node,
{
    match node {
        None => true,
        Some(n) => heights_ok(n.left) && heights_ok(n.right) && n.height == tall(node),
    }
}

/// A tree is no higher than it has nodes.
pub proof fn lemma_tall_within_size(node: Option<Box<TreeNode>>)
    ensures
        tall(node) <= size(node),
    decreases node,
{
    if let Some(n) = node {
        lemma_tall_within_size(n.left);
        lemma_tall_within_size(n.right);
    }
}

impl TreeNode {
    /// What the subtree at this node holds, counts and measures, from its
    /// own value and its two sides.
    proof fn lemma_unfold(&self)
        ensures
            forall|x: i32|
                has(Some(Box::new(*self)), x) <==> x == self.value || has(self.left, x) || has(
                    self.right,
                    x,
                ),
            size(Some(Box::new(*self))) == 1 + size(self.left) + size(self.right),
            tall(Some(Box::new(*self))) == 1 + if tall(self.left) > tall(self.right) {
                tall(self.left)
            } else {
                tall(self.right)
            },
            ordered(Some(Box::new(*self))) <==> {
                &&& ordered(self.left)
                &&& ordered(self.right)
                &&& forall|x: i32| has(self.left, x) ==> x < self.value
                &&& forall|x: i32| has(self.right, x) ==> x > self.value
            },
            heights_ok(Some(Box::new(*self))) <==> heights_ok(self.left) && heights_ok(self.right)
                && self.height == tall(Some(Box::new(*self))),
            tall(self.left) <= size(self.left),
            tall(self.right) <= size(self.right),
    {
        lemma_tall_within_size(self.left);
        lemma_tall_within_size(self.right);
    }

    /// A tree of the one value `value`.
    pub fn new(value: i32) -> (node: Self)
        ensures
            forall|x: i32| has(Some(Box::new(node)), x) <==> x == value,
            size(Some(Box::new(node))) == 1,
            ordered(Some(Box::new(node))),
            heights_ok(Some(Box::new(node))),
    {
        let node = TreeNode { value, left: None, right: None, height: 1 };
        proof {
            node.lemma_unfold();
        }
        node
    }

    /// The height recorded at `node`; 0 where there is no node.
    pub fn height(node: &Option<Box<TreeNode>>) -> (h: i32)
        ensures
            heights_ok(*node) ==> h == tall(*node),
    {
        match node {
            Some(n) => n.height,
            None => 0,
        }
    }

    /// Records at `node` the height that its two sides give it.
    fn update_height(node: &mut Box<TreeNode>)
        requires
            heights_ok(old(node).left),
            heights_ok(old(node).right),
            size(Some(*old(node))) <= i32::MAX,
        ensures
            final(node).left == old(node).left,
            final(node).right == old(node).right,
            final(node).value == old(node).value,
            heights_ok(Some(*final(node))),
    {
        proof {
            node.lemma_unfold();
        }
        let l = Self::height(&node.left);
        let r = Self::height(&node.right);
        node.height = 1 + if l > r {
            l
        } else {
            r
        };
        proof {
            node.lemma_unfold();
        }
    }

    /// By how much the left side of `node` is higher than the right.
    fn balance_factor(node: &Option<Box<TreeNode>>) -> (factor: i32)
        requires
            heights_ok(*node),
            size(*node) <= i32::MAX,
        ensures
            match *node {
                Some(n) => factor == tall(n.left) - tall(n.right),
                None => factor == 0,
            },
    {
        match node {
            Some(n) => {
                proof {
                    n.lemma_unfold();
                }
                Self::height(&n.left) - Self::height(&n.right)
            },
            None => 0,
        }
    }

    /// Lifts the right child of `node` into its place.
    fn rotate_left(node: Box<TreeNode>) -> (top: Box<TreeNode>)
        requires
            node.right.is_some(),
            ordered(Some(node)),
            heights_ok(node.left),
            heights_ok(node.right),
            size(Some(node)) <= i32::MAX,
        ensures
            forall|x: i32| has(Some(top), x) <==> has(Some(node), x),
            size(Some(top)) == size(Some(node)),
            ordered(Some(top)),
            heights_ok(Some(top)),
    {
        let mut node = node;
        let ghost was = *node;
        proof {
            was.lemma_unfold();
            was.right.unwrap().lemma_unfold();
        }
        let mut right = node.right.take().unwrap();
        let ghost lifted = *right;
        node.right = right.left.take();
        proof {
            node.lemma_unfold();
        }
        Self::update_height(&mut node);
        proof {
            node.lemma_unfold();
        }
        proof {
            assert(has(was.right, lifted.value));
            assert forall|x: i32| has(Some(node), x) implies x < lifted.value by {
                if has(was.left, x) {
                    assert(x < was.value);
                }
            }
        }
        right.left = Some(node);
        proof {
            right.lemma_unfold();
        }
        Self::update_height(&mut right);
        proof {
            right.lemma_unfold();
        }
        right
    }

    /// Lifts the left child of `node` into its place.
    fn rotate_right(node: Box<TreeNode>) -> (top: Box<TreeNode>)
        requires
            node.left.is_some(),
            ordered(Some(node)),
            heights_ok(node.left),
            heights_ok(node.right),
            size(Some(node)) <= i32::MAX,
        ensures
            forall|x: i32| has(Some(top), x) <==> has(Some(node), x),
            size(Some(top)) == size(Some(node)),
            ordered(Some(top)),
            heights_ok(Some(top)),
    {
        let mut node = node;
        let ghost was = *node;
        proof {
            was.lemma_unfold();
            was.left.unwrap().lemma_unfold();
        }
        let mut left = node.left.take().unwrap();
        let ghost lifted = *left;
        node.left = left.right.take();
        proof {
            node.lemma_unfold();
        }
        Self::update_height(&mut node);
        proof {
            node.lemma_unfold();
            assert(has(was.left, lifted.value));
            assert forall|x: i32| has(Some(node), x) implies x > lifted.value by {
                if has(was.right, x) {
                    assert(x > was.value);
                }
            }
        }
        left.right = Some(node);
        proof {
            left.lemma_unfold();
        }
        Self::update_height(&mut left);
        proof {
            left.lemma_unfold();
        }
        left
    }

    /// Records the height of `node` and rotates where one side is higher
    /// than the other by more than one.
    fn balance(node: Box<TreeNode>) -> (top: Box<TreeNode>)
        requires
            ordered(Some(node)),
            heights_ok(node.left),
            heights_ok(node.right),
            size(Some(node)) <= i32::MAX,
        ensures
            forall|x: i32| has(Some(top), x) <==> has(Some(node), x),
            size(Some(top)) == size(Some(node)),
            ordered(Some(top)),
            heights_ok(Some(top)),
    {
        let mut node = node;
        let ghost was = *node;
        proof {
            was.lemma_unfold();
        }
        Self::update_height(&mut node);
        proof {
            node.lemma_unfold();
        }
        let balance = Self::height(&node.left) - Self::height(&node.right);
        if balance > 1 {
            proof {
                node.left.unwrap().lemma_unfold();
            }
            if Self::balance_factor(&node.left) < 0 {
                let left = node.left.take().unwrap();
                let turned = Self::rotate_left(left);
                node.left = Some(turned);
                proof {
                    node.lemma_unfold();
                }
            }
            return Self::rotate_right(node);
        }
        if balance < -1 {
            proof {
                node.right.unwrap().lemma_unfold();
            }
            if Self::balance_factor(&node.right) > 0 {
                let right = node.right.take().unwrap();
                let turned = Self::rotate_right(right);
                node.right = Some(turned);
                proof {
                    node.lemma_unfold();
                }
            }
            return Self::rotate_left(node);
        }
        node
    }

    /// Puts `value` into the tree below `node`, unless it is there, and
    /// rebalances on the way back up.
    pub fn insert(node: Option<Box<TreeNode>>, value: i32) -> (top: Box<TreeNode>)
        requires
            ordered(node),
            heights_ok(node),
            size(node) < i32::MAX,
        ensures
            forall|x: i32| has(Some(top), x) <==> has(node, x) || x == value,
            size(Some(top)) == if has(node, value) {
                size(node)
            } else {
                size(node) + 1
            },
            ordered(Some(top)),
            heights_ok(Some(top)),
        decreases size(node),
    {
        let mut node = match node {
            Some(node) => node,
            None => {
                return Box::new(TreeNode::new(value));
            },
        };
        let ghost was = *node;
        proof {
            was.lemma_unfold();
        }
        if value < node.value {
            let grown = Self::insert(node.left.take(), value);
            proof {
                assert forall|x: i32| has(Some(grown), x) implies x < was.value by {
                    if has(was.left, x) {
                        assert(x < was.value);
                    }
                }
            }
            node.left = Some(grown);
        } else if value > node.value {
            let grown = Self::insert(node.right.take(), value);
            proof {
                assert forall|x: i32| has(Some(grown), x) implies x > was.value by {
                    if has(was.right, x) {
                        assert(x > was.value);
                    }
                }
            }
            node.right = Some(grown);
        } else {
            return node;
        }
        proof {
            node.lemma_unfold();
        }
        Self::balance(node)
    }
}

/// A search tree of numbers that keeps itself balanced.
pub struct AVLTree {
    root: Option<Box<TreeNode>>,
}

impl AVLTree {
    /// The values of the tree.
    pub closed spec fn values(&self) -> Set<i32> {
        Set::new(|x: i32| has(self.root, x))
    }

    /// The number of values.
    pub closed spec fn count(&self) -> nat {
        size(self.root)
    }

    /// What every operation keeps: the values stand in search order and
    /// every node records its height.
    pub closed spec fn wf(&self) -> bool {
        ordered(self.root) && heights_ok(self.root) && size(self.root) <= i32::MAX
    }

    pub fn new() -> (tree: Self)
        ensures
            tree.wf(),
            tree.values() == Set::<i32>::empty(),
            tree.count() == 0,
    {
        let tree = AVLTree { root: None };
        assert(tree.values() =~= Set::<i32>::empty());
        tree
    }

    /// Puts `value` into the tree, unless it is there.
    pub fn insert(&mut self, value: i32)
        requires
            old(self).wf(),
            old(self).count() < i32::MAX,
        ensures
            final(self).wf(),
            final(self).values() == old(self).values().insert(value),
            final(self).count() == if old(self).values().contains(value) {
                old(self).count()
            } else {
                old(self).count() + 1
            },
    {
        self.root = Some(TreeNode::insert(self.root.take(), value));
        assert(self.values() =~= old(self).values().insert(value));
    }

    /// Whether the tree holds `value`.
    pub fn search(&self, value: i32) -> (found: bool)
        requires
            self.wf(),
        ensures
            found == self.values().contains(value),
    {
        let mut current = &self.root;
        loop
            invariant
                ordered(*current),
                has(*current, value) == has(self.root, value),
            decreases size(*current),
        {
            match current {
                Some(node) => {
                    proof {
                        node.lemma_unfold();
                    }
                    if value == node.value {
                        return true;
                    } else if value < node.value {
                        current = &node.left;
                    } else {
                        current = &node.right;
                    }
                },
                None => {
                    return false;
                },
            }
        }
    }

    /// Takes `value` out of the tree, if it is there.
    pub fn remove(&mut self, value: i32)
        requires
            old(self).wf(),
        ensures
            final(self).wf(),
            final(self).values() == old(self).values().remove(value),
    {
        self.root = Self::remove_helper(self.root.take(), value);
        assert(self.values() =~= old(self).values().remove(value));
    }

    /// The tree below `node` without `value`, rebalanced on the way back
    /// up.
    fn remove_helper(node: Option<Box<TreeNode>>, value: i32) -> (top: Option<Box<TreeNode>>)
        requires
            ordered(node),
            heights_ok(node),
            size(node) <= i32::MAX,
        ensures
            forall|x: i32| has(top, x) <==> has(node, x) && x != value,
            size(top) <= size(node),
            ordered(top),
            heights_ok(top),
        decreases size(node),
    {
        match node {
            Some(mut node) => {
                let ghost was = *node;
                proof {
                    was.lemma_unfold();
                }
                if value < node.value {
                    let rest = Self::remove_helper(node.left.take(), value);
                    node.left = rest;
                } else if value > node.value {
                    let rest = Self::remove_helper(node.right.take(), value);
                    node.right = rest;
                } else {
                    if node.left.is_none() {
                        return node.right;
                    } else if node.right.is_none() {
                        return node.left;
                    } else {
                        let successor_value = Self::find_min(&node.right).value;
                        node.value = successor_value;
                        let rest = Self::remove_helper(node.right.take(), successor_value);
                        node.right = rest;
                    }
                }
                proof {
                    node.lemma_unfold();
                }
                Some(TreeNode::balance(node))
            },
            None => None,
        }
    }

    /// The node with the smallest value below `node`, which must be there.
    fn find_min(node: &Option<Box<TreeNode>>) -> (least: &TreeNode)
        requires
            node.is_some(),
            ordered(*node),
        ensures
            has(*node, least.value),
            forall|x: i32| has(*node, x) ==> least.value <= x,
    {
        let mut current = node.as_ref().unwrap();
        proof {
            current.lemma_unfold();
        }
        loop
            invariant
                ordered(Some(*current)),
                has(*node, current.value),
                forall|x: i32| has(Some(*current), x) ==> has(*node, x),
                forall|x: i32| has(*node, x) ==> has(Some(*current), x) || current.value <= x,
            decreases size(Some(*current)),
        {
            proof {
                current.lemma_unfold();
            }
            match &current.left {
                Some(left) => {
                    proof {
                        left.lemma_unfold();
                        assert(has(current.left, left.value));
                        assert(left.value < current.value);
                        assert forall|x: i32| has(*node, x) implies has(Some(*left), x)
                            || left.value <= x by {
                            if has(Some(*current), x) {
                                if has(current.right, x) {
                                    assert(x > current.value);
                                }
                            }
                        }
                    }
                    current = left;
                },
                None => {
                    return current;
                },
            }
        }
    }
}

} // verus!
