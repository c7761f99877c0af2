//! A binary search tree without balancing, over any values that can be
//! compared.

use crate::order::{lemma_linear, lemma_operators, linear_order, not_behind};
use vstd::prelude::*;
use vstd::std_specs::cmp::PartialEqSpec;

verus! {

/// A node of the tree: a value between its two subtrees.
pub struct Node<T: Copy + PartialOrd> {
    pub value: T,
    left: Option<Box<Node<T>>>,
    right: Option<Box<Node<T>>>,
}

/// The tree: its root, if it holds anything.
pub struct Tree<T: Copy + PartialOrd> {
    pub root: Option<Box<Node<T>>>,
}

/// The values below `node` from left to right.
pub open spec fn inorder<T: Copy + PartialOrd>(node: Option<Box<Node<T>>>) -> Seq<T>
    decreases node,
{
    match node {
        None => Seq::empty(),
        Some(n) => n.values(),
    }
}

/// No value comes behind a value to its right.
pub open spec fn in_order<T: PartialOrd>(s: Seq<T>) -> bool {
    forall|i: int, j: int| 0 <= i < j < s.len() ==> not_behind(#[trigger] s[i], #[trigger] s[j])
}

/// The values to the left of a value in a sequence in order, and those to
/// its right, are in order, and none of them comes behind it or before
/// it.
pub proof fn lemma_in_order_around<T: PartialOrd>(left: Seq<T>, v: T, right: Seq<T>)
    requires
        in_order(left + seq![v] + right),
    ensures
        in_order(left),
        in_order(right),
        forall|i: int| 0 <= i < left.len() ==> not_behind(#[trigger] left[i], v),
        forall|i: int| 0 <= i < right.len() ==> not_behind(v, #[trigger] right[i]),
{
    let s = left + seq![v] + right;
    let at = left.len() as int;
    assert(s[at] == v);
    assert forall|i: int, j: int| 0 <= i < j < left.len() implies not_behind(
        #[trigger] left[i],
        #[trigger] left[j],
    ) by {
        assert(s[i] == left[i] && s[j] == left[j]);
    }
    assert forall|i: int, j: int| 0 <= i < j < right.len() implies not_behind(
        #[trigger] right[i],
        #[trigger] right[j],
    ) by {
        assert(s[at + 1 + i] == right[i] && s[at + 1 + j] == right[j]);
    }
    assert forall|i: int| 0 <= i < left.len() implies not_behind(#[trigger] left[i], v) by {
        assert(s[i] == left[i]);
    }
    assert forall|i: int| 0 <= i < right.len() implies not_behind(v, #[trigger] right[i]) by {
        assert(s[at + 1 + i] == right[i]);
    }
}

/// Values in order to the left of a value that none of them comes behind,
/// and values in order to its right that it does not come behind, are in
/// order with it.
pub proof fn lemma_in_order_join<T: PartialOrd>(left: Seq<T>, v: T, right: Seq<T>)
    requires
        linear_order::<T>(),
        in_order(left),
        in_order(right),
        forall|i: int| 0 <= i < left.len() ==> not_behind(#[trigger] left[i], v),
        forall|i: int| 0 <= i < right.len() ==> not_behind(v, #[trigger] right[i]),
    ensures
        in_order(left + seq![v] + right),
{
    let s = left + seq![v] + right;
    let at = left.len() as int;
    assert forall|i: int, j: int| 0 <= i < j < s.len() implies not_behind(
        #[trigger] s[i],
        #[trigger] s[j],
    ) by {
        if j < at {
            assert(s[i] == left[i] && s[j] == left[j]);
        } else if j == at {
            assert(s[i] == left[i]);
        } else if i < at {
            assert(s[i] == left[i] && s[j] == right[j - at - 1]);
            lemma_linear(left[i], v, right[j - at - 1]);
        } else if i == at {
            assert(s[j] == right[j - at - 1]);
        } else {
            assert(s[i] == right[i - at - 1] && s[j] == right[j - at - 1]);
        }
    }
}

/// A sequence in order stays in order where a value leaves it.
pub proof fn lemma_in_order_remove<T: PartialOrd>(s: Seq<T>, at: int)
    requires
        in_order(s),
        0 <= at < s.len(),
    ensures
        in_order(s.remove(at)),
{
    let r = s.remove(at);
    assert forall|i: int, j: int| 0 <= i < j < r.len() implies not_behind(
        #[trigger] r[i],
        #[trigger] r[j],
    ) by {
        let a = if i < at {
            i
        } else {
            i + 1
        };
        let b = if j < at {
            j
        } else {
            j + 1
        };
        assert(r[i] == s[a] && r[j] == s[b]);
    }
}

impl<T: Copy + PartialOrd> Node<T> {
    /// The values of the node and its subtrees from left to right.
    pub closed spec fn values(&self) -> Seq<T>
        decreases self,
    {
        inorder(self.left) + seq![self.value] + inorder(self.right)
    }

    /// The value at the node.
    pub closed spec fn spec_value(&self) -> T {
        self.value
    }

    /// The subtree to the left.
    pub closed spec fn left_side(&self) -> Option<Box<Node<T>>> {
        self.left
    }

    /// The subtree to the right.
    pub closed spec fn right_side(&self) -> Option<Box<Node<T>>> {
        self.right
    }

    /// The values of a node are those to its left, its own, and those to
    /// its right.
    pub proof fn lemma_values(&self)
        ensures
            self.values() == inorder(self.left_side()) + seq![self.spec_value()] + inorder(
                self.right_side(),
            ),
            self.values().len() > 0,
    {
    }

    pub fn new(value: T) -> (node: Node<T>)
        ensures
            node.spec_value() == value,
            node.left_side().is_none(),
            node.right_side().is_none(),
            node.values() == seq![value],
    {
        let node = Node { value, left: None, right: None };
        assert(node.values() =~= seq![value]);
        node
    }
}

/// Takes the node with the last value out of the tree below `root` and
/// returns the value.
fn take_max<T: Copy + PartialOrd>(root: &mut Option<Box<Node<T>>>) -> (max: T)
    requires
        old(root).is_some(),
    ensures
        max == inorder(*old(root)).last(),
        inorder(*final(root)) == inorder(*old(root)).drop_last(),
        inorder(*old(root)).len() > 0,
    decreases inorder(*old(root)).len(),
{
    let mut this = root.take().unwrap();
    let ghost whole = inorder(*old(root));
    let ghost below = inorder(this.left);
    let ghost above = inorder(this.right);
    proof {
        assert(whole == below + seq![this.value] + above);
    }
    if this.right.is_some() {
        let max = take_max(&mut this.right);
        *root = Some(this);
        proof {
            assert(inorder(*root) == below + seq![this.value] + above.drop_last());
            assert(below + seq![this.value] + above.drop_last() =~= whole.drop_last());
        }
        max
    } else {
        let max = this.value;
        *root = this.left.take();
        proof {
            assert(above =~= Seq::<T>::empty());
            assert(inorder(*root) == below);
            assert(below =~= whole.drop_last());
        }
        max
    }
}

/// Deletes the node at `root`, which must be there: its value leaves the
/// tree and the rest keeps its order.
fn delete_node<T: Copy + PartialOrd>(root: &mut Option<Box<Node<T>>>)
    requires
        old(root).is_some(),
    ensures
        inorder(*final(root)) == inorder(*old(root)).remove(
            inorder(old(root).unwrap().left_side()).len() as int,
        ),
{
    let mut this = root.take().unwrap();
    let ghost whole = inorder(*old(root));
    let ghost below = inorder(this.left);
    let ghost above = inorder(this.right);
    let ghost at = below.len() as int;
    proof {
        assert(whole == below + seq![this.value] + above);
    }
    let left = this.left.take();
    let right = this.right.take();
    if left.is_none() && right.is_none() {
        assert(inorder(*root) =~= whole.remove(at));
    } else if left.is_none() {
        *root = right;
        assert(inorder(*root) =~= whole.remove(at));
    } else if right.is_none() {
        *root = left;
        assert(inorder(*root) =~= whole.remove(at));
    } else {
        this.left = left;
        this.right = right;
        let next = take_max(&mut this.left);
        this.value = next;
        *root = Some(this);
        proof {
            assert(inorder(*root) == below.drop_last() + seq![below.last()] + above);
            assert(below.drop_last() + seq![below.last()] + above =~= whole.remove(at));
        }
    }
}

/// Whether a search from `node` finds a value equal to `value`.
fn find_in<T: Copy + PartialOrd>(node: &Option<Box<Node<T>>>, value: T) -> (found: bool)
    ensures
        T::obeys_eq_spec() && found ==> exists|i: int|
            0 <= i < inorder(*node).len() && value.eq_spec(&#[trigger] inorder(*node)[i]),
        linear_order::<T>() && in_order(inorder(*node)) ==> found == inorder(*node).contains(
            value,
        ),
    decreases node,
{
    match node {
        None => false,
        Some(n) => {
            let ghost whole = inorder(*node);
            let ghost below = inorder(n.left);
            let ghost above = inorder(n.right);
            let ghost at = below.len() as int;
            proof {
                assert(whole[at] == n.value);
                if linear_order::<T>() {
                    lemma_operators(value, n.value);
                    if in_order(whole) {
                        lemma_in_order_around(below, n.value, above);
                    }
                }
            }
            if value == n.value {
                true
            } else if value < n.value {
                let found = find_in(&n.left, value);
                proof {
                    if T::obeys_eq_spec() && found {
                        let i = choose|i: int|
                            0 <= i < below.len() && value.eq_spec(&#[trigger] below[i]);
                        assert(whole[i] == below[i]);
                    }
                    if linear_order::<T>() && in_order(whole) {
                        if found {
                            let i = choose|i: int| 0 <= i < below.len() && below[i] == value;
                            assert(whole[i] == value);
                        } else {
                            assert forall|i: int| 0 <= i < whole.len() implies whole[i] != value by {
                                if i < at {
                                    assert(whole[i] == below[i]);
                                } else if i > at {
                                    assert(whole[i] == above[i - at - 1]);
                                    lemma_linear(value, n.value, above[i - at - 1]);
                                    lemma_linear(value, above[i - at - 1], value);
                                }
                            }
                        }
                    }
                }
                found
            } else {
                let found = find_in(&n.right, value);
                proof {
                    if T::obeys_eq_spec() && found {
                        let i = choose|i: int|
                            0 <= i < above.len() && value.eq_spec(&#[trigger] above[i]);
                        assert(whole[at + 1 + i] == above[i]);
                    }
                    if linear_order::<T>() && in_order(whole) {
                        if found {
                            let i = choose|i: int| 0 <= i < above.len() && above[i] == value;
                            assert(whole[at + 1 + i] == value);
                        } else {
                            lemma_linear(value, n.value, value);
                            assert forall|i: int| 0 <= i < whole.len() implies whole[i] != value by {
                                if i < at {
                                    assert(whole[i] == below[i]);
                                    lemma_linear(below[i], n.value, value);
                                    lemma_linear(n.value, value, n.value);
                                } else if i > at {
                                    assert(whole[i] == above[i - at - 1]);
                                }
                            }
                        }
                    }
                }
                found
            }
        },
    }
}

/// Hangs `value` below `node`: to the left of every value it does not
/// exceed on the way down, to the right of the others.
fn insert_into<T: Copy + PartialOrd>(node: &mut Option<Box<Node<T>>>, value: T)
    ensures
        exists|i: int|
            0 <= i <= inorder(*old(node)).len() && inorder(*final(node)) == #[trigger] inorder(
                *old(node),
            ).insert(i, value),
        linear_order::<T>() && in_order(inorder(*old(node))) ==> in_order(inorder(*final(node))),
    decreases inorder(*old(node)).len(),
{
    let ghost whole = inorder(*node);
    match node.take() {
        None => {
            *node = Some(Box::new(Node::new(value)));
            assert(inorder(*node) =~= whole.insert(0, value));
        },
        Some(mut n) => {
            let ghost below = inorder(n.left);
            let ghost above = inorder(n.right);
            proof {
                if linear_order::<T>() {
                    lemma_operators(value, n.value);
                    lemma_linear(value, n.value, value);
                    if in_order(whole) {
                        lemma_in_order_around(below, n.value, above);
                    }
                }
            }
            if value <= n.value {
                insert_into(&mut n.left, value);
                let ghost i = choose|i: int|
                    0 <= i <= below.len() && inorder(n.left) == #[trigger] below.insert(i, value);
                let ghost grown = inorder(n.left);
                *node = Some(n);
                proof {
                    assert(inorder(*node) =~= whole.insert(i, value));
                    if linear_order::<T>() && in_order(whole) {
                        assert forall|k: int| 0 <= k < grown.len() implies not_behind(
                            #[trigger] grown[k],
                            n.value,
                        ) by {
                            if k < i {
                                assert(grown[k] == below[k]);
                            } else if k > i {
                                assert(grown[k] == below[k - 1]);
                            }
                        }
                        lemma_in_order_join(grown, n.value, above);
                    }
                }
            } else {
                insert_into(&mut n.right, value);
                let ghost i = choose|i: int|
                    0 <= i <= above.len() && inorder(n.right) == #[trigger] above.insert(i, value);
                let ghost grown = inorder(n.right);
                *node = Some(n);
                proof {
                    assert(inorder(*node) =~= whole.insert(below.len() + 1 + i, value));
                    if linear_order::<T>() && in_order(whole) {
                        assert forall|k: int| 0 <= k < grown.len() implies not_behind(
                            n.value,
                            #[trigger] grown[k],
                        ) by {
                            if k < i {
                                assert(grown[k] == above[k]);
                            } else if k > i {
                                assert(grown[k] == above[k - 1]);
                            }
                        }
                        lemma_in_order_join(below, n.value, grown);
                    }
                }
            }
        },
    }
}

/// Takes the first value equal to `value` on the search path out of the
/// tree below `node`, and says whether there was one.
fn remove_from<T: Copy + PartialOrd>(node: &mut Option<Box<Node<T>>>, value: T) -> (removed: bool)
    ensures
        !removed ==> inorder(*final(node)) == inorder(*old(node)),
        removed ==> exists|i: int|
            0 <= i < inorder(*old(node)).len() && inorder(*final(node)) == #[trigger] inorder(
                *old(node),
            ).remove(i) && (T::obeys_eq_spec() ==> value.eq_spec(&inorder(*old(node))[i])),
        linear_order::<T>() && in_order(inorder(*old(node))) ==> removed == inorder(
            *old(node),
        ).contains(value),
    decreases inorder(*old(node)).len(),
{
    let ghost whole = inorder(*node);
    if node.is_none() {
        return false;
    }
    let mut n = node.take().unwrap();
    let ghost below = inorder(n.left);
    let ghost above = inorder(n.right);
    let ghost at = below.len() as int;
    let current_value = n.value;
    proof {
        assert(whole[at] == current_value);
        if linear_order::<T>() {
            lemma_operators(value, current_value);
            if in_order(whole) {
                lemma_in_order_around(below, current_value, above);
            }
        }
    }
    if value == current_value {
        *node = Some(n);
        delete_node(node);
        proof {
            assert(inorder(*node) == whole.remove(at));
        }
        true
    } else if value < current_value {
        let removed = remove_from(&mut n.left, value);
        *node = Some(n);
        proof {
            if removed {
                let i = choose|i: int|
                    0 <= i < below.len() && inorder(n.left) == #[trigger] below.remove(i) && (
                    T::obeys_eq_spec() ==> value.eq_spec(&below[i]));
                assert(inorder(*node) =~= whole.remove(i));
                assert(whole[i] == below[i]);
            } else {
                assert(inorder(*node) =~= whole);
            }
            if linear_order::<T>() && in_order(whole) {
                if removed {
                    let i = choose|i: int| 0 <= i < below.len() && below[i] == value;
                    assert(whole[i] == value);
                } else {
                    assert forall|i: int| 0 <= i < whole.len() implies whole[i] != value by {
                        if i < at {
                            assert(whole[i] == below[i]);
                        } else if i > at {
                            assert(whole[i] == above[i - at - 1]);
                            lemma_linear(value, current_value, above[i - at - 1]);
                            lemma_linear(value, above[i - at - 1], value);
                        }
                    }
                }
            }
        }
        removed
    } else {
        let removed = remove_from(&mut n.right, value);
        *node = Some(n);
        proof {
            if removed {
                let i = choose|i: int|
                    0 <= i < above.len() && inorder(n.right) == #[trigger] above.remove(i) && (
                    T::obeys_eq_spec() ==> value.eq_spec(&above[i]));
                assert(inorder(*node) =~= whole.remove(at + 1 + i));
                assert(whole[at + 1 + i] == above[i]);
            } else {
                assert(inorder(*node) =~= whole);
            }
            if linear_order::<T>() && in_order(whole) {
                if removed {
                    let i = choose|i: int| 0 <= i < above.len() && above[i] == value;
                    assert(whole[at + 1 + i] == value);
                } else {
                    lemma_linear(value, current_value, value);
                    assert forall|i: int| 0 <= i < whole.len() implies whole[i] != value by {
                        if i < at {
                            assert(whole[i] == below[i]);
                            lemma_linear(below[i], current_value, value);
                            lemma_linear(current_value, value, current_value);
                        } else if i > at {
                            assert(whole[i] == above[i - at - 1]);
                        }
                    }
                }
            }
        }
        removed
    }
}

impl<T: Copy + PartialOrd> View for Tree<T> {
    type V = Seq<T>;

    /// The values of the tree from left to right.
    open spec fn view(&self) -> Seq<T> {
        inorder(self.root)
    }
}

impl<T: Copy + PartialOrd> Default for Tree<T> {
    fn default() -> (tree: Self)
        ensures
            tree@ == Seq::<T>::empty(),
    {
        Self::new()
    }
}

impl<T: Copy + PartialOrd> Tree<T> {
    pub fn new() -> (tree: Tree<T>)
        ensures
            tree@ == Seq::<T>::empty(),
    {
        Tree { root: None }
    }

    /// Whether a search finds a value equal to `value`.
    pub fn contains(&self, value: T) -> (found: bool)
        ensures
            T::obeys_eq_spec() && found ==> exists|i: int|
                0 <= i < self@.len() && value.eq_spec(&#[trigger] self@[i]),
            linear_order::<T>() && in_order(self@) ==> found == self@.contains(value),
    {
        let found = find_in(&self.root, value);
        proof {
            if T::obeys_eq_spec() && found {
                let i = choose|i: int|
                    0 <= i < inorder(self.root).len() && value.eq_spec(
                        &#[trigger] inorder(self.root)[i],
                    );
                assert(value.eq_spec(&self@[i]));
            }
        }
        found
    }

    /// Hangs `value` into the tree; the values already there keep their
    /// order.
    pub fn insert(&mut self, value: T)
        ensures
            exists|i: int|
                0 <= i <= old(self)@.len() && final(self)@ == #[trigger] old(self)@.insert(i, value),
            linear_order::<T>() && in_order(old(self)@) ==> in_order(final(self)@),
    {
        let ghost before = inorder(self.root);
        insert_into(&mut self.root, value);
        proof {
            let i = choose|i: int|
                0 <= i <= before.len() && inorder(self.root) == #[trigger] before.insert(i, value);
            assert(self@ == old(self)@.insert(i, value));
        }
    }

    /// Whether a search finds a value equal to `value`.
    pub fn search(&self, value: T) -> (found: bool)
        ensures
            T::obeys_eq_spec() && found ==> exists|i: int|
                0 <= i < self@.len() && value.eq_spec(&#[trigger] self@[i]),
            linear_order::<T>() && in_order(self@) ==> found == self@.contains(value),
    {
        let found = find_in(&self.root, value);
        proof {
            if T::obeys_eq_spec() && found {
                let i = choose|i: int|
                    0 <= i < inorder(self.root).len() && value.eq_spec(
                        &#[trigger] inorder(self.root)[i],
                    );
                assert(value.eq_spec(&self@[i]));
            }
        }
        found
    }

    /// Takes one value equal to `value` out of the tree, if a search finds
    /// one, and says whether it did; the other values keep their order.
    pub fn remove(&mut self, value: T) -> (removed: bool)
        ensures
            !removed ==> final(self)@ == old(self)@,
            removed ==> exists|i: int|
                0 <= i < old(self)@.len() && final(self)@ == #[trigger] old(self)@.remove(i) && (
                T::obeys_eq_spec() ==> value.eq_spec(&old(self)@[i])),
            linear_order::<T>() && in_order(old(self)@) ==> removed == old(self)@.contains(value)
                && in_order(final(self)@),
    {
        let ghost before = inorder(self.root);
        let removed = remove_from(&mut self.root, value);
        proof {
            if removed {
                let i = choose|i: int|
                    0 <= i < before.len() && inorder(self.root) == #[trigger] before.remove(i) && (
                    T::obeys_eq_spec() ==> value.eq_spec(&before[i]));
                assert(self@ == old(self)@.remove(i));
                if in_order(before) {
                    lemma_in_order_remove(before, i);
                }
            }
        }
        removed
    }

    /// The leftmost value of the tree.
    pub fn min(&self) -> (least: Option<T>)
        ensures
            match least {
                Some(v) => self@.len() > 0 && v == self@[0],
                None => self@.len() == 0,
            },
    {
        let mut current = &self.root;
        loop
            invariant
                inorder(*current).len() > 0 ==> self@.len() > 0 && inorder(*current)[0] == self@[0],
                inorder(*current).len() == 0 ==> self@.len() == 0,
            decreases inorder(*current).len(),
        {
            match current {
                Some(node) => {
                    match &node.left {
                        Some(_) => {
                            proof {
                                node.left.unwrap().lemma_values();
                                assert(inorder(node.left)[0] == inorder(*current)[0]);
                            }
                            current = &node.left;
                        },
                        None => {
                            proof {
                                node.lemma_values();
                                assert(inorder(node.left) =~= Seq::<T>::empty());
                                assert(inorder(*current)[0] == node.value);
                            }
                            return Some(node.value);
                        },
                    }
                },
                None => {
                    return None;
                },
            }
        }
    }

    /// The rightmost value of the tree.
    pub fn max(&self) -> (greatest: Option<T>)
        ensures
            match greatest {
                Some(v) => self@.len() > 0 && v == self@.last(),
                None => self@.len() == 0,
            },
    {
        let mut current = &self.root;
        loop
            invariant
                inorder(*current).len() > 0 ==> self@.len() > 0 && inorder(*current).last()
                    == self@.last(),
                inorder(*current).len() == 0 ==> self@.len() == 0,
            decreases inorder(*current).len(),
        {
            match current {
                Some(node) => {
                    match &node.right {
                        Some(_) => {
                            proof {
                                node.right.unwrap().lemma_values();
                                assert(inorder(node.right).last() == inorder(*current).last());
                            }
                            current = &node.right;
                        },
                        None => {
                            proof {
                                node.lemma_values();
                                assert(inorder(node.right) =~= Seq::<T>::empty());
                                assert(inorder(*current).last() == node.value);
                            }
                            return Some(node.value);
                        },
                    }
                },
                None => {
                    return None;
                },
            }
        }
    }

    /// A walk over the values from left to right.
    pub fn iter<'a>(&'a self) -> (walk: TreeIntoIterator<'a, T>)
        ensures
            walk.remaining() == self@,
    {
        let mut stack: Vec<(bool, &'a Node<T>)> = Vec::new();
        if let Some(node) = &self.root {
            stack.push((false, &**node));
            proof {
                reveal_with_fuel(pending, 2);
                assert(stack@.drop_last() =~= Seq::empty());
                assert(pending(stack@) =~= self@);
            }
        }
        TreeIntoIterator { stack }
    }
}

/// The values that a walk with the stack `stack` has still to give, from
/// the top of the stack down: below a node not yet entered all its values,
/// below one whose left side is done its own value and its right side.
pub open spec fn pending<T: Copy + PartialOrd>(stack: Seq<(bool, &Node<T>)>) -> Seq<T>
    decreases stack.len(),
{
    if stack.len() == 0 {
        Seq::empty()
    } else {
        let (left_visited, node) = stack.last();
        let here = if left_visited {
            seq![node.spec_value()] + inorder(node.right_side())
        } else {
            node.values()
        };
        here + pending(stack.drop_last())
    }
}

/// The work that a walk with the stack `stack` has still to do.
pub open spec fn burden<T: Copy + PartialOrd>(stack: Seq<(bool, &Node<T>)>) -> nat
    decreases stack.len(),
{
    if stack.len() == 0 {
        0
    } else {
        let (left_visited, node) = stack.last();
        let here = if left_visited {
            1
        } else {
            2 * node.values().len()
        };
        here + burden(stack.drop_last())
    }
}

/// A walk over the values of a tree from left to right.
pub struct TreeIntoIterator<'a, T: Copy + PartialOrd> {
    stack: Vec<(bool, &'a Node<T>)>,
}

impl<'a, T: Copy + PartialOrd> TreeIntoIterator<'a, T> {
    /// The values still to come.
    pub closed spec fn remaining(&self) -> Seq<T> {
        pending(self.stack@)
    }

    /// The next value of the walk.
    pub fn next(&mut self) -> (item: Option<T>)
        ensures
            match item {
                Some(v) => old(self).remaining().len() > 0 && v == old(self).remaining()[0]
                    && final(self).remaining() == old(self).remaining().drop_first(),
                None => old(self).remaining().len() == 0 && final(self).remaining().len() == 0,
            },
    {
        loop
            invariant
                pending(self.stack@) == pending(old(self).stack@),
            decreases burden(self.stack@),
        {
            let ghost before = self.stack@;
            match self.stack.pop() {
                Some((left_visited, node)) => {
                    let ghost rest = self.stack@;
                    proof {
                        assert(before.drop_last() =~= rest);
                        assert(before.last() == (left_visited, node));
                        node.lemma_values();
                    }
                    if left_visited {
                        proof {
                            assert(pending(before) == seq![node.value] + inorder(node.right)
                                + pending(rest));
                        }
                        if let Some(right) = &node.right {
                            self.stack.push((false, &**right));
                            proof {
                                assert(self.stack@.drop_last() =~= rest);
                                assert(self.stack@.last() == (false, &**right));
                                assert(pending(self.stack@) == right.values() + pending(rest));
                            }
                        } else {
                            proof {
                                assert(inorder(node.right) =~= Seq::<T>::empty());
                            }
                        }
                        proof {
                            assert(pending(self.stack@) =~= pending(before).drop_first());
                        }
                        return Some(node.value);
                    } else {
                        proof {
                            assert(pending(before) == node.values() + pending(rest));
                            assert(burden(before) == 2 * node.values().len() + burden(rest));
                        }
                        self.stack.push((true, node));
                        let ghost mid = self.stack@;
                        proof {
                            assert(mid.drop_last() =~= rest);
                            assert(mid.last() == (true, node));
                            assert(pending(mid) == seq![node.value] + inorder(node.right)
                                + pending(rest));
                            assert(burden(mid) == 1 + burden(rest));
                        }
                        if let Some(left) = &node.left {
                            self.stack.push((false, &**left));
                            proof {
                                assert(self.stack@.drop_last() =~= mid);
                                assert(self.stack@.last() == (false, &**left));
                                left.lemma_values();
                                assert(pending(self.stack@) == left.values() + pending(mid));
                                assert(burden(self.stack@) == 2 * left.values().len() + burden(
                                    mid,
                                ));
                            }
                        } else {
                            proof {
                                assert(inorder(node.left) =~= Seq::<T>::empty());
                            }
                        }
                        proof {
                            assert(pending(self.stack@) =~= pending(before));
                        }
                    }
                },
                None => {
                    return None;
                },
            }
        }
    }
}

} // verus!
