//! A trie of words, and a map from words to values on the same tree.

use std::collections::HashMap;
use vstd::prelude::*;
use vstd::string::StrSliceExecFns;

verus! {

/// A node of the tree: the children by the code of their character, and
/// whether a word ends here, with its value.
pub struct TrieNode<T> {
    children: HashMap<u32, TrieNode<T>>,
    is_end_of_word: bool,
    value: Option<T>,
}

/// Sequences that begin alike and go on alike are alike.
proof fn lemma_same_word(w: Seq<char>, rest: Seq<char>)
    requires
        w.len() > 0,
        rest.len() > 0,
        w[0] == rest[0],
        w.skip(1) == rest.skip(1),
    ensures
        w == rest,
{
    assert(w.skip(1).len() == w.len() - 1);
    assert(rest.skip(1).len() == rest.len() - 1);
    assert forall|i: int| 0 <= i < w.len() implies w[i] == rest[i] by {
        if i > 0 {
            assert(w.skip(1)[i - 1] == w[i]);
            assert(rest.skip(1)[i - 1] == rest[i]);
        }
    }
    assert(w =~= rest);
}

/// Characters with the same code are the same.
proof fn lemma_code_tells(a: char, b: char)
    ensures
        a as u32 == b as u32 ==> a == b,
{
    assert((a as u32) as char == a);
    assert((b as u32) as char == b);
}

impl<T> TrieNode<T> {
    /// The node that the characters of `w` lead to from this node, if
    /// there is a child for each of them.
    pub closed spec fn at(&self, w: Seq<char>) -> Option<Self>
        decreases w.len(),
    {
        if w.len() == 0 {
            Some(*self)
        } else if self.children@.contains_key(w[0] as u32) {
            self.children@[w[0] as u32].at(w.skip(1))
        } else {
            None
        }
    }

    /// Whether the tree below this node holds the word `w`.
    pub closed spec fn holds(&self, w: Seq<char>) -> bool {
        match self.at(w) {
            Some(n) => n.is_end_of_word,
            None => false,
        }
    }

    /// The value that the tree below this node holds for the word `w`.
    pub closed spec fn value_at(&self, w: Seq<char>) -> Option<T> {
        match self.at(w) {
            Some(n) => if n.is_end_of_word {
                n.value
            } else {
                None
            },
            None => None,
        }
    }

    /// Whether the characters of `w` lead to a node from this node.
    pub closed spec fn has_path(&self, w: Seq<char>) -> bool {
        self.at(w).is_some()
    }

    /// Whether no word ends at this node and it has no children.
    pub closed spec fn bare(&self) -> bool {
        !self.is_end_of_word && self.children@.len() == 0
    }

    /// A node without children holds at most the empty word, and a bare
    /// node holds nothing.
    proof fn lemma_no_children(&self, w: Seq<char>)
        requires
            self.children@.len() == 0,
        ensures
            w.len() > 0 ==> self.at(w).is_none(),
            self.bare() ==> !self.holds(w),
    {
        if w.len() > 0 {
            if self.children@.contains_key(w[0] as u32) {
                assert(self.children@.dom().contains(w[0] as u32));
                assert(self.children@.dom().len() > 0);
            }
        }
    }

    /// What the characters of a word lead to, told by the first of them.
    proof fn lemma_at(&self, w: Seq<char>)
        ensures
            w.len() == 0 ==> self.at(w) == Some(*self),
            w.len() > 0 && self.children@.contains_key(w[0] as u32) ==> self.at(w)
                == self.children@[w[0] as u32].at(w.skip(1)),
            w.len() > 0 && !self.children@.contains_key(w[0] as u32) ==> self.at(w).is_none(),
    {
    }

    /// A node without children at which no word ends.
    pub fn new() -> (node: Self)
        ensures
            node.bare(),
            forall|w: Seq<char>| !node.holds(w),
            forall|w: Seq<char>| node.value_at(w).is_none(),
    {
        broadcast use vstd::std_specs::hash::group_hash_axioms;

        let node = TrieNode { children: HashMap::new(), is_end_of_word: false, value: None };
        proof {
            assert forall|w: Seq<char>| !node.holds(w) && node.value_at(w).is_none() by {
                node.lemma_no_children(w);
            }
        }
        node
    }

    /// Lets the word that `word` spells from its character `depth` on end
    /// below this node, with the value `value` where one is given.
    fn insert_from(&mut self, word: &str, depth: usize, chars: usize, value: Option<T>)
        requires
            depth <= chars,
            chars == word@.len(),
        ensures
            forall|w: Seq<char>|
                final(self).holds(w) <==> old(self).holds(w) || w == word@.skip(depth as int),
            value.is_some() ==> forall|w: Seq<char>|
                final(self).value_at(w) == if w == word@.skip(depth as int) {
                    value
                } else {
                    old(self).value_at(w)
                },
        decreases chars - depth,
    {
        broadcast use vstd::std_specs::hash::group_hash_axioms;

        let ghost rest = word@.skip(depth as int);
        if depth == chars {
            self.is_end_of_word = true;
            if value.is_some() {
                self.value = value;
            }
            proof {
                assert(rest.len() == 0);
                assert forall|w: Seq<char>| final(self).holds(w) <==> old(self).holds(w) || w
                    == rest by {
                    final(self).lemma_at(w);
                    old(self).lemma_at(w);
                    if w.len() == 0 {
                        assert(w =~= rest);
                    }
                }
                if value.is_some() {
                    assert forall|w: Seq<char>|
                        final(self).value_at(w) == if w == rest {
                            value
                        } else {
                            old(self).value_at(w)
                        } by {
                        final(self).lemma_at(w);
                        old(self).lemma_at(w);
                        if w.len() == 0 {
                            assert(w =~= rest);
                        }
                    }
                }
            }
            return;
        }
        let ch = word.get_char(depth);
        let code = ch as u32;
        let mut child = match self.children.remove(&code) {
            Some(child) => child,
            None => TrieNode::new(),
        };
        let ghost below = child;
        child.insert_from(word, depth + 1, chars, value);
        self.children.insert(code, child);
        proof {
            let deeper = word@.skip(depth + 1);
            assert(rest.skip(1) =~= deeper);
            assert(rest[0] == ch);
            assert forall|w: Seq<char>| final(self).holds(w) <==> old(self).holds(w) || w
                == rest by {
                final(self).lemma_at(w);
                old(self).lemma_at(w);
                if w.len() > 0 && w[0] as u32 == code {
                    lemma_code_tells(w[0], ch);
                    assert(w[0] == ch);
                    assert(child.holds(w.skip(1)) <==> below.holds(w.skip(1)) || w.skip(1)
                        == deeper);
                    if w.skip(1) == deeper {
                        lemma_same_word(w, rest);
                    }
                }
            }
            if value.is_some() {
                assert forall|w: Seq<char>|
                    final(self).value_at(w) == if w == rest {
                        value
                    } else {
                        old(self).value_at(w)
                    } by {
                    final(self).lemma_at(w);
                    old(self).lemma_at(w);
                    if w.len() > 0 && w[0] as u32 == code {
                        lemma_code_tells(w[0], ch);
                    assert(w[0] == ch);
                        assert(child.value_at(w.skip(1)) == if w.skip(1) == deeper {
                            value
                        } else {
                            below.value_at(w.skip(1))
                        });
                        if w.skip(1) == deeper {
                            lemma_same_word(w, rest);
                        }
                    }
                }
            }
        }
    }

    /// The node that the characters of `word` lead to from this node.
    fn walk(&self, word: &str) -> (reached: Option<&Self>)
        ensures
            match reached {
                Some(n) => self.at(word@) == Some(*n),
                None => self.at(word@).is_none(),
            },
    {
        broadcast use vstd::std_specs::hash::group_hash_axioms;

        let chars = word.unicode_len();
        let mut node = self;
        let mut i: usize = 0;
        proof {
            assert(word@.skip(0) =~= word@);
        }
        while i < chars
            invariant
                i <= chars,
                chars == word@.len(),
                self.at(word@) == node.at(word@.skip(i as int)),
            decreases chars - i,
        {
            let code = word.get_char(i) as u32;
            proof {
                node.lemma_at(word@.skip(i as int));
                assert(word@.skip(i as int).skip(1) =~= word@.skip(i + 1));
            }
            match node.children.get(&code) {
                Some(n) => {
                    node = n;
                },
                None => {
                    return None;
                },
            }
            i += 1;
        }
        proof {
            node.lemma_at(word@.skip(i as int));
        }
        Some(node)
    }
}

/// The characters of `word` from `depth` up to the character at which its
/// bytes run out, where that is a character of the word: the word that a
/// deletion looks for. For a word of one-byte characters it is the word
/// itself from `depth` on.
pub open spec fn sought(word: Seq<char>, depth: int, bytes: int) -> Option<Seq<char>> {
    if depth <= bytes <= word.len() {
        Some(word.subrange(depth, bytes))
    } else {
        None
    }
}

impl<T> TrieNode<T> {
    /// Lets the word that `word` spells from its character `depth` on end
    /// here no longer, and says whether this node is bare after that; `None`
    /// where no such word ended here.
    fn delete_from(
        &mut self,
        word: &str,
        depth: usize,
        chars: usize,
        bytes: usize,
        clear_value: bool,
    ) -> (pruned: Option<bool>)
        requires
            depth <= chars,
            chars == word@.len(),
        ensures
            pruned.is_some() == (sought(word@, depth as int, bytes as int) matches Some(t)
                && old(self).holds(t)),
            pruned matches Some(b) ==> b == final(self).bare(),
            forall|w: Seq<char>|
                final(self).holds(w) == (old(self).holds(w) && !(pruned.is_some() && Some(w)
                    == sought(word@, depth as int, bytes as int))),
            forall|w: Seq<char>|
                final(self).value_at(w) == if pruned.is_some() && Some(w) == sought(
                    word@,
                    depth as int,
                    bytes as int,
                ) {
                    None
                } else {
                    old(self).value_at(w)
                },
        decreases chars - depth,
    {
        broadcast use vstd::std_specs::hash::group_hash_axioms;

        let ghost target = sought(word@, depth as int, bytes as int);
        if depth == bytes {
            proof {
                assert(word@.subrange(depth as int, bytes as int) =~= Seq::<char>::empty());
                old(self).lemma_at(Seq::<char>::empty());
            }
            if !self.is_end_of_word {
                return None;
            }
            self.is_end_of_word = false;
            if clear_value {
                self.value = None;
            }
            proof {
                assert forall|w: Seq<char>|
                    final(self).holds(w) == (old(self).holds(w) && Some(w) != target)
                    && final(self).value_at(w) == if Some(w) == target {
                        None
                    } else {
                        old(self).value_at(w)
                    } by {
                    final(self).lemma_at(w);
                    old(self).lemma_at(w);
                    if w.len() == 0 {
                        assert(w =~= Seq::<char>::empty());
                    }
                }
            }
            return Some(self.children.is_empty());
        }
        if depth >= chars {
            return None;
        }
        let ch = word.get_char(depth);
        let code = ch as u32;
        let ghost deeper = sought(word@, depth + 1, bytes as int);
        proof {
            if target.is_some() {
                let t = target.unwrap();
                assert(t[0] == ch);
                assert(t.skip(1) =~= deeper.unwrap());
                old(self).lemma_at(t);
            }
        }
        let ghost before = self.children@;
        match self.children.remove(&code) {
            Some(mut child) => {
                let ghost below = child;
                let ghost without = self.children@;
                proof {
                    assert(before.contains_key(code) && before[code] == below);
                    assert(without == before.remove(code));
                }
                match child.delete_from(word, depth + 1, chars, bytes, clear_value) {
                    Some(delete_child) => {
                        if !delete_child {
                            self.children.insert(code, child);
                        }
                        proof {
                            let t = target.unwrap();
                            assert(self.children@ == if delete_child {
                                without
                            } else {
                                without.insert(code, child)
                            });
                            assert forall|w: Seq<char>|
                                final(self).holds(w) == (old(self).holds(w) && Some(w) != target)
                                && final(self).value_at(w) == if Some(w) == target {
                                    None
                                } else {
                                    old(self).value_at(w)
                                } by {
                                final(self).lemma_at(w);
                                old(self).lemma_at(w);
                                if w.len() > 0 && w[0] as u32 == code {
                                    let x = w.skip(1);
                                    lemma_code_tells(w[0], ch);
                                    if delete_child {
                                        child.lemma_no_children(x);
                                        child.lemma_at(x);
                                        assert(!child.holds(x));
                                        assert(child.value_at(x).is_none());
                                    }
                                    assert(child.holds(x) == (below.holds(x) && Some(x) != deeper));
                                    if Some(x) == deeper {
                                        lemma_same_word(w, t);
                                    } else if Some(w) == target {
                                        assert(t.skip(1) == deeper.unwrap());
                                    }
                                } else if w.len() > 0 {
                                    if Some(w) == target {
                                        assert(w[0] == ch);
                                    }
                                }
                            }
                        }
                        Some(self.children.is_empty() && !self.is_end_of_word)
                    },
                    None => {
                        self.children.insert(code, child);
                        proof {
                            assert(self.children@ == without.insert(code, child));
                            assert forall|w: Seq<char>|
                                final(self).holds(w) == old(self).holds(w) && final(self).value_at(
                                    w,
                                ) == old(self).value_at(w) by {
                                final(self).lemma_at(w);
                                old(self).lemma_at(w);
                                if w.len() > 0 && w[0] as u32 == code {
                                    let x = w.skip(1);
                                    assert(child.holds(x) == below.holds(x));
                                    assert(child.value_at(x) == below.value_at(x));
                                }
                            }
                        }
                        None
                    },
                }
            },
            None => None,
        }
    }
}

/// A set of words, kept by their characters in a tree.
pub struct Trie {
    root: TrieNode<()>,
}

impl TrieNode<()> {
    /// A node without children at which no word ends.
    pub fn default() -> (node: Self)
        ensures
            node.bare(),
            forall|w: Seq<char>| !node.holds(w),
    {
        TrieNode::new()
    }
}

impl Trie {
    /// The words of the set.
    pub closed spec fn words(&self) -> Set<Seq<char>> {
        Set::new(|w: Seq<char>| self.root.holds(w))
    }

    /// Whether the characters of `prefix` lead to a node of the tree.
    pub closed spec fn has_path(&self, prefix: Seq<char>) -> bool {
        self.root.has_path(prefix)
    }

    /// A set without words: no characters lead anywhere from its root.
    pub fn new() -> (trie: Self)
        ensures
            trie.words() == Set::<Seq<char>>::empty(),
            forall|prefix: Seq<char>| #[trigger] trie.has_path(prefix) == (prefix.len() == 0),
    {
        let trie = Trie { root: TrieNode::default() };
        proof {
            assert(trie.words() =~= Set::<Seq<char>>::empty());
            assert forall|prefix: Seq<char>| #[trigger]
                trie.has_path(prefix) == (prefix.len() == 0) by {
                trie.root.lemma_no_children(prefix);
                trie.root.lemma_at(prefix);
            }
        }
        trie
    }

    /// Puts `word` into the set.
    pub fn insert(&mut self, word: &str)
        ensures
            final(self).words() == old(self).words().insert(word@),
    {
        let chars = word.unicode_len();
        self.root.insert_from(word, 0, chars, None);
        proof {
            assert(word@.skip(0) =~= word@);
            assert(final(self).words() =~= old(self).words().insert(word@));
        }
    }

    /// Whether `word` is in the set.
    pub fn search(&self, word: &str) -> (found: bool)
        ensures
            found == self.words().contains(word@),
    {
        match self.root.walk(word) {
            Some(node) => node.is_end_of_word,
            None => false,
        }
    }

    /// Whether the characters of `prefix` lead to a node of the tree.
    pub fn starts_with(&self, prefix: &str) -> (found: bool)
        ensures
            found == self.has_path(prefix@),
    {
        self.root.walk(prefix).is_some()
    }

    /// Takes `word` out of the set, if it is there and has as many bytes as
    /// characters, and says whether it did.
    pub fn delete(&mut self, word: &str) -> (deleted: bool)
        ensures
            deleted == (sought(word@, 0, word.len() as int) matches Some(t) && old(self).words().contains(t)),
            final(self).words() == if deleted {
                old(self).words().remove(sought(word@, 0, word.len() as int).unwrap())
            } else {
                old(self).words()
            },
    {
        let chars = word.unicode_len();
        let bytes = word.len();
        let pruned = self.root.delete_from(word, 0, chars, bytes, false);
        proof {
            if pruned.is_some() {
                assert(final(self).words() =~= old(self).words().remove(
                    sought(word@, 0, bytes as int).unwrap(),
                ));
            } else {
                assert(final(self).words() =~= old(self).words());
            }
        }
        pruned.is_some()
    }
}

/// A map from words to values, kept by the characters of the words in a
/// tree.
pub struct AssociativeArray<T> {
    root: TrieNode<T>,
}

impl<T> View for AssociativeArray<T> {
    type V = Map<Seq<char>, T>;

    /// The values by their words.
    closed spec fn view(&self) -> Map<Seq<char>, T> {
        Map::new(
            |w: Seq<char>| self.root.value_at(w).is_some(),
            |w: Seq<char>| self.root.value_at(w).unwrap(),
        )
    }
}

impl<T> AssociativeArray<T> {
    /// Whether the characters of `prefix` lead to a node of the tree.
    pub closed spec fn has_path(&self, prefix: Seq<char>) -> bool {
        self.root.has_path(prefix)
    }

    pub fn new() -> (array: Self)
        ensures
            array@ == Map::<Seq<char>, T>::empty(),
    {
        let array = AssociativeArray { root: TrieNode::new() };
        assert(array@ =~= Map::<Seq<char>, T>::empty());
        array
    }

    /// Gives `key` the value `value`.
    pub fn insert(&mut self, key: &str, value: T)
        ensures
            final(self)@ == old(self)@.insert(key@, value),
    {
        let chars = key.unicode_len();
        self.root.insert_from(key, 0, chars, Some(value));
        proof {
            assert(key@.skip(0) =~= key@);
            assert(final(self)@ =~= old(self)@.insert(key@, value));
        }
    }

    /// The value of `key`, if it has one.
    pub fn get(&self, key: &str) -> (value: Option<&T>)
        ensures
            match value {
                Some(v) => self@.contains_key(key@) && self@[key@] == *v,
                None => !self@.contains_key(key@),
            },
    {
        match self.root.walk(key) {
            Some(node) => {
                if node.is_end_of_word {
                    node.value.as_ref()
                } else {
                    None
                }
            },
            None => None,
        }
    }

    /// Whether the characters of `prefix` lead to a node of the tree.
    pub fn starts_with(&self, prefix: &str) -> (found: bool)
        ensures
            found == self.has_path(prefix@),
    {
        self.root.walk(prefix).is_some()
    }

    /// Takes `key` out of the map, if a word ends at it and it has as many
    /// bytes as characters, and says whether it did.
    pub fn delete(&mut self, key: &str) -> (deleted: bool)
        ensures
            final(self)@ == if deleted {
                old(self)@.remove(sought(key@, 0, key.len() as int).unwrap())
            } else {
                old(self)@
            },
            deleted ==> sought(key@, 0, key.len() as int).is_some(),
            sought(key@, 0, key.len() as int) matches Some(t) && old(self)@.contains_key(
                t,
            ) ==> deleted,
    {
        let chars = key.unicode_len();
        let bytes = key.len();
        let pruned = self.root.delete_from(key, 0, chars, bytes, true);
        proof {
            if pruned.is_some() {
                assert(final(self)@ =~= old(self)@.remove(sought(key@, 0, bytes as int).unwrap()));
            } else {
                assert(final(self)@ =~= old(self)@);
            }
        }
        pruned.is_some()
    }
}

} // verus!
