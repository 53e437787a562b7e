//! The prefix tree: its nodes, insertion, prefix lookup and the traversal
//! that collects suggestions.

use crate::listing::{
    gathered, lemma_gathered_from_empty, lemma_gathered_none, lemma_gathered_one,
    lemma_gathered_same, lemma_gathered_then, spelled,
};
use crate::words::{completions, with_word};
use std::collections::HashMap;
use std::str::Chars;
use vstd::prelude::*;
use vstd::std_specs::iter::IteratorSpec;

verus! {

/// One symbol position of the tree. A node owns its whole subtree; its
/// children are filed under the scalar value of their symbol.
#[derive(Debug, PartialEq)]
pub struct Node {
    symbol: char,
    terminal: bool,
    children: HashMap<u32, Node>,
}

/// A set of words, kept as a tree in which each path from the root spells a
/// prefix of some stored word. The root is a sentinel: its symbol is unused
/// and it never ends a word.
#[derive(Debug)]
pub struct Trie {
    root: Node,
}

impl Node {
    /// The character this node stands for.
    pub closed spec fn spec_symbol(self) -> char {
        self.symbol
    }

    /// Whether a stored word ends at this node.
    pub closed spec fn spec_terminal(self) -> bool {
        self.terminal
    }

    /// The children of this node, by symbol.
    pub closed spec fn spec_children(self) -> Map<char, Node> {
        Map::new(
            |c: char| self.children@.contains_key(c as u32),
            |c: char| self.children@[c as u32],
        )
    }

    /// The number of children.
    pub closed spec fn spec_child_count(self) -> nat {
        self.children@.len()
    }

    /// Each child is filed under its own symbol, all the way down.
    pub closed spec fn wf(self) -> bool
        decreases self,
    {
        forall|k: u32| #[trigger]
            self.children@.contains_key(k) ==> self.children@[k].symbol as u32 == k
                && self.children@[k].wf()
    }

    /// Whether following `word` from this node ends on a terminal node, that
    /// is, whether `word` is stored below this node.
    pub open spec fn holds(self, word: Seq<char>) -> bool
        decreases word.len(),
    {
        if word.len() == 0 {
            self.spec_terminal()
        } else {
            self.spec_children().contains_key(word[0]) && self.spec_children()[word[0]].holds(
                word.skip(1),
            )
        }
    }

    /// The node reached by following `path` from this node, if every step
    /// has a child to go to.
    pub open spec fn descend(self, path: Seq<char>) -> Option<Node>
        decreases path.len(),
    {
        if path.len() == 0 {
            Some(self)
        } else if self.spec_children().contains_key(path[0]) {
            self.spec_children()[path[0]].descend(path.skip(1))
        } else {
            None
        }
    }

    /// Whether `word` starts with `path` and its remainder is stored below
    /// this node: with this node reached by `path`, whether `word` is one of
    /// the words found in its subtree.
    pub open spec fn completes(self, path: Seq<char>, word: Seq<char>) -> bool {
        path.is_prefix_of(word) && self.holds(word.skip(path.len() as int))
    }

    /// The words that this node, reached by `path`, completes.
    pub open spec fn completing(self, path: Seq<char>) -> spec_fn(Seq<char>) -> bool {
        |word: Seq<char>| self.completes(path, word)
    }

    /// Whether this node heads a bare chain that spells `rest` below
    /// `symbol`: one node per character, the last of them terminal, no other
    /// node and no other terminal mark.
    pub open spec fn spells(self, symbol: char, rest: Seq<char>) -> bool
        decreases rest.len(),
    {
        &&& self.spec_symbol() == symbol
        &&& if rest.len() == 0 {
            &&& self.spec_terminal()
            &&& self.spec_children() == Map::<char, Node>::empty()
        } else {
            &&& !self.spec_terminal()
            &&& self.spec_children().dom() == set![rest[0]]
            &&& self.spec_children()[rest[0]].spells(rest[0], rest.skip(1))
        }
    }

    /// Whether `after` is this node with `word` walked in below it: nodes on
    /// the path of `word` that existed are kept with everything they had,
    /// missing ones are created as a bare chain, the node that ends `word`
    /// is marked terminal, and nothing else differs.
    pub open spec fn grown(self, after: Node, word: Seq<char>) -> bool
        decreases word.len(),
    {
        &&& after.spec_symbol() == self.spec_symbol()
        &&& if word.len() == 0 {
            &&& after.spec_terminal()
            &&& after.spec_children() == self.spec_children()
        } else {
            &&& after.spec_terminal() == self.spec_terminal()
            &&& after.spec_children().contains_key(word[0])
            &&& after.spec_children() == self.spec_children().insert(
                word[0],
                after.spec_children()[word[0]],
            )
            &&& if self.spec_children().contains_key(word[0]) {
                self.spec_children()[word[0]].grown(after.spec_children()[word[0]], word.skip(1))
            } else {
                after.spec_children()[word[0]].spells(word[0], word.skip(1))
            }
        }
    }

    /// A node for `symbol` without children.
    pub fn new(symbol: char, terminal: bool) -> (node: Node)
        ensures
            node.wf(),
            node.spec_symbol() == symbol,
            node.spec_terminal() == terminal,
            node.spec_children() == Map::<char, Node>::empty(),
            node.spec_child_count() == 0,
    {
        let node = Node { symbol, terminal, children: HashMap::new() };
        assert(node.spec_children() =~= Map::<char, Node>::empty());
        node
    }

    /// This node with `child` attached under the child's symbol, in place of
    /// any child that was there for that symbol.
    pub fn with_child(self, child: Node) -> (node: Node)
        ensures
            node.spec_symbol() == self.spec_symbol(),
            node.spec_terminal() == self.spec_terminal(),
            node.spec_children() == self.spec_children().insert(child.spec_symbol(), child),
            node.spec_child_count() == self.spec_child_count() + (if self.spec_children().contains_key(
                child.spec_symbol(),
            ) {
                0nat
            } else {
                1nat
            }),
            self.wf() && child.wf() ==> node.wf(),
    {
        broadcast use vstd::std_specs::hash::group_hash_axioms;

        let ghost symbol = child.symbol;
        let key = child.symbol as u32;
        let mut node = self;
        node.children.insert(key, child);
        proof {
            let attached = self.spec_children().insert(symbol, child);
            assert forall|d: char| #[trigger]
                node.spec_children().contains_key(d) == attached.contains_key(d) && (
                node.spec_children().contains_key(d) ==> node.spec_children()[d] == attached[d]) by {
                if d as u32 == key {
                    lemma_key_injective(d, symbol);
                }
            }
            assert(node.spec_children() =~= attached);
            if self.wf() && child.wf() {
                assert forall|k: u32| #[trigger]
                    node.children@.contains_key(k) implies node.children@[k].symbol as u32 == k
                    && node.children@[k].wf() by {
                    if k != key {
                        assert(self.children@.contains_key(k));
                    }
                }
            }
        }
        node
    }

    /// The character this node stands for.
    pub fn symbol(&self) -> (symbol: char)
        ensures
            symbol == self.spec_symbol(),
    {
        self.symbol
    }

    /// Whether a stored word ends at this node.
    pub fn is_terminal(&self) -> (terminal: bool)
        ensures
            terminal == self.spec_terminal(),
    {
        self.terminal
    }

    /// The child for `symbol`, if there is one.
    pub fn child(&self, symbol: char) -> (found: Option<&Node>)
        ensures
            match found {
                Some(node) => self.spec_children().contains_key(symbol)
                    && self.spec_children()[symbol] == *node,
                None => !self.spec_children().contains_key(symbol),
            },
    {
        broadcast use vstd::std_specs::hash::group_hash_axioms;

        let key = symbol as u32;
        self.children.get(&key)
    }

    /// The number of children.
    pub fn child_count(&self) -> (count: usize)
        ensures
            count == self.spec_child_count(),
    {
        broadcast use vstd::std_specs::hash::group_hash_axioms;

        self.children.len()
    }
}

impl View for Trie {
    type V = Set<Seq<char>>;

    /// The stored words.
    open spec fn view(&self) -> Set<Seq<char>> {
        Set::new(|word: Seq<char>| self.spec_root().holds(word))
    }
}

impl Trie {
    /// The sentinel node from which every stored word is spelled.
    pub closed spec fn spec_root(self) -> Node {
        self.root
    }

    /// The tree is well formed below the root, the root ends no word, and
    /// every other node lies on the path of a stored word: whatever leads to
    /// a node is a prefix of some stored word.
    pub closed spec fn wf(self) -> bool {
        &&& self.root.wf()
        &&& !self.root.terminal
        &&& forall|path: Seq<char>|
            path.len() > 0 && (#[trigger] self.root.descend(path)) is Some ==> exists|
                word: Seq<char>,
            | #[trigger] self.root.holds(word) && path.is_prefix_of(word)
    }

    /// An empty tree: the sentinel root and nothing below it.
    pub fn new() -> (trie: Trie)
        ensures
            trie.wf(),
            trie@ == Set::<Seq<char>>::empty(),
            trie.spec_root().spec_symbol() == ' ',
            !trie.spec_root().spec_terminal(),
            trie.spec_root().spec_children() == Map::<char, Node>::empty(),
    {
        let trie = Trie { root: Node::new(' ', false) };
        assert(trie@ =~= Set::<Seq<char>>::empty());
        trie
    }

    /// The sentinel node, for reading the shape of the tree.
    pub fn root(&self) -> (node: &Node)
        ensures
            *node == self.spec_root(),
            self.wf() ==> node.wf() && !node.spec_terminal(),
    {
        &self.root
    }

    /// Stores `word`. From the root, the child for each character in turn is
    /// looked up, or created where it is missing, and the node reached by
    /// the last character is marked terminal. Nodes that existed keep their
    /// subtree and their mark. The empty word is not stored: the tree stays
    /// as it is.
    pub fn add_word(&mut self, word: &str)
        requires
            old(self).wf(),
        ensures
            final(self).wf(),
            final(self)@ == with_word(old(self)@, word@),
            word@.len() == 0 ==> *final(self) == *old(self),
            word@.len() > 0 ==> old(self).spec_root().grown(final(self).spec_root(), word@),
    {
        broadcast use vstd::string::group_string_axioms;
        broadcast use vstd::std_specs::hash::group_hash_axioms;

        if word.is_empty() {
            assert(self@ =~= with_word(self@, word@));
            return ;
        }
        let mut current_node = &mut self.root;
        assert(word@.skip(0) =~= word@);
        for letter in it: word.chars()
            invariant
                it.seq() == word@,
                current_node.wf(),
                (final(current_node).wf() && current_node.grown(
                    *final(current_node),
                    word@.skip(it.index()),
                )) ==> (after_borrow(self.root).wf() && old(self).root.grown(
                    after_borrow(self.root),
                    word@,
                )),
        {
            let ghost before = *current_node;
            let ghost before_ref = current_node;
            let ghost rest = word@.skip(it.index());
            current_node = current_node.children.entry(letter as u32).or_insert(
                Node::new(letter, false),
            );
            proof {
                assert(letter == rest[0]);
                assert(rest.skip(1) =~= word@.skip(it.index() + 1));
                assert((final(current_node).wf() && current_node.grown(
                    *final(current_node),
                    rest.skip(1),
                )) ==> (final(before_ref).wf() && before.grown(*final(before_ref), rest))) by {
                    if final(current_node).wf() && current_node.grown(
                        *final(current_node),
                        rest.skip(1),
                    ) {
                        before.lemma_grow_step(
                            *final(before_ref),
                            *current_node,
                            *final(current_node),
                            rest,
                        );
                    }
                }
            }
        }
        let ghost before = *current_node;
        current_node.terminal = true;
        proof {
            assert(word@.skip(word@.len() as int) =~= Seq::<char>::empty());
            before.lemma_mark_terminal(*current_node);
            assert forall|other: Seq<char>|
                self.root.holds(other) <==> (old(self).root.holds(other) || other == word@) by {
                old(self).root.lemma_grown_words(self.root, word@, other);
            }
            assert(self@ =~= with_word(old(self)@, word@));
            assert forall|path: Seq<char>|
                path.len() > 0 && (#[trigger] self.root.descend(path)) is Some implies exists|
                other: Seq<char>,
            | #[trigger] self.root.holds(other) && path.is_prefix_of(other) by {
                old(self).root.lemma_grown_paths(self.root, word@, path);
                if old(self).root.descend(path) is Some {
                    let stored = choose|stored: Seq<char>| #[trigger]
                        old(self).root.holds(stored) && path.is_prefix_of(stored);
                    assert(self.root.holds(stored));
                } else {
                    assert(self.root.holds(word@));
                }
            }
        }
    }

    /// Lists the stored words that start with `prefix`, each of them once, in
    /// no particular order. The prefix itself is listed where it is a stored
    /// word; with the empty prefix every stored word is listed. Where no
    /// stored word starts with `prefix` the list is empty.
    pub fn get_suggestions(&self, prefix: &str) -> (suggestions: Vec<String>)
        requires
            self.wf(),
        ensures
            spelled(suggestions@).no_duplicates(),
            spelled(suggestions@).to_set() == completions(self@, prefix@),
            completions(self@, prefix@).finite(),
            suggestions@.len() == completions(self@, prefix@).len(),
            forall|i: int|
                0 <= i < suggestions@.len() ==> self@.contains(#[trigger] suggestions@[i]@)
                    && prefix@.is_prefix_of(suggestions@[i]@),
            (forall|word: Seq<char>| self@.contains(word) ==> !prefix@.is_prefix_of(word))
                ==> suggestions@.len() == 0,
            prefix@.len() > 0 ==> (suggestions@.len() > 0 <==> self.spec_root().descend(prefix@)
                is Some),
    {
        broadcast use vstd::string::group_string_axioms;

        let Some(prefix_node) = Self::find_prefix_node(&self.root, prefix.chars()) else {
            let suggestions: Vec<String> = Vec::new();
            proof {
                assert forall|word: Seq<char>| !completions(self@, prefix@).contains(word) by {
                    if prefix@.is_prefix_of(word) {
                        self.root.lemma_descend_holds(prefix@, word);
                    }
                }
                assert(completions(self@, prefix@) =~= Set::<Seq<char>>::empty());
                assert(spelled(suggestions@).to_set() =~= Set::<Seq<char>>::empty());
            }
            return suggestions;
        };
        let mut suggestions: Vec<String> = Vec::new();
        let mut path = prefix.to_string();
        proof {
            self.root.lemma_descend_wf(prefix@);
            assert(suggestions@.take(0) =~= Seq::<String>::empty());
        }
        match path.pop() {
            Some(_) => {
                Self::dfs_words(prefix_node, path, &mut suggestions);
                proof {
                    self.root.lemma_descend_symbol(prefix@);
                    assert(path@.push(prefix_node.symbol) =~= prefix@);
                }
            },
            None => {
                // The prefix is empty and `prefix_node` is the root, whose
                // symbol stands for nothing: only what lies below it counts.
                let children = prefix_node.children.iter();
                let ghost items = children.remaining();
                proof {
                    prefix_node.lemma_lists(items);
                    prefix_node.lemma_gathered_self(items, prefix@, suggestions@, suggestions@);
                }
                for entry in it: children
                    invariant
                        it.seq() == items,
                        path@ == prefix@,
                        prefix_node.wf(),
                        prefix_node.lists(items),
                        gathered(
                            Seq::<String>::empty(),
                            suggestions@,
                            prefix_node.completing_within(items, it.index(), prefix@),
                        ),
                {
                    let ghost before = suggestions@;
                    Self::dfs_words(entry.1, path.clone(), &mut suggestions);
                    proof {
                        prefix_node.lemma_gathered_child(
                            items,
                            it.index(),
                            prefix@,
                            Seq::<String>::empty(),
                            before,
                            suggestions@,
                        );
                    }
                }
                proof {
                    prefix_node.lemma_gathered_children(
                        items,
                        prefix@,
                        Seq::<String>::empty(),
                        suggestions@,
                    );
                }
            },
        }
        proof {
            let accept = prefix_node.completing(prefix@);
            lemma_gathered_from_empty(suggestions@, accept);
            assert forall|word: Seq<char>| accept(word) <==> completions(self@, prefix@).contains(
                word,
            ) by {
                if prefix@.is_prefix_of(word) {
                    self.root.lemma_descend_holds(prefix@, word);
                }
            }
            assert(Set::new(accept) =~= completions(self@, prefix@));
            assert forall|i: int| 0 <= i < suggestions@.len() implies self@.contains(
                #[trigger] suggestions@[i]@,
            ) && prefix@.is_prefix_of(suggestions@[i]@) by {
                assert(accept(suggestions@[i]@));
                assert(completions(self@, prefix@).contains(suggestions@[i]@));
            }
            if suggestions@.len() > 0 {
                assert(self@.contains(suggestions@[0]@) && prefix@.is_prefix_of(suggestions@[0]@));
            }
            if prefix@.len() > 0 {
                self.lemma_path_has_completion(prefix@);
                let word = choose|word: Seq<char>| #[trigger]
                    self@.contains(word) && prefix@.is_prefix_of(word);
                assert(spelled(suggestions@).to_set().contains(word));
            }
        }
        suggestions
    }

    /// Follows the characters that `chars` has yet to yield, from
    /// `previous_node` down, and returns the node they lead to, or `None`
    /// where a character has no child to go to.
    pub fn find_prefix_node<'a>(previous_node: &'a Node, mut chars: Chars) -> (found: Option<
        &'a Node,
    >)
        ensures
            match found {
                Some(node) => previous_node.descend(chars.remaining()) == Some(*node),
                None => previous_node.descend(chars.remaining()) is None,
            },
        decreases previous_node,
    {
        broadcast use vstd::string::group_string_axioms;
        broadcast use vstd::std_specs::hash::group_hash_axioms;

        let ghost path = chars.remaining();
        let Some(letter) = chars.next() else {
            return Some(previous_node);
        };
        let key = letter as u32;
        let Some(next_node) = previous_node.children.get(&key) else {
            return None;
        };
        assert(chars.remaining() == path.skip(1));
        Self::find_prefix_node(next_node, chars)
    }

    /// Appends to `suggestions` every word that ends in the subtree of `node`,
    /// `node` itself included. `path` is what leads from the root to the
    /// parent of `node`: the symbol of `node` is appended to it first, so each
    /// word is `path`, then the symbol of `node`, then the symbols down to a
    /// terminal node. Each such word is appended once. The order is that in
    /// which the children come up and is not determined.
    pub fn dfs_words(node: &Node, mut path: String, suggestions: &mut Vec<String>)
        requires
            node.wf(),
        ensures
            gathered(
                old(suggestions)@,
                final(suggestions)@,
                node.completing(path@.push(node.spec_symbol())),
            ),
        decreases node,
    {
        broadcast use vstd::std_specs::hash::group_hash_axioms;

        let ghost start = suggestions@;
        path.push(node.symbol);
        let ghost here = path@;

        if node.terminal {
            suggestions.push(path.clone());
            assert(suggestions@.drop_last() =~= start);
        }
        let children = node.children.iter();
        let ghost items = children.remaining();
        proof {
            node.lemma_lists(items);
            node.lemma_gathered_self(items, here, start, suggestions@);
        }
        for entry in it: children
            invariant
                it.seq() == items,
                path@ == here,
                node.wf(),
                node.lists(items),
                gathered(start, suggestions@, node.completing_within(items, it.index(), here)),
        {
            let ghost before = suggestions@;
            Self::dfs_words(entry.1, path.clone(), suggestions);
            proof {
                node.lemma_gathered_child(items, it.index(), here, start, before, suggestions@);
            }
        }
        proof {
            node.lemma_gathered_children(items, here, start, suggestions@);
        }
    }
}

impl Node {
    /// The children of a well-formed node are well formed and carry the
    /// symbol they are filed under.
    pub proof fn lemma_child_wf(self, symbol: char)
        requires
            self.wf(),
            self.spec_children().contains_key(symbol),
        ensures
            self.spec_children()[symbol].wf(),
            self.spec_children()[symbol].spec_symbol() == symbol,
    {
        let child = self.children@[symbol as u32];
        assert(self.children@.contains_key(symbol as u32));
        lemma_key_injective(child.symbol, symbol);
    }

    /// In a well-formed node the children counted are the children that can
    /// be looked up by symbol.
    pub proof fn lemma_child_count(self)
        requires
            self.wf(),
        ensures
            self.spec_children().dom().finite(),
            self.spec_child_count() == self.spec_children().dom().len(),
    {
        broadcast use vstd::std_specs::hash::group_hash_axioms;

        let keys = self.children@.dom();
        let symbols = self.spec_children().dom();
        let to_symbol = |k: u32| self.children@[k].symbol;
        assert forall|j: u32, k: u32|
            keys.contains(j) && keys.contains(k) && to_symbol(j) == to_symbol(k) implies j == k by {
            assert(self.children@.contains_key(j) && self.children@.contains_key(k));
        }
        assert forall|c: char| keys.map(to_symbol).contains(c) <==> symbols.contains(c) by {
            if keys.map(to_symbol).contains(c) {
                let k = choose|k: u32| keys.contains(k) && to_symbol(k) == c;
                assert(self.children@.contains_key(k));
            }
            if symbols.contains(c) {
                assert(self.children@.contains_key(c as u32));
                lemma_key_injective(to_symbol(c as u32), c);
                assert(keys.contains(c as u32) && to_symbol(c as u32) == c);
            }
        }
        assert(keys.map(to_symbol) =~= symbols);
        vstd::set_lib::lemma_map_size(keys, symbols, to_symbol);
    }

    /// Every node below a well-formed node is well formed.
    pub proof fn lemma_descend_wf(self, path: Seq<char>)
        requires
            self.wf(),
        ensures
            self.descend(path) matches Some(node) ==> node.wf(),
        decreases path.len(),
    {
        if path.len() > 0 && self.spec_children().contains_key(path[0]) {
            self.lemma_child_wf(path[0]);
            self.spec_children()[path[0]].lemma_descend_wf(path.skip(1));
        }
    }

    /// The node that a non-empty path leads to, from a well-formed node,
    /// carries the last character of the path.
    pub proof fn lemma_descend_symbol(self, path: Seq<char>)
        requires
            self.wf(),
            path.len() > 0,
        ensures
            self.descend(path) matches Some(node) ==> node.spec_symbol() == path.last(),
        decreases path.len(),
    {
        if self.spec_children().contains_key(path[0]) {
            self.lemma_child_wf(path[0]);
            let child = self.spec_children()[path[0]];
            if path.len() == 1 {
                assert(child.descend(path.skip(1)) == Some(child));
            } else {
                child.lemma_descend_symbol(path.skip(1));
                assert(path.skip(1).last() == path.last());
            }
        }
    }

    /// A word that starts with `path` is stored below this node exactly when
    /// `path` leads to a node and the rest of the word is stored below that
    /// one.
    pub proof fn lemma_descend_holds(self, path: Seq<char>, word: Seq<char>)
        requires
            path.is_prefix_of(word),
        ensures
            self.holds(word) <==> (self.descend(path) matches Some(node) && node.completes(
                path,
                word,
            )),
        decreases path.len(),
    {
        if path.len() == 0 {
            assert(word.skip(0) =~= word);
        } else {
            assert(word[0] == path[0]);
            assert(path.skip(1).is_prefix_of(word.skip(1)));
            assert(word.skip(1).skip(path.skip(1).len() as int) =~= word.skip(path.len() as int));
            if self.spec_children().contains_key(path[0]) {
                self.spec_children()[path[0]].lemma_descend_holds(path.skip(1), word.skip(1));
            }
        }
    }

    /// A bare chain stores exactly the word it spells.
    pub proof fn lemma_spells_words(self, symbol: char, rest: Seq<char>, word: Seq<char>)
        requires
            self.spells(symbol, rest),
        ensures
            self.holds(word) <==> word == rest,
        decreases rest.len(),
    {
        if rest.len() == 0 {
            if word.len() == 0 {
                assert(word =~= rest);
            }
        } else if word.len() > 0 {
            if self.spec_children().contains_key(word[0]) {
                assert(self.spec_children().dom().contains(word[0]));
                assert(word[0] == rest[0]);
                self.spec_children()[rest[0]].lemma_spells_words(
                    rest[0],
                    rest.skip(1),
                    word.skip(1),
                );
                if word.skip(1) == rest.skip(1) {
                    assert(word =~= seq![word[0]] + word.skip(1));
                    assert(rest =~= seq![rest[0]] + rest.skip(1));
                }
            } else {
                assert(self.spec_children().dom().contains(rest[0]));
            }
        }
    }

    /// Walking a word in adds that word to what is stored below the node and
    /// changes nothing else.
    pub proof fn lemma_grown_words(self, after: Node, word: Seq<char>, other: Seq<char>)
        requires
            self.grown(after, word),
        ensures
            after.holds(other) <==> (self.holds(other) || other == word),
        decreases word.len(),
    {
        if word.len() == 0 {
            if other.len() == 0 {
                assert(other =~= word);
            }
        } else if other.len() > 0 {
            if other[0] == word[0] {
                let grown_child = after.spec_children()[word[0]];
                if self.spec_children().contains_key(word[0]) {
                    self.spec_children()[word[0]].lemma_grown_words(
                        grown_child,
                        word.skip(1),
                        other.skip(1),
                    );
                } else {
                    grown_child.lemma_spells_words(word[0], word.skip(1), other.skip(1));
                }
                if other.skip(1) == word.skip(1) {
                    assert(other =~= seq![other[0]] + other.skip(1));
                    assert(word =~= seq![word[0]] + word.skip(1));
                }
            }
        }
    }

    /// Walking a word in removes no node and clears no mark: whatever path
    /// led to a node before still leads to a node with the same symbol, and
    /// a terminal node stays terminal.
    pub proof fn lemma_grown_keeps(self, after: Node, word: Seq<char>, path: Seq<char>)
        requires
            self.grown(after, word),
        ensures
            self.descend(path) matches Some(node) ==> (after.descend(path) matches Some(kept)
                && kept.spec_symbol() == node.spec_symbol() && (node.spec_terminal()
                ==> kept.spec_terminal())),
        decreases path.len(),
    {
        if path.len() > 0 && self.spec_children().contains_key(path[0]) {
            if word.len() > 0 && path[0] == word[0] {
                self.spec_children()[path[0]].lemma_grown_keeps(
                    after.spec_children()[path[0]],
                    word.skip(1),
                    path.skip(1),
                );
            } else {
                assert(after.spec_children()[path[0]] == self.spec_children()[path[0]]);
            }
        }
    }

    /// Whatever leads to a node of a bare chain is a prefix of the word that
    /// the chain spells.
    pub proof fn lemma_spells_paths(self, symbol: char, rest: Seq<char>, path: Seq<char>)
        requires
            self.spells(symbol, rest),
            self.descend(path) is Some,
        ensures
            path.is_prefix_of(rest),
        decreases path.len(),
    {
        if path.len() > 0 {
            assert(self.spec_children().dom().contains(path[0]));
            assert(rest.len() > 0 && path[0] == rest[0]);
            self.spec_children()[rest[0]].lemma_spells_paths(rest[0], rest.skip(1), path.skip(1));
            assert(path =~= seq![path[0]] + path.skip(1));
            assert(rest.take(path.len() as int) =~= seq![rest[0]] + rest.skip(1).take(
                path.len() - 1,
            ));
        }
    }

    /// Walking a word in creates nodes on the path of that word only: what
    /// leads to a node afterwards led to one before, or is a prefix of the
    /// word.
    pub proof fn lemma_grown_paths(self, after: Node, word: Seq<char>, path: Seq<char>)
        requires
            self.grown(after, word),
            after.descend(path) is Some,
        ensures
            self.descend(path) is Some || path.is_prefix_of(word),
        decreases path.len(),
    {
        if path.len() > 0 {
            let c = path[0];
            assert(after.spec_children().contains_key(c));
            if word.len() > 0 && c == word[0] {
                let grown_child = after.spec_children()[c];
                if self.spec_children().contains_key(c) {
                    self.spec_children()[c].lemma_grown_paths(
                        grown_child,
                        word.skip(1),
                        path.skip(1),
                    );
                } else {
                    grown_child.lemma_spells_paths(c, word.skip(1), path.skip(1));
                }
                if path.skip(1).is_prefix_of(word.skip(1)) {
                    assert(path =~= seq![path[0]] + path.skip(1));
                    assert(word.take(path.len() as int) =~= seq![word[0]] + word.skip(1).take(
                        path.len() - 1,
                    ));
                }
            } else {
                assert(self.spec_children().contains_key(c));
                assert(after.spec_children()[c] == self.spec_children()[c]);
            }
        }
    }
}

impl Trie {
    /// The root of a well-formed tree is a well-formed node without a
    /// terminal mark.
    pub proof fn lemma_root_wf(self)
        requires
            self.wf(),
        ensures
            self.spec_root().wf(),
            !self.spec_root().spec_terminal(),
    {
    }

    /// Every node but the root lies on the path of a stored word: a
    /// non-empty prefix that leads to a node has a completion.
    pub proof fn lemma_path_has_completion(self, path: Seq<char>)
        requires
            self.wf(),
            path.len() > 0,
            self.spec_root().descend(path) is Some,
        ensures
            exists|word: Seq<char>| #[trigger] self@.contains(word) && path.is_prefix_of(word),
            completions(self@, path) != Set::<Seq<char>>::empty(),
    {
        let word = choose|word: Seq<char>| #[trigger]
            self.root.holds(word) && path.is_prefix_of(word);
        assert(self@.contains(word));
        assert(completions(self@, path).contains(word));
    }

    /// The empty word is never stored.
    pub proof fn lemma_empty_word_absent(self)
        requires
            self.wf(),
        ensures
            !self@.contains(Seq::<char>::empty()),
    {
    }

    /// A word is stored exactly when its characters lead from the root to a
    /// terminal node.
    pub proof fn lemma_stored_path(self, word: Seq<char>)
        ensures
            self@.contains(word) <==> (self.spec_root().descend(word) matches Some(node)
                && node.spec_terminal()),
    {
        self.root.lemma_descend_holds(word, word);
        assert(word.skip(word.len() as int).len() == 0);
    }
}

/// Two characters with the same scalar value are the same character.
proof fn lemma_key_injective(a: char, b: char)
    requires
        a as u32 == b as u32,
    ensures
        a == b,
{
}

impl Node {
    /// A node without children and without a terminal mark grows into a bare
    /// chain.
    proof fn lemma_blank_grown(self, after: Node, word: Seq<char>)
        requires
            self.spec_children() == Map::<char, Node>::empty(),
            !self.spec_terminal() || word.len() == 0,
            self.grown(after, word),
        ensures
            after.spells(self.spec_symbol(), word),
    {
        if word.len() > 0 {
            assert(after.spec_children().dom() =~= set![word[0]]);
        }
    }

    /// Marking a node terminal walks the empty word in.
    proof fn lemma_mark_terminal(self, marked: Node)
        requires
            self.wf(),
            marked.symbol == self.symbol,
            marked.terminal,
            marked.children == self.children,
        ensures
            marked.wf(),
            self.grown(marked, Seq::<char>::empty()),
    {
        assert(marked.spec_children() =~= self.spec_children());
    }

    /// One step of an insertion: where the child for the first character of
    /// `rest` grows by the remainder of `rest`, the node grows by `rest`.
    proof fn lemma_grow_step(self, fin: Node, child: Node, fin_child: Node, rest: Seq<char>)
        requires
            self.wf(),
            rest.len() > 0,
            self.children@.contains_key(rest[0] as u32) ==> child == self.children@[rest[0] as u32],
            !self.children@.contains_key(rest[0] as u32) ==> {
                &&& child.symbol == rest[0]
                &&& !child.terminal
                &&& child.spec_children() == Map::<char, Node>::empty()
            },
            fin.symbol == self.symbol,
            fin.terminal == self.terminal,
            fin.children@ == self.children@.insert(rest[0] as u32, fin_child),
            fin_child.wf(),
            child.grown(fin_child, rest.skip(1)),
        ensures
            fin.wf(),
            self.grown(fin, rest),
    {
        let c = rest[0];
        let k = c as u32;
        assert(child.symbol == c) by {
            if self.children@.contains_key(k) {
                lemma_key_injective(child.symbol, c);
            }
        }
        assert forall|j: u32| #[trigger] fin.children@.contains_key(j) implies fin.children@[j].symbol as u32
            == j && fin.children@[j].wf() by {
            if j != k {
                assert(self.children@.contains_key(j));
            }
        }
        let grown_children = self.spec_children().insert(c, fin_child);
        assert forall|d: char| #[trigger]
            fin.spec_children().contains_key(d) == grown_children.contains_key(d) && (
            fin.spec_children().contains_key(d) ==> fin.spec_children()[d] == grown_children[d]) by {
            if d as u32 == k {
                lemma_key_injective(d, c);
            }
        }
        assert(fin.spec_children() =~= grown_children);
        if !self.children@.contains_key(k) {
            child.lemma_blank_grown(fin_child, rest.skip(1));
        }
    }

    /// Whether `items` lists the children of this node, each of them once.
    spec fn lists(self, items: Seq<(&u32, &Node)>) -> bool {
        &&& forall|j: int|
            0 <= j < items.len() ==> self.children@.contains_key(*(#[trigger] items[j]).0)
                && self.children@[*items[j].0] == *items[j].1
        &&& forall|k: u32| #[trigger]
            self.children@.contains_key(k) ==> exists|j: int|
                0 <= j < items.len() && *(#[trigger] items[j]).0 == k
        &&& forall|i: int, j: int|
            0 <= i < j < items.len() ==> *(#[trigger] items[i]).0 != *(#[trigger] items[j]).0
    }

    /// What iterating over the children yields lists them.
    proof fn lemma_lists(self, items: Seq<(&u32, &Node)>)
        requires
            items == vstd::std_specs::hash::spec_hash_map_iter(&self.children).remaining(),
            items.no_duplicates(),
        ensures
            self.lists(items),
    {
        broadcast use vstd::std_specs::hash::group_hash_axioms;

        let m = self.children@;
        assert forall|j: int| 0 <= j < items.len() implies m.contains_key(*(#[trigger] items[j]).0)
            && m[*items[j].0] == *items[j].1 by {
            assert(m.contains_key(*items[j].0) && m[*items[j].0] == *items[j].1);
        }
        assert forall|k: u32| #[trigger] m.contains_key(k) implies exists|j: int|
            0 <= j < items.len() && *(#[trigger] items[j]).0 == k by {
            assert(items.contains((&k, &m[k])));
            let j = choose|j: int| 0 <= j < items.len() && items[j] == (&k, &m[k]);
            assert(*items[j].0 == k);
        }
        assert forall|i: int, j: int| 0 <= i < j < items.len() implies *(#[trigger] items[i]).0 != *(
        #[trigger] items[j]).0 by {
            if *items[i].0 == *items[j].0 {
                assert(m[*items[i].0] == *items[i].1);
                assert(m[*items[j].0] == *items[j].1);
                assert(items[i] == items[j]);
            }
        }
    }

    /// As `completes`, with only the first `n` children of `items` taken
    /// into account.
    spec fn completes_within(
        self,
        items: Seq<(&u32, &Node)>,
        n: int,
        path: Seq<char>,
        word: Seq<char>,
    ) -> bool {
        &&& path.is_prefix_of(word)
        &&& if word.len() == path.len() {
            self.terminal
        } else {
            exists|j: int|
                0 <= j < n && *(#[trigger] items[j]).0 == word[path.len() as int] as u32
                    && items[j].1.holds(word.skip(path.len() as int + 1))
        }
    }

    /// The words completed within the first `n` children of `items`.
    spec fn completing_within(self, items: Seq<(&u32, &Node)>, n: int, path: Seq<char>) -> spec_fn(
        Seq<char>,
    ) -> bool {
        |word: Seq<char>| self.completes_within(items, n, path, word)
    }

    /// What a child completes from the path extended by its symbol, seen
    /// from the parent's path.
    proof fn lemma_completes_push(self, path: Seq<char>, word: Seq<char>)
        ensures
            self.completes(path.push(self.symbol), word) <==> {
                &&& path.is_prefix_of(word)
                &&& word.len() > path.len()
                &&& word[path.len() as int] == self.symbol
                &&& self.holds(word.skip(path.len() as int + 1))
            },
    {
        let next = path.push(self.symbol);
        if next.is_prefix_of(word) {
            assert(path =~= next.take(path.len() as int));
            assert(word[path.len() as int] == next[path.len() as int]);
        }
        if path.is_prefix_of(word) && word.len() > path.len() && word[path.len() as int]
            == self.symbol {
            assert(next =~= word.take(next.len() as int));
        }
    }

    /// Before any child is visited, the node completes its own path, where
    /// it is terminal, and nothing else.
    proof fn lemma_within_none(self, items: Seq<(&u32, &Node)>, path: Seq<char>, word: Seq<char>)
        ensures
            self.completes_within(items, 0, path, word) <==> (self.terminal && word == path),
    {
        if path.is_prefix_of(word) && word.len() == path.len() {
            assert(word =~= path);
        }
    }

    /// Visiting one more child adds what that child completes, and none of
    /// it was there before.
    proof fn lemma_within_next(
        self,
        items: Seq<(&u32, &Node)>,
        n: int,
        path: Seq<char>,
        word: Seq<char>,
    )
        requires
            self.wf(),
            self.lists(items),
            0 <= n < items.len(),
        ensures
            self.completes_within(items, n + 1, path, word) <==> (self.completes_within(
                items,
                n,
                path,
                word,
            ) || items[n].1.completes(path.push(items[n].1.symbol), word)),
            !(self.completes_within(items, n, path, word) && items[n].1.completes(
                path.push(items[n].1.symbol),
                word,
            )),
    {
        let child = *items[n].1;
        let key = *items[n].0;
        assert(self.children@.contains_key(key) && self.children@[key] == child);
        assert(child.symbol as u32 == key);
        child.lemma_completes_push(path, word);
        if path.is_prefix_of(word) && word.len() > path.len() {
            let c = word[path.len() as int];
            if c as u32 == key {
                lemma_key_injective(c, child.symbol);
            }
            if self.completes_within(items, n + 1, path, word) && !self.completes_within(
                items,
                n,
                path,
                word,
            ) {
                let j = choose|j: int|
                    0 <= j < n + 1 && *(#[trigger] items[j]).0 == c as u32 && items[j].1.holds(
                        word.skip(path.len() as int + 1),
                    );
                assert(j == n);
            }
            if child.completes(path.push(child.symbol), word) {
                assert(*items[n].0 == c as u32);
            }
        }
    }

    /// Once every child is visited, nothing is left out.
    proof fn lemma_within_all(self, items: Seq<(&u32, &Node)>, path: Seq<char>, word: Seq<char>)
        requires
            self.lists(items),
        ensures
            self.completes_within(items, items.len() as int, path, word) <==> self.completes(
                path,
                word,
            ),
    {
        if path.is_prefix_of(word) {
            let rest = word.skip(path.len() as int);
            if word.len() > path.len() {
                let c = word[path.len() as int];
                assert(rest[0] == c);
                assert(rest.skip(1) =~= word.skip(path.len() as int + 1));
                if self.completes_within(items, items.len() as int, path, word) {
                    let j = choose|j: int|
                        0 <= j < items.len() && *(#[trigger] items[j]).0 == c as u32
                            && items[j].1.holds(word.skip(path.len() as int + 1));
                    assert(self.children@.contains_key(*items[j].0));
                }
                if self.completes(path, word) {
                    assert(self.children@.contains_key(c as u32));
                    let j = choose|j: int| 0 <= j < items.len() && *(#[trigger] items[j]).0 == c as u32;
                    assert(self.children@[*items[j].0] == *items[j].1);
                }
            }
        }
    }

    /// Before any child is visited, what is gathered is the word that ends
    /// at the node itself, where the node is terminal.
    proof fn lemma_gathered_self(
        self,
        items: Seq<(&u32, &Node)>,
        path: Seq<char>,
        start: Seq<String>,
        after: Seq<String>,
    )
        requires
            if self.terminal {
                after.len() == start.len() + 1 && after.drop_last() == start && after.last()@
                    == path
            } else {
                after == start
            },
        ensures
            gathered(start, after, self.completing_within(items, 0, path)),
    {
        let accept = self.completing_within(items, 0, path);
        assert forall|word: Seq<char>| #[trigger] accept(word) <==> (self.terminal && word
            == path) by {
            self.lemma_within_none(items, path, word);
        }
        if self.terminal {
            assert(after =~= start.push(after.last()));
            lemma_gathered_one(start, after.last(), accept);
        } else {
            lemma_gathered_none(start, accept);
        }
    }

    /// Visiting the next child gathers what that child completes on top of
    /// what the children before it gave.
    proof fn lemma_gathered_child(
        self,
        items: Seq<(&u32, &Node)>,
        visited: int,
        path: Seq<char>,
        start: Seq<String>,
        before: Seq<String>,
        after: Seq<String>,
    )
        requires
            self.wf(),
            self.lists(items),
            0 <= visited < items.len(),
            gathered(start, before, self.completing_within(items, visited, path)),
            gathered(before, after, items[visited].1.completing(path.push(items[visited].1.symbol))),
        ensures
            gathered(start, after, self.completing_within(items, visited + 1, path)),
    {
        let first = self.completing_within(items, visited, path);
        let second = items[visited].1.completing(path.push(items[visited].1.symbol));
        let both = self.completing_within(items, visited + 1, path);
        assert forall|word: Seq<char>| #[trigger] both(word) <==> (first(word) || second(word)) by {
            self.lemma_within_next(items, visited, path, word);
        }
        assert forall|word: Seq<char>| !(#[trigger] first(word) && #[trigger] second(word)) by {
            self.lemma_within_next(items, visited, path, word);
        }
        lemma_gathered_then(start, before, after, first, second, both);
    }

    /// With every child visited, what is gathered is what the node
    /// completes.
    proof fn lemma_gathered_children(
        self,
        items: Seq<(&u32, &Node)>,
        path: Seq<char>,
        start: Seq<String>,
        after: Seq<String>,
    )
        requires
            self.lists(items),
            gathered(start, after, self.completing_within(items, items.len() as int, path)),
        ensures
            gathered(start, after, self.completing(path)),
    {
        let within = self.completing_within(items, items.len() as int, path);
        let all = self.completing(path);
        assert forall|word: Seq<char>| #[trigger] within(word) <==> #[trigger] all(word) by {
            self.lemma_within_all(items, path, word);
        }
        lemma_gathered_same(start, after, within, all);
    }
}

} // verus!
