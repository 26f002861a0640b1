//! The counting trie.

use vstd::prelude::*;
use ordered_hash_map::OrderedHashMap;
use crate::ordered_map::{distribution, entries, has_key, map_insert, new_map};
use crate::text::chars_of;
use crate::trie_model::{QueryMiss, TrieModel};
use crate::trie_model::lemma_total_count_bounds;

verus! {

/// Errors of a query for the characters that follow a prefix. Both carry the
/// part of the prefix that was still unread when the query stopped.
#[derive(Debug)]
pub enum CountTrieError {
    /// Occurs when the prefix is too long for the trie.
    PrefixTooLong(String),
    /// Occurs when the next character matches none of a node's children.
    NoNextChild(String),
}

impl View for CountTrieError {
    type V = QueryMiss;

    open spec fn view(&self) -> QueryMiss {
        match self {
            CountTrieError::PrefixTooLong(rest) => QueryMiss::PrefixTooLong(rest@),
            CountTrieError::NoNextChild(rest) => QueryMiss::NoNextChild(rest@),
        }
    }
}

/// Where a walk along a prefix stopped before the prefix was read.
pub(crate) enum Stop {
    /// At this position a node without children was reached.
    TooLong(usize),
    /// At this position the node had no child for the next character.
    NoChild(usize),
}

/// A trie in which every node counts the inserted sequences that pass
/// through it.
#[derive(Debug)]
pub struct CountTrie {
    /// Character represented by this node.
    node_char: char,
    /// Number of inserted sequences that passed through this node.
    count: u32,
    /// Children of this node, in the order in which they were first seen.
    children: Vec<CountTrie>,
}

impl View for CountTrie {
    type V = TrieModel;

    closed spec fn view(&self) -> TrieModel {
        self.model()
    }
}

impl Clone for CountTrie {
    /// A copy of the whole trie.
    fn clone(&self) -> (copy: CountTrie)
        ensures
            copy@ == self@,
        decreases self,
    {
        let mut children: Vec<CountTrie> = Vec::new();
        let mut i: usize = 0;
        while i < self.children.len()
            invariant
                i <= self.children.len(),
                children.len() == i,
                forall|k: int| 0 <= k < i ==> (#[trigger] children[k])@ == self.children[k]@,
            decreases self.children.len() - i,
        {
            children.push(self.children[i].clone());
            i += 1;
        }
        proof {
            use_type_invariant(self);
            self.lemma_model();
            let copy = CountTrie { node_char: self.node_char, count: self.count, children };
            copy.lemma_model();
            assert(copy@.children =~= self@.children);
        }
        CountTrie { node_char: self.node_char, count: self.count, children }
    }
}

impl CountTrie {
    /// The trie as a mathematical value.
    pub closed spec fn model(&self) -> TrieModel
        decreases self,
    {
        TrieModel {
            label: self.node_char,
            count: self.count as nat,
            children: Seq::new(
                self.children.len() as nat,
                |i: int|
                    if 0 <= i < self.children.len() {
                        self.children[i].model()
                    } else {
                        TrieModel::fresh(self.node_char)
                    },
            ),
        }
    }

    /// The models of a list of children of a node labelled `label`.
    spec fn models(label: char, children: Seq<CountTrie>) -> Seq<TrieModel> {
        Seq::new(
            children.len(),
            |i: int|
                if 0 <= i < children.len() {
                    children[i].model()
                } else {
                    TrieModel::fresh(label)
                },
        )
    }

    /// No two children of a node share a label, and the counts of a node's
    /// children add up to no more than its own count.
    #[verifier::type_invariant]
    pub open spec fn wf(&self) -> bool {
        self@.wf()
    }

    /// Create a new node from a character.
    pub fn new(node_char: char) -> (trie: CountTrie)
        ensures
            trie@ == TrieModel::fresh(node_char),
    {
        let trie = CountTrie { node_char, count: 0, children: Vec::new() };
        assert(trie.model().children =~= Seq::empty());
        trie
    }

    /// Get the count of the node.
    pub fn get_count(&self) -> (count: u32)
        ensures
            count == self@.count,
    {
        self.count
    }

    /// The model of a node is made of its label, its count and the models
    /// of its children.
    proof fn lemma_model(&self)
        ensures
            self@.label == self.node_char,
            self@.count == self.count,
            self@.children.len() == self.children.len(),
            self@.children == Self::models(self.node_char, self.children@),
            forall|i: int|
                0 <= i < self.children.len() ==> #[trigger] self@.children[i] == self.children[i]@,
    {
        assert(self@.children =~= Self::models(self.node_char, self.children@));
    }

    /// The position of the first of `children` that is labelled `c`.
    fn position(children: &Vec<CountTrie>, c: char) -> (found: Option<usize>)
        ensures
            match found {
                Some(i) => i < children.len() && children[i as int]@.label == c,
                None => forall|k: int| 0 <= k < children.len() ==> (#[trigger] children[k])@.label != c,
            },
    {
        let mut i: usize = 0;
        while i < children.len()
            invariant
                i <= children.len(),
                forall|k: int| 0 <= k < i ==> (#[trigger] children[k])@.label != c,
            decreases children.len() - i,
        {
            proof {
                children[i as int].lemma_model();
            }
            if children[i].node_char == c {
                return Some(i);
            }
            i += 1;
        }
        None
    }

    /// The position of the child labelled `c`, if there is one.
    fn find_child(&self, c: char) -> (found: Option<usize>)
        ensures
            match found {
                Some(i) => i < self@.children.len() && self@.children[i as int].label == c,
                None => !self@.has_child(c),
            },
    {
        proof {
            self.lemma_model();
        }
        Self::position(&self.children, c)
    }

    /// Insert the characters `chars[from..to]` at this node.
    pub(crate) fn insert_range(&mut self, chars: &Vec<char>, from: usize, to: usize)
        requires
            from <= to <= chars.len(),
            old(self)@.count < u32::MAX,
        ensures
            final(self)@ == old(self)@.insert(chars@.subrange(from as int, to as int)),
        decreases to - from,
    {
        let ghost before = self@;
        let ghost s = chars@.subrange(from as int, to as int);
        proof {
            use_type_invariant(&*self);
            self.lemma_model();
            before.lemma_insert_wf(s);
        }
        if from == to {
            self.count += 1;
            proof {
                self.lemma_model();
                assert(self@.children =~= before.children);
            }
            return ;
        }
        let c = chars[from];
        // the children are worked on outside the node and put back at the end
        let mut children: Vec<CountTrie> = Vec::new();
        std::mem::swap(&mut children, &mut self.children);
        proof {
            assert(s[0] == c);
            assert(s.drop_first() =~= chars@.subrange(from + 1, to as int));
            assert(Self::models(self.node_char, children@) =~= before.children);
        }
        match Self::position(&children, c) {
            Some(i) => {
                proof {
                    assert(before.children[i as int].label == c);
                    before.lemma_child_index(i as int);
                    lemma_total_count_bounds(before.children, i as int);
                }
                children[i].insert_range(chars, from + 1, to);
                proof {
                    assert(Self::models(self.node_char, children@) =~= before.children.update(
                        i as int,
                        before.children[i as int].insert(s.drop_first()),
                    ));
                }
            },
            None => {
                let mut child = CountTrie::new(c);
                child.insert_range(chars, from + 1, to);
                children.push(child);
                proof {
                    assert(!before.has_child(c));
                    assert(Self::models(self.node_char, children@) =~= before.children.push(
                        TrieModel::fresh(c).insert(s.drop_first()),
                    ));
                }
            },
        }
        proof {
            let after = CountTrie {
                node_char: self.node_char,
                count: (self.count + 1) as u32,
                children,
            };
            after.lemma_model();
            assert(after@ == before.insert(s));
        }
        *self = CountTrie { node_char: self.node_char, count: self.count + 1, children };
    }

    /// Insert a string into the trie: the count of this node and of every
    /// node along the string grows by one, and nodes that are missing along
    /// the way are created.
    pub fn insert(&mut self, insert_str: &str)
        requires
            old(self)@.count < u32::MAX,
        ensures
            final(self)@ == old(self)@.insert(insert_str@),
            final(self)@.count == old(self)@.count + 1,
            forall|path: Seq<char>|
                #[trigger] final(self)@.count_at(path) == old(self)@.count_at(path)
                    + if path.is_prefix_of(insert_str@) {
                    1nat
                } else {
                    0nat
                },
    {
        let chars = chars_of(insert_str);
        assert(chars@.subrange(0, chars@.len() as int) =~= chars@);
        proof {
            use_type_invariant(&*self);
            let before = self@;
            before.lemma_insert_wf(insert_str@);
            assert forall|path: Seq<char>|
                #[trigger] before.insert(insert_str@).count_at(path) == before.count_at(path)
                    + if path.is_prefix_of(insert_str@) {
                    1nat
                } else {
                    0nat
                } by {
                before.lemma_insert_count_at(insert_str@, path);
            }
        }
        self.insert_range(&chars, 0, chars.len());
    }

    /// The child labelled `label`, if there is one.
    pub fn get_child(&self, label: char) -> (child: Option<&CountTrie>)
        ensures
            child is Some <==> self@.has_child(label),
            child matches Some(node) ==> node@ == self@.children[self@.child_index(label)],
    {
        match self.find_child(label) {
            Some(i) => {
                proof {
                    use_type_invariant(self);
                    self.lemma_model();
                    self@.lemma_child_index(i as int);
                }
                Some(&self.children[i])
            },
            None => None,
        }
    }

    /// The children of this node as a frequency distribution: each child's
    /// character with its count, in the order in which the children were
    /// first seen.
    pub fn get_child_counts(&self) -> (counts: OrderedHashMap<char, u32>)
        ensures
            distribution(counts) == self@.child_counts(),
    {
        let mut count_map = new_map();
        let mut i: usize = 0;
        proof {
            use_type_invariant(self);
            self.lemma_model();
        }
        while i < self.children.len()
            invariant
                i <= self.children.len(),
                self.wf(),
                self@.children.len() == self.children.len(),
                entries(count_map).len() == i,
                forall|k: int|
                    0 <= k < i ==> #[trigger] entries(count_map)[k] == (
                        self@.children[k].label,
                        self@.children[k].count as u32,
                    ),
            decreases self.children.len() - i,
        {
            let child = &self.children[i];
            proof {
                self.lemma_model();
                child.lemma_model();
                assert(!has_key(entries(count_map), child.node_char)) by {
                    if has_key(entries(count_map), child.node_char) {
                        let k = choose|k: int|
                            0 <= k < entries(count_map).len() && (#[trigger] entries(
                                count_map,
                            )[k]).0 == child.node_char;
                        assert(self@.children[k].label != self@.children[i as int].label);
                    }
                }
            }
            let _ = map_insert(&mut count_map, child.node_char, child.count);
            i += 1;
        }
        assert(distribution(count_map) =~= self@.child_counts());
        count_map
    }

    /// Walk down from this node along `chars[from..to]` and give the
    /// distribution of the characters that follow, or the place where the
    /// walk stopped.
    pub(crate) fn lookup(&self, chars: &Vec<char>, from: usize, to: usize) -> (res: Result<
        OrderedHashMap<char, u32>,
        Stop,
    >)
        requires
            from <= to <= chars.len(),
        ensures
            match self@.next_counts(chars@.subrange(from as int, to as int)) {
                Ok(dist) => res matches Ok(map) && distribution(map) == dist,
                Err(QueryMiss::PrefixTooLong(rest)) => res matches Err(Stop::TooLong(at)) && from
                    <= at < to && rest == chars@.subrange(at as int, to as int),
                Err(QueryMiss::NoNextChild(rest)) => res matches Err(Stop::NoChild(at)) && from
                    <= at < to && rest == chars@.subrange(at as int, to as int),
            },
    {
        let mut node: &CountTrie = self;
        let mut pos: usize = from;
        while pos < to
            invariant
                from <= pos <= to <= chars.len(),
                self@.next_counts(chars@.subrange(from as int, to as int)) == node@.next_counts(
                    chars@.subrange(pos as int, to as int),
                ),
            decreases to - pos,
        {
            let ghost rest = chars@.subrange(pos as int, to as int);
            proof {
                use_type_invariant(node);
                node.lemma_model();
                assert(rest[0] == chars[pos as int]);
                assert(rest.drop_first() =~= chars@.subrange(pos + 1, to as int));
            }
            if node.children.len() == 0 {
                return Err(Stop::TooLong(pos));
            }
            match node.find_child(chars[pos]) {
                Some(i) => {
                    proof {
                        node@.lemma_child_index(i as int);
                    }
                    node = &node.children[i];
                    pos += 1;
                },
                None => {
                    return Err(Stop::NoChild(pos));
                },
            }
        }
        assert(chars@.subrange(pos as int, to as int).len() == 0);
        Ok(node.get_child_counts())
    }

    /// Get the counts of the characters that follow `prefix`.
    ///
    /// The walk starts at this node and takes one child per character. It
    /// fails with `PrefixTooLong` at a node without children and with
    /// `NoNextChild` at a node whose children lack the next character.
    pub fn get_next_counts(&self, prefix: &str) -> (res: Result<
        OrderedHashMap<char, u32>,
        CountTrieError,
    >)
        ensures
            match self@.next_counts(prefix@) {
                Ok(dist) => res matches Ok(map) && distribution(map) == dist,
                Err(miss) => res matches Err(e) && e@ == miss,
            },
            res is Ok <==> self@.descend(prefix@) is Some,
    {
        proof {
            self@.lemma_next_counts_descend(prefix@);
        }
        let chars = chars_of(prefix);
        assert(chars@.subrange(0, chars@.len() as int) =~= prefix@);
        match self.lookup(&chars, 0, chars.len()) {
            Ok(map) => Ok(map),
            Err(Stop::TooLong(at)) => Err(
                CountTrieError::PrefixTooLong(prefix.substring_char(at, chars.len()).to_string()),
            ),
            Err(Stop::NoChild(at)) => Err(
                CountTrieError::NoNextChild(prefix.substring_char(at, chars.len()).to_string()),
            ),
        }
    }
}

} // verus!
