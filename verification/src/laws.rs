//! What holds of the trie and of training, whatever is inserted.

use vstd::prelude::*;
use vstd::seq_lib::{to_multiset_contains, to_multiset_len, to_multiset_remove};
use crate::generator::{training_paths, GeneratorModel};
use crate::trie_model::{lemma_total_count_push, lemma_total_count_update, total_count, TrieModel};

verus! {

/// The node that an insertion of `rest` leaves at a place where `found` was
/// before: the node there, or a new one labelled `label`, with `rest`
/// inserted.
pub open spec fn node_after(found: Option<TrieModel>, label: char, rest: Seq<char>) -> TrieModel {
    match found {
        Some(node) => node.insert(rest),
        None => TrieModel::fresh(label).insert(rest),
    }
}

/// How many of the sequences `paths` begin with `prefix`.
pub open spec fn passes(paths: Seq<Seq<char>>, prefix: Seq<char>) -> nat
    decreases paths.len(),
{
    if paths.len() == 0 {
        0
    } else {
        passes(paths.drop_last(), prefix) + if prefix.is_prefix_of(paths.last()) {
            1nat
        } else {
            0nat
        }
    }
}

/// How many of the sequences `paths` are equal to `path`.
pub open spec fn ends(paths: Seq<Seq<char>>, path: Seq<char>) -> nat
    decreases paths.len(),
{
    if paths.len() == 0 {
        0
    } else {
        ends(paths.drop_last(), path) + if paths.last() == path {
            1nat
        } else {
            0nat
        }
    }
}

impl TrieModel {
    /// By how much the count of the node at `path` exceeds the sum of its
    /// children's counts; zero where the trie holds no such node.
    pub open spec fn surplus_at(self, path: Seq<char>) -> int {
        match self.descend(path) {
            Some(node) => node.count - total_count(node.children),
            None => 0,
        }
    }

    /// Every node of a well-formed trie is well formed, and below the root
    /// a node carries the last character of the path to it.
    pub proof fn lemma_descend_wf(self, path: Seq<char>)
        requires
            self.wf(),
            self.descend(path) is Some,
        ensures
            self.descend(path)->0.wf(),
            path.len() > 0 ==> self.descend(path)->0.label == path.last(),
        decreases path.len(),
    {
        if path.len() > 0 {
            let i = self.child_index(path[0]);
            assert(self.has_child(path[0]));
            assert(0 <= i < self.children.len() && self.children[i].label == path[0]);
            let rest = path.drop_first();
            self.children[i].lemma_descend_wf(rest);
            if rest.len() > 0 {
                assert(rest.last() == path.last());
            }
        }
    }

    /// An insertion keeps the children in their order, and puts a child
    /// that is new behind them.
    pub proof fn lemma_insert_labels(self, s: Seq<char>)
        requires
            self.wf(),
        ensures
            self.insert(s).labels() == if s.len() > 0 && !self.has_child(s[0]) {
                self.labels().push(s[0])
            } else {
                self.labels()
            },
    {
        let after = self.insert(s);
        if s.len() == 0 {
            assert(after.labels() =~= self.labels());
        } else if self.has_child(s[0]) {
            let i = self.child_index(s[0]);
            self.children[i].lemma_insert_wf(s.drop_first());
            assert(after.labels() =~= self.labels());
        } else {
            let child = TrieModel::fresh(s[0]);
            assert(total_count(child.children) == 0);
            child.lemma_insert_wf(s.drop_first());
            assert(after.labels() =~= self.labels().push(s[0]));
        }
    }

    /// An insertion changes the sum of the children's counts by one, unless
    /// the inserted sequence is empty.
    pub proof fn lemma_insert_children_total(self, s: Seq<char>)
        requires
            self.wf(),
        ensures
            s.len() == 0 ==> self.insert(s).children == self.children,
            s.len() > 0 ==> total_count(self.insert(s).children) == total_count(self.children)
                + 1,
    {
        if s.len() > 0 {
            if self.has_child(s[0]) {
                let i = self.child_index(s[0]);
                let child = self.children[i];
                lemma_total_count_update(self.children, i, child.insert(s.drop_first()));
                child.lemma_insert_wf(s.drop_first());
            } else {
                let child = TrieModel::fresh(s[0]);
                lemma_total_count_push(self.children, child.insert(s.drop_first()));
                assert(total_count(child.children) == 0);
                child.lemma_insert_wf(s.drop_first());
            }
        }
    }

    /// Which node an insertion leaves at the end of each path.
    ///
    /// Along the inserted sequence, the node that was there, or a new one,
    /// has had the rest of the sequence inserted. Everywhere else the trie
    /// is as it was.
    pub proof fn lemma_insert_descend(self, s: Seq<char>, path: Seq<char>)
        requires
            self.wf(),
        ensures
            path.is_prefix_of(s) ==> self.insert(s).descend(path) == Some(
                node_after(
                    self.descend(path),
                    if path.len() > 0 {
                        path.last()
                    } else {
                        self.label
                    },
                    s.skip(path.len() as int),
                ),
            ),
            !path.is_prefix_of(s) ==> self.insert(s).descend(path) == self.descend(path),
        decreases path.len(),
    {
        let after = self.insert(s);
        self.lemma_insert_wf(s);
        if path.len() == 0 {
            assert(s.skip(0) =~= s);
        } else if s.len() == 0 {
            assert(after.children == self.children);
            assert(after.has_child(path[0]) == self.has_child(path[0]));
            assert(after.child_index(path[0]) == self.child_index(path[0]));
        } else {
            let c = path[0];
            let tail = path.drop_first();
            let rest = s.drop_first();
            if tail.len() > 0 {
                assert(tail.last() == path.last());
            }
            if c == s[0] {
                assert(path.is_prefix_of(s) == tail.is_prefix_of(rest)) by {
                    if path.is_prefix_of(s) {
                        assert(tail =~= rest.subrange(0, tail.len() as int)) by {
                            assert forall|k: int| 0 <= k < tail.len() implies tail[k] == rest[k] by {
                                assert(path[k + 1] == s.subrange(0, path.len() as int)[k + 1]);
                            }
                        }
                    }
                    if tail.is_prefix_of(rest) {
                        assert(path =~= s.subrange(0, path.len() as int)) by {
                            assert forall|k: int| 0 <= k < path.len() implies path[k] == s[k] by {
                                if k > 0 {
                                    assert(tail[k - 1] == rest.subrange(0, tail.len() as int)[k
                                        - 1]);
                                }
                            }
                        }
                    }
                }
                if path.is_prefix_of(s) {
                    assert(rest.skip(tail.len() as int) =~= s.skip(path.len() as int));
                }
                if self.has_child(c) {
                    let i = self.child_index(c);
                    let child = self.children[i];
                    assert(after.children[i] == child.insert(rest));
                    assert(after.children[i].label == c) by {
                        child.lemma_insert_wf(rest);
                    }
                    after.lemma_child_index(i);
                    child.lemma_insert_descend(rest, tail);
                    if tail.len() == 0 {
                        assert(child.descend(tail) == Some(child));
                    }
                } else {
                    let child = TrieModel::fresh(c);
                    let i = self.children.len() as int;
                    assert(after.children[i] == child.insert(rest));
                    assert(total_count(child.children) == 0);
                    child.lemma_insert_wf(rest);
                    after.lemma_child_index(i);
                    child.lemma_insert_descend(rest, tail);
                    if tail.len() > 0 {
                        assert(!child.has_child(tail[0]));
                        assert(child.descend(tail) is None);
                    }
                }
            } else {
                assert(!path.is_prefix_of(s)) by {
                    if path.is_prefix_of(s) {
                        assert(path[0] == s.subrange(0, path.len() as int)[0]);
                    }
                }
                if self.has_child(c) {
                    let j = self.child_index(c);
                    assert(0 <= j < self.children.len() && self.children[j].label == c);
                    if self.has_child(s[0]) {
                        let i = self.child_index(s[0]);
                        assert(self.children[i].label == s[0]);
                        assert(i != j);
                    }
                    assert(after.children[j] == self.children[j]);
                    after.lemma_child_index(j);
                } else {
                    assert(!after.has_child(c)) by {
                        if after.has_child(c) {
                            let j = after.child_index(c);
                            assert(0 <= j < after.children.len() && after.children[j].label == c);
                            if self.has_child(s[0]) {
                                let i = self.child_index(s[0]);
                                self.children[i].lemma_insert_wf(rest);
                                assert(after.children[j].label == self.children[j].label);
                            } else {
                                let fresh = TrieModel::fresh(s[0]);
                                assert(total_count(fresh.children) == 0);
                                fresh.lemma_insert_wf(rest);
                                if j < self.children.len() {
                                    assert(after.children[j] == self.children[j]);
                                }
                            }
                        }
                    }
                }
            }
        }
    }

    /// An insertion adds exactly one to the count of every node along the
    /// inserted sequence, the node it starts at included, and leaves every
    /// other count as it was.
    pub proof fn lemma_insert_count_at(self, s: Seq<char>, path: Seq<char>)
        requires
            self.wf(),
        ensures
            self.insert(s).count_at(path) == self.count_at(path) + if path.is_prefix_of(s) {
                1nat
            } else {
                0nat
            },
    {
        self.lemma_insert_descend(s, path);
        if path.is_prefix_of(s) {
            let rest = s.skip(path.len() as int);
            match self.descend(path) {
                Some(node) => {
                    self.lemma_descend_wf(path);
                    node.lemma_insert_wf(rest);
                },
                None => {
                    let node = TrieModel::fresh(path.last());
                    assert(total_count(node.children) == 0);
                    node.lemma_insert_wf(rest);
                },
            }
        }
    }

    /// An insertion adds one to the surplus of the node at which the
    /// inserted sequence ends, and leaves every other surplus as it was.
    pub proof fn lemma_insert_surplus_at(self, s: Seq<char>, path: Seq<char>)
        requires
            self.wf(),
        ensures
            self.insert(s).surplus_at(path) == self.surplus_at(path) + if path == s {
                1int
            } else {
                0int
            },
    {
        self.lemma_insert_descend(s, path);
        if path.is_prefix_of(s) {
            let rest = s.skip(path.len() as int);
            if rest.len() == 0 {
                assert(path =~= s);
            }
            match self.descend(path) {
                Some(node) => {
                    self.lemma_descend_wf(path);
                    node.lemma_insert_wf(rest);
                    node.lemma_insert_children_total(rest);
                },
                None => {
                    let node = TrieModel::fresh(path.last());
                    assert(total_count(node.children) == 0);
                    node.lemma_insert_wf(rest);
                    node.lemma_insert_children_total(rest);
                },
            }
        } else {
            assert(path != s) by {
                if path == s {
                    assert(s =~= s.subrange(0, s.len() as int));
                }
            }
        }
    }

    /// Inserting a list of sequences keeps a trie well formed and adds
    /// their number to the count of the root.
    pub proof fn lemma_insert_all_wf(self, paths: Seq<Seq<char>>)
        requires
            self.wf(),
        ensures
            self.insert_all(paths).wf(),
            self.insert_all(paths).label == self.label,
            self.insert_all(paths).count == self.count + paths.len(),
        decreases paths.len(),
    {
        if paths.len() > 0 {
            self.lemma_insert_all_wf(paths.drop_last());
            self.insert_all(paths.drop_last()).lemma_insert_wf(paths.last());
        }
    }

    /// After a list of insertions the count at the end of a path has grown
    /// by the number of inserted sequences that begin with that path.
    pub proof fn lemma_insert_all_count_at(self, paths: Seq<Seq<char>>, path: Seq<char>)
        requires
            self.wf(),
        ensures
            self.insert_all(paths).count_at(path) == self.count_at(path) + passes(paths, path),
        decreases paths.len(),
    {
        if paths.len() > 0 {
            self.lemma_insert_all_wf(paths.drop_last());
            self.lemma_insert_all_count_at(paths.drop_last(), path);
            self.insert_all(paths.drop_last()).lemma_insert_count_at(paths.last(), path);
        }
    }

    /// After a list of insertions the surplus at the end of a path has
    /// grown by the number of inserted sequences that end there.
    pub proof fn lemma_insert_all_surplus_at(self, paths: Seq<Seq<char>>, path: Seq<char>)
        requires
            self.wf(),
        ensures
            self.insert_all(paths).surplus_at(path) == self.surplus_at(path) + ends(paths, path),
        decreases paths.len(),
    {
        if paths.len() > 0 {
            self.lemma_insert_all_wf(paths.drop_last());
            self.lemma_insert_all_surplus_at(paths.drop_last(), path);
            self.insert_all(paths.drop_last()).lemma_insert_surplus_at(paths.last(), path);
        }
    }

    /// The count of the root of a trie built from nothing is the number of
    /// insertions, and the count at the end of any path is the number of
    /// inserted sequences that begin with it.
    pub proof fn lemma_counts_of_built_trie(label: char, paths: Seq<Seq<char>>, path: Seq<char>)
        ensures
            TrieModel::fresh(label).insert_all(paths).count == paths.len(),
            TrieModel::fresh(label).insert_all(paths).count_at(path) == passes(paths, path),
    {
        let start = TrieModel::fresh(label);
        assert(total_count(start.children) == 0);
        start.lemma_insert_all_wf(paths);
        start.lemma_insert_all_count_at(paths, path);
        if path.len() > 0 {
            assert(!start.has_child(path[0]));
        }
    }

    /// In a well-formed trie the counts of a node's children add up to no
    /// more than the node's own count, at the end of every path.
    pub proof fn lemma_children_within_count(self, path: Seq<char>)
        requires
            self.wf(),
            self.descend(path) is Some,
        ensures
            total_count(self.descend(path)->0.children) <= self.descend(path)->0.count,
    {
        self.lemma_descend_wf(path);
    }

    /// In a trie built from nothing, the count of a node is the sum of its
    /// children's counts and the number of inserted sequences that end at
    /// the node: the two are equal exactly where every inserted sequence
    /// through the node goes on.
    pub proof fn lemma_children_sum_of_built_trie(
        label: char,
        paths: Seq<Seq<char>>,
        path: Seq<char>,
    )
        requires
            TrieModel::fresh(label).insert_all(paths).descend(path) is Some,
        ensures
            ({
                let node = TrieModel::fresh(label).insert_all(paths).descend(path)->0;
                node.count == total_count(node.children) + ends(paths, path)
            }),
    {
        let start = TrieModel::fresh(label);
        assert(total_count(start.children) == 0);
        start.lemma_insert_all_surplus_at(paths, path);
        if path.len() > 0 {
            assert(!start.has_child(path[0]));
        }
    }

    /// Two insertions give the same count at the end of every path in
    /// either order.
    pub proof fn lemma_insert_order(self, a: Seq<char>, b: Seq<char>, path: Seq<char>)
        requires
            self.wf(),
        ensures
            self.insert(a).insert(b).count_at(path) == self.insert(b).insert(a).count_at(path),
    {
        self.lemma_insert_wf(a);
        self.lemma_insert_wf(b);
        self.lemma_insert_count_at(a, path);
        self.lemma_insert_count_at(b, path);
        self.insert(a).lemma_insert_count_at(b, path);
        self.insert(b).lemma_insert_count_at(a, path);
    }
}

/// How many of the sequences that training on the words inserts begin with
/// `path`.
pub open spec fn training_passes(words: Seq<Seq<char>>, depth: nat, path: Seq<char>) -> nat
    decreases words.len(),
{
    if words.len() == 0 {
        0
    } else {
        training_passes(words.drop_last(), depth, path) + passes(
            training_paths(words.last(), depth),
            path,
        )
    }
}

/// Taking one word out of a list takes its share out of the number of
/// sequences that begin with a path.
pub proof fn lemma_training_passes_remove(
    words: Seq<Seq<char>>,
    j: int,
    depth: nat,
    path: Seq<char>,
)
    requires
        0 <= j < words.len(),
    ensures
        training_passes(words, depth, path) == training_passes(words.remove(j), depth, path)
            + passes(training_paths(words[j], depth), path),
    decreases words.len(),
{
    if j == words.len() - 1 {
        assert(words.remove(j) =~= words.drop_last());
    } else {
        lemma_training_passes_remove(words.drop_last(), j, depth, path);
        assert(words.remove(j).drop_last() =~= words.drop_last().remove(j));
        assert(words.remove(j).last() == words.last());
    }
}

/// Two lists that hold the same words the same number of times insert
/// equally many sequences that begin with a path.
pub proof fn lemma_training_passes_order(
    first: Seq<Seq<char>>,
    second: Seq<Seq<char>>,
    depth: nat,
    path: Seq<char>,
)
    requires
        first.to_multiset() == second.to_multiset(),
    ensures
        training_passes(first, depth, path) == training_passes(second, depth, path),
    decreases first.len(),
{
    to_multiset_len(first);
    to_multiset_len(second);
    if first.len() > 0 {
        let word = first.last();
        let last = first.len() - 1;
        assert(first[last] == word);
        assert(first.contains(word));
        to_multiset_contains(first, word);
        to_multiset_contains(second, word);
        let j = choose|j: int| 0 <= j < second.len() && second[j] == word;
        to_multiset_remove(first, last);
        to_multiset_remove(second, j);
        assert(first.remove(last) =~= first.drop_last());
        lemma_training_passes_order(first.drop_last(), second.remove(j), depth, path);
        lemma_training_passes_remove(second, j, depth, path);
    }
}

impl GeneratorModel {
    /// Training on a list of words keeps a generator well formed and keeps
    /// its depth.
    pub proof fn lemma_train_all_wf(self, words: Seq<Seq<char>>)
        requires
            self.wf(),
        ensures
            self.train_all(words).wf(),
            self.train_all(words).depth == self.depth,
            words.len() > 0 ==> self.train_all(words).is_trained(),
        decreases words.len(),
    {
        if words.len() > 0 {
            self.lemma_train_all_wf(words.drop_last());
            self.train_all(words.drop_last()).lemma_train_wf(words.last());
        }
    }

    /// After training on a list of words the count at the end of a path
    /// has grown by the number of inserted sequences that begin with it.
    pub proof fn lemma_train_all_count_at(self, words: Seq<Seq<char>>, path: Seq<char>)
        requires
            self.wf(),
        ensures
            self.train_all(words).trie.count_at(path) == self.trie.count_at(path)
                + training_passes(words, self.depth, path),
        decreases words.len(),
    {
        if words.len() > 0 {
            let before = self.train_all(words.drop_last());
            self.lemma_train_all_wf(words.drop_last());
            self.lemma_train_all_count_at(words.drop_last(), path);
            before.trie.lemma_insert_all_count_at(
                training_paths(words.last(), before.depth),
                path,
            );
        }
    }

    /// Training on the same words in another order gives the same count at
    /// the end of every path.
    pub proof fn lemma_training_order(
        self,
        first: Seq<Seq<char>>,
        second: Seq<Seq<char>>,
        path: Seq<char>,
    )
        requires
            self.wf(),
            first.to_multiset() == second.to_multiset(),
        ensures
            self.train_all(first).trie.count_at(path) == self.train_all(second).trie.count_at(
                path,
            ),
    {
        self.lemma_train_all_count_at(first, path);
        self.lemma_train_all_count_at(second, path);
        lemma_training_passes_order(first, second, self.depth, path);
    }
}

} // verus!
