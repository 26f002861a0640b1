//! The mathematical model of a counting trie.

use vstd::prelude::*;

verus! {

/// A node of the trie as a mathematical value: its label, how many inserted
/// sequences passed through it, and its children in the order in which they
/// were first seen.
pub struct TrieModel {
    pub label: char,
    pub count: nat,
    pub children: Seq<TrieModel>,
}

/// Why a query for the characters that follow a prefix found nothing. Both
/// kinds carry the part of the prefix that was still unread.
pub enum QueryMiss {
    /// A node without children was reached while characters remained.
    PrefixTooLong(Seq<char>),
    /// The node had children, but none for the next character.
    NoNextChild(Seq<char>),
}

/// The sum of the counts of a sequence of nodes.
pub open spec fn total_count(nodes: Seq<TrieModel>) -> nat
    decreases nodes.len(),
{
    if nodes.len() == 0 {
        0
    } else {
        total_count(nodes.drop_last()) + nodes.last().count
    }
}

impl TrieModel {
    /// A node that no sequence has passed through yet.
    pub open spec fn fresh(label: char) -> TrieModel {
        TrieModel { label, count: 0, children: Seq::empty() }
    }

    /// Whether one of the children is labelled `c`.
    pub open spec fn has_child(self, c: char) -> bool {
        exists|i: int| 0 <= i < self.children.len() && #[trigger] self.children[i].label == c
    }

    /// The position of the child labelled `c`, where there is one.
    pub open spec fn child_index(self, c: char) -> int {
        choose|i: int| 0 <= i < self.children.len() && #[trigger] self.children[i].label == c
    }

    /// No two children of a node share a label, and the children's counts
    /// add up to no more than the node's own count; the same holds below.
    pub open spec fn wf(self) -> bool
        decreases self,
    {
        &&& forall|i: int, j: int|
            0 <= i < j < self.children.len() ==> #[trigger] self.children[i].label
                != #[trigger] self.children[j].label
        &&& total_count(self.children) <= self.count
        &&& forall|i: int| 0 <= i < self.children.len() ==> (#[trigger] self.children[i]).wf()
    }

    /// The trie after one more sequence has been inserted at this node: the
    /// node's count grows by one, and the rest of the sequence goes to the
    /// child for its first character, which is appended if it is new.
    pub open spec fn insert(self, s: Seq<char>) -> TrieModel
        decreases s.len(),
    {
        if s.len() == 0 {
            TrieModel { count: self.count + 1, ..self }
        } else if self.has_child(s[0]) {
            let i = self.child_index(s[0]);
            TrieModel {
                count: self.count + 1,
                children: self.children.update(i, self.children[i].insert(s.drop_first())),
                ..self
            }
        } else {
            TrieModel {
                count: self.count + 1,
                children: self.children.push(TrieModel::fresh(s[0]).insert(s.drop_first())),
                ..self
            }
        }
    }

    /// The trie after a list of sequences has been inserted, one after
    /// another.
    pub open spec fn insert_all(self, paths: Seq<Seq<char>>) -> TrieModel
        decreases paths.len(),
    {
        if paths.len() == 0 {
            self
        } else {
            self.insert_all(paths.drop_last()).insert(paths.last())
        }
    }

    /// The node reached from this one along `path`, if the trie holds it.
    pub open spec fn descend(self, path: Seq<char>) -> Option<TrieModel>
        decreases path.len(),
    {
        if path.len() == 0 {
            Some(self)
        } else if self.has_child(path[0]) {
            self.children[self.child_index(path[0])].descend(path.drop_first())
        } else {
            None
        }
    }

    /// How many inserted sequences passed along `path`: the count of the node
    /// there, and zero where the trie holds no such node.
    pub open spec fn count_at(self, path: Seq<char>) -> nat {
        match self.descend(path) {
            Some(node) => node.count,
            None => 0,
        }
    }

    /// The labels of the children, in the order in which they were first seen.
    pub open spec fn labels(self) -> Seq<char> {
        Seq::new(self.children.len(), |i: int| self.children[i].label)
    }

    /// The children as a frequency distribution: each child's label with its
    /// count, in the order in which the children were first seen.
    pub open spec fn child_counts(self) -> Seq<(char, nat)> {
        Seq::new(self.children.len(), |i: int| (self.children[i].label, self.children[i].count))
    }

    /// The distribution of the characters that follow `prefix`, or why there
    /// is none.
    pub open spec fn next_counts(self, prefix: Seq<char>) -> Result<Seq<(char, nat)>, QueryMiss>
        decreases prefix.len(),
    {
        if prefix.len() == 0 {
            Ok(self.child_counts())
        } else if self.children.len() == 0 {
            Err(QueryMiss::PrefixTooLong(prefix))
        } else if self.has_child(prefix[0]) {
            self.children[self.child_index(prefix[0])].next_counts(prefix.drop_first())
        } else {
            Err(QueryMiss::NoNextChild(prefix))
        }
    }
}

/// Replacing one node changes the total by the difference of the counts.
pub proof fn lemma_total_count_update(nodes: Seq<TrieModel>, i: int, node: TrieModel)
    requires
        0 <= i < nodes.len(),
    ensures
        total_count(nodes.update(i, node)) + nodes[i].count == total_count(nodes) + node.count,
    decreases nodes.len(),
{
    if i == nodes.len() - 1 {
        assert(nodes.update(i, node).drop_last() =~= nodes.drop_last());
    } else {
        lemma_total_count_update(nodes.drop_last(), i, node);
        assert(nodes.update(i, node).drop_last() =~= nodes.drop_last().update(i, node));
    }
}

/// Appending a node adds its count to the total.
pub proof fn lemma_total_count_push(nodes: Seq<TrieModel>, node: TrieModel)
    ensures
        total_count(nodes.push(node)) == total_count(nodes) + node.count,
{
    assert(nodes.push(node).drop_last() =~= nodes);
}

/// No single node counts more than all of them together.
pub proof fn lemma_total_count_bounds(nodes: Seq<TrieModel>, i: int)
    requires
        0 <= i < nodes.len(),
    ensures
        nodes[i].count <= total_count(nodes),
    decreases nodes.len(),
{
    if i < nodes.len() - 1 {
        lemma_total_count_bounds(nodes.drop_last(), i);
    }
}

impl TrieModel {
    /// In a well-formed node the child with a given label is the only one.
    pub proof fn lemma_child_index(self, i: int)
        requires
            self.wf(),
            0 <= i < self.children.len(),
        ensures
            self.has_child(self.children[i].label),
            self.child_index(self.children[i].label) == i,
    {
        let c = self.children[i].label;
        let j = self.child_index(c);
        assert(0 <= j < self.children.len() && self.children[j].label == c);
        if j < i {
            assert(self.children[j].label != self.children[i].label);
        } else if i < j {
            assert(self.children[i].label != self.children[j].label);
        }
    }

    /// Insertion keeps a trie well formed, keeps the label, and adds exactly
    /// one to the count of the node it starts at.
    pub proof fn lemma_insert_wf(self, s: Seq<char>)
        requires
            self.wf(),
        ensures
            self.insert(s).wf(),
            self.insert(s).label == self.label,
            self.insert(s).count == self.count + 1,
            self.insert(s).children.len() >= self.children.len(),
        decreases s.len(),
    {
        let after = self.insert(s);
        if s.len() == 0 {
            assert(after.children == self.children);
        } else if self.has_child(s[0]) {
            let i = self.child_index(s[0]);
            let child = self.children[i];
            child.lemma_insert_wf(s.drop_first());
            lemma_total_count_update(self.children, i, child.insert(s.drop_first()));
            assert forall|k: int| 0 <= k < after.children.len() implies (
            #[trigger] after.children[k]).wf() by {
                if k != i {
                    assert(after.children[k] == self.children[k]);
                }
            }
            assert forall|a: int, b: int| 0 <= a < b < after.children.len() implies
                #[trigger] after.children[a].label != #[trigger] after.children[b].label by {
                assert(after.children[a].label == self.children[a].label);
                assert(after.children[b].label == self.children[b].label);
            }
        } else {
            let child = TrieModel::fresh(s[0]);
            assert(total_count(child.children) == 0);
            child.lemma_insert_wf(s.drop_first());
            lemma_total_count_push(self.children, child.insert(s.drop_first()));
            assert forall|k: int| 0 <= k < after.children.len() implies (
            #[trigger] after.children[k]).wf() by {
                if k < self.children.len() {
                    assert(after.children[k] == self.children[k]);
                }
            }
            assert forall|a: int, b: int| 0 <= a < b < after.children.len() implies
                #[trigger] after.children[a].label != #[trigger] after.children[b].label by {
                assert(after.children[a].label == self.children[a].label);
                if b < self.children.len() {
                    assert(after.children[b].label == self.children[b].label);
                } else {
                    assert(after.children[b].label == s[0]);
                }
            }
        }
    }
}

impl TrieModel {
    /// Whether every node without children that lies at most `reach` steps
    /// below this one is labelled `end`.
    pub open spec fn ends_with(self, reach: nat, end: char) -> bool
        decreases reach,
    {
        reach > 0 ==> forall|i: int|
            0 <= i < self.children.len() ==> {
                &&& (#[trigger] self.children[i]).children.len() == 0 ==> self.children[i].label
                    == end
                &&& self.children[i].ends_with((reach - 1) as nat, end)
            }
    }

    /// Inserting a sequence that is not empty leaves the node with a child.
    pub proof fn lemma_insert_adds_child(self, s: Seq<char>)
        requires
            s.len() > 0,
        ensures
            self.insert(s).children.len() > 0,
            self.insert(s).label == self.label,
    {
        if self.has_child(s[0]) {
            let i = self.child_index(s[0]);
            assert(0 <= i < self.children.len());
        }
    }

    /// Insertion keeps the childless nodes within `reach` labelled `end`,
    /// if the inserted sequence ends beyond `reach` or ends in `end`.
    pub proof fn lemma_insert_keeps_ends(self, s: Seq<char>, reach: nat, end: char)
        requires
            self.ends_with(reach, end),
            s.len() == 0 || s.len() > reach || s.last() == end,
        ensures
            self.insert(s).ends_with(reach, end),
        decreases s.len(),
    {
        let after = self.insert(s);
        if s.len() > 0 && reach > 0 {
            let rest = s.drop_first();
            let below = (reach - 1) as nat;
            if rest.len() > 0 {
                assert(rest.last() == s.last());
            }
            if self.has_child(s[0]) {
                let i = self.child_index(s[0]);
                let child = self.children[i];
                child.lemma_insert_keeps_ends(rest, below, end);
                if rest.len() > 0 {
                    child.lemma_insert_adds_child(rest);
                }
                assert forall|k: int| 0 <= k < after.children.len() implies {
                    &&& (#[trigger] after.children[k]).children.len() == 0
                        ==> after.children[k].label == end
                    &&& after.children[k].ends_with(below, end)
                } by {
                    if k != i {
                        assert(after.children[k] == self.children[k]);
                    }
                }
            } else {
                let child = TrieModel::fresh(s[0]);
                child.lemma_insert_keeps_ends(rest, below, end);
                if rest.len() > 0 {
                    child.lemma_insert_adds_child(rest);
                }
                assert forall|k: int| 0 <= k < after.children.len() implies {
                    &&& (#[trigger] after.children[k]).children.len() == 0
                        ==> after.children[k].label == end
                    &&& after.children[k].ends_with(below, end)
                } by {
                    if k < self.children.len() {
                        assert(after.children[k] == self.children[k]);
                    }
                }
            }
        }
    }

    /// A query succeeds exactly where the trie holds a node at the end of
    /// the prefix, and then gives the counts of that node's children.
    pub proof fn lemma_next_counts_descend(self, prefix: Seq<char>)
        ensures
            self.next_counts(prefix) is Ok <==> self.descend(prefix) is Some,
            self.descend(prefix) matches Some(node) ==> self.next_counts(prefix) == Ok::<
                Seq<(char, nat)>,
                QueryMiss,
            >(node.child_counts()),
        decreases prefix.len(),
    {
        if prefix.len() > 0 && self.has_child(prefix[0]) {
            let i = self.child_index(prefix[0]);
            assert(0 <= i < self.children.len());
            self.children[i].lemma_next_counts_descend(prefix.drop_first());
        }
    }

    /// Below a node whose childless descendants within `reach` are all
    /// labelled `end`, a path of at most `reach` characters that does not
    /// end in `end` leads to a node with children.
    pub proof fn lemma_reached_has_children(self, path: Seq<char>, reach: nat, end: char)
        requires
            self.ends_with(reach, end),
            0 < path.len() <= reach,
            path.last() != end,
            self.descend(path) is Some,
        ensures
            self.descend(path)->0.children.len() > 0,
        decreases path.len(),
    {
        let i = self.child_index(path[0]);
        assert(self.has_child(path[0]));
        assert(0 <= i < self.children.len() && self.children[i].label == path[0]);
        let rest = path.drop_first();
        if rest.len() == 0 {
            assert(self.children[i].descend(rest) == Some(self.children[i]));
        } else {
            assert(rest.last() == path.last());
            self.children[i].lemma_reached_has_children(rest, (reach - 1) as nat, end);
        }
    }
}

} // verus!
