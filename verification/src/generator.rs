//! The Markov word generator: training on words and generating new ones.

use vstd::prelude::*;
use crate::config::{ENDCHAR, STARTCHAR};
use crate::count_trie::CountTrie;
use crate::error::MarkovError;
use crate::laws::passes;
use crate::ordered_map::distribution;
use crate::sampling::{can_draw, sample_map};
use crate::text::chars_of;
use crate::trie_model::{total_count, TrieModel};

verus! {

/// A word with the end sentinel behind it.
pub open spec fn terminated(word: Seq<char>) -> Seq<char> {
    word.push(ENDCHAR)
}

/// The sequences that training on one word inserts into the trie, in order.
///
/// A word shorter than the depth goes in whole, with its end sentinel. Any
/// other word gives one window of `depth + 1` characters for each position
/// at which such a window fits into the word with its end sentinel.
pub open spec fn training_paths(word: Seq<char>, depth: nat) -> Seq<Seq<char>> {
    if word.len() < depth {
        seq![terminated(word)]
    } else {
        Seq::new(
            (word.len() - depth + 1) as nat,
            |i: int| terminated(word).subrange(i, i + depth + 1),
        )
    }
}

/// The number of sequences that training on a list of words inserts.
pub open spec fn training_size(words: Seq<Seq<char>>, depth: nat) -> nat
    decreases words.len(),
{
    if words.len() == 0 {
        0
    } else {
        training_size(words.drop_last(), depth) + training_paths(words.last(), depth).len()
    }
}

/// The words of a slice of strings as sequences of characters.
pub open spec fn words_of(list: Seq<&str>) -> Seq<Seq<char>> {
    Seq::new(list.len(), |i: int| list[i]@)
}

/// A generator as a mathematical value: its depth and its trie.
pub struct GeneratorModel {
    pub depth: nat,
    pub trie: TrieModel,
}

impl GeneratorModel {
    /// A generator that has seen no word.
    pub open spec fn fresh(depth: nat) -> GeneratorModel {
        GeneratorModel { depth, trie: TrieModel::fresh(STARTCHAR) }
    }

    /// The trie is well formed, its root stands for the start sentinel, and
    /// every node without children that a query can reach is labelled with
    /// the end sentinel.
    pub open spec fn wf(self) -> bool {
        &&& self.trie.wf()
        &&& self.trie.label == STARTCHAR
        &&& self.trie.ends_with(self.depth, ENDCHAR)
    }

    /// Whether at least one word has been trained on.
    pub open spec fn is_trained(self) -> bool {
        self.trie.children.len() > 0
    }

    /// The generator after training on one word.
    pub open spec fn train(self, word: Seq<char>) -> GeneratorModel {
        GeneratorModel { trie: self.trie.insert_all(training_paths(word, self.depth)), ..self }
    }

    /// The generator after training on a list of words, one after another.
    pub open spec fn train_all(self, words: Seq<Seq<char>>) -> GeneratorModel
        decreases words.len(),
    {
        if words.len() == 0 {
            self
        } else {
            self.train_all(words.drop_last()).train(words.last())
        }
    }

    /// The part of the characters generated so far that decides the next
    /// one: all of them while they are no more than `depth`, and the last
    /// `depth` of them after that.
    pub open spec fn context(self, body: Seq<char>) -> Seq<char> {
        if body.len() <= self.depth {
            body
        } else {
            body.subrange(body.len() - self.depth, body.len() as int)
        }
    }

    /// Whether `next` may follow the characters `body`: it is a character
    /// that a draw from the distribution after their context can give, or,
    /// where the trie has no distribution for that context, the end
    /// sentinel.
    pub open spec fn allows(self, body: Seq<char>, next: char) -> bool {
        match self.trie.next_counts(self.context(body)) {
            Ok(dist) => can_draw(dist, next),
            Err(_) => next == ENDCHAR,
        }
    }

    /// Whether the character at `i` of a word may follow the characters
    /// between the start sentinel and it.
    pub open spec fn allows_at(self, word: Seq<char>, i: int) -> bool {
        self.allows(word.subrange(1, i), word[i])
    }

    /// Whether `word` is a word that this generator can produce: it starts
    /// with the start sentinel, ends with the first end sentinel behind it,
    /// and each character behind the start sentinel may follow those before
    /// it.
    pub open spec fn generates(self, word: Seq<char>) -> bool {
        &&& word.len() >= 2
        &&& word[0] == STARTCHAR
        &&& word.last() == ENDCHAR
        &&& forall|i: int| 1 <= i < word.len() - 1 ==> #[trigger] word[i] != ENDCHAR
        &&& forall|i: int| 1 <= i < word.len() ==> #[trigger] self.allows_at(word, i)
    }

    /// Inserting sequences that end beyond the depth or in the end sentinel
    /// keeps a generator well formed, and adds their number to the root's
    /// count.
    pub proof fn lemma_insert_all_wf(self, paths: Seq<Seq<char>>)
        requires
            self.wf(),
            forall|k: int|
                0 <= k < paths.len() ==> (#[trigger] paths[k]).len() > self.depth
                    || paths[k].len() > 0 && paths[k].last() == ENDCHAR,
        ensures
            (GeneratorModel { trie: self.trie.insert_all(paths), ..self }).wf(),
            self.trie.insert_all(paths).count == self.trie.count + paths.len(),
            paths.len() > 0 ==> self.trie.insert_all(paths).children.len() > 0,
        decreases paths.len(),
    {
        if paths.len() > 0 {
            let front = paths.drop_last();
            let last = paths.last();
            assert forall|k: int| 0 <= k < front.len() implies (#[trigger] front[k]).len()
                > self.depth || front[k].len() > 0 && front[k].last() == ENDCHAR by {
                assert(front[k] == paths[k]);
            }
            self.lemma_insert_all_wf(front);
            let before = self.trie.insert_all(front);
            assert(paths[paths.len() - 1] == last);
            before.lemma_insert_wf(last);
            before.lemma_insert_keeps_ends(last, self.depth, ENDCHAR);
            before.lemma_insert_adds_child(last);
        }
    }

    /// Every sequence that training inserts ends beyond the depth or in the
    /// end sentinel, and there is at least one.
    pub proof fn lemma_training_paths(word: Seq<char>, depth: nat)
        ensures
            training_paths(word, depth).len() > 0,
            forall|k: int|
                0 <= k < training_paths(word, depth).len() ==> (#[trigger] training_paths(
                    word,
                    depth,
                )[k]).len() > depth || training_paths(word, depth)[k].len() > 0
                    && training_paths(word, depth)[k].last() == ENDCHAR,
    {
    }

    /// Training keeps a generator well formed and leaves it trained.
    pub proof fn lemma_train_wf(self, word: Seq<char>)
        requires
            self.wf(),
        ensures
            self.train(word).wf(),
            self.train(word).is_trained(),
            self.train(word).depth == self.depth,
            self.train(word).trie.count == self.trie.count + training_paths(
                word,
                self.depth,
            ).len(),
    {
        Self::lemma_training_paths(word, self.depth);
        self.lemma_insert_all_wf(training_paths(word, self.depth));
    }

    /// In a trained generator every context without an end sentinel that
    /// the trie answers has at least one character to follow it.
    pub proof fn lemma_context_continues(self, body: Seq<char>)
        requires
            self.wf(),
            self.is_trained(),
            forall|i: int| 0 <= i < body.len() ==> #[trigger] body[i] != ENDCHAR,
        ensures
            self.trie.next_counts(self.context(body)) matches Ok(dist) ==> dist.len() > 0,
    {
        let context = self.context(body);
        self.trie.lemma_next_counts_descend(context);
        if self.trie.descend(context) is Some && context.len() > 0 {
            assert(context.last() == body.last());
            self.trie.lemma_reached_has_children(context, self.depth, ENDCHAR);
        }
    }
}

/// Markov text generator.
pub struct MarkovGenerator {
    /// Depth of the text generation (how many previous characters decide the
    /// next one).
    depth: u32,
    /// Trie of the character frequencies in the words trained on.
    trie: CountTrie,
}

impl View for MarkovGenerator {
    type V = GeneratorModel;

    closed spec fn view(&self) -> GeneratorModel {
        GeneratorModel { depth: self.depth as nat, trie: self.trie@ }
    }
}

impl MarkovGenerator {
    /// The trie is well formed, its root stands for the start sentinel, and
    /// every node without children that a query can reach is labelled with
    /// the end sentinel.
    #[verifier::type_invariant]
    pub open spec fn wf(&self) -> bool {
        self@.wf()
    }

    /// Create a new Markov word generator.
    pub fn new(depth: u32) -> (generator: MarkovGenerator)
        ensures
            generator@ == GeneratorModel::fresh(depth as nat),
    {
        let trie = CountTrie::new(STARTCHAR);
        proof {
            assert(total_count(trie@.children) == 0);
        }
        MarkovGenerator { depth, trie }
    }

    /// The trie that the generator has built from the words trained on.
    pub fn get_trie(&self) -> (trie: &CountTrie)
        ensures
            trie@ == self@.trie,
    {
        &self.trie
    }

    /// The depth that the generator was made with.
    pub fn get_depth(&self) -> (depth: u32)
        ensures
            depth == self@.depth,
    {
        self.depth
    }

    /// Whether the counts leave room for training on `word`: none of them
    /// would pass the greatest number that a count can hold.
    pub fn has_room_for(&self, word: &str) -> (room: bool)
        ensures
            room == (self@.trie.count + training_paths(word@, self@.depth).len() <= u32::MAX),
    {
        let len = word.unicode_len();
        let depth = self.depth as usize;
        let count = self.trie.get_count() as u64;
        if len < depth {
            count + 1 <= u32::MAX as u64
        } else {
            let windows = len - depth;
            windows < u32::MAX as usize && count + windows as u64 + 1 <= u32::MAX as u64
        }
    }

    /// Insert a word into the trie.
    ///
    /// The end sentinel is put behind the word. A word shorter than the
    /// depth is inserted whole. Then every window of `depth + 1` characters
    /// of the word with its sentinel is inserted.
    pub fn insert_word(&mut self, word: &str)
        requires
            old(self)@.trie.count + training_paths(word@, old(self)@.depth).len() <= u32::MAX,
        ensures
            final(self)@ == old(self)@.train(word@),
            final(self)@.is_trained(),
            forall|path: Seq<char>|
                #[trigger] final(self)@.trie.count_at(path) == old(self)@.trie.count_at(path)
                    + passes(training_paths(word@, old(self)@.depth), path),
    {
        let mut word_full = chars_of(word);
        let len = word_full.len();
        word_full.push(ENDCHAR);
        let depth = self.depth as usize;
        let ghost start = self@;
        let ghost paths = training_paths(word@, start.depth);
        proof {
            use_type_invariant(&*self);
            GeneratorModel::lemma_training_paths(word@, start.depth);
            assert(word_full@ == terminated(word@));
        }
        // the trie is worked on outside the generator and put back at the end
        let mut trie = CountTrie::new(STARTCHAR);
        proof {
            assert(total_count(trie@.children) == 0);
        }
        std::mem::swap(&mut trie, &mut self.trie);
        if len < depth {
            proof {
                assert(word_full@.subrange(0, len + 1) =~= paths[0]);
                assert(paths.drop_last() =~= Seq::empty());
                assert(start.trie.insert_all(paths.drop_last()) == start.trie);
                assert(start.trie.insert_all(paths) == start.trie.insert(paths[0]));
                start.lemma_insert_all_wf(paths);
            }
            trie.insert_range(&word_full, 0, len + 1);
        }
        let mut i: usize = 0;
        while i + depth <= len
            invariant
                i <= len + 1,
                len >= depth ==> i + depth <= len + 1,
                len < depth ==> i == 0,
                len + 1 == word_full.len(),
                len == word@.len(),
                depth == start.depth,
                start.wf(),
                word_full@ == terminated(word@),
                paths == training_paths(word@, start.depth),
                start.trie.count + paths.len() <= u32::MAX,
                len < depth ==> trie@ == start.trie.insert_all(paths),
                len >= depth ==> trie@ == start.trie.insert_all(paths.take(i as int)),
            decreases len + 1 - i,
        {
            let ghost front = paths.take(i as int);
            proof {
                GeneratorModel::lemma_training_paths(word@, start.depth);
                assert forall|k: int| 0 <= k < front.len() implies (#[trigger] front[k]).len()
                    > start.depth || front[k].len() > 0 && front[k].last() == ENDCHAR by {
                    assert(front[k] == paths[k]);
                }
                start.lemma_insert_all_wf(front);
                assert(paths.take(i + 1).drop_last() =~= front);
                assert(paths.take(i + 1).last() == paths[i as int]);
                assert(word_full@.subrange(i as int, i + depth + 1) =~= paths[i as int]);
            }
            trie.insert_range(&word_full, i, i + depth + 1);
            i += 1;
        }
        proof {
            if len >= depth {
                assert(paths.take(i as int) =~= paths);
            }
            start.lemma_insert_all_wf(paths);
            assert forall|path: Seq<char>|
                #[trigger] start.trie.insert_all(paths).count_at(path) == start.trie.count_at(
                    path,
                ) + passes(paths, path) by {
                start.trie.lemma_insert_all_count_at(paths, path);
            }
            let after = MarkovGenerator { depth: self.depth, trie };
            assert(after@ == start.train(word@));
        }
        *self = MarkovGenerator { depth: self.depth, trie };
    }

    /// Whether the counts of a new generator can hold the training on all
    /// of `in_vec`.
    pub fn has_room_for_all(in_vec: &[&str], depth: u32) -> (room: bool)
        ensures
            room == (training_size(words_of(in_vec@), depth as nat) <= u32::MAX),
    {
        let ghost words = words_of(in_vec@);
        let mut total: u64 = 0;
        let mut i: usize = 0;
        while i < in_vec.len()
            invariant
                i <= in_vec.len(),
                words == words_of(in_vec@),
                total == training_size(words.take(i as int), depth as nat),
                total <= u32::MAX,
            decreases in_vec.len() - i,
        {
            proof {
                assert(words.take(i + 1).drop_last() =~= words.take(i as int));
                assert(words.take(i + 1).last() == in_vec@[i as int]@);
                lemma_training_size_grows(words, i + 1, depth as nat);
            }
            let len = in_vec[i].unicode_len();
            if len < depth as usize {
                total = total + 1;
            } else {
                let windows = len - depth as usize;
                if windows >= u32::MAX as usize {
                    return false;
                }
                total = total + windows as u64 + 1;
            }
            if total > u32::MAX as u64 {
                return false;
            }
            i += 1;
        }
        assert(words.take(i as int) =~= words);
        true
    }

    /// Read words from a slice of strings to seed the generator.
    pub fn from_vec(in_vec: &[&str], depth: u32) -> (res: Result<MarkovGenerator, MarkovError>)
        requires
            training_size(words_of(in_vec@), depth as nat) <= u32::MAX,
        ensures
            res matches Ok(generator) && generator@ == GeneratorModel::fresh(depth as nat).train_all(
                words_of(in_vec@),
            ) && (in_vec@.len() > 0 ==> generator@.is_trained()),
    {
        let mut generator = Self::new(depth);
        let ghost words = words_of(in_vec@);
        let ghost start = GeneratorModel::fresh(depth as nat);
        let mut i: usize = 0;
        while i < in_vec.len()
            invariant
                i <= in_vec.len(),
                words == words_of(in_vec@),
                start == GeneratorModel::fresh(depth as nat),
                generator@ == start.train_all(words.take(i as int)),
                generator@.depth == depth,
                generator@.trie.count == training_size(words.take(i as int), depth as nat),
                training_size(words, depth as nat) <= u32::MAX,
            decreases in_vec.len() - i,
        {
            proof {
                assert(words.take(i + 1).drop_last() =~= words.take(i as int));
                assert(words.take(i + 1).last() == in_vec@[i as int]@);
                lemma_training_size_grows(words, i + 1, depth as nat);
                use_type_invariant(&generator);
                generator@.lemma_train_wf(in_vec@[i as int]@);
            }
            generator.insert_word(in_vec[i]);
            i += 1;
        }
        assert(words.take(i as int) =~= words);
        proof {
            GeneratorModel::fresh(depth as nat).lemma_train_all_wf(words);
        }
        Ok(generator)
    }

    /// Generate a new word.
    ///
    /// The word starts with the start sentinel. Each further character is
    /// drawn from the distribution that the trie gives for the characters
    /// before it; where the trie gives none, the end sentinel is put. The
    /// word is complete with the first end sentinel. A generator that has
    /// seen no word has nothing to draw from, and this is the one error.
    pub fn generate(&self) -> (res: Result<String, MarkovError>)
        ensures
            match res {
                Ok(word) => self@.is_trained() && self@.generates(word@),
                Err(e) => !self@.is_trained() && e == MarkovError::EmptyDistribution,
            },
    {
        let mut new_word = String::new();
        new_word.push(STARTCHAR);
        let mut chars: Vec<char> = Vec::new();
        chars.push(STARTCHAR);
        let depth = self.depth as usize;
        proof {
            use_type_invariant(self);
        }
        while chars[chars.len() - 1] != ENDCHAR
            invariant
                self.wf(),
                depth == self.depth,
                chars.len() >= 1,
                new_word@ == chars@,
                chars@[0] == STARTCHAR,
                chars.len() > 1 ==> self@.is_trained(),
                forall|i: int| 1 <= i < chars.len() - 1 ==> #[trigger] chars@[i] != ENDCHAR,
                forall|i: int| 1 <= i < chars.len() ==> #[trigger] self@.allows_at(chars@, i),
            decreases usize::MAX - chars.len(),
        {
            let len = chars.len();
            let from = if len - 1 <= depth {
                1
            } else {
                len - depth
            };
            let ghost before = chars@;
            let ghost body = before.subrange(1, len as int);
            proof {
                assert(before.subrange(from as int, len as int) =~= self@.context(body));
                if self@.is_trained() {
                    self@.lemma_context_continues(body);
                }
            }
            let next = match self.trie.lookup(&chars, from, len) {
                Ok(counts) => match sample_map(counts) {
                    Ok(key) => key,
                    Err(e) => {
                        return Err(e);
                    },
                },
                // the trie knows no continuation of this context: the word
                // ends here
                Err(_) => ENDCHAR,
            };
            new_word.push(next);
            chars.push(next);
            proof {
                assert(chars@.subrange(1, len as int) =~= body);
                assert(self@.allows_at(chars@, len as int));
                assert forall|i: int| 1 <= i < chars.len() implies #[trigger] self@.allows_at(
                    chars@,
                    i,
                ) by {
                    if i < len {
                        assert(chars@.subrange(1, i) =~= before.subrange(1, i));
                        assert(self@.allows_at(before, i));
                    }
                }
            }
        }
        Ok(new_word)
    }
}

/// The number of sequences inserted grows with the number of words.
pub proof fn lemma_training_size_grows(words: Seq<Seq<char>>, n: int, depth: nat)
    requires
        0 <= n <= words.len(),
    ensures
        training_size(words.take(n), depth) <= training_size(words, depth),
    decreases words.len() - n,
{
    if n < words.len() {
        lemma_training_size_grows(words, n + 1, depth);
        assert(words.take(n + 1).drop_last() =~= words.take(n));
    } else {
        assert(words.take(n) =~= words);
    }
}

} // verus!
