//! The table of byte sequences of the LZW coder: every sequence in it has an
//! index, and a 256-ary tree finds the index of a sequence byte by byte.
use vstd::prelude::*;
use vstd::std_specs::cmp::PartialEqSpec;

verus! {

/// The largest number of sequences that a dictionary holds.
pub const MAX_SIZE: usize = 4194304;

/// A 256-ary tree that maps byte sequences to indices. A node stands for the
/// sequence of bytes that leads to it from the root; it holds the index of
/// that sequence, if the sequence has one, and 256 subtrees, one for each
/// next byte, or none as long as nothing is stored below it. A leaf stands
/// for a place at and below which nothing is stored.
#[derive(Debug)]
pub enum WordsTree {
    Node(Option<usize>, Box<Vec<WordsTree>>),
    Leaf,
}

impl WordsTree {
    /// Every node of the tree has 256 subtrees or none.
    pub open spec fn wf(self) -> bool
        decreases self,
    {
        match self {
            WordsTree::Leaf => true,
            WordsTree::Node(_, rest) => rest@.len() == 0 || (rest@.len() == 256 && forall|i: int|
                0 <= i < 256 ==> (#[trigger] rest@[i]).wf()),
        }
    }

    /// The index that the tree holds for `path`, if it holds one.
    pub open spec fn lookup(self, path: Seq<u8>) -> Option<usize>
        decreases path.len(),
    {
        match self {
            WordsTree::Leaf => None,
            WordsTree::Node(index, rest) => if path.len() == 0 {
                index
            } else if (path[0] as int) < rest@.len() {
                rest@[path[0] as int].lookup(path.drop_first())
            } else {
                None
            },
        }
    }

    /// The tree as a map from byte sequences to indices.
    pub open spec fn entries(self) -> Map<Seq<u8>, usize> {
        Map::new(|path: Seq<u8>| self.lookup(path) is Some, |path: Seq<u8>| self.lookup(path)->0)
    }

    /// A node whose subtrees are 256 leaves is well formed and holds nothing
    /// but its own index.
    proof fn lemma_leaves(self)
        requires
            self matches WordsTree::Node(_, rest) && rest@.len() == 256 && forall|i: int|
                0 <= i < 256 ==> rest@[i] == WordsTree::Leaf,
        ensures
            self.wf(),
            forall|path: Seq<u8>| path.len() > 0 ==> (#[trigger] self.lookup(path)) is None,
    {
        let rest = self->Node_1;
        assert forall|i: int| 0 <= i < 256 implies (#[trigger] rest@[i]).wf() by {
            assert(WordsTree::Leaf.wf());
        }
        assert forall|path: Seq<u8>| path.len() > 0 implies (#[trigger] self.lookup(path))
            is None by {
            assert(WordsTree::Leaf.lookup(path.drop_first()) is None);
        }
    }

    /// 256 leaves.
    fn leaves() -> (res: Vec<WordsTree>)
        ensures
            res@.len() == 256,
            forall|i: int| 0 <= i < 256 ==> res@[i] == WordsTree::Leaf,
    {
        let mut res: Vec<WordsTree> = Vec::new();
        while res.len() < 256
            invariant
                res@.len() <= 256,
                forall|i: int| 0 <= i < res@.len() ==> res@[i] == WordsTree::Leaf,
            decreases 256 - res@.len(),
        {
            res.push(WordsTree::Leaf);
        }
        res
    }

    /// A tree that holds no index.
    pub fn new() -> (res: Self)
        ensures
            res.wf(),
            res.entries() == Map::<Seq<u8>, usize>::empty(),
    {
        let res = WordsTree::Node(None, Box::new(Vec::new()));
        proof {
            assert(forall|path: Seq<u8>| (#[trigger] res.lookup(path)) is None);
            assert(res.entries() =~= Map::<Seq<u8>, usize>::empty());
        }
        res
    }

    /// Stores `index` for `path`, in place of the index that `path` had if it
    /// had one.
    pub fn add(&mut self, path: &[u8], index: usize)
        requires
            old(self).wf(),
        ensures
            final(self).wf(),
            final(self).entries() == old(self).entries().insert(path@, index),
            forall|q: Seq<u8>| #[trigger]
                final(self).lookup(q) == if q == path@ {
                    Some(index)
                } else {
                    old(self).lookup(q)
                },
    {
        self.add_at(path, 0, index);
        proof {
            assert(path@.skip(0) =~= path@);
            assert(self.entries() =~= old(self).entries().insert(path@, index));
        }
    }

    /// The index stored for `path`, if there is one.
    pub fn get(&self, path: &[u8]) -> (res: Option<usize>)
        requires
            self.wf(),
        ensures
            res == self.lookup(path@),
            res == if self.entries().contains_key(path@) {
                Some(self.entries()[path@])
            } else {
                None
            },
    {
        proof {
            assert(path@.skip(0) =~= path@);
        }
        self.get_at(path, 0)
    }

    fn add_at(&mut self, path: &[u8], pos: usize, index: usize)
        requires
            old(self).wf(),
            pos <= path@.len(),
        ensures
            final(self).wf(),
            forall|q: Seq<u8>| #[trigger]
                final(self).lookup(q) == if q == path@.skip(pos as int) {
                    Some(index)
                } else {
                    old(self).lookup(q)
                },
        decreases path@.len() - pos,
    {
        let ghost rest_of_path = path@.skip(pos as int);
        if self.is_leaf() {
            *self = WordsTree::Node(None, Box::new(Vec::new()));
            assert(forall|q: Seq<u8>| (#[trigger] self.lookup(q)) is None);
        }
        if pos < path.len() {
            self.grow();
        }
        let ghost before = *self;
        assert(forall|q: Seq<u8>| before.lookup(q) == old(self).lookup(q));
        match self {
            WordsTree::Node(stored, rest) => {
                if pos == path.len() {
                    *stored = Some(index);
                } else {
                    let x = path[pos];
                    let subtrees: &mut Vec<WordsTree> = &mut **rest;
                    subtrees[x as usize].add_at(path, pos + 1, index);
                }
            },
            WordsTree::Leaf => {},
        }
        proof {
            let old_rest = before->Node_1@;
            let new_rest = self->Node_1@;
            if pos == path@.len() {
                assert(rest_of_path.len() == 0);
                assert(new_rest == old_rest);
                assert forall|q: Seq<u8>| #[trigger]
                    self.lookup(q) == if q == rest_of_path {
                        Some(index)
                    } else {
                        before.lookup(q)
                    } by {
                    if q.len() == 0 {
                        assert(q =~= rest_of_path);
                    }
                }
            } else {
                let x = path@[pos as int];
                let tail = path@.skip(pos + 1);
                assert(rest_of_path.drop_first() =~= tail);
                assert(rest_of_path[0] == x);
                assert(new_rest =~= old_rest.update(x as int, new_rest[x as int]));
                assert forall|q: Seq<u8>| #[trigger]
                    self.lookup(q) == if q == rest_of_path {
                        Some(index)
                    } else {
                        before.lookup(q)
                    } by {
                    if q.len() > 0 {
                        if q[0] == x {
                            assert(self.lookup(q) == new_rest[x as int].lookup(q.drop_first()));
                            assert(before.lookup(q) == old_rest[x as int].lookup(q.drop_first()));
                            if q.drop_first() == tail {
                                assert(q =~= seq![q[0]] + q.drop_first());
                                assert(rest_of_path =~= seq![x] + tail);
                            }
                        } else {
                            assert(new_rest[q[0] as int] == old_rest[q[0] as int]);
                        }
                    }
                }
                assert forall|i: int| 0 <= i < 256 implies (#[trigger] new_rest[i]).wf() by {
                    if i != x {
                        assert(new_rest[i] == old_rest[i]);
                    }
                }
            }
        }
    }

    /// Gives a node that has no subtrees 256 leaves for subtrees.
    fn grow(&mut self)
        requires
            old(self).wf(),
            *old(self) is Node,
        ensures
            final(self).wf(),
            *final(self) matches WordsTree::Node(_, rest) && rest@.len() == 256,
            forall|q: Seq<u8>| (#[trigger] final(self).lookup(q)) == old(self).lookup(q),
    {
        match self {
            WordsTree::Node(_, rest) => {
                if rest.len() == 0 {
                    *rest = Box::new(Self::leaves());
                }
            },
            WordsTree::Leaf => {},
        }
        proof {
            if old(self)->Node_1@.len() == 0 {
                self.lemma_leaves();
            }
        }
    }

    fn is_leaf(&self) -> (res: bool)
        ensures
            res == (*self == WordsTree::Leaf),
    {
        match self {
            WordsTree::Leaf => true,
            WordsTree::Node(_, _) => false,
        }
    }

    fn get_at(&self, path: &[u8], pos: usize) -> (res: Option<usize>)
        requires
            self.wf(),
            pos <= path@.len(),
        ensures
            res == self.lookup(path@.skip(pos as int)),
        decreases path@.len() - pos,
    {
        match self {
            WordsTree::Node(index, rest) => {
                if pos == path.len() {
                    return *index;
                }
                if rest.len() == 0 {
                    return None;
                }
                let x = path[pos];
                proof {
                    assert(path@.skip(pos as int).drop_first() =~= path@.skip(pos + 1));
                }
                rest[x as usize].get_at(path, pos + 1)
            },
            WordsTree::Leaf => None,
        }
    }
}

/// The index of `word` in `words`, if it is one of them.
pub open spec fn position(words: Seq<Seq<u8>>, word: Seq<u8>) -> Option<usize> {
    if words.contains(word) {
        Some((choose|i: int| 0 <= i < words.len() && words[i] == word) as usize)
    } else {
        None
    }
}

/// The first 256 entries of every dictionary: for each byte the sequence
/// made of that byte alone, at the index of the byte's value.
pub open spec fn seeds() -> Seq<Seq<u8>> {
    Seq::new(256, |k: int| seq![k as u8])
}

/// `words` with `word` added at the end, unless it is one of them already
/// or they are `MAX_SIZE` many.
pub open spec fn with_word(words: Seq<Seq<u8>>, word: Seq<u8>) -> Seq<Seq<u8>> {
    if words.contains(word) || words.len() >= MAX_SIZE {
        words
    } else {
        words.push(word)
    }
}

/// The table of the byte sequences seen so far, each with its index.
///
/// Its view is the list of the sequences, in the order of their indices. No
/// sequence is in it twice, and the first 256 are the single bytes.
#[derive(Debug)]
pub struct Dictionary {
    words: Vec<Vec<u8>>,
    tree: WordsTree,
}

impl View for Dictionary {
    type V = Seq<Seq<u8>>;

    closed spec fn view(&self) -> Seq<Seq<u8>> {
        Seq::new(self.words@.len(), |i: int| self.words@[i]@)
    }
}

impl std::ops::Index<usize> for Dictionary {
    type Output = Vec<u8>;

    /// The sequence with the index `index`.
    fn index(&self, index: usize) -> (res: &Vec<u8>)
        ensures
            res@ == self@[index as int],
    {
        self.resolve(index)
    }
}

impl vstd::std_specs::core::IndexSpecImpl<usize> for Dictionary {
    open spec fn index_req(&self, index: &usize) -> bool {
        *index < self@.len()
    }
}

impl Dictionary {
    /// The tree holds for every sequence of the list its index, and holds
    /// nothing else; the list is not longer than `MAX_SIZE`.
    spec fn inv(&self) -> bool {
        &&& self.tree.wf()
        &&& self.words@.len() <= MAX_SIZE
        &&& forall|i: int|
            0 <= i < self.words@.len() ==> self.tree.lookup(#[trigger] self.words@[i]@) == Some(
                i as usize,
            )
        &&& forall|q: Seq<u8>|
            (#[trigger] self.tree.lookup(q)) is Some ==> self.tree.lookup(q)->0
                < self.words@.len() && self.words@[self.tree.lookup(q)->0 as int]@ == q
    }

    /// The representation invariant: the tree and the list agree, and the
    /// list starts with the 256 single bytes.
    pub closed spec fn wf(&self) -> bool {
        &&& self.inv()
        &&& self@.len() >= 256
        &&& self@.take(256) == seeds()
    }

    /// No two entries are equal.
    proof fn lemma_distinct(&self)
        requires
            self.inv(),
        ensures
            forall|i: int, j: int|
                0 <= i < self@.len() && 0 <= j < self@.len() && self@[i] == self@[j] ==> i == j,
    {
        assert forall|i: int, j: int|
            0 <= i < self@.len() && 0 <= j < self@.len() && self@[i] == self@[j] implies i
            == j by {
            assert(self.tree.lookup(self.words@[i]@) == Some(i as usize));
            assert(self.tree.lookup(self.words@[j]@) == Some(j as usize));
        }
    }

    /// What the invariant says of the entries: there are between 256 and
    /// `MAX_SIZE` of them, the first 256 are the single bytes, and no two
    /// are equal.
    pub proof fn lemma_entries(&self)
        requires
            self.wf(),
        ensures
            256 <= self@.len() <= MAX_SIZE,
            self@.take(256) == seeds(),
            forall|i: int, j: int|
                0 <= i < self@.len() && 0 <= j < self@.len() && self@[i] == self@[j] ==> i == j,
    {
        self.lemma_distinct();
    }

    /// A dictionary that holds the 256 single bytes.
    pub fn new() -> (res: Self)
        ensures
            res.wf(),
            res@ == seeds(),
    {
        let mut res = Self { words: Vec::new(), tree: WordsTree::new() };
        assert(res.tree.entries().dom() =~= Set::<Seq<u8>>::empty());
        assert forall|q: Seq<u8>| res.tree.lookup(q) is None by {
            assert(!res.tree.entries().contains_key(q));
        }
        let mut i: usize = 0;
        while i < 256
            invariant
                i <= 256,
                res.inv(),
                res@.len() == i,
                forall|k: int| 0 <= k < i ==> res@[k] == seq![k as u8],
            decreases 256 - i,
        {
            let mut word: Vec<u8> = Vec::new();
            word.push(i as u8);
            assert(word@ =~= seq![i as u8]);
            proof {
                assert(!res@.contains(word@)) by {
                    if res@.contains(word@) {
                        let k = choose|k: int| 0 <= k < res@.len() && res@[k] == word@;
                        assert(res@[k] == seq![k as u8]);
                        assert(seq![k as u8][0] == seq![i as u8][0]);
                    }
                }
            }
            res.add_word(word);
            i += 1;
        }
        assert(res@ =~= seeds());
        assert(res@.take(256) =~= res@);
        res
    }

    /// Whether two vectors hold equal elements in the same order.
    pub fn vec_eq<A>(a: &Vec<A>, b: &Vec<A>) -> (res: bool) where A: PartialEq
        ensures
            A::obeys_eq_spec() ==> res == (a@.len() == b@.len() && forall|i: int|
                0 <= i < a@.len() ==> (#[trigger] a@[i]).eq_spec(&b@[i])),
    {
        if a.len() != b.len() {
            return false;
        }
        let mut i: usize = 0;
        while i < a.len()
            invariant
                i <= a@.len(),
                a@.len() == b@.len(),
                A::obeys_eq_spec() ==> forall|j: int|
                    0 <= j < i ==> (#[trigger] a@[j]).eq_spec(&b@[j]),
            decreases a@.len() - i,
        {
            if a[i] != b[i] {
                return false;
            }
            i += 1;
        }
        true
    }

    /// The index of `seq`, if the dictionary holds it.
    pub fn word_position(&self, seq: &Vec<u8>) -> (res: Option<usize>)
        requires
            self.wf(),
        ensures
            match res {
                Some(index) => index < self@.len() && self@[index as int] == seq@,
                None => !self@.contains(seq@),
            },
            res == position(self@, seq@),
    {
        let res = self.find(seq);
        proof {
            if let Some(index) = res {
                self.lemma_entries();
                lemma_position(self@, seq@, index as int);
            }
        }
        res
    }

    fn find(&self, seq: &Vec<u8>) -> (res: Option<usize>)
        requires
            self.inv(),
        ensures
            res == self.tree.lookup(seq@),
            match res {
                Some(index) => index < self@.len() && self@[index as int] == seq@,
                None => !self@.contains(seq@),
            },
    {
        let res = self.tree.get(seq.as_slice());
        proof {
            if res is None && self@.contains(seq@) {
                let i = choose|i: int| 0 <= i < self@.len() && self@[i] == seq@;
                assert(self.tree.lookup(self.words@[i]@) == Some(i as usize));
            }
        }
        res
    }

    fn add_word(&mut self, seq: Vec<u8>) -> (res: Option<usize>)
        requires
            old(self).inv(),
        ensures
            final(self).inv(),
            final(self)@ == with_word(old(self)@, seq@),
            res == position(final(self)@, seq@),
            res is None <==> !old(self)@.contains(seq@) && old(self)@.len() >= MAX_SIZE,
    {
        match self.find(&seq) {
            None => {
                if self.words.len() < MAX_SIZE {
                    let index = self.words.len();
                    let ghost word = seq@;
                    self.tree.add(seq.as_slice(), index);
                    self.words.push(seq);
                    proof {
                        assert(self@ =~= old(self)@.push(word));
                        assert forall|i: int| 0 <= i < self.words@.len() implies self.tree.lookup(
                            #[trigger] self.words@[i]@,
                        ) == Some(i as usize) by {
                            if i < index {
                                assert(self.words@[i] == old(self).words@[i]);
                                assert(old(self).tree.lookup(old(self).words@[i]@) == Some(
                                    i as usize,
                                ));
                            }
                        }
                        assert forall|q: Seq<u8>| (#[trigger] self.tree.lookup(q)) is Some implies
                            self.tree.lookup(q)->0 < self.words@.len()
                            && self.words@[self.tree.lookup(q)->0 as int]@ == q by {
                            if q != word {
                                let at = old(self).tree.lookup(q)->0;
                                assert(self.words@[at as int] == old(self).words@[at as int]);
                            }
                        }
                        assert(self@[index as int] == word);
                        self.lemma_distinct();
                        lemma_position(self@, word, index as int);
                    }
                    Some(index)
                } else {
                    None
                }
            },
            Some(index) => {
                proof {
                    self.lemma_distinct();
                    lemma_position(self@, seq@, index as int);
                }
                Some(index)
            },
        }
    }

    /// Adds `seq` to the dictionary and returns its index. A sequence that
    /// the dictionary holds already keeps its index, and nothing changes. A
    /// new sequence gets the next index, unless the dictionary is full: then
    /// nothing changes and the result is `None`.
    pub fn add(&mut self, seq: Vec<u8>) -> (res: Option<usize>)
        requires
            old(self).wf(),
        ensures
            final(self).wf(),
            final(self)@ == with_word(old(self)@, seq@),
            res == position(final(self)@, seq@),
            res is None <==> !old(self)@.contains(seq@) && old(self)@.len() >= MAX_SIZE,
    {
        let res = self.add_word(seq);
        proof {
            assert(self@.take(256) =~= old(self)@.take(256));
        }
        res
    }

    /// The number of sequences in the dictionary.
    pub fn len(&self) -> (res: usize)
        ensures
            res == self@.len(),
    {
        self.words.len()
    }

    /// The sequence with the index `index`.
    pub fn resolve(&self, index: usize) -> (res: &Vec<u8>)
        requires
            index < self@.len(),
        ensures
            res@ == self@[index as int],
    {
        &self.words[index]
    }
}

/// In a fresh dictionary every single byte has its own value for index.
pub proof fn lemma_seed_position(byte: u8)
    ensures
        position(seeds(), seq![byte]) == Some(byte as usize),
{
    let words = seeds();
    assert(words[byte as int] == seq![byte]);
    assert(words.contains(seq![byte]));
    let chosen = choose|i: int| 0 <= i < words.len() && words[i] == seq![byte];
    assert(words[chosen][0] == chosen as u8);
    assert(seq![byte][0] == byte);
}

/// Adding a sequence twice is adding it once: the second time changes
/// nothing, and so gives the index that the first gave.
pub proof fn lemma_add_twice(words: Seq<Seq<u8>>, word: Seq<u8>)
    ensures
        with_word(with_word(words, word), word) == with_word(words, word),
        position(with_word(with_word(words, word), word), word) == position(
            with_word(words, word),
            word,
        ),
{
    if !words.contains(word) && words.len() < MAX_SIZE {
        assert(words.push(word)[words.len() as int] == word);
    }
}

/// A full dictionary takes no new sequence: it stays as it is, and the
/// sequence has no index.
pub proof fn lemma_add_when_full(words: Seq<Seq<u8>>, word: Seq<u8>)
    requires
        words.len() >= MAX_SIZE,
    ensures
        with_word(words, word) == words,
        !words.contains(word) ==> position(with_word(words, word), word) is None,
{
}

/// In a list without repetition, a word has the position at which it
/// stands.
pub proof fn lemma_position(words: Seq<Seq<u8>>, word: Seq<u8>, index: int)
    requires
        0 <= index < words.len(),
        words[index] == word,
        forall|i: int, j: int|
            0 <= i < words.len() && 0 <= j < words.len() && words[i] == words[j] ==> i == j,
    ensures
        position(words, word) == Some(index as usize),
{
    assert(words.contains(word));
}

} // verus!
