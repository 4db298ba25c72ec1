//! The transition table: every context that was seen, with its weighted
//! successors. Training adds observations to it.

use crate::entry::{words_view, Entry};
use crate::model::{
    can_record, can_train, has_room, lemma_record_mass, mass, mass_at, record, start_context,
    train, Context, Transitions,
};
use crate::word::{Word, WordArray};
use vstd::prelude::*;

verus! {

/// The model of a stored context.
pub open spec fn context_of(index: WordArray) -> Context {
    (index@[0]@, index@[1]@)
}

/// The same list back to front.
pub(crate) fn reversed<T>(v: Vec<T>) -> (r: Vec<T>)
    ensures
        r@ == v@.reverse(),
{
    let mut v = v;
    let ghost whole = v@;
    let mut r: Vec<T> = Vec::new();
    while v.len() > 0
        invariant
            v@.len() + r@.len() == whole.len(),
            v@ == whole.take(v@.len() as int),
            forall|k: int| 0 <= k < r@.len() ==> #[trigger] r@[k] == whole[whole.len() - 1 - k],
        decreases v@.len(),
    {
        let last = v.pop().unwrap();
        r.push(last);
    }
    assert(r@ =~= whole.reverse());
    r
}

/// A second-order Markov chain over words.
///
/// The contexts are kept in the order in which they were first seen, each
/// once, and every one of them has a usable entry.
#[derive(Debug)]
pub struct Markov {
    pub(crate) entries: Vec<(WordArray, Entry)>,
}

impl View for Markov {
    type V = Transitions;

    open(crate) spec fn view(&self) -> Transitions {
        Map::new(
            |c: Context| self.keys().contains(c),
            |c: Context| self.entries@[self.keys().index_of(c)].1@,
        )
    }
}

impl Markov {
    /// The stored contexts, in order.
    pub open(crate) spec fn keys(&self) -> Seq<Context> {
        self.entries@.map_values(|e: (WordArray, Entry)| context_of(e.0))
    }

    /// The table is usable: no context is stored twice, and every entry is
    /// usable.
    pub open(crate) spec fn wf(&self) -> bool {
        &&& self.keys().no_duplicates()
        &&& forall|i: int| 0 <= i < self.entries@.len() ==> (#[trigger] self.entries@[i]).1.wf()
    }

    /// How the model relates to what is stored: a context is in the table
    /// exactly when it is stored, and its successors are those of the entry
    /// stored with it.
    pub(crate) proof fn lemma_view(&self)
        requires
            self.wf(),
        ensures
            forall|i: int|
                0 <= i < self.entries@.len() ==> self@.dom().contains(#[trigger] self.keys()[i])
                    && self@[self.keys()[i]] == self.entries@[i].1@,
            forall|c: Context| self@.dom().contains(c) <==> self.keys().contains(c),
            self@.dom().finite(),
            self@.dom().len() == self.entries@.len(),
    {
        let keys = self.keys();
        assert forall|i: int| 0 <= i < self.entries@.len() implies self@.dom().contains(
            #[trigger] keys[i],
        ) && self@[keys[i]] == self.entries@[i].1@ by {
            let j = keys.index_of(keys[i]);
            assert(0 <= j < keys.len() && keys[j] == keys[i]);
        }
        assert(self@.dom() =~= keys.to_set());
        keys.unique_seq_to_set();
        vstd::seq_lib::seq_to_set_is_finite(keys);
    }

    /// Every context of a usable table has valid successors whose total
    /// weight fits in `usize`.
    pub proof fn lemma_wf(&self)
        requires
            self.wf(),
        ensures
            self@.dom().finite(),
            forall|c: Context| #[trigger]
                self@.dom().contains(c) ==> crate::model::valid_successors(self@[c]) && mass(
                    self@[c],
                ) <= usize::MAX,
    {
        self.lemma_view();
        assert forall|c: Context| #[trigger] self@.dom().contains(c) implies
            crate::model::valid_successors(self@[c]) && mass(self@[c]) <= usize::MAX by {
            let i = self.keys().index_of(c);
            assert(self.keys()[i] == c);
            self.entries@[i].1.lemma_wf();
        }
    }

    /// An empty table.
    pub fn new() -> (m: Markov)
        ensures
            m.wf(),
            m@ == Map::<Context, crate::model::Successors>::empty(),
    {
        let m = Markov { entries: Vec::new() };
        assert(m@ =~= Map::<Context, crate::model::Successors>::empty());
        m
    }

    /// Where a context is stored, if it is.
    pub(crate) fn find(&self, index: &WordArray) -> (r: Option<usize>)
        requires
            self.wf(),
        ensures
            match r {
                Some(i) => i < self.entries@.len() && self.keys()[i as int] == context_of(*index),
                None => !self@.dom().contains(context_of(*index)),
            },
    {
        let n = self.entries.len();
        let mut i: usize = 0;
        while i < n
            invariant
                i <= n,
                n == self.entries@.len(),
                forall|k: int| 0 <= k < i ==> (#[trigger] self.keys()[k]) != context_of(*index),
            decreases n - i,
        {
            if self.entries[i].0[0] == index[0] && self.entries[i].0[1] == index[1] {
                return Some(i);
            }
            i += 1;
        }
        proof {
            self.lemma_view();
        }
        None
    }

    /// The number of contexts in the table.
    pub fn len(&self) -> (n: usize)
        requires
            self.wf(),
        ensures
            n == self@.dom().len(),
    {
        proof {
            self.lemma_view();
        }
        self.entries.len()
    }

    /// The total weight of a context: the number of observations recorded
    /// for it, or zero where the table does not hold it.
    pub fn weight(&self, index: &WordArray) -> (w: usize)
        requires
            self.wf(),
        ensures
            w == mass_at(self@, context_of(*index)),
    {
        proof {
            self.lemma_view();
        }
        match self.find(index) {
            Some(i) => self.entries[i].1.weight(),
            None => 0,
        }
    }

    /// Whether every context can take `n` more observations. Where it can,
    /// the table can be trained on a sequence of fewer than `n` words.
    pub fn has_room(&self, n: usize) -> (b: bool)
        requires
            self.wf(),
        ensures
            b == has_room(self@, n as nat),
    {
        let count = self.entries.len();
        let mut i: usize = 0;
        proof {
            self.lemma_view();
        }
        while i < count
            invariant
                i <= count,
                count == self.entries@.len(),
                self.wf(),
                forall|k: int|
                    0 <= k < i ==> mass((#[trigger] self.entries@[k]).1@) + n <= usize::MAX,
            decreases count - i,
        {
            if self.entries[i].1.weight() > usize::MAX - n {
                proof {
                    self.lemma_view();
                    assert(self@.dom().contains(self.keys()[i as int]));
                }
                return false;
            }
            i += 1;
        }
        proof {
            self.lemma_view();
            assert forall|c: Context| #[trigger] self@.dom().contains(c) implies mass(self@[c]) + n
                <= usize::MAX by {
                let k = self.keys().index_of(c);
                assert(self.keys()[k] == c);
                assert(mass(self.entries@[k].1@) + n <= usize::MAX);
            }
        }
        true
    }

    /// Records that `word` was seen once in the context `index`.
    pub fn insert(&mut self, index: WordArray, word: Word)
        requires
            old(self).wf(),
            can_record(old(self)@, context_of(index)),
        ensures
            final(self).wf(),
            final(self)@ == record(old(self)@, context_of(index), word@),
            mass_at(final(self)@, context_of(index)) == mass_at(old(self)@, context_of(index)) + 1,
    {
        let ghost c = context_of(index);
        let ghost before = *self;
        proof {
            self.lemma_view();
            lemma_record_mass(self@, c, word@, c);
        }
        match self.find(&index) {
            Some(i) => {
                self.entries[i].1.insert(word);
                proof {
                    assert(self.keys() =~= before.keys());
                    self.lemma_view();
                    assert(self@ =~= record(before@, c, word@)) by {
                        assert forall|d: Context| self@.dom().contains(d) implies #[trigger] self@[d]
                            == record(before@, c, word@)[d] by {
                            let j = self.keys().index_of(d);
                            assert(self.keys()[j] == d);
                        }
                    }
                }
            },
            None => {
                let entry = Entry::new(word);
                self.entries.push((index, entry));
                proof {
                    assert(self.keys() =~= before.keys().push(c));
                    assert forall|a: int, b: int|
                        0 <= a < self.keys().len() && 0 <= b < self.keys().len() && a
                            != b implies self.keys()[a] != self.keys()[b] by {
                        if a < before.keys().len() {
                            assert(before.keys().contains(self.keys()[a]));
                        }
                        if b < before.keys().len() {
                            assert(before.keys().contains(self.keys()[b]));
                        }
                    }
                    self.lemma_view();
                    assert(self@ =~= record(before@, c, word@)) by {
                        assert forall|d: Context| self@.dom().contains(d) implies #[trigger] self@[d]
                            == record(before@, c, word@)[d] by {
                            let j = self.keys().index_of(d);
                            assert(self.keys()[j] == d);
                            if j < before.keys().len() {
                                assert(before.keys()[j] == d);
                            }
                        }
                        assert forall|d: Context| #[trigger]
                            record(before@, c, word@).dom().contains(d) implies self@.dom().contains(
                            d,
                        ) by {
                            if d == c {
                                assert(self.keys()[before.keys().len() as int] == c);
                            } else {
                                let j = before.keys().index_of(d);
                                assert(self.keys()[j] == d);
                            }
                        }
                    }
                }
            },
        }
    }

    /// Trains the table on one sequence of words: every word is recorded in
    /// the context of the two before it, beginning with the start context,
    /// and the end marker is recorded in the context of the last two.
    pub fn insert_sequence(&mut self, seq: Vec<String>)
        requires
            old(self).wf(),
            can_train(old(self)@, start_context(), words_view(seq@)),
        ensures
            final(self).wf(),
            final(self)@ == train(old(self)@, start_context(), words_view(seq@)),
    {
        let ghost words = words_view(seq@);
        let ghost goal = train(self@, start_context(), words);
        let mut older = Word::Start;
        let mut newer = Word::Start;
        let n = seq.len();
        let mut i: usize = 0;
        assert(words.skip(0) =~= words);
        while i < n
            invariant
                i <= n,
                n == seq@.len(),
                words == words_view(seq@),
                self.wf(),
                can_train(self@, (older@, newer@), words.skip(i as int)),
                train(self@, (older@, newer@), words.skip(i as int)) == goal,
            decreases n - i,
        {
            let cur = Word::Word(seq[i].clone());
            proof {
                assert(words.skip(i as int)[0] == words[i as int]);
                assert(words.skip(i as int).skip(1) =~= words.skip(i + 1));
                assert(cur@ == crate::word::Token::Word(words[i as int]));
            }
            let index: WordArray = [older, newer.clone()];
            self.insert(index, cur.clone());
            older = newer;
            newer = cur;
            i += 1;
        }
        let index: WordArray = [older, newer];
        self.insert(index, Word::End);
    }
}

} // verus!
