//! A random walk through the table, one word at a time.

use crate::model::{is_step, shift, start_context, start_free, Context, Transitions};
use crate::table::{context_of, Markov};
use crate::word::{Token, Word, WordArray, START_WORDS};
use rand::rngs::StdRng;
use vstd::prelude::*;

verus! {

/// The model of what a step emits.
pub open spec fn emitted(out: Option<String>) -> Option<Seq<char>> {
    match out {
        Some(w) => Some(w@),
        None => None,
    }
}

/// A walk through a table: the table, the context at which the walk stands,
/// and the random source that chooses among the successors.
pub struct Chain<'a> {
    table: &'a Markov,
    cur_words: WordArray,
    rng: StdRng,
}

impl<'a> Chain<'a> {
    /// The table that is walked.
    pub closed spec fn table(&self) -> Transitions {
        self.table@
    }

    /// The context at which the walk stands.
    pub closed spec fn context(&self) -> Context {
        context_of(self.cur_words)
    }

    /// The walk is usable: its table is, and no context of the table has
    /// the start marker as a successor.
    pub closed spec fn wf(&self) -> bool {
        self.table.wf() && start_free(self.table@)
    }

    /// Moves the walk on by the successor that was drawn: a word is
    /// emitted, the end marker ends the sequence.
    pub fn advance(&mut self, word: Word) -> (r: Option<String>)
        requires
            !(word@ is Start),
        ensures
            final(self).table() == old(self).table(),
            final(self).wf() == old(self).wf(),
            final(self).context() == shift(old(self).context(), word@),
            match r {
                Some(w) => word@ == Token::Word(w@),
                None => word@ is End,
            },
    {
        let newer = self.cur_words[1].clone();
        let next: WordArray = [newer, word.clone()];
        self.cur_words = next;
        match word {
            Word::Word(w) => Some(w),
            Word::End => None,
            Word::Start => None,
        }
    }

    /// Takes one step. Where the table holds the context at which the walk
    /// stands, a successor is drawn at random and the walk moves on by it;
    /// a word is returned, and `None` when the end marker was drawn. Where
    /// the table does not hold the context, the sequence is over and the
    /// walk stays.
    pub fn next(&mut self) -> (r: Option<String>)
        requires
            old(self).wf(),
        ensures
            final(self).wf(),
            final(self).table() == old(self).table(),
            is_step(old(self).table(), old(self).context(), final(self).context(), emitted(r)),
    {
        proof {
            self.table.lemma_view();
        }
        match self.table.find(&self.cur_words) {
            None => None,
            Some(i) => {
                let word = self.table.entries[i].1.get_random(&mut self.rng);
                self.advance(word)
            },
        }
    }
}

impl Markov {
    /// Begins a walk at the start context, with `rng` to choose by.
    pub fn generate_sequence(&self, rng: StdRng) -> (chain: Chain<'_>)
        requires
            self.wf(),
            start_free(self@),
        ensures
            chain.wf(),
            chain.table() == self@,
            chain.context() == start_context(),
    {
        Chain { table: self, cur_words: START_WORDS, rng }
    }
}

} // verus!
