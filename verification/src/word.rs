//! Tokens of the chain and the two-token contexts built from them.

use vstd::prelude::*;
use vstd::std_specs::cmp::PartialEqSpecImpl;

verus! {

/// One element of a chain: the marker before the first word of a sequence,
/// the marker after its last word, or a word.
#[derive(Debug, Eq, Hash)]
pub enum Word {
    Start,
    End,
    Word(String),
}

/// The mathematical value of a [`Word`]: a marker or a word, with the
/// word's text as a sequence of characters.
pub enum Token {
    Start,
    End,
    Word(Seq<char>),
}

impl View for Word {
    type V = Token;

    open spec fn view(&self) -> Token {
        match self {
            Word::Start => Token::Start,
            Word::End => Token::End,
            Word::Word(s) => Token::Word(s@),
        }
    }
}

impl PartialEq for Word {
    fn eq(&self, other: &Self) -> (r: bool) {
        match self {
            Word::Start => matches!(other, Word::Start),
            Word::End => matches!(other, Word::End),
            Word::Word(a) => match other {
                Word::Word(b) => *a == *b,
                _ => false,
            },
        }
    }
}

impl PartialEqSpecImpl for Word {
    open spec fn obeys_eq_spec() -> bool {
        true
    }

    open spec fn eq_spec(&self, other: &Self) -> bool {
        self@ == other@
    }
}

impl Clone for Word {
    fn clone(&self) -> (r: Self)
        ensures
            r@ == self@,
    {
        match self {
            Word::Start => Word::Start,
            Word::End => Word::End,
            Word::Word(s) => Word::Word(s.clone()),
        }
    }
}

/// The number of tokens in a context.
pub const WORD_COUNT: usize = 2;

/// A context: the two most recent tokens, oldest first.
pub type WordArray = [Word; WORD_COUNT];

/// The context in which every sequence begins.
pub const START_WORDS: WordArray = [Word::Start, Word::Start];

} // verus!
