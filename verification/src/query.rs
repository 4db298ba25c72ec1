//! Questions about what the table has seen.

use crate::entry::words_view;
use crate::model::{followers, has_token, start_free, starters, Context};
use crate::table::Markov;
use crate::word::{Token, Word, START_WORDS};
use vstd::prelude::*;

verus! {

impl Markov {
    /// The words that were seen directly after `word`, each once. The end
    /// marker is no word and is left out.
    pub fn what_follows(&self, word: &str) -> (r: Vec<String>)
        requires
            self.wf(),
        ensures
            words_view(r@).no_duplicates(),
            words_view(r@).to_set() == followers(self@, word@),
    {
        let needle = Word::Word(word.to_owned());
        let mut out: Vec<String> = Vec::new();
        let n = self.entries.len();
        let mut e: usize = 0;
        proof {
            self.lemma_view();
        }
        while e < n
            invariant
                e <= n,
                n == self.entries@.len(),
                self.wf(),
                needle@ == Token::Word(word@),
                words_view(out@).no_duplicates(),
                forall|w: Seq<char>|
                    words_view(out@).contains(w) <==> exists|k: int|
                        0 <= k < e && (#[trigger] self.keys()[k]).1 == needle@ && has_token(
                            self.entries@[k].1@,
                            Token::Word(w),
                        ),
            decreases n - e,
        {
            let ghost before = words_view(out@);
            if self.entries[e].0[1] == needle {
                self.entries[e].1.collect_words(&mut out);
            }
            proof {
                let after = words_view(out@);
                assert forall|w: Seq<char>| after.contains(w) <==> exists|k: int|
                    0 <= k < e + 1 && (#[trigger] self.keys()[k]).1 == needle@ && has_token(
                        self.entries@[k].1@,
                        Token::Word(w),
                    ) by {
                    if before.contains(w) {
                        let k = choose|k: int|
                            0 <= k < e && (#[trigger] self.keys()[k]).1 == needle@ && has_token(
                                self.entries@[k].1@,
                                Token::Word(w),
                            );
                        assert(0 <= k < e + 1 && self.keys()[k].1 == needle@);
                    }
                    if self.keys()[e as int].1 == needle@ && has_token(
                        self.entries@[e as int].1@,
                        Token::Word(w),
                    ) {
                        assert(after.contains(w));
                    }
                }
            }
            e += 1;
        }
        proof {
            self.lemma_view();
            let got = words_view(out@).to_set();
            let want = followers(self@, word@);
            assert forall|w: Seq<char>| got.contains(w) implies want.contains(w) by {
                let k = choose|k: int|
                    0 <= k < n && (#[trigger] self.keys()[k]).1 == needle@ && has_token(
                        self.entries@[k].1@,
                        Token::Word(w),
                    );
                assert(self@.dom().contains(self.keys()[k]));
            }
            assert forall|w: Seq<char>| want.contains(w) implies got.contains(w) by {
                let c = choose|c: Context|
                    #[trigger] self@.dom().contains(c) && c.1 == Token::Word(word@) && has_token(
                        self@[c],
                        Token::Word(w),
                    );
                let k = self.keys().index_of(c);
                assert(self.keys()[k] == c);
            }
            assert(got =~= want);
        }
        out
    }

    /// The words that a sequence was seen to begin with, each once.
    pub fn what_starts(&self) -> (r: Vec<String>)
        requires
            self.wf(),
        ensures
            words_view(r@).no_duplicates(),
            words_view(r@).to_set() == starters(self@),
    {
        let mut out: Vec<String> = Vec::new();
        proof {
            self.lemma_view();
        }
        match self.find(&START_WORDS) {
            Some(i) => {
                self.entries[i].1.collect_words(&mut out);
            },
            None => {},
        }
        assert(words_view(out@).to_set() =~= starters(self@));
        out
    }

    /// Whether no context has the start marker as a successor. A walk needs
    /// this of its table.
    pub fn is_start_free(&self) -> (b: bool)
        requires
            self.wf(),
        ensures
            b == start_free(self@),
    {
        let n = self.entries.len();
        let mut e: usize = 0;
        proof {
            self.lemma_view();
        }
        while e < n
            invariant
                e <= n,
                n == self.entries@.len(),
                self.wf(),
                forall|k: int| 0 <= k < e ==> !has_token((#[trigger] self.entries@[k]).1@, Token::Start),
            decreases n - e,
        {
            if self.entries[e].1.has_start() {
                proof {
                    self.lemma_view();
                    assert(self@.dom().contains(self.keys()[e as int]));
                }
                return false;
            }
            e += 1;
        }
        proof {
            self.lemma_view();
            assert forall|c: Context| #[trigger] self@.dom().contains(c) implies !has_token(
                self@[c],
                Token::Start,
            ) by {
                let k = self.keys().index_of(c);
                assert(self.keys()[k] == c);
                assert(!has_token(self.entries@[k].1@, Token::Start));
            }
        }
        true
    }
}

} // verus!
