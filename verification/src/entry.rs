//! The weighted successors of one context, with the distribution that
//! samples them.

use crate::dist::{dist_new, dist_sample, dist_update, dist_weights, total, Dist};
use crate::model::{
    distinct_tokens, has_token, heavy, lemma_heavy_grows, lemma_heavy_push, lemma_mass_bounds,
    lemma_mass_prefix, lemma_mass_push, lemma_observe, lemma_token_index, mass, observe,
    positive_weights, valid_successors, Successors,
};
use crate::word::{Token, Word};
use rand::distributions::WeightedError;
use rand::rngs::StdRng;
use vstd::prelude::*;

verus! {

/// Why a list of weighted successors cannot be an entry of a table.
#[derive(Debug, Clone, Copy, PartialEq, Eq, Structural)]
pub enum TableError {
    /// A context is listed without any successor.
    NoItem,
    /// A successor is listed with weight zero.
    InvalidWeight,
    /// A successor is listed twice for one context.
    DuplicateToken,
    /// The weights of one context do not sum within `usize`.
    TooHeavy,
    /// A context is listed twice.
    DuplicateContext,
}

/// The model of a list of pairs as they are stored.
pub open spec fn pairs_view(ps: Seq<(Word, usize)>) -> Successors {
    ps.map_values(|p: (Word, usize)| (p.0@, p.1 as nat))
}

/// The weights of a list of pairs as they are stored.
pub open spec fn pairs_weights(ps: Seq<(Word, usize)>) -> Seq<usize> {
    ps.map_values(|p: (Word, usize)| p.1)
}

/// Why these successors cannot be an entry, if they cannot.
pub open spec fn successors_error(s: Successors) -> Option<TableError> {
    if !positive_weights(s) {
        Some(TableError::InvalidWeight)
    } else if !distinct_tokens(s) {
        Some(TableError::DuplicateToken)
    } else if mass(s) > usize::MAX {
        Some(TableError::TooHeavy)
    } else if s.len() == 0 {
        Some(TableError::NoItem)
    } else {
        None
    }
}

/// The sum of the stored weights is the total weight of the model.
pub proof fn lemma_total_is_mass(ps: Seq<(Word, usize)>)
    ensures
        total(pairs_weights(ps)) == mass(pairs_view(ps)),
    decreases ps.len(),
{
    if ps.len() > 0 {
        assert(pairs_weights(ps).drop_last() =~= pairs_weights(ps.drop_last()));
        assert(pairs_view(ps).drop_last() =~= pairs_view(ps.drop_last()));
        lemma_total_is_mass(ps.drop_last());
    }
}

/// The model of a list of words.
pub open spec fn words_view(words: Seq<String>) -> Seq<Seq<char>> {
    words.map_values(|w: String| w@)
}

/// Whether the list holds the word.
pub fn holds_word(words: &Vec<String>, word: &String) -> (b: bool)
    ensures
        b == words_view(words@).contains(word@),
{
    let n = words.len();
    let mut i: usize = 0;
    while i < n
        invariant
            i <= n,
            n == words@.len(),
            forall|k: int| 0 <= k < i ==> #[trigger] words_view(words@)[k] != word@,
        decreases n - i,
    {
        if words[i] == *word {
            assert(words_view(words@)[i as int] == word@);
            return true;
        }
        i += 1;
    }
    false
}

/// The weighted successors of one context.
#[derive(Debug)]
pub struct Entry {
    weight_pairs: Vec<(Word, usize)>,
    dist: Dist,
}

impl View for Entry {
    type V = Successors;

    closed spec fn view(&self) -> Successors {
        pairs_view(self.weight_pairs@)
    }
}

impl Entry {
    /// The entry is usable: its successors are valid, their total weight
    /// fits in `usize`, and the distribution it samples from has exactly
    /// their weights, in their order.
    pub closed spec fn wf(&self) -> bool {
        &&& valid_successors(self@)
        &&& mass(self@) <= usize::MAX
        &&& self.sampling_weights() == self.stored_weights()
    }

    /// The weights that the entry's distribution samples by.
    pub closed spec fn sampling_weights(&self) -> Seq<usize> {
        dist_weights(self.dist)
    }

    /// The weights that the entry stores, in the order of its successors.
    pub closed spec fn stored_weights(&self) -> Seq<usize> {
        pairs_weights(self.weight_pairs@)
    }

    /// What a usable entry promises of its model and of its distribution.
    pub proof fn lemma_wf(&self)
        requires
            self.wf(),
        ensures
            valid_successors(self@),
            mass(self@) <= usize::MAX,
            self.sampling_weights().len() == self@.len(),
            forall|i: int|
                0 <= i < self@.len() ==> (#[trigger] self.sampling_weights()[i]) as nat
                    == self@[i].1,
    {
    }

    /// An entry with the single successor `word`, seen once.
    pub fn new(word: Word) -> (e: Entry)
        ensures
            e.wf(),
            e@ == seq![(word@, 1nat)],
    {
        let mut weight_pairs: Vec<(Word, usize)> = Vec::new();
        weight_pairs.push((word, 1));
        let mut ws: Vec<usize> = Vec::new();
        ws.push(1);
        proof {
            assert(ws@ =~= pairs_weights(weight_pairs@));
            assert(pairs_view(weight_pairs@) =~= seq![(word@, 1nat)]);
            lemma_total_is_mass(weight_pairs@);
            lemma_mass_push(Seq::<(Token, nat)>::empty(), (word@, 1nat));
            assert(Seq::<(Token, nat)>::empty().push((word@, 1nat)) =~= seq![(word@, 1nat)]);
        }
        let dist = dist_new(&ws).unwrap();
        Entry { weight_pairs, dist }
    }

    /// The token at position `i`.
    pub fn pick(&self, i: usize) -> (w: Word)
        requires
            i < self@.len(),
        ensures
            w@ == self@[i as int].0,
    {
        self.weight_pairs[i].0.clone()
    }

    /// Draws one successor at random from the entry's distribution. Which
    /// one comes out depends on `rng`; it is always one of the successors.
    pub fn get_random(&self, rng: &mut StdRng) -> (w: Word)
        requires
            self.wf(),
        ensures
            has_token(self@, w@),
    {
        let i = dist_sample(&self.dist, rng);
        let w = self.pick(i);
        assert(self@[i as int].0 == w@);
        w
    }

    /// Records one more observation of `new_word`.
    pub fn insert(&mut self, new_word: Word)
        requires
            old(self).wf(),
            mass(old(self)@) < usize::MAX,
        ensures
            final(self).wf(),
            final(self)@ == observe(old(self)@, new_word@),
            mass(final(self)@) == mass(old(self)@) + 1,
    {
        let n = self.weight_pairs.len();
        let mut i: usize = 0;
        while i < n
            invariant
                i <= n,
                n == self.weight_pairs.len(),
                *self == *old(self),
                self.wf(),
                mass(self@) < usize::MAX,
                forall|k: int| 0 <= k < i ==> (#[trigger] self@[k]).0 != new_word@,
            decreases n - i,
        {
            if self.weight_pairs[i].0 == new_word {
                proof {
                    assert(self@[i as int].0 == new_word@);
                    lemma_token_index(self@, i as int);
                    lemma_mass_bounds(self@, i as int);
                    lemma_total_is_mass(self.weight_pairs@);
                }
                let w: usize = self.weight_pairs[i].1 + 1;
                let ghost before = self.weight_pairs@;
                self.weight_pairs.set(i, (new_word, w));
                proof {
                    let after = self.weight_pairs@;
                    assert(pairs_view(after) =~= observe(pairs_view(before), new_word@));
                    assert(pairs_weights(after) =~= pairs_weights(before).update(i as int, w));
                    lemma_observe(pairs_view(before), new_word@);
                    lemma_total_is_mass(after);
                }
                dist_update(&mut self.dist, i, w).unwrap();
                return ;
            }
            i += 1;
        }
        let ghost before = self.weight_pairs@;
        self.weight_pairs.push((new_word, 1));
        proof {
            let after = self.weight_pairs@;
            assert(!has_token(pairs_view(before), new_word@));
            assert(pairs_view(after) =~= observe(pairs_view(before), new_word@));
            lemma_observe(pairs_view(before), new_word@);
            lemma_total_is_mass(after);
        }
        let fresh = self.gen_new_weights();
        self.dist = fresh.unwrap();
    }

    /// The number of successors.
    pub fn len(&self) -> (n: usize)
        ensures
            n == self@.len(),
    {
        self.weight_pairs.len()
    }

    /// The number of times the successor at position `i` was seen.
    pub fn weight_at(&self, i: usize) -> (w: usize)
        requires
            i < self@.len(),
        ensures
            w == self@[i as int].1,
    {
        self.weight_pairs[i].1
    }

    /// The total weight of the successors.
    pub fn weight(&self) -> (w: usize)
        requires
            self.wf(),
        ensures
            w == mass(self@),
    {
        let n = self.weight_pairs.len();
        let mut w: usize = 0;
        let mut i: usize = 0;
        while i < n
            invariant
                i <= n,
                n == self.weight_pairs.len(),
                mass(self@) <= usize::MAX,
                w == mass(self@.take(i as int)),
            decreases n - i,
        {
            proof {
                assert(self@.take(i + 1) =~= self@.take(i as int).push(self@[i as int]));
                lemma_mass_push(self@.take(i as int), self@[i as int]);
                lemma_mass_prefix(self@, i + 1);
            }
            w = w + self.weight_pairs[i].1;
            i += 1;
        }
        assert(self@.take(n as int) =~= self@);
        w
    }

    /// Whether some successor was seen more than once.
    pub fn has_heavy(&self) -> (b: bool)
        ensures
            b == (heavy(self@).len() > 0),
    {
        let n = self.weight_pairs.len();
        let mut i: usize = 0;
        while i < n
            invariant
                i <= n,
                n == self.weight_pairs.len(),
                heavy(self@.take(i as int)).len() == 0,
            decreases n - i,
        {
            proof {
                assert(self@.take(i + 1) =~= self@.take(i as int).push(self@[i as int]));
                lemma_heavy_push(self@.take(i as int), self@[i as int]);
            }
            if self.weight_pairs[i].1 > 1 {
                proof {
                    assert(self@.take(n as int) =~= self@);
                    lemma_heavy_grows(self@, i + 1);
                }
                return true;
            }
            i += 1;
        }
        assert(self@.take(n as int) =~= self@);
        false
    }

    /// Whether the start marker is one of the successors.
    pub fn has_start(&self) -> (b: bool)
        ensures
            b == has_token(self@, Token::Start),
    {
        let n = self.weight_pairs.len();
        let mut i: usize = 0;
        while i < n
            invariant
                i <= n,
                n == self.weight_pairs.len(),
                forall|k: int| 0 <= k < i ==> (#[trigger] self@[k]).0 != Token::Start,
            decreases n - i,
        {
            if matches!(self.weight_pairs[i].0, Word::Start) {
                assert(self@[i as int].0 == Token::Start);
                return true;
            }
            i += 1;
        }
        false
    }

    /// Adds to `out` every word among the successors that `out` does not
    /// hold yet. The markers are no words and are left out.
    pub fn collect_words(&self, out: &mut Vec<String>)
        requires
            words_view(old(out)@).no_duplicates(),
        ensures
            words_view(final(out)@).no_duplicates(),
            forall|w: Seq<char>|
                words_view(final(out)@).contains(w) <==> (words_view(old(out)@).contains(w)
                    || has_token(self@, Token::Word(w))),
    {
        let n = self.weight_pairs.len();
        let mut i: usize = 0;
        while i < n
            invariant
                i <= n,
                n == self.weight_pairs.len(),
                words_view(out@).no_duplicates(),
                forall|w: Seq<char>|
                    words_view(out@).contains(w) <==> (words_view(old(out)@).contains(w)
                        || has_token(self@.take(i as int), Token::Word(w))),
            decreases n - i,
        {
            let ghost before = words_view(out@);
            let ghost seen = self@.take(i as int);
            let ghost more = self@.take(i + 1);
            proof {
                assert(more =~= seen.push(self@[i as int]));
                assert forall|t: Token| has_token(more, t) <==> (has_token(seen, t) || t
                    == self@[i as int].0) by {
                    if has_token(seen, t) {
                        let k = choose|k: int| 0 <= k < seen.len() && (#[trigger] seen[k]).0 == t;
                        assert(more[k].0 == t);
                    }
                    if t == self@[i as int].0 {
                        assert(more[i as int].0 == t);
                    }
                    if has_token(more, t) {
                        let k = choose|k: int| 0 <= k < more.len() && (#[trigger] more[k]).0 == t;
                        if k < i {
                            assert(seen[k].0 == t);
                        }
                    }
                }
            }
            match &self.weight_pairs[i].0 {
                Word::Word(s) => {
                    assert(self@[i as int].0 == Token::Word(s@));
                    if !holds_word(out, s) {
                        out.push(s.clone());
                        proof {
                            let after = words_view(out@);
                            assert(after =~= before.push(s@));
                            assert forall|w: Seq<char>| after.contains(w) <==> (before.contains(w)
                                || w == s@) by {
                                if before.contains(w) {
                                    let k = before.index_of(w);
                                    assert(after[k] == w);
                                }
                                if w == s@ {
                                    assert(after[before.len() as int] == w);
                                }
                            }
                        }
                    }
                },
                _ => {},
            }
            i += 1;
        }
        assert(self@.take(n as int) =~= self@);
    }

    /// A copy of the successors with their weights, in order.
    pub fn to_pairs(&self) -> (ps: Vec<(Word, usize)>)
        ensures
            pairs_view(ps@) == self@,
    {
        let n = self.weight_pairs.len();
        let mut ps: Vec<(Word, usize)> = Vec::new();
        let mut i: usize = 0;
        while i < n
            invariant
                i <= n,
                n == self.weight_pairs.len(),
                pairs_view(ps@) == self@.take(i as int),
            decreases n - i,
        {
            let ghost before = pairs_view(ps@);
            let word = self.weight_pairs[i].0.clone();
            ps.push((word, self.weight_pairs[i].1));
            proof {
                assert(pairs_view(ps@) =~= before.push(self@[i as int]));
                assert(self@.take(i + 1) =~= self@.take(i as int).push(self@[i as int]));
            }
            i += 1;
        }
        assert(self@.take(n as int) =~= self@);
        ps
    }

    /// Drops every successor that was seen only once and rebuilds the
    /// distribution from those that stay. At least one has to stay.
    pub fn retain_heavy(&mut self)
        requires
            old(self).wf(),
            heavy(old(self)@).len() > 0,
        ensures
            final(self).wf(),
            final(self)@ == heavy(old(self)@),
    {
        let n = self.weight_pairs.len();
        let mut kept: Vec<(Word, usize)> = Vec::new();
        let mut i: usize = 0;
        while i < n
            invariant
                i <= n,
                n == self.weight_pairs.len(),
                *self == *old(self),
                self.wf(),
                pairs_view(kept@) == heavy(self@.take(i as int)),
                mass(pairs_view(kept@)) <= mass(self@.take(i as int)),
                forall|k: int|
                    0 <= k < kept@.len() ==> (#[trigger] pairs_view(kept@)[k]).1 > 1 && exists|
                        j: int,
                    |
                        0 <= j < i && self@[j].0 == pairs_view(kept@)[k].0,
                distinct_tokens(pairs_view(kept@)),
            decreases n - i,
        {
            let ghost kept_before = pairs_view(kept@);
            proof {
                assert(self@.take(i + 1) =~= self@.take(i as int).push(self@[i as int]));
                lemma_heavy_push(self@.take(i as int), self@[i as int]);
                lemma_mass_push(self@.take(i as int), self@[i as int]);
            }
            if self.weight_pairs[i].1 > 1 {
                let word = self.weight_pairs[i].0.clone();
                kept.push((word, self.weight_pairs[i].1));
                proof {
                    let kept_after = pairs_view(kept@);
                    assert(kept_after =~= kept_before.push(self@[i as int]));
                    lemma_mass_push(kept_before, self@[i as int]);
                    assert forall|k: int| 0 <= k < kept_after.len() implies (
                    #[trigger] kept_after[k]).1 > 1 && exists|j: int|
                        0 <= j < i + 1 && self@[j].0 == kept_after[k].0 by {
                        if k < kept_before.len() {
                            assert(kept_after[k] == kept_before[k]);
                            let j = choose|j: int| 0 <= j < i && self@[j].0 == kept_before[k].0;
                            assert(0 <= j < i + 1 && self@[j].0 == kept_after[k].0);
                        } else {
                            assert(self@[i as int].0 == kept_after[k].0);
                        }
                    }
                    assert forall|a: int, b: int| 0 <= a < b < kept_after.len() implies (
                    #[trigger] kept_after[a]).0 != (#[trigger] kept_after[b]).0 by {
                        assert(kept_after[a] == kept_before[a]);
                        if b < kept_before.len() {
                            assert(kept_after[b] == kept_before[b]);
                        } else {
                            let j = choose|j: int| 0 <= j < i && self@[j].0 == kept_before[a].0;
                            assert(self@[j].0 != self@[i as int].0);
                        }
                    }
                }
            }
            i += 1;
        }
        proof {
            assert(self@.take(n as int) =~= self@);
            lemma_total_is_mass(kept@);
        }
        self.weight_pairs = kept;
        let fresh = self.gen_new_weights();
        self.dist = fresh.unwrap();
    }

    /// Builds an entry from listed successors and weights. The list is
    /// refused when it is empty, holds a weight of zero, names a token
    /// twice, or sums beyond `usize`.
    pub fn from_pairs(pairs: Vec<(Word, usize)>) -> (r: Result<Entry, TableError>)
        ensures
            r matches Ok(e) ==> e.wf() && e@ == pairs_view(pairs@) && successors_error(
                pairs_view(pairs@),
            ) is None,
            r matches Err(x) ==> successors_error(pairs_view(pairs@)) == Some(x),
    {
        let ghost s = pairs_view(pairs@);
        let n = pairs.len();
        let mut i: usize = 0;
        while i < n
            invariant
                i <= n,
                n == pairs.len(),
                s == pairs_view(pairs@),
                forall|k: int| 0 <= k < i ==> (#[trigger] s[k]).1 >= 1,
            decreases n - i,
        {
            if pairs[i].1 == 0 {
                assert(s[i as int].1 == 0);
                return Err(TableError::InvalidWeight);
            }
            i += 1;
        }
        assert(positive_weights(s));
        let mut j: usize = 0;
        while j < n
            invariant
                j <= n,
                n == pairs.len(),
                s == pairs_view(pairs@),
                positive_weights(s),
                forall|a: int, b: int| 0 <= a < b < j ==> (#[trigger] s[a]).0 != (#[trigger] s[b]).0,
            decreases n - j,
        {
            let mut k: usize = 0;
            while k < j
                invariant
                    k <= j < n,
                    n == pairs.len(),
                    s == pairs_view(pairs@),
                    positive_weights(s),
                    forall|a: int| 0 <= a < k ==> (#[trigger] s[a]).0 != s[j as int].0,
                decreases j - k,
            {
                if pairs[k].0 == pairs[j].0 {
                    assert(s[k as int].0 == s[j as int].0);
                    return Err(TableError::DuplicateToken);
                }
                k += 1;
            }
            j += 1;
        }
        assert(distinct_tokens(s));
        let mut sum: usize = 0;
        let mut m: usize = 0;
        while m < n
            invariant
                m <= n,
                n == pairs.len(),
                s == pairs_view(pairs@),
                positive_weights(s),
                distinct_tokens(s),
                sum == mass(s.take(m as int)),
            decreases n - m,
        {
            proof {
                assert(s.take(m + 1) =~= s.take(m as int).push(s[m as int]));
                lemma_mass_push(s.take(m as int), s[m as int]);
                lemma_mass_prefix(s, m + 1);
            }
            if pairs[m].1 > usize::MAX - sum {
                return Err(TableError::TooHeavy);
            }
            sum = sum + pairs[m].1;
            m += 1;
        }
        proof {
            assert(s.take(n as int) =~= s);
            lemma_total_is_mass(pairs@);
            if n > 0 {
                lemma_mass_bounds(s, 0);
            }
        }
        let candidate = Entry::weights_of(&pairs);
        match dist_new(&candidate) {
            Ok(dist) => Ok(Entry { weight_pairs: pairs, dist }),
            Err(_) => Err(TableError::NoItem),
        }
    }

    /// The weights of a list of pairs, in order.
    fn weights_of(pairs: &Vec<(Word, usize)>) -> (ws: Vec<usize>)
        ensures
            ws@ == pairs_weights(pairs@),
    {
        let n = pairs.len();
        let mut ws: Vec<usize> = Vec::new();
        let mut i: usize = 0;
        while i < n
            invariant
                i <= n,
                n == pairs.len(),
                ws@ == pairs_weights(pairs@.take(i as int)),
            decreases n - i,
        {
            ws.push(pairs[i].1);
            proof {
                assert(pairs@.take(i + 1) =~= pairs@.take(i as int).push(pairs@[i as int]));
                assert(ws@ =~= pairs_weights(pairs@.take(i + 1)));
            }
            i += 1;
        }
        assert(pairs@.take(n as int) =~= pairs@);
        ws
    }

    /// Builds a distribution from the weights as they are now. It fails
    /// exactly when there is no weight to sample by.
    pub fn gen_new_weights(&self) -> (r: Result<Dist, WeightedError>)
        requires
            mass(self@) <= usize::MAX,
        ensures
            r is Ok <==> mass(self@) > 0,
            r matches Ok(d) ==> dist_weights(d) == self.stored_weights(),
    {
        let ws = Entry::weights_of(&self.weight_pairs);
        proof {
            lemma_total_is_mass(self.weight_pairs@);
        }
        dist_new(&ws)
    }
}

} // verus!
