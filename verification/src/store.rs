//! The table as plain lists, for keeping it outside the program: every
//! context with its successors and their weights.

use crate::entry::{pairs_view, successors_error, Entry, TableError};
use crate::model::{Context, Successors, Transitions};
use crate::table::{context_of, reversed, Markov};
use crate::word::{Word, WordArray};
use vstd::prelude::*;

verus! {

/// The model of a table written out as lists.
pub open spec fn parts_view(parts: Seq<(WordArray, Vec<(Word, usize)>)>) -> Seq<
    (Context, Successors),
> {
    parts.map_values(|p: (WordArray, Vec<(Word, usize)>)| (context_of(p.0), pairs_view(p.1@)))
}

/// The table that a list of contexts and successors stands for, or the
/// reason why it stands for none. The list is read from its beginning, and
/// the first fault that is met is the reason: a context that was listed
/// before, or successors that cannot be an entry.
pub open spec fn load(parts: Seq<(Context, Successors)>) -> Result<Transitions, TableError>
    decreases parts.len(),
{
    if parts.len() == 0 {
        Ok(Map::empty())
    } else {
        match load(parts.drop_last()) {
            Err(e) => Err(e),
            Ok(m) => {
                let (c, s) = parts.last();
                if m.dom().contains(c) {
                    Err(TableError::DuplicateContext)
                } else {
                    match successors_error(s) {
                        Some(e) => Err(e),
                        None => Ok(m.insert(c, s)),
                    }
                }
            },
        }
    }
}

/// A fault in the beginning of a list is a fault of the whole list.
pub proof fn lemma_load_fails_on(parts: Seq<(Context, Successors)>, n: int)
    requires
        0 <= n <= parts.len(),
        load(parts.take(n)) is Err,
    ensures
        load(parts) == load(parts.take(n)),
    decreases parts.len() - n,
{
    if n == parts.len() {
        assert(parts.take(n) =~= parts);
    } else {
        assert(parts.take(n + 1).drop_last() =~= parts.take(n));
        lemma_load_fails_on(parts, n + 1);
    }
}

/// What a list that stands for a table says of the table: every listed
/// context is in it with exactly the successors listed for it, and nothing
/// else is in it. So a table that is written out and read back has the
/// same contexts, successors and weights.
pub proof fn lemma_load_exact(parts: Seq<(Context, Successors)>)
    requires
        load(parts) is Ok,
    ensures
        forall|i: int|
            0 <= i < parts.len() ==> (load(parts)->Ok_0).dom().contains((#[trigger] parts[i]).0)
                && (load(parts)->Ok_0)[parts[i].0] == parts[i].1 && successors_error(parts[i].1)
                is None,
        forall|c: Context|
            (load(parts)->Ok_0).dom().contains(c) ==> exists|i: int|
                0 <= i < parts.len() && (#[trigger] parts[i]).0 == c,
    decreases parts.len(),
{
    if parts.len() > 0 {
        let before = parts.drop_last();
        lemma_load_exact(before);
        let m0 = load(before)->Ok_0;
        let m = load(parts)->Ok_0;
        let (c, s) = parts.last();
        assert(m == m0.insert(c, s));
        assert forall|i: int| 0 <= i < parts.len() implies m.dom().contains((#[trigger] parts[i]).0)
            && m[parts[i].0] == parts[i].1 && successors_error(parts[i].1) is None by {
            if i < parts.len() - 1 {
                assert(before[i] == parts[i]);
                assert(m0.dom().contains(before[i].0));
            }
        }
        assert forall|d: Context| m.dom().contains(d) implies exists|i: int|
            0 <= i < parts.len() && (#[trigger] parts[i]).0 == d by {
            if d == c {
                assert(parts[parts.len() - 1].0 == d);
            } else {
                let i = choose|i: int| 0 <= i < before.len() && (#[trigger] before[i]).0 == d;
                assert(parts[i].0 == d);
            }
        }
    }
}

impl Markov {
    /// The stored contexts with the successors of each, in order.
    pub open(crate) spec fn listing(&self) -> Seq<(Context, Successors)> {
        self.entries@.map_values(|e: (WordArray, Entry)| (context_of(e.0), e.1@))
    }

    /// The first `n` stored contexts stand for the table that holds just
    /// them.
    proof fn lemma_listing_loads(&self, n: int)
        requires
            self.wf(),
            0 <= n <= self.entries@.len(),
        ensures
            load(self.listing().take(n)) matches Ok(m) && (forall|c: Context|
                m.dom().contains(c) <==> self.keys().take(n).contains(c)) && (forall|i: int|
                0 <= i < n ==> m[#[trigger] self.keys()[i]] == self.entries@[i].1@),
        decreases n,
    {
        let part = self.listing().take(n);
        if n == 0 {
            assert(self.keys().take(0) =~= Seq::<Context>::empty());
        } else {
            self.lemma_listing_loads(n - 1);
            assert(part.drop_last() =~= self.listing().take(n - 1));
            let m0 = load(part.drop_last())->Ok_0;
            let c = self.keys()[n - 1];
            assert(part.last() == (c, self.entries@[n - 1].1@));
            if m0.dom().contains(c) {
                let k = self.keys().take(n - 1).index_of(c);
                assert(self.keys().take(n - 1)[k] == c);
                assert(self.keys()[k] == c);
            }
            self.entries@[n - 1].1.lemma_wf();
            let m = m0.insert(c, self.entries@[n - 1].1@);
            assert(load(part) == Ok::<Transitions, TableError>(m));
            assert forall|d: Context| m.dom().contains(d) <==> self.keys().take(n).contains(d) by {
                if self.keys().take(n).contains(d) {
                    let k = self.keys().take(n).index_of(d);
                    assert(self.keys().take(n)[k] == d);
                    if k < n - 1 {
                        assert(self.keys().take(n - 1)[k] == d);
                    }
                }
                if m.dom().contains(d) {
                    if d == c {
                        assert(self.keys().take(n)[n - 1] == d);
                    } else {
                        let k = self.keys().take(n - 1).index_of(d);
                        assert(self.keys().take(n - 1)[k] == d);
                        assert(self.keys().take(n)[k] == d);
                    }
                }
            }
            assert forall|i: int| 0 <= i < n implies m[#[trigger] self.keys()[i]]
                == self.entries@[i].1@ by {
                if i < n - 1 {
                    assert(self.keys()[i] != c);
                }
            }
        }
    }

    /// Writes the table out: every context with its successors and their
    /// weights. Reading the lists back with [`Markov::from_parts`] gives
    /// the same table.
    pub fn to_parts(&self) -> (parts: Vec<(WordArray, Vec<(Word, usize)>)>)
        requires
            self.wf(),
        ensures
            load(parts_view(parts@)) == Ok::<Transitions, TableError>(self@),
    {
        let n = self.entries.len();
        let mut parts: Vec<(WordArray, Vec<(Word, usize)>)> = Vec::new();
        let mut i: usize = 0;
        while i < n
            invariant
                i <= n,
                n == self.entries@.len(),
                parts_view(parts@) == self.listing().take(i as int),
            decreases n - i,
        {
            let ghost before = parts_view(parts@);
            let index: WordArray = [self.entries[i].0[0].clone(), self.entries[i].0[1].clone()];
            let pairs = self.entries[i].1.to_pairs();
            parts.push((index, pairs));
            proof {
                assert(parts_view(parts@) =~= before.push(self.listing()[i as int]));
                assert(self.listing().take(i + 1) =~= self.listing().take(i as int).push(
                    self.listing()[i as int],
                ));
            }
            i += 1;
        }
        proof {
            assert(self.listing().take(n as int) =~= self.listing());
            self.lemma_listing_loads(n as int);
            self.lemma_view();
            let m = load(self.listing())->Ok_0;
            assert(self.keys().take(n as int) =~= self.keys());
            assert(m =~= self@) by {
                assert forall|c: Context| m.dom().contains(c) implies #[trigger] m[c] == self@[c] by {
                    let k = self.keys().index_of(c);
                    assert(self.keys()[k] == c);
                }
            }
        }
        parts
    }

    /// Builds a table from lists as [`Markov::to_parts`] writes them. The
    /// lists are refused as a whole when a context is listed twice or the
    /// successors of a context cannot be an entry; nothing is built then.
    pub fn from_parts(parts: Vec<(WordArray, Vec<(Word, usize)>)>) -> (r: Result<
        Markov,
        TableError,
    >)
        ensures
            match r {
                Ok(m) => m.wf() && load(parts_view(parts@)) == Ok::<Transitions, TableError>(m@),
                Err(e) => load(parts_view(parts@)) == Err::<Transitions, TableError>(e),
            },
    {
        let ghost all = parts_view(parts@);
        let ghost n = parts@.len() as int;
        let mut rest = reversed(parts);
        let mut table = Markov::new();
        while rest.len() > 0
            invariant
                n == all.len(),
                n == parts@.len(),
                all == parts_view(parts@),
                rest@.len() <= n,
                rest@ == parts@.reverse().take(rest@.len() as int),
                table.wf(),
                load(all.take(n - rest@.len())) == Ok::<Transitions, TableError>(table@),
            decreases rest@.len(),
        {
            let ghost done = n - rest@.len();
            let ghost before = table;
            let (index, pairs) = rest.pop().unwrap();
            proof {
                assert(parts@.reverse()[n - 1 - done] == parts@[done]);
                assert(all[done] == (context_of(index), pairs_view(pairs@)));
                assert(all.take(done + 1).drop_last() =~= all.take(done));
                assert(all.take(done + 1).last() == all[done]);
                assert(rest@ =~= parts@.reverse().take(rest@.len() as int));
                table.lemma_view();
            }
            if table.find(&index).is_some() {
                proof {
                    lemma_load_fails_on(all, done + 1);
                }
                return Err(TableError::DuplicateContext);
            }
            match Entry::from_pairs(pairs) {
                Err(e) => {
                    proof {
                        lemma_load_fails_on(all, done + 1);
                    }
                    return Err(e);
                },
                Ok(entry) => {
                    let ghost c = context_of(index);
                    let ghost s = entry@;
                    table.entries.push((index, entry));
                    proof {
                        assert(table.keys() =~= before.keys().push(c));
                        assert forall|a: int, b: int|
                            0 <= a < table.keys().len() && 0 <= b < table.keys().len() && a
                                != b implies table.keys()[a] != table.keys()[b] by {
                            if a < before.keys().len() {
                                assert(before.keys().contains(table.keys()[a]));
                            }
                            if b < before.keys().len() {
                                assert(before.keys().contains(table.keys()[b]));
                            }
                        }
                        table.lemma_view();
                        assert(table@ =~= before@.insert(c, s)) by {
                            assert forall|d: Context| table@.dom().contains(d) implies #[trigger] table@[d]
                                == before@.insert(c, s)[d] by {
                                let j = table.keys().index_of(d);
                                assert(table.keys()[j] == d);
                                if j < before.keys().len() {
                                    assert(before.keys()[j] == d);
                                }
                            }
                            assert forall|d: Context| #[trigger]
                                before@.insert(c, s).dom().contains(d) implies table@.dom().contains(
                                d,
                            ) by {
                                if d == c {
                                    assert(table.keys()[before.keys().len() as int] == c);
                                } else {
                                    let j = before.keys().index_of(d);
                                    assert(table.keys()[j] == d);
                                }
                            }
                        }
                    }
                },
            }
        }
        proof {
            assert(all.take(n) =~= all);
        }
        Ok(table)
    }
}

} // verus!
