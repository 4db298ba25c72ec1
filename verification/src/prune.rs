//! Pruning: the start context loses the successors that were seen only once,
//! and every context that no walk can reach any more is removed.

use crate::entry::Entry;
use crate::model::{
    cleanable, follows, has_token, is_walk, pruned, reachable, shift, start_context, thinned,
    Context,
};
use crate::table::{context_of, reversed, Markov};
use crate::word::{WordArray, START_WORDS};
use vstd::prelude::*;

verus! {

/// The number of positions that are not marked.
spec fn unmarked(v: Seq<bool>) -> nat
    decreases v.len(),
{
    if v.len() == 0 {
        0
    } else {
        unmarked(v.drop_last()) + if v.last() {
            0nat
        } else {
            1nat
        }
    }
}

/// Marking one more position leaves one position less unmarked.
proof fn lemma_unmarked_update(v: Seq<bool>, i: int)
    requires
        0 <= i < v.len(),
        !v[i],
    ensures
        unmarked(v.update(i, true)) + 1 == unmarked(v),
    decreases v.len(),
{
    let u = v.update(i, true);
    if i == v.len() - 1 {
        assert(u.drop_last() =~= v.drop_last());
    } else {
        assert(u.drop_last() =~= v.drop_last().update(i, true));
        lemma_unmarked_update(v.drop_last(), i);
    }
}

/// The context `c` is stored, and its position is marked.
spec fn marked(t: &Markov, visited: Seq<bool>, c: Context) -> bool {
    t.keys().contains(c) && visited[t.keys().index_of(c)]
}

/// The context `c` waits on the stack.
spec fn pending(stack: Seq<WordArray>, c: Context) -> bool {
    exists|k: int| 0 <= k < stack.len() && context_of(#[trigger] stack[k]) == c
}

/// The traversal has seen `c` or will see it.
spec fn covered(t: &Markov, visited: Seq<bool>, stack: Seq<WordArray>, c: Context) -> bool {
    marked(t, visited, c) || pending(stack, c)
}

/// Whatever is marked or waits on the stack and is stored, a walk reaches.
spec fn sound(t: &Markov, visited: Seq<bool>, stack: Seq<WordArray>) -> bool {
    &&& forall|i: int|
        0 <= i < visited.len() && #[trigger] visited[i] ==> reachable(t@, t.keys()[i])
    &&& forall|k: int|
        0 <= k < stack.len() && t@.dom().contains(context_of(#[trigger] stack[k])) ==> reachable(
            t@,
            context_of(stack[k]),
        )
}

/// The contexts that follow position `i` by one of its first `upto`
/// successors are covered, as far as they are stored.
spec fn expanded(t: &Markov, visited: Seq<bool>, stack: Seq<WordArray>, i: int, upto: int) -> bool {
    forall|j: int|
        0 <= j < upto ==> {
            let c = shift(t.keys()[i], (#[trigger] t.entries@[i].1@[j]).0);
            t@.dom().contains(c) ==> covered(t, visited, stack, c)
        }
}

/// The start context is covered, and so is whatever follows a marked
/// context.
spec fn settled(t: &Markov, visited: Seq<bool>, stack: Seq<WordArray>) -> bool {
    &&& t@.dom().contains(start_context()) ==> covered(t, visited, stack, start_context())
    &&& forall|i: int|
        0 <= i < visited.len() && #[trigger] visited[i] ==> expanded(
            t,
            visited,
            stack,
            i,
            t.entries@[i].1@.len() as int,
        )
}

/// Whatever the first state covers, the second covers too.
spec fn extends(
    t: &Markov,
    v0: Seq<bool>,
    s0: Seq<WordArray>,
    v1: Seq<bool>,
    s1: Seq<WordArray>,
) -> bool {
    forall|c: Context|
        t@.dom().contains(c) && #[trigger] covered(t, v0, s0, c) ==> covered(t, v1, s1, c)
}

/// A stored context is found at the position at which it is stored.
proof fn lemma_slot(t: &Markov, i: int)
    requires
        t.wf(),
        0 <= i < t.keys().len(),
    ensures
        t.keys().contains(t.keys()[i]),
        t.keys().index_of(t.keys()[i]) == i,
{
    let j = t.keys().index_of(t.keys()[i]);
    assert(0 <= j < t.keys().len() && t.keys()[j] == t.keys()[i]);
}

/// A settled state stays settled when the new state covers what the old one
/// covered and every newly marked position is expanded.
proof fn lemma_settled_step(
    t: &Markov,
    v0: Seq<bool>,
    s0: Seq<WordArray>,
    v1: Seq<bool>,
    s1: Seq<WordArray>,
)
    requires
        t.wf(),
        v0.len() == t.entries@.len(),
        v1.len() == v0.len(),
        settled(t, v0, s0),
        extends(t, v0, s0, v1, s1),
        forall|i: int|
            0 <= i < v1.len() && #[trigger] v1[i] && !v0[i] ==> expanded(
                t,
                v1,
                s1,
                i,
                t.entries@[i].1@.len() as int,
            ),
    ensures
        settled(t, v1, s1),
{
    if t@.dom().contains(start_context()) {
        assert(covered(t, v0, s0, start_context()));
    }
    assert forall|i: int| 0 <= i < v1.len() && #[trigger] v1[i] implies expanded(
        t,
        v1,
        s1,
        i,
        t.entries@[i].1@.len() as int,
    ) by {
        if v0[i] {
            assert(expanded(t, v0, s0, i, t.entries@[i].1@.len() as int));
            assert forall|j: int| 0 <= j < t.entries@[i].1@.len() implies {
                let c = shift(t.keys()[i], (#[trigger] t.entries@[i].1@[j]).0);
                t@.dom().contains(c) ==> covered(t, v1, s1, c)
            } by {
                let c = shift(t.keys()[i], t.entries@[i].1@[j].0);
                if t@.dom().contains(c) {
                    assert(covered(t, v0, s0, c));
                }
            }
        }
    }
}

/// In a settled state with nothing on the stack, every context of a walk is
/// marked.
proof fn lemma_walk_marked(t: &Markov, v: Seq<bool>, p: Seq<Context>, k: int)
    requires
        t.wf(),
        v.len() == t.entries@.len(),
        settled(t, v, Seq::<WordArray>::empty()),
        is_walk(t@, p),
        0 <= k < p.len(),
    ensures
        marked(t, v, p[k]),
    decreases k,
{
    let none = Seq::<WordArray>::empty();
    t.lemma_view();
    if k == 0 {
        assert(covered(t, v, none, start_context()));
    } else {
        lemma_walk_marked(t, v, p, k - 1);
        let a = p[k - 1];
        let b = p[k];
        assert(follows(t@, a, b));
        let i = t.keys().index_of(a);
        assert(t.keys()[i] == a);
        assert(v[i]);
        assert(expanded(t, v, none, i, t.entries@[i].1@.len() as int));
        assert(t@[a] == t.entries@[i].1@);
        let j = choose|j: int| 0 <= j < t@[a].len() && (#[trigger] t@[a][j]).0 == b.1;
        assert(shift(t.keys()[i], t.entries@[i].1@[j].0) == b);
        assert(covered(t, v, none, b));
    }
}

/// A walk that ends at `a` goes on to whatever follows `a`.
proof fn lemma_walk_on(t: &Markov, a: Context, b: Context)
    requires
        reachable(t@, a),
        follows(t@, a, b),
    ensures
        reachable(t@, b),
{
    let p = choose|p: Seq<Context>| #[trigger] is_walk(t@, p) && p.last() == a;
    let q = p.push(b);
    assert forall|k: int| 0 <= k < q.len() - 1 implies follows(t@, #[trigger] q[k], q[k + 1]) by {
        if k < p.len() - 1 {
            assert(follows(t@, p[k], p[k + 1]));
        }
    }
    assert(is_walk(t@, q) && q.last() == b);
}

/// The start context, where the table holds it, is reached by the walk
/// that stays there.
proof fn lemma_start_reachable(t: &Markov)
    requires
        t@.dom().contains(start_context()),
    ensures
        reachable(t@, start_context()),
{
    let p = seq![start_context()];
    assert(is_walk(t@, p) && p.last() == start_context());
}

impl Markov {
    /// Marks the position of every context that a walk can reach.
    fn reach(&self) -> (marks: Vec<bool>)
        requires
            self.wf(),
        ensures
            marks@.len() == self.entries@.len(),
            forall|i: int|
                0 <= i < marks@.len() ==> (#[trigger] marks@[i] <==> reachable(
                    self@,
                    self.keys()[i],
                )),
    {
        let n = self.entries.len();
        let mut visited: Vec<bool> = Vec::new();
        let mut f: usize = 0;
        while f < n
            invariant
                f <= n,
                visited@.len() == f,
                forall|i: int| 0 <= i < f ==> !#[trigger] visited@[i],
            decreases n - f,
        {
            visited.push(false);
            f += 1;
        }
        let mut to_visit: Vec<WordArray> = Vec::new();
        to_visit.push(START_WORDS);
        proof {
            self.lemma_view();
            assert(context_of(to_visit@[0]) == start_context());
            if self@.dom().contains(start_context()) {
                lemma_start_reachable(self);
            }
        }
        while to_visit.len() > 0
            invariant
                self.wf(),
                visited@.len() == self.entries@.len(),
                sound(self, visited@, to_visit@),
                settled(self, visited@, to_visit@),
            decreases unmarked(visited@), to_visit@.len(),
        {
            let ghost v0 = visited@;
            let ghost s0 = to_visit@;
            let key = to_visit.pop().unwrap();
            let ghost s1 = to_visit@;
            let ghost here = context_of(key);
            proof {
                self.lemma_view();
                assert(s0[s0.len() - 1] == key);
                assert forall|c: Context| #[trigger] pending(s0, c) implies pending(s1, c) || c
                    == here by {
                    let k = choose|k: int| 0 <= k < s0.len() && context_of(#[trigger] s0[k]) == c;
                    if k < s1.len() {
                        assert(context_of(s1[k]) == c);
                    }
                }
                assert forall|k: int|
                    0 <= k < s1.len() && self@.dom().contains(
                        context_of(#[trigger] s1[k]),
                    ) implies reachable(self@, context_of(s1[k])) by {
                    assert(s1[k] == s0[k]);
                }
            }
            match self.find(&key) {
                None => {
                    proof {
                        assert(extends(self, v0, s0, v0, s1));
                        lemma_settled_step(self, v0, s0, v0, s1);
                    }
                },
                Some(idx) => {
                    proof {
                        lemma_slot(self, idx as int);
                    }
                    if visited[idx] {
                        proof {
                            assert(marked(self, v0, here));
                            assert(extends(self, v0, s0, v0, s1));
                            lemma_settled_step(self, v0, s0, v0, s1);
                        }
                    } else {
                        visited.set(idx, true);
                        let ghost v1 = visited@;
                        proof {
                            lemma_unmarked_update(v0, idx as int);
                            assert(marked(self, v1, here));
                            assert(reachable(self@, here));
                            assert forall|c: Context|
                                self@.dom().contains(c) && #[trigger] covered(
                                    self,
                                    v0,
                                    s0,
                                    c,
                                ) implies covered(self, v1, s1, c) by {
                                if marked(self, v0, c) {
                                    assert(marked(self, v1, c));
                                }
                            }
                        }
                        let m = self.entries[idx].1.len();
                        let mut j: usize = 0;
                        while j < m
                            invariant
                                j <= m,
                                self.wf(),
                                idx < self.entries@.len(),
                                m == self.entries@[idx as int].1@.len(),
                                self.keys()[idx as int] == context_of(key),
                                here == context_of(key),
                                reachable(self@, here),
                                visited@ == v1,
                                v1.len() == self.entries@.len(),
                                v1[idx as int],
                                sound(self, v1, to_visit@),
                                extends(self, v0, s0, v1, to_visit@),
                                expanded(self, v1, to_visit@, idx as int, j as int),
                                to_visit@.len() == s1.len() + j,
                            decreases m - j,
                        {
                            let ghost s2 = to_visit@;
                            let token = self.entries[idx].1.pick(j);
                            let next: WordArray = [key[1].clone(), token];
                            to_visit.push(next);
                            proof {
                                let s3 = to_visit@;
                                let c = context_of(next);
                                self.lemma_view();
                                assert(c == shift(
                                    self.keys()[idx as int],
                                    self.entries@[idx as int].1@[j as int].0,
                                ));
                                assert(s3[s2.len() as int] == next);
                                assert(pending(s3, c));
                                assert forall|d: Context| #[trigger] pending(s2, d) implies pending(
                                    s3,
                                    d,
                                ) by {
                                    let k = choose|k: int|
                                        0 <= k < s2.len() && context_of(#[trigger] s2[k]) == d;
                                    assert(context_of(s3[k]) == d);
                                }
                                assert forall|k: int|
                                    0 <= k < s3.len() && self@.dom().contains(
                                        context_of(#[trigger] s3[k]),
                                    ) implies reachable(self@, context_of(s3[k])) by {
                                    if k < s2.len() {
                                        assert(s3[k] == s2[k]);
                                    } else {
                                        assert(has_token(self@[here], c.1));
                                        lemma_walk_on(self, here, c);
                                    }
                                }
                                assert forall|d: Context|
                                    self@.dom().contains(d) && #[trigger] covered(
                                        self,
                                        v0,
                                        s0,
                                        d,
                                    ) implies covered(self, v1, s3, d) by {
                                    assert(covered(self, v1, s2, d));
                                }
                                assert forall|i: int| 0 <= i < j + 1 implies {
                                    let d = shift(
                                        self.keys()[idx as int],
                                        (#[trigger] self.entries@[idx as int].1@[i]).0,
                                    );
                                    self@.dom().contains(d) ==> covered(self, v1, s3, d)
                                } by {
                                    let d = shift(
                                        self.keys()[idx as int],
                                        self.entries@[idx as int].1@[i].0,
                                    );
                                    if i < j {
                                        if self@.dom().contains(d) {
                                            assert(covered(self, v1, s2, d));
                                        }
                                    }
                                }
                            }
                            j += 1;
                        }
                        proof {
                            lemma_settled_step(self, v0, s0, v1, to_visit@);
                        }
                    }
                },
            }
        }
        proof {
            self.lemma_view();
            assert(to_visit@ =~= Seq::<WordArray>::empty());
            assert forall|i: int| 0 <= i < visited@.len() implies (#[trigger] visited@[i]
                <==> reachable(self@, self.keys()[i])) by {
                if reachable(self@, self.keys()[i]) {
                    let p = choose|p: Seq<Context>| #[trigger]
                        is_walk(self@, p) && p.last() == self.keys()[i];
                    lemma_walk_marked(self, visited@, p, p.len() - 1);
                    lemma_slot(self, i);
                }
            }
        }
        visited
    }

    /// Keeps the contexts whose position is marked, in their order, and
    /// drops the others.
    fn retain_marked(&mut self, marks: &Vec<bool>)
        requires
            old(self).wf(),
            marks@.len() == old(self).entries@.len(),
        ensures
            final(self).wf(),
            final(self)@ == old(self)@.restrict(
                Set::new(
                    |c: Context|
                        exists|i: int|
                            0 <= i < marks@.len() && marks@[i] && #[trigger] old(self).keys()[i]
                                == c,
                ),
            ),
            final(self).entries@.len() <= old(self).entries@.len(),
    {
        let ghost before = *self;
        let ghost all = self.entries@;
        let ghost n = all.len() as int;
        let mut back: Vec<(WordArray, Entry)> = Vec::new();
        let ghost mut from: Seq<int> = Seq::empty();
        while self.entries.len() > 0
            invariant
                n == all.len(),
                marks@.len() == n,
                self.entries@ == all.take(self.entries@.len() as int),
                self.entries@.len() <= n,
                from.len() == back@.len(),
                back@.len() + self.entries@.len() <= n,
                forall|k: int|
                    0 <= k < from.len() ==> self.entries@.len() <= #[trigger] from[k] < n
                        && marks@[from[k]] && back@[k] == all[from[k]],
                forall|a: int, b: int| 0 <= a < b < from.len() ==> from[a] > from[b],
                forall|i: int|
                    self.entries@.len() <= i < n && #[trigger] marks@[i] ==> from.contains(i),
            decreases self.entries@.len(),
        {
            let i = self.entries.len() - 1;
            let slot = self.entries.pop().unwrap();
            let ghost from_before = from;
            if marks[i] {
                back.push(slot);
                proof {
                    from = from.push(i as int);
                    assert forall|a: int, b: int| 0 <= a < b < from.len() implies from[a]
                        > from[b] by {
                        if b < from_before.len() {
                            assert(from[a] == from_before[a] && from[b] == from_before[b]);
                        } else {
                            assert(from[a] == from_before[a]);
                        }
                    }
                    assert forall|i2: int| i <= i2 < n && #[trigger] marks@[i2] implies from.contains(
                        i2,
                    ) by {
                        if i2 == i {
                            assert(from[from_before.len() as int] == i2);
                        } else {
                            assert(from_before.contains(i2));
                            let k = from_before.index_of(i2);
                            assert(from[k] == i2);
                        }
                    }
                }
            }
            assert(self.entries@ =~= all.take(i as int));
        }
        self.entries = reversed(back);
        proof {
            let kept = self.entries@;
            let m = kept.len() as int;
            let origin = |k: int| from[m - 1 - k];
            assert forall|k: int| 0 <= k < m implies 0 <= origin(k) < n && marks@[origin(k)]
                && #[trigger] kept[k] == all[origin(k)] by {
                assert(kept[k] == back@[m - 1 - k]);
                assert(0 <= from[m - 1 - k] < n);
            }
            assert forall|k: int| 0 <= k < m implies #[trigger] self.keys()[k] == before.keys()[origin(
                k,
            )] by {
                assert(kept[k] == all[origin(k)]);
            }
            assert forall|a: int, b: int|
                0 <= a < self.keys().len() && 0 <= b < self.keys().len() && a
                    != b implies self.keys()[a] != self.keys()[b] by {
                assert(self.keys()[a] == before.keys()[origin(a)]);
                assert(self.keys()[b] == before.keys()[origin(b)]);
                if a < b {
                    assert(from[m - 1 - b] > from[m - 1 - a]);
                } else {
                    assert(from[m - 1 - a] > from[m - 1 - b]);
                }
            }
            assert forall|k: int| 0 <= k < kept.len() implies (#[trigger] kept[k]).1.wf() by {
                assert(kept[k] == all[origin(k)]);
            }
            before.lemma_view();
            self.lemma_view();
            let keep = Set::new(
                |c: Context|
                    exists|i: int|
                        0 <= i < marks@.len() && marks@[i] && #[trigger] before.keys()[i] == c,
            );
            let want = before@.restrict(keep);
            assert forall|c: Context| self@.dom().contains(c) implies want.dom().contains(c)
                && self@[c] == want[c] by {
                let k = self.keys().index_of(c);
                assert(self.keys()[k] == c);
                assert(before.keys()[origin(k)] == c);
                assert(marks@[origin(k)]);
                assert(keep.contains(c));
            }
            assert forall|c: Context| want.dom().contains(c) implies self@.dom().contains(c) by {
                let i = choose|i: int|
                    0 <= i < marks@.len() && marks@[i] && #[trigger] before.keys()[i] == c;
                assert(from.contains(i));
                let k = from.index_of(i);
                assert(from[k] == i);
                assert(origin(m - 1 - k) == i);
                assert(self.keys()[m - 1 - k] == c);
            }
            assert(self@ =~= want);
        }
    }

    /// Whether [`Markov::clean`] can run: it cannot where the start context
    /// would be left with nothing to sample.
    pub fn can_clean(&self) -> (b: bool)
        requires
            self.wf(),
        ensures
            b == cleanable(self@),
    {
        proof {
            self.lemma_view();
        }
        match self.find(&START_WORDS) {
            Some(i) => self.entries[i].1.has_heavy(),
            None => true,
        }
    }

    /// Prunes the table. First the start context loses every successor that
    /// was seen only once. Then every context that no walk from the start
    /// context reaches is removed. The result is the number of contexts
    /// removed.
    pub fn clean(&mut self) -> (removed: usize)
        requires
            old(self).wf(),
            cleanable(old(self)@),
        ensures
            final(self).wf(),
            final(self)@ == pruned(old(self)@),
            removed == old(self)@.dom().len() - final(self)@.dom().len(),
    {
        let ghost before = *self;
        let old_len = self.entries.len();
        proof {
            self.lemma_view();
        }
        match self.find(&START_WORDS) {
            Some(i) => {
                self.entries[i].1.retain_heavy();
                proof {
                    assert(self.keys() =~= before.keys());
                    self.lemma_view();
                    assert(self@ =~= thinned(before@)) by {
                        assert forall|d: Context| self@.dom().contains(d) implies #[trigger] self@[d]
                            == thinned(before@)[d] by {
                            let j = self.keys().index_of(d);
                            assert(self.keys()[j] == d);
                        }
                    }
                }
            },
            None => {},
        }
        let ghost middle = *self;
        let marks = self.reach();
        self.retain_marked(&marks);
        proof {
            middle.lemma_view();
            self.lemma_view();
            let keep = Set::new(
                |c: Context|
                    exists|i: int|
                        0 <= i < marks@.len() && marks@[i] && #[trigger] middle.keys()[i] == c,
            );
            let far = Set::new(|c: Context| reachable(middle@, c));
            assert forall|c: Context| middle@.dom().contains(c) implies (keep.contains(c)
                <==> far.contains(c)) by {
                let i = middle.keys().index_of(c);
                assert(middle.keys()[i] == c);
                if keep.contains(c) {
                    let k = choose|k: int|
                        0 <= k < marks@.len() && marks@[k] && #[trigger] middle.keys()[k] == c;
                    assert(reachable(middle@, middle.keys()[k]));
                }
            }
            assert(middle@.restrict(keep) =~= middle@.restrict(far));
        }
        old_len - self.entries.len()
    }
}

} // verus!
