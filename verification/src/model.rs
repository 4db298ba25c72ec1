//! The mathematical model of the transition table: what a table is, and what
//! training does to it. Everything here is specification; the contracts of
//! the executable code are written in these terms.

use crate::word::Token;
use vstd::prelude::*;

verus! {

/// The weighted successors of one context: tokens with the number of times
/// each was seen, in the order in which they were first seen.
pub type Successors = Seq<(Token, nat)>;

/// A context: the two most recent tokens, oldest first.
pub type Context = (Token, Token);

/// A transition table: the successors of every context that was seen.
pub type Transitions = Map<Context, Successors>;

/// The context in which every sequence begins.
pub open spec fn start_context() -> Context {
    (Token::Start, Token::Start)
}

/// The context that follows `c` once `t` has been emitted.
pub open spec fn shift(c: Context, t: Token) -> Context {
    (c.1, t)
}

/// Whether `t` is one of the successors.
pub open spec fn has_token(s: Successors, t: Token) -> bool {
    exists|i: int| 0 <= i < s.len() && (#[trigger] s[i]).0 == t
}

/// A position at which `t` stands among the successors, if it is one.
pub open spec fn token_index(s: Successors, t: Token) -> int {
    choose|i: int| 0 <= i < s.len() && (#[trigger] s[i]).0 == t
}

/// No token is listed twice.
pub open spec fn distinct_tokens(s: Successors) -> bool {
    forall|i: int, j: int| 0 <= i < j < s.len() ==> (#[trigger] s[i]).0 != (#[trigger] s[j]).0
}

/// Every listed token was seen at least once.
pub open spec fn positive_weights(s: Successors) -> bool {
    forall|i: int| 0 <= i < s.len() ==> (#[trigger] s[i]).1 >= 1
}

/// What holds of the successors of every context in a table: there is one
/// at least, none is listed twice, and each was seen at least once.
pub open spec fn valid_successors(s: Successors) -> bool {
    &&& s.len() > 0
    &&& distinct_tokens(s)
    &&& positive_weights(s)
}

/// The total weight of the successors: the number of observations they
/// stand for.
pub open spec fn mass(s: Successors) -> nat
    decreases s.len(),
{
    if s.len() == 0 {
        0
    } else {
        mass(s.drop_last()) + s.last().1
    }
}

/// The successors after `t` has been seen once more: its count grows by one
/// where it is listed, and it is appended with count one where it is not.
pub open spec fn observe(s: Successors, t: Token) -> Successors {
    if has_token(s, t) {
        let i = token_index(s, t);
        s.update(i, (t, s[i].1 + 1))
    } else {
        s.push((t, 1nat))
    }
}

/// The table after `t` has been seen once in context `c`.
pub open spec fn record(m: Transitions, c: Context, t: Token) -> Transitions {
    if m.dom().contains(c) {
        m.insert(c, observe(m[c], t))
    } else {
        m.insert(c, seq![(t, 1nat)])
    }
}

/// The total weight of context `c` in the table; zero where the table does
/// not hold it.
pub open spec fn mass_at(m: Transitions, c: Context) -> nat {
    if m.dom().contains(c) {
        mass(m[c])
    } else {
        0
    }
}

/// Whether one more observation in context `c` keeps its total weight
/// within `usize`.
pub open spec fn can_record(m: Transitions, c: Context) -> bool {
    mass_at(m, c) < usize::MAX
}

/// Whether every context of the table can take `n` more observations and
/// keep its total weight within `usize`.
pub open spec fn has_room(m: Transitions, n: nat) -> bool {
    forall|c: Context| #[trigger] m.dom().contains(c) ==> mass(m[c]) + n <= usize::MAX
}

/// The table after a whole sequence of words has been seen, starting in
/// context `c`: each word is recorded in the context of the two before it,
/// and the end marker is recorded after the last.
pub open spec fn train(m: Transitions, c: Context, words: Seq<Seq<char>>) -> Transitions
    decreases words.len(),
{
    if words.len() == 0 {
        record(m, c, Token::End)
    } else {
        let t = Token::Word(words[0]);
        train(record(m, c, t), shift(c, t), words.skip(1))
    }
}

/// Whether every observation of that training keeps the total weight of its
/// context within `usize`.
pub open spec fn can_train(m: Transitions, c: Context, words: Seq<Seq<char>>) -> bool
    decreases words.len(),
{
    &&& can_record(m, c)
    &&& words.len() > 0 ==> {
        let t = Token::Word(words[0]);
        can_train(record(m, c, t), shift(c, t), words.skip(1))
    }
}

/// Whether a successor was seen more than once.
pub open spec fn is_heavy() -> spec_fn((Token, nat)) -> bool {
    |p: (Token, nat)| p.1 > 1
}

/// The successors that were seen more than once, in their order.
pub open spec fn heavy(s: Successors) -> Successors {
    s.filter(is_heavy())
}

/// The successors that were seen more than once are among the successors,
/// and every successor that was seen more than once is among them.
pub proof fn lemma_heavy_tokens(s: Successors, t: Token)
    ensures
        has_token(heavy(s), t) <==> exists|i: int|
            0 <= i < s.len() && (#[trigger] s[i]).0 == t && s[i].1 > 1,
{
    let h = heavy(s);
    if has_token(h, t) {
        let k = choose|k: int| 0 <= k < h.len() && (#[trigger] h[k]).0 == t;
        s.lemma_filter_pred(is_heavy(), k);
        assert(h.contains(h[k]));
        s.lemma_filter_contains_rev(is_heavy(), h[k]);
        let i = s.index_of(h[k]);
        assert(s[i] == h[k]);
        assert(s[i].0 == t && s[i].1 > 1);
    }
    if exists|i: int| 0 <= i < s.len() && (#[trigger] s[i]).0 == t && s[i].1 > 1 {
        let i = choose|i: int| 0 <= i < s.len() && (#[trigger] s[i]).0 == t && s[i].1 > 1;
        s.lemma_filter_contains(is_heavy(), i);
        let k = h.index_of(s[i]);
        assert(h[k] == s[i]);
        assert(h[k].0 == t);
    }
}

/// No context has the start marker as a successor.
pub open spec fn start_free(m: Transitions) -> bool {
    forall|c: Context| #[trigger] m.dom().contains(c) ==> !has_token(m[c], Token::Start)
}

/// The words that a sequence was seen to begin with.
pub open spec fn starters(m: Transitions) -> Set<Seq<char>> {
    Set::new(
        |w: Seq<char>|
            m.dom().contains(start_context()) && has_token(m[start_context()], Token::Word(w)),
    )
}

/// The words that were seen directly after `word`: the word successors of
/// every context that ends with `word`.
pub open spec fn followers(m: Transitions, word: Seq<char>) -> Set<Seq<char>> {
    Set::new(
        |w: Seq<char>|
            exists|c: Context|
                #[trigger] m.dom().contains(c) && c.1 == Token::Word(word) && has_token(
                    m[c],
                    Token::Word(w),
                ),
    )
}

/// One step of a walk that stands at `from`: what it emits and where it
/// stands afterwards. Where the table does not hold `from` the walk ends
/// and stays. Otherwise it moves on by a successor of `from`: by a word,
/// which it emits, or by the end marker, with which it ends.
pub open spec fn is_step(m: Transitions, from: Context, to: Context, out: Option<Seq<char>>) -> bool {
    if !m.dom().contains(from) {
        out is None && to == from
    } else {
        match out {
            Some(w) => has_token(m[from], Token::Word(w)) && to == shift(from, Token::Word(w)),
            None => has_token(m[from], Token::End) && to == shift(from, Token::End),
        }
    }
}

/// The table after its start context has lost every successor that was seen
/// only once. No other context loses anything by weight.
pub open spec fn thinned(m: Transitions) -> Transitions {
    if m.dom().contains(start_context()) {
        m.insert(start_context(), heavy(m[start_context()]))
    } else {
        m
    }
}

/// Whether a walk can step from context `a` to context `b`: the table holds
/// both, `b` begins with the token that `a` ends with, and the token that
/// `b` ends with is a successor of `a`.
pub open spec fn follows(m: Transitions, a: Context, b: Context) -> bool {
    &&& m.dom().contains(a)
    &&& m.dom().contains(b)
    &&& b.0 == a.1
    &&& has_token(m[a], b.1)
}

/// A walk through the table: it begins at the start context and goes on by
/// steps of [`follows`].
pub open spec fn is_walk(m: Transitions, p: Seq<Context>) -> bool {
    &&& p.len() > 0
    &&& p[0] == start_context()
    &&& m.dom().contains(start_context())
    &&& forall|k: int| 0 <= k < p.len() - 1 ==> follows(m, #[trigger] p[k], p[k + 1])
}

/// Whether some walk ends at `c`.
pub open spec fn reachable(m: Transitions, c: Context) -> bool {
    exists|p: Seq<Context>| #[trigger] is_walk(m, p) && p.last() == c
}

/// The table after pruning: the start context is thinned, and then only
/// the contexts that a walk can reach are kept.
pub open spec fn pruned(m: Transitions) -> Transitions {
    let t = thinned(m);
    t.restrict(Set::new(|c: Context| reachable(t, c)))
}

/// Whether pruning leaves the start context, if there is one, with a
/// successor to sample.
pub open spec fn cleanable(m: Transitions) -> bool {
    m.dom().contains(start_context()) ==> heavy(m[start_context()]).len() > 0
}

/// What `heavy` keeps of the successors with one more pair at the end.
pub proof fn lemma_heavy_push(s: Successors, p: (Token, nat))
    ensures
        heavy(s.push(p)) == if p.1 > 1 {
            heavy(s).push(p)
        } else {
            heavy(s)
        },
{
    reveal(Seq::filter);
    assert(s.push(p).drop_last() =~= s);
}

/// What a prefix keeps, the whole keeps too.
pub proof fn lemma_heavy_grows(s: Successors, n: int)
    requires
        0 <= n <= s.len(),
    ensures
        heavy(s.take(n)).len() <= heavy(s).len(),
    decreases s.len() - n,
{
    if n == s.len() {
        assert(s.take(n) =~= s);
    } else {
        assert(s.take(n + 1) =~= s.take(n).push(s[n]));
        lemma_heavy_push(s.take(n), s[n]);
        lemma_heavy_grows(s, n + 1);
    }
}

/// The total weight of a prefix is at most the total weight of the whole.
pub proof fn lemma_mass_prefix(s: Successors, n: int)
    requires
        0 <= n <= s.len(),
    ensures
        mass(s.take(n)) <= mass(s),
    decreases s.len(),
{
    if n == s.len() {
        assert(s.take(n) =~= s);
    } else {
        assert(s.drop_last().take(n) =~= s.take(n));
        lemma_mass_prefix(s.drop_last(), n);
    }
}

/// Every weight is at most the total.
pub proof fn lemma_mass_bounds(s: Successors, i: int)
    requires
        0 <= i < s.len(),
    ensures
        s[i].1 <= mass(s),
    decreases s.len(),
{
    if i < s.len() - 1 {
        lemma_mass_bounds(s.drop_last(), i);
    }
}

/// Appending a pair adds its weight to the total.
pub proof fn lemma_mass_push(s: Successors, p: (Token, nat))
    ensures
        mass(s.push(p)) == mass(s) + p.1,
{
    assert(s.push(p).drop_last() =~= s);
}

/// Replacing a pair changes the total by the difference of the weights.
pub proof fn lemma_mass_update(s: Successors, i: int, p: (Token, nat))
    requires
        0 <= i < s.len(),
    ensures
        mass(s.update(i, p)) == mass(s) - s[i].1 + p.1,
    decreases s.len(),
{
    let u = s.update(i, p);
    if i == s.len() - 1 {
        assert(u.drop_last() =~= s.drop_last());
    } else {
        assert(u.drop_last() =~= s.drop_last().update(i, p));
        lemma_mass_update(s.drop_last(), i, p);
    }
}

/// Among distinct tokens a token stands at one position only.
pub proof fn lemma_token_index(s: Successors, i: int)
    requires
        distinct_tokens(s),
        0 <= i < s.len(),
    ensures
        has_token(s, s[i].0),
        token_index(s, s[i].0) == i,
{
    let t = s[i].0;
    let j = token_index(s, t);
    assert(0 <= j < s.len() && s[j].0 == t);
    if j < i {
        assert(s[j].0 != s[i].0);
    } else if i < j {
        assert(s[i].0 != s[j].0);
    }
}

/// One more observation adds one to the total weight.
pub proof fn lemma_observe_mass(s: Successors, t: Token)
    ensures
        mass(observe(s, t)) == mass(s) + 1,
{
    if has_token(s, t) {
        let i = token_index(s, t);
        lemma_mass_update(s, i, (t, s[i].1 + 1));
    } else {
        lemma_mass_push(s, (t, 1nat));
    }
}

/// One observation adds one to the total weight of its context and leaves
/// the total weight of every other context as it was.
pub proof fn lemma_record_mass(m: Transitions, c: Context, t: Token, d: Context)
    ensures
        mass_at(record(m, c, t), d) == mass_at(m, d) + if d == c {
            1nat
        } else {
            0nat
        },
{
    if d == c {
        if m.dom().contains(c) {
            lemma_observe_mass(m[c], t);
        } else {
            let s = seq![(t, 1nat)];
            assert(s.drop_last() =~= Seq::<(Token, nat)>::empty());
            assert(mass(s.drop_last()) == 0);
        }
    }
}

/// One more observation of `t` makes `t` a successor and changes nothing
/// else about which tokens are successors.
pub proof fn lemma_observe_tokens(s: Successors, t: Token, u: Token)
    ensures
        has_token(observe(s, t), u) <==> (u == t || has_token(s, u)),
{
    let r = observe(s, t);
    if has_token(s, t) {
        let i = token_index(s, t);
        assert(r[i].0 == t);
        if has_token(s, u) {
            let k = token_index(s, u);
            assert(r[k].0 == u);
        }
        if has_token(r, u) {
            let k = token_index(r, u);
            assert(s[k].0 == u);
        }
    } else {
        assert(r[s.len() as int].0 == t);
        if has_token(s, u) {
            let k = token_index(s, u);
            assert(r[k].0 == u);
        }
        if has_token(r, u) {
            let k = token_index(r, u);
            if k < s.len() {
                assert(s[k].0 == u);
            }
        }
    }
}

/// One more observation keeps the successors valid and adds one to their
/// total weight.
pub proof fn lemma_observe(s: Successors, t: Token)
    requires
        valid_successors(s),
    ensures
        valid_successors(observe(s, t)),
        mass(observe(s, t)) == mass(s) + 1,
{
    let r = observe(s, t);
    lemma_observe_mass(s, t);
    if has_token(s, t) {
        assert forall|a: int, b: int| 0 <= a < b < r.len() implies (#[trigger] r[a]).0 != (
        #[trigger] r[b]).0 by {
            assert(r[a].0 == s[a].0);
            assert(r[b].0 == s[b].0);
        }
        assert forall|a: int| 0 <= a < r.len() implies (#[trigger] r[a]).1 >= 1 by {
            assert(s[a].1 >= 1);
        }
    } else {
        assert forall|a: int, b: int| 0 <= a < b < r.len() implies (#[trigger] r[a]).0 != (
        #[trigger] r[b]).0 by {
            assert(r[a] == s[a]);
            if b < s.len() {
                assert(r[b] == s[b]);
            }
        }
        assert forall|a: int| 0 <= a < r.len() implies (#[trigger] r[a]).1 >= 1 by {
            if a < s.len() {
                assert(r[a] == s[a]);
            }
        }
    }
}

} // verus!
