//! What holds of the model whatever the table and whatever the input. The
//! contracts of the executable code are stated over the same functions, so
//! each law here is a law of the code.

use crate::model::{
    can_train, followers, follows, has_room, has_token, heavy, is_step, is_walk, lemma_heavy_tokens,
    lemma_observe_tokens, lemma_record_mass, mass, mass_at, pruned, reachable, record, shift,
    start_context, start_free, starters, thinned, train, Context, Transitions,
};
use crate::word::Token;
use vstd::prelude::*;

verus! {

/// The table after a list of single observations, each a context and the
/// token seen in it, taken in order.
pub open spec fn record_all(m: Transitions, calls: Seq<(Context, Token)>) -> Transitions
    decreases calls.len(),
{
    if calls.len() == 0 {
        m
    } else {
        let (c, t) = calls.last();
        record(record_all(m, calls.drop_last()), c, t)
    }
}

/// How many of the observations were made in context `c`.
pub open spec fn count_for(calls: Seq<(Context, Token)>, c: Context) -> nat
    decreases calls.len(),
{
    if calls.len() == 0 {
        0
    } else {
        count_for(calls.drop_last(), c) + if calls.last().0 == c {
            1nat
        } else {
            0nat
        }
    }
}

/// The total weight of a context is the number of observations that were
/// made in it: after any list of observations it has grown by the number of
/// those that name the context, and it never shrinks. In a table that was
/// empty it is exactly that number.
pub proof fn lemma_weight_counts_observations(
    m: Transitions,
    calls: Seq<(Context, Token)>,
    c: Context,
)
    ensures
        mass_at(record_all(m, calls), c) == mass_at(m, c) + count_for(calls, c),
        mass_at(record_all(m, calls), c) >= mass_at(m, c),
        mass_at(record_all(Map::empty(), calls), c) == count_for(calls, c),
    decreases calls.len(),
{
    if calls.len() > 0 {
        let (d, t) = calls.last();
        lemma_weight_counts_observations(m, calls.drop_last(), c);
        lemma_record_mass(record_all(m, calls.drop_last()), d, t, c);
        lemma_weight_counts_observations(Map::empty(), calls.drop_last(), c);
        lemma_record_mass(record_all(Map::empty(), calls.drop_last()), d, t, c);
    }
}

/// A table in which every context has room for one observation more than
/// a sequence has words can be trained on the sequence, from any context.
pub proof fn lemma_room_to_train(m: Transitions, c: Context, words: Seq<Seq<char>>)
    requires
        has_room(m, words.len() + 1),
        words.len() < usize::MAX,
    ensures
        can_train(m, c, words),
    decreases words.len(),
{
    if m.dom().contains(c) {
        assert(mass(m[c]) + words.len() + 1 <= usize::MAX);
    }
    if words.len() > 0 {
        let t = Token::Word(words[0]);
        let r = record(m, c, t);
        assert forall|d: Context| #[trigger] r.dom().contains(d) implies mass(r[d])
            + words.skip(1).len() + 1 <= usize::MAX by {
            lemma_record_mass(m, c, t, d);
            assert(mass_at(r, d) == mass(r[d]));
            if m.dom().contains(d) {
                assert(mass(m[d]) + words.len() + 1 <= usize::MAX);
            }
        }
        lemma_room_to_train(r, shift(c, t), words.skip(1));
    }
}

/// Training puts no end marker into a context: where the contexts of the
/// table and the context in which the sequence begins hold none, no context
/// holds one afterwards.
pub proof fn lemma_train_contexts_hold_no_end(m: Transitions, c: Context, words: Seq<Seq<char>>)
    requires
        forall|d: Context| #[trigger] m.dom().contains(d) ==> !(d.0 is End) && !(d.1 is End),
        !(c.0 is End) && !(c.1 is End),
    ensures
        forall|d: Context| #[trigger]
            train(m, c, words).dom().contains(d) ==> !(d.0 is End) && !(d.1 is End),
    decreases words.len(),
{
    if words.len() == 0 {
        let r = record(m, c, Token::End);
        assert forall|d: Context| #[trigger] r.dom().contains(d) implies !(d.0 is End) && !(d.1
            is End) by {
            lemma_record_tokens(m, c, Token::End, d, Token::End);
        }
        assert(train(m, c, words) == r);
    } else {
        let t = Token::Word(words[0]);
        let r = record(m, c, t);
        assert forall|d: Context| #[trigger] r.dom().contains(d) implies !(d.0 is End) && !(d.1
            is End) by {
            lemma_record_tokens(m, c, t, d, t);
        }
        lemma_train_contexts_hold_no_end(r, shift(c, t), words.skip(1));
        assert(train(m, c, words) == train(r, shift(c, t), words.skip(1)));
    }
}

/// One observation makes its token a successor of its context and takes
/// no successor away from any context.
pub proof fn lemma_record_tokens(m: Transitions, c: Context, t: Token, d: Context, u: Token)
    ensures
        record(m, c, t).dom().contains(c),
        has_token(record(m, c, t)[c], t),
        record(m, c, t).dom().contains(d) <==> (d == c || m.dom().contains(d)),
        m.dom().contains(d) && has_token(m[d], u) ==> has_token(record(m, c, t)[d], u),
        record(m, c, t).dom().contains(d) && has_token(record(m, c, t)[d], u) ==> (d == c && u
            == t) || (m.dom().contains(d) && has_token(m[d], u)),
{
    let r = record(m, c, t);
    if m.dom().contains(c) {
        lemma_observe_tokens(m[c], t, t);
        lemma_observe_tokens(m[c], t, u);
    } else {
        let s = seq![(t, 1nat)];
        assert(s[0].0 == t);
        if has_token(s, u) {
            let k = choose|k: int| 0 <= k < s.len() && (#[trigger] s[k]).0 == u;
            assert(u == t);
        }
    }
}

/// An observation of anything but the start marker keeps the table free of
/// start markers among the successors.
pub proof fn lemma_record_start_free(m: Transitions, c: Context, t: Token)
    requires
        start_free(m),
        !(t is Start),
    ensures
        start_free(record(m, c, t)),
{
    let r = record(m, c, t);
    assert forall|d: Context| #[trigger] r.dom().contains(d) implies !has_token(
        r[d],
        Token::Start,
    ) by {
        lemma_record_tokens(m, c, t, d, Token::Start);
        if m.dom().contains(d) {
            assert(!has_token(m[d], Token::Start));
        }
    }
}

/// Training never stores the start marker as a successor: a table that is
/// free of such successors stays free of them, whatever the words. So a
/// walk through a table that was only ever trained meets no start marker.
pub proof fn lemma_train_start_free(m: Transitions, c: Context, words: Seq<Seq<char>>)
    requires
        start_free(m),
    ensures
        start_free(train(m, c, words)),
    decreases words.len(),
{
    if words.len() == 0 {
        lemma_record_start_free(m, c, Token::End);
    } else {
        let t = Token::Word(words[0]);
        lemma_record_start_free(m, c, t);
        lemma_train_start_free(record(m, c, t), shift(c, t), words.skip(1));
    }
}

/// The context in which a sequence that begins in context `c` stands before
/// its word at position `i`, and after its last word where `i` is its
/// length.
pub open spec fn context_before(c: Context, words: Seq<Seq<char>>, i: int) -> Context
    decreases i,
{
    if i <= 0 || words.len() == 0 {
        c
    } else {
        context_before(shift(c, Token::Word(words[0])), words.skip(1), i - 1)
    }
}

/// The token at position `i` of a sequence: its word there, and the end
/// marker behind the last word.
pub open spec fn token_at(words: Seq<Seq<char>>, i: int) -> Token {
    if 0 <= i < words.len() {
        Token::Word(words[i])
    } else {
        Token::End
    }
}

/// Each word moves the context on by itself.
pub proof fn lemma_context_moves(c: Context, words: Seq<Seq<char>>, i: int)
    requires
        0 <= i < words.len(),
    ensures
        context_before(c, words, i + 1) == shift(context_before(c, words, i), Token::Word(words[i])),
    decreases i,
{
    let t = Token::Word(words[0]);
    let c1 = shift(c, t);
    let rest = words.skip(1);
    if i > 0 {
        lemma_context_moves(c1, rest, i - 1);
        assert(rest[i - 1] == words[i]);
        assert(context_before(c, words, i) == context_before(c1, rest, i - 1));
        assert(context_before(c, words, i + 1) == context_before(c1, rest, i));
    } else {
        assert(context_before(c, words, 0) == c);
        assert(context_before(c1, rest, 0) == c1);
        assert(context_before(c, words, 1) == context_before(c1, rest, 0));
    }
}

/// Training takes nothing away: what was a successor of a context before
/// is one afterwards.
pub proof fn lemma_train_keeps(
    m: Transitions,
    c: Context,
    words: Seq<Seq<char>>,
    d: Context,
    u: Token,
)
    requires
        m.dom().contains(d),
        has_token(m[d], u),
    ensures
        train(m, c, words).dom().contains(d),
        has_token(train(m, c, words)[d], u),
    decreases words.len(),
{
    if words.len() == 0 {
        lemma_record_tokens(m, c, Token::End, d, u);
    } else {
        let t = Token::Word(words[0]);
        lemma_record_tokens(m, c, t, d, u);
        lemma_train_keeps(record(m, c, t), shift(c, t), words.skip(1), d, u);
    }
}

/// Training teaches the table the sequence: afterwards every word of it is
/// a successor of the context that stands before it, and the end marker is
/// a successor of the context behind the last word.
pub proof fn lemma_train_teaches(m: Transitions, c: Context, words: Seq<Seq<char>>, i: int)
    requires
        0 <= i <= words.len(),
    ensures
        train(m, c, words).dom().contains(context_before(c, words, i)),
        has_token(train(m, c, words)[context_before(c, words, i)], token_at(words, i)),
    decreases words.len(),
{
    if words.len() == 0 {
        lemma_record_tokens(m, c, Token::End, c, Token::End);
    } else {
        let t = Token::Word(words[0]);
        let m1 = record(m, c, t);
        let c1 = shift(c, t);
        let rest = words.skip(1);
        if i == 0 {
            lemma_record_tokens(m, c, t, c, t);
            lemma_train_keeps(m1, c1, rest, c, t);
        } else {
            lemma_train_teaches(m1, c1, rest, i - 1);
            assert(token_at(words, i) == token_at(rest, i - 1));
        }
    }
}

/// A walk can say again what the table was trained on: in the trained
/// table, from the start context, every word of the sequence is a step that
/// a walk may take, and behind the last word the walk may end.
pub proof fn lemma_trained_sequence_is_a_walk(m: Transitions, words: Seq<Seq<char>>, i: int)
    requires
        0 <= i <= words.len(),
    ensures
        i < words.len() ==> is_step(
            train(m, start_context(), words),
            context_before(start_context(), words, i),
            context_before(start_context(), words, i + 1),
            Some(words[i]),
        ),
        i == words.len() ==> is_step(
            train(m, start_context(), words),
            context_before(start_context(), words, i),
            shift(context_before(start_context(), words, i), Token::End),
            None,
        ),
{
    lemma_train_teaches(m, start_context(), words, i);
    if i < words.len() {
        lemma_context_moves(start_context(), words, i);
    }
}

/// After training on a sequence its first word is among the words that
/// begin a sequence.
pub proof fn lemma_first_word_starts(m: Transitions, words: Seq<Seq<char>>)
    requires
        words.len() > 0,
    ensures
        starters(train(m, start_context(), words)).contains(words[0]),
{
    lemma_train_teaches(m, start_context(), words, 0);
}

/// After training on a sequence each of its words is among those that
/// follow the word before it.
pub proof fn lemma_next_word_follows(m: Transitions, words: Seq<Seq<char>>, i: int)
    requires
        0 < i < words.len(),
    ensures
        followers(train(m, start_context(), words), words[i - 1]).contains(words[i]),
{
    let r = train(m, start_context(), words);
    let c = context_before(start_context(), words, i);
    lemma_train_teaches(m, start_context(), words, i);
    lemma_context_moves(start_context(), words, i - 1);
    assert(c.1 == Token::Word(words[i - 1]));
    assert(r.dom().contains(c) && c.1 == Token::Word(words[i - 1]) && has_token(
        r[c],
        Token::Word(words[i]),
    ));
}

/// Pruning keeps a context exactly when a walk through the thinned table
/// reaches it, and keeps the successors that the thinned table has for it.
/// So a context that no chain of successors connects to the start context
/// is removed, and one that such a chain connects is kept, however long the
/// chain.
pub proof fn lemma_pruned_contexts(m: Transitions, c: Context)
    ensures
        pruned(m).dom().contains(c) <==> reachable(thinned(m), c),
        pruned(m).dom().contains(c) ==> pruned(m)[c] == thinned(m)[c],
        pruned(m).dom().contains(c) ==> m.dom().contains(c),
{
    let t = thinned(m);
    if reachable(t, c) {
        let p = choose|p: Seq<Context>| #[trigger] is_walk(t, p) && p.last() == c;
        if p.len() > 1 {
            assert(follows(t, p[p.len() - 2], p[p.len() - 2 + 1]));
        }
    }
}

/// Every context of a walk through the thinned table survives pruning.
pub proof fn lemma_walk_survives(m: Transitions, p: Seq<Context>, k: int)
    requires
        is_walk(thinned(m), p),
        0 <= k < p.len(),
    ensures
        pruned(m).dom().contains(p[k]),
{
    let t = thinned(m);
    let q = p.take(k + 1);
    assert forall|i: int| 0 <= i < q.len() - 1 implies follows(t, #[trigger] q[i], q[i + 1]) by {
        assert(follows(t, p[i], p[i + 1]));
    }
    assert(is_walk(t, q) && q.last() == p[k]);
    lemma_pruned_contexts(m, p[k]);
}

/// Thinning takes successors away from the start context only, and only
/// those that were seen once.
pub proof fn lemma_thinned_tokens(m: Transitions, c: Context, u: Token)
    ensures
        thinned(m).dom() == m.dom(),
        m.dom().contains(c) && has_token(thinned(m)[c], u) ==> has_token(m[c], u),
        m.dom().contains(c) && c != start_context() ==> thinned(m)[c] == m[c],
        m.dom().contains(start_context()) ==> thinned(m)[start_context()] == heavy(
            m[start_context()],
        ),
{
    assert(thinned(m).dom() =~= m.dom());
    if m.dom().contains(c) && c == start_context() {
        lemma_heavy_tokens(m[c], u);
        if has_token(heavy(m[c]), u) {
            let i = choose|i: int|
                0 <= i < m[c].len() && (#[trigger] m[c][i]).0 == u && m[c][i].1 > 1;
            assert(m[c][i].0 == u);
        }
    }
}

/// Pruning stores no start marker as a successor where there was none.
pub proof fn lemma_pruned_start_free(m: Transitions)
    requires
        start_free(m),
    ensures
        start_free(pruned(m)),
{
    let r = pruned(m);
    assert forall|d: Context| #[trigger] r.dom().contains(d) implies !has_token(
        r[d],
        Token::Start,
    ) by {
        lemma_pruned_contexts(m, d);
        lemma_thinned_tokens(m, d, Token::Start);
        assert(m.dom().contains(d));
        assert(!has_token(m[d], Token::Start));
    }
}

/// A first word that was seen only once does not survive pruning, and
/// neither does the context that it opens: in a table without start
/// markers among its successors, the context of the start marker and a
/// token `x` survives only where `x` was seen more than once as a first
/// token.
pub proof fn lemma_pruned_openings(m: Transitions, x: Token)
    requires
        start_free(m),
        !(x is Start),
        pruned(m).dom().contains((Token::Start, x)),
    ensures
        m.dom().contains(start_context()),
        has_token(heavy(m[start_context()]), x),
{
    let t = thinned(m);
    let c = (Token::Start, x);
    lemma_pruned_contexts(m, c);
    let p = choose|p: Seq<Context>| #[trigger] is_walk(t, p) && p.last() == c;
    let n = p.len() as int;
    assert(n >= 2);
    let a = p[n - 2];
    assert(follows(t, p[n - 2], p[n - 2 + 1]));
    assert(a.1 == Token::Start);
    if n >= 3 {
        let b = p[n - 3];
        assert(follows(t, p[n - 3], p[n - 3 + 1]));
        lemma_thinned_tokens(m, b, Token::Start);
        assert(m.dom().contains(b));
        assert(!has_token(m[b], Token::Start));
    }
    assert(a == start_context());
    lemma_thinned_tokens(m, a, x);
}

} // verus!
