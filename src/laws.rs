//! What holds of every model: merges stay inside words, and decoding an
//! encoding gives the words back.

use vstd::prelude::*;
use crate::token::{TokenView, flat, pair_free};
use crate::merge::{Rule, merge_seq, apply_rules, joins, fuse};
use crate::tokenize::{tokenize, word_tokens};
use crate::codec::{decode_seq, encode_seq};
use crate::train::trained;
use crate::stats::{is_best, pair_count, ranks_above, lemma_pair_free};
use crate::tokenize::initial_vocab;

verus! {

/// The characters of `s`, each tagged with word `w`.
pub open spec fn tag(s: Seq<char>, w: usize) -> Seq<(char, usize)> {
    s.map_values(|c: char| (c, w))
}

/// Every token holds at least one character.
pub open spec fn no_empty(ts: Seq<TokenView>) -> bool {
    forall|i: int| 0 <= i < ts.len() ==> (#[trigger] ts[i]).slice.len() > 0
}

/// The words that a tagged character sequence spells: a new word starts
/// wherever the tag changes.
pub open spec fn group(cs: Seq<(char, usize)>) -> Seq<Seq<char>>
    decreases cs.len(),
{
    if cs.len() == 0 {
        Seq::empty()
    } else {
        let d = group(cs.drop_last());
        if cs.len() >= 2 && cs[cs.len() - 2].1 == cs.last().1 {
            d.update(d.len() - 1, d.last().push(cs.last().0))
        } else {
            d.push(seq![cs.last().0])
        }
    }
}

proof fn lemma_flat_append(a: Seq<TokenView>, b: Seq<TokenView>)
    ensures
        flat(a + b) == flat(a) + flat(b),
    decreases b.len(),
{
    if b.len() == 0 {
        assert(a + b =~= a);
        assert(flat(a) + flat(b) =~= flat(a));
    } else {
        assert((a + b).drop_last() =~= a + b.drop_last());
        lemma_flat_append(a, b.drop_last());
        assert(flat(a + b) =~= flat(a) + flat(b));
    }
}

proof fn lemma_flat_single(t: TokenView)
    ensures
        flat(seq![t]) == tag(t.slice, t.word_id),
{
    assert(seq![t].drop_last() =~= Seq::<TokenView>::empty());
    assert(flat(Seq::<TokenView>::empty()) == Seq::<(char, usize)>::empty());
    assert(seq![t].last() == t);
    assert(flat(seq![t]) =~= tag(t.slice, t.word_id));
}

proof fn lemma_flat_last(ts: Seq<TokenView>)
    requires
        ts.len() > 0,
        no_empty(ts),
    ensures
        flat(ts).len() > 0,
        flat(ts).last().1 == ts.last().word_id,
{
    assert(ts.last().slice.len() > 0);
}

/// One merge pass keeps every character, in order, in the word it came
/// from: no token ever spans two words.
pub proof fn lemma_merge_keeps_words(ts: Seq<TokenView>, pair: (usize, usize), fresh: usize)
    ensures
        flat(merge_seq(ts, pair, fresh)) == flat(ts),
        no_empty(ts) ==> no_empty(merge_seq(ts, pair, fresh)),
    decreases ts.len(),
{
    if ts.len() >= 2 {
        let k: int = if joins(ts[0], ts[1], pair) { 2 } else { 1 };
        let head = ts.take(k);
        let rest = ts.skip(k);
        assert(ts =~= head + rest);
        lemma_flat_append(head, rest);
        lemma_merge_keeps_words(rest, pair, fresh);
        let m = merge_seq(rest, pair, fresh);
        let x = if k == 2 { fuse(ts[0], ts[1], fresh) } else { ts[0] };
        assert(merge_seq(ts, pair, fresh) == seq![x] + m);
        lemma_flat_append(seq![x], m);
        lemma_flat_single(x);
        if k == 2 {
            assert(head =~= seq![ts[0]] + seq![ts[1]]);
            lemma_flat_append(seq![ts[0]], seq![ts[1]]);
            lemma_flat_single(ts[0]);
            lemma_flat_single(ts[1]);
            assert(tag(x.slice, x.word_id) =~= tag(ts[0].slice, ts[0].word_id) + tag(ts[1].slice, ts[1].word_id));
        } else {
            assert(head =~= seq![ts[0]]);
        }
        if no_empty(ts) {
            assert forall|i: int| 0 <= i < rest.len() implies (#[trigger] rest[i]).slice.len() > 0 by {
                assert(rest[i] == ts[i + k]);
            }
            assert forall|i: int| 0 <= i < (seq![x] + m).len() implies (#[trigger] (seq![x] + m)[i]).slice.len() > 0 by {
                if i > 0 {
                    assert((seq![x] + m)[i] == m[i - 1]);
                }
            }
        }
    }
}

/// Applying any list of rules keeps every character, in order, in the word
/// it came from.
pub proof fn lemma_rules_keep_words(ts: Seq<TokenView>, rules: Seq<Rule>)
    ensures
        flat(apply_rules(ts, rules)) == flat(ts),
        no_empty(ts) ==> no_empty(apply_rules(ts, rules)),
    decreases rules.len(),
{
    if rules.len() > 0 {
        lemma_rules_keep_words(ts, rules.drop_last());
        lemma_merge_keeps_words(apply_rules(ts, rules.drop_last()), rules.last().0, rules.last().1);
    }
}

proof fn lemma_group_nonempty(cs: Seq<(char, usize)>)
    ensures
        cs.len() > 0 ==> group(cs).len() > 0,
    decreases cs.len(),
{
    if cs.len() > 0 {
        lemma_group_nonempty(cs.drop_last());
    }
}

/// Appending one word's characters either extends the last word or starts
/// a new one.
proof fn lemma_group_append(x: Seq<(char, usize)>, s: Seq<char>, w: usize)
    requires
        s.len() > 0,
    ensures
        group(x + tag(s, w)) == if x.len() > 0 && x.last().1 == w {
            group(x).update(group(x).len() - 1, group(x).last() + s)
        } else {
            group(x).push(s)
        },
    decreases s.len(),
{
    lemma_group_nonempty(x);
    let y = x + tag(s, w);
    if s.len() == 1 {
        assert(y.drop_last() =~= x);
        assert(seq![s[0]] =~= s);
        assert(group(x).last().push(s[0]) =~= group(x).last() + s);
    } else {
        let s1 = s.drop_last();
        lemma_group_append(x, s1, w);
        let y1 = x + tag(s1, w);
        assert(y.drop_last() =~= y1);
        assert(y[y.len() - 2] == y1.last());
        let g1 = group(y1);
        lemma_group_nonempty(y1);
        if x.len() > 0 && x.last().1 == w {
            assert(g1.last() == group(x).last() + s1);
            assert(g1.last().push(s.last()) =~= group(x).last() + s);
            assert(g1.update(g1.len() - 1, g1.last().push(s.last())) =~= group(x).update(group(x).len() - 1, group(x).last() + s));
        } else {
            assert(g1.last() == s1);
            assert(s1.push(s.last()) =~= s);
            assert(g1.update(g1.len() - 1, g1.last().push(s.last())) =~= group(x).push(s));
        }
    }
}

/// The words of a stream of non-empty tokens are the words its tagged
/// characters spell.
proof fn lemma_decode_flat(ts: Seq<TokenView>)
    requires
        no_empty(ts),
    ensures
        decode_seq(ts) == group(flat(ts)),
    decreases ts.len(),
{
    if ts.len() > 0 {
        let p = ts.drop_last();
        let t = ts.last();
        assert(no_empty(p)) by {
            assert forall|i: int| 0 <= i < p.len() implies (#[trigger] p[i]).slice.len() > 0 by {
                assert(p[i] == ts[i]);
            }
        }
        assert(t.slice.len() > 0);
        lemma_decode_flat(p);
        lemma_group_append(flat(p), t.slice, t.word_id);
        if p.len() > 0 {
            lemma_flat_last(p);
            assert(p.last() == ts[ts.len() - 2]);
        }
    }
}

proof fn lemma_flat_word(w: Seq<char>, id: int, v: Seq<Seq<char>>)
    ensures
        flat(word_tokens(w, id, v)) == tag(w, id as usize),
    decreases w.len(),
{
    let wt = word_tokens(w, id, v);
    if w.len() > 0 {
        assert(wt.drop_last() =~= word_tokens(w.drop_last(), id, v));
        lemma_flat_word(w.drop_last(), id, v);
        assert(tag(w, id as usize) =~= tag(w.drop_last(), id as usize) + tag(seq![w.last()], id as usize));
        assert(wt.last().slice == seq![w.last()]);
    } else {
        assert(tag(w, id as usize) =~= Seq::<(char, usize)>::empty());
    }
}

/// Splitting non-empty words into characters and grouping the characters
/// again gives the words back.
proof fn lemma_group_tokenize(ws: Seq<Seq<char>>, v: Seq<Seq<char>>)
    requires
        ws.len() <= usize::MAX,
        forall|i: int| 0 <= i < ws.len() ==> (#[trigger] ws[i]).len() > 0,
    ensures
        group(flat(tokenize(ws, v))) == ws,
        ws.len() > 0 ==> flat(tokenize(ws, v)).len() > 0 && flat(tokenize(ws, v)).last().1 == (ws.len() - 1) as usize,
    decreases ws.len(),
{
    if ws.len() > 0 {
        let p = ws.drop_last();
        let w = ws.last();
        assert(w.len() > 0);
        assert forall|i: int| 0 <= i < p.len() implies (#[trigger] p[i]).len() > 0 by {
            assert(p[i] == ws[i]);
        }
        lemma_group_tokenize(p, v);
        let id = ws.len() - 1;
        lemma_flat_append(tokenize(p, v), word_tokens(w, id, v));
        lemma_flat_word(w, id, v);
        let x = flat(tokenize(p, v));
        lemma_group_append(x, w, id as usize);
        assert(ws =~= p.push(w));
    } else {
        assert(flat(tokenize(ws, v)) =~= Seq::<(char, usize)>::empty());
        assert(ws =~= Seq::<Seq<char>>::empty());
    }
}

/// Decoding the encoding of non-empty words gives the words back, whatever
/// the vocabulary and the rules.
pub proof fn lemma_round_trip(ws: Seq<Seq<char>>, v: Seq<Seq<char>>, tree: Seq<Rule>)
    requires
        ws.len() <= usize::MAX,
        forall|i: int| 0 <= i < ws.len() ==> (#[trigger] ws[i]).len() > 0,
    ensures
        decode_seq(encode_seq(ws, v, tree)) == ws,
{
    let t0 = tokenize(ws, v);
    assert(no_empty(t0)) by {
        lemma_no_empty_tokenize(ws, v);
    }
    lemma_rules_keep_words(t0, tree);
    lemma_decode_flat(apply_rules(t0, tree));
    lemma_group_tokenize(ws, v);
}

proof fn lemma_no_empty_tokenize(ws: Seq<Seq<char>>, v: Seq<Seq<char>>)
    ensures
        no_empty(tokenize(ws, v)),
    decreases ws.len(),
{
    if ws.len() > 0 {
        lemma_no_empty_tokenize(ws.drop_last(), v);
        let a = tokenize(ws.drop_last(), v);
        let b = word_tokens(ws.last(), ws.len() - 1, v);
        assert forall|i: int| 0 <= i < (a + b).len() implies (#[trigger] (a + b)[i]).slice.len() > 0 by {
            if i >= a.len() {
                assert((a + b)[i] == b[i - a.len()]);
            }
        }
    }
}

/// A model trained on non-empty words encodes them into tokens that decode
/// to the same words.
pub proof fn lemma_trained_round_trip(ws: Seq<Seq<char>>, budget: nat, v: Seq<Seq<char>>, tree: Seq<Rule>)
    requires
        ws.len() <= usize::MAX,
        forall|i: int| 0 <= i < ws.len() ==> (#[trigger] ws[i]).len() > 0,
        trained(ws, budget, v, tree),
    ensures
        decode_seq(encode_seq(ws, v, tree)) == ws,
{
    lemma_round_trip(ws, v, tree);
}

/// At most one pair is the best merge of a stream.
pub proof fn lemma_best_unique(ts: Seq<TokenView>, p: (usize, usize), q: (usize, usize))
    requires
        is_best(ts, p),
        is_best(ts, q),
    ensures
        p == q,
{
    assert(ranks_above(pair_count(ts, p), p, pair_count(ts, q), q));
    assert(ranks_above(pair_count(ts, q), q, pair_count(ts, p), p));
}

proof fn lemma_same_prefix(
    ws: Seq<Seq<char>>,
    budget: nat,
    v1: Seq<Seq<char>>,
    t1: Seq<Rule>,
    v2: Seq<Seq<char>>,
    t2: Seq<Rule>,
    k: int,
)
    requires
        trained(ws, budget, v1, t1),
        trained(ws, budget, v2, t2),
        0 <= k <= t1.len(),
        k <= t2.len(),
    ensures
        t1.take(k) == t2.take(k),
    decreases k,
{
    if k > 0 {
        lemma_same_prefix(ws, budget, v1, t1, v2, t2, k - 1);
        let t0 = tokenize(ws, initial_vocab(ws));
        assert(t1[k - 1].1 == t2[k - 1].1);
        assert(is_best(apply_rules(t0, t1.take(k - 1)), t1[k - 1].0));
        assert(is_best(apply_rules(t0, t2.take(k - 1)), t2[k - 1].0));
        lemma_best_unique(apply_rules(t0, t1.take(k - 1)), t1[k - 1].0, t2[k - 1].0);
        assert(t1.take(k) =~= t1.take(k - 1).push(t1[k - 1]));
        assert(t2.take(k) =~= t2.take(k - 1).push(t2[k - 1]));
    }
}

/// A shorter model is no model: where one rule list is a proper prefix of
/// another, the stream it leaves still had a pair to merge.
proof fn lemma_not_shorter(
    ws: Seq<Seq<char>>,
    budget: nat,
    v1: Seq<Seq<char>>,
    t1: Seq<Rule>,
    v2: Seq<Seq<char>>,
    t2: Seq<Rule>,
)
    requires
        trained(ws, budget, v1, t1),
        trained(ws, budget, v2, t2),
        v2.len() <= usize::MAX,
    ensures
        t1.len() >= t2.len(),
{
    if t1.len() < t2.len() {
        let n = t1.len() as int;
        let t0 = tokenize(ws, initial_vocab(ws));
        lemma_same_prefix(ws, budget, v1, t1, v2, t2, n);
        assert(t1.take(n) =~= t1);
        let ts = apply_rules(t0, t1);
        assert(v1.len() < usize::MAX);
        assert(pair_free(ts));
        let p = t2[n].0;
        assert(t2[n].1 == initial_vocab(ws).len() + n);
        assert(is_best(apply_rules(t0, t2.take(n)), p));
        assert(pair_count(ts, p) > 0);
        lemma_pair_free(ts);
    }
}

proof fn lemma_same_entries(
    ws: Seq<Seq<char>>,
    budget: nat,
    v1: Seq<Seq<char>>,
    t1: Seq<Rule>,
    v2: Seq<Seq<char>>,
    t2: Seq<Rule>,
    i: int,
)
    requires
        trained(ws, budget, v1, t1),
        trained(ws, budget, v2, t2),
        t1 == t2,
        0 <= i < v1.len(),
    ensures
        v1[i] == v2[i],
    decreases i,
{
    let base = initial_vocab(ws).len() as int;
    if i < base {
        assert(v1[i] == v1.take(base)[i]);
        assert(v2[i] == v2.take(base)[i]);
    } else {
        let k = i - base;
        assert(t1[k].1 == base + k);
        lemma_same_entries(ws, budget, v1, t1, v2, t2, t1[k].0.0 as int);
        lemma_same_entries(ws, budget, v1, t1, v2, t2, t1[k].0.1 as int);
    }
}

/// Training is deterministic: a corpus and a budget admit one model only,
/// so training twice, and encoding with what was learned, gives the same
/// identifiers each time.
pub proof fn lemma_training_deterministic(
    ws: Seq<Seq<char>>,
    budget: nat,
    v1: Seq<Seq<char>>,
    t1: Seq<Rule>,
    v2: Seq<Seq<char>>,
    t2: Seq<Rule>,
)
    requires
        trained(ws, budget, v1, t1),
        trained(ws, budget, v2, t2),
        v1.len() <= usize::MAX,
        v2.len() <= usize::MAX,
    ensures
        v1 == v2,
        t1 == t2,
        encode_seq(ws, v1, t1) == encode_seq(ws, v2, t2),
{
    lemma_not_shorter(ws, budget, v1, t1, v2, t2);
    lemma_not_shorter(ws, budget, v2, t2, v1, t1);
    lemma_same_prefix(ws, budget, v1, t1, v2, t2, t1.len() as int);
    assert(t1.take(t1.len() as int) =~= t1);
    assert(t2.take(t2.len() as int) =~= t2);
    assert forall|i: int| 0 <= i < v1.len() implies v1[i] == v2[i] by {
        lemma_same_entries(ws, budget, v1, t1, v2, t2, i);
    }
    assert(v1 =~= v2);
}

} // verus!
