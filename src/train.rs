//! The trainer: learn merge rules greedily, one most frequent pair at a time.

use vstd::prelude::*;
use vstd::string::StringExecFns;
use crate::token::{Token, TokenView, views, pair_free};
use crate::vocab::{Vocab, lookup, lemma_lookup};
use crate::merge::{Rule, merge, merge_seq, apply_rules, consistent, joins, lemma_merge_consistent};
use crate::stats::{is_best, most_frequent_pair, lemma_count_pos};
use crate::tokenize::{
    word_seqs, initial_vocab, tokenize, word_tokens, all_known, build_initial_vocab, words_to_tokens,
    lemma_initial_vocab_knows,
};

verus! {

/// Each rule fuses identifiers that existed before it, into an identifier
/// above every identifier of the first `base` ones and of every earlier rule.
pub open spec fn monotone(tree: Seq<Rule>, base: nat) -> bool {
    forall|k: int| 0 <= k < tree.len() ==> {
        &&& base <= #[trigger] tree[k].1
        &&& tree[k].0.0 < tree[k].1
        &&& tree[k].0.1 < tree[k].1
        &&& forall|j: int| 0 <= j < k ==> tree[j].0.0 < tree[k].1 && tree[j].0.1 < tree[k].1 && tree[j].1 < tree[k].1
    }
}

/// `(v, tree)` is what training on `ws` with at most `budget` merges learns.
/// The vocabulary starts with the corpus's characters. Rule `k` fuses the
/// best pair of the stream left by the first `k` rules into the next
/// identifier, whose entry is the concatenation of the pair's entries, so
/// the rules are `monotone`. Training stops early only when nothing is left
/// to merge, or, on a corpus too large for any machine, when identifiers
/// run out.
pub open spec fn trained(ws: Seq<Seq<char>>, budget: nat, v: Seq<Seq<char>>, tree: Seq<Rule>) -> bool {
    let init = initial_vocab(ws);
    let t0 = tokenize(ws, init);
    &&& v.len() == init.len() + tree.len()
    &&& v.take(init.len() as int) == init
    &&& tree.len() <= budget
    &&& monotone(tree, init.len())
    &&& forall|k: int| 0 <= k < tree.len() ==> {
        &&& #[trigger] tree[k].1 == init.len() + k
        &&& is_best(apply_rules(t0, tree.take(k)), tree[k].0)
        &&& v[init.len() + k] == v[tree[k].0.0 as int] + v[tree[k].0.1 as int]
    }
    &&& tree.len() < budget ==> pair_free(apply_rules(t0, tree)) || v.len() == usize::MAX
}

/// The rules learned so far, each the best pair of the stream it was learned on.
#[verifier::opaque]
spec fn learned(t0: Seq<TokenView>, base: nat, v: Seq<Seq<char>>, tree: Seq<Rule>) -> bool {
    forall|k: int| 0 <= k < tree.len() ==> {
        &&& #[trigger] tree[k].1 == base + k
        &&& tree[k].0.0 < tree[k].1
        &&& tree[k].0.1 < tree[k].1
        &&& is_best(apply_rules(t0, tree.take(k)), tree[k].0)
        &&& v[base + k] == v[tree[k].0.0 as int] + v[tree[k].0.1 as int]
    }
}

proof fn lemma_learn_step(t0: Seq<TokenView>, base: nat, v: Seq<Seq<char>>, tree: Seq<Rule>, pair: (usize, usize))
    requires
        learned(t0, base, v, tree),
        v.len() == base + tree.len(),
        v.len() < usize::MAX,
        is_best(apply_rules(t0, tree), pair),
        pair.0 < v.len(),
        pair.1 < v.len(),
    ensures
        learned(
            t0,
            base,
            v.push(v[pair.0 as int] + v[pair.1 as int]),
            tree.push((pair, v.len() as usize)),
        ),
{
    reveal(learned);
    let v2 = v.push(v[pair.0 as int] + v[pair.1 as int]);
    let tree2 = tree.push((pair, v.len() as usize));
    assert forall|k: int| 0 <= k < tree2.len() implies {
        &&& #[trigger] tree2[k].1 == base + k
        &&& tree2[k].0.0 < tree2[k].1
        &&& tree2[k].0.1 < tree2[k].1
        &&& is_best(apply_rules(t0, tree2.take(k)), tree2[k].0)
        &&& v2[base + k] == v2[tree2[k].0.0 as int] + v2[tree2[k].0.1 as int]
    } by {
        if k < tree.len() {
            assert(tree2[k] == tree[k]);
            assert(tree2.take(k) =~= tree.take(k));
        } else {
            assert(tree2.take(k) =~= tree);
        }
    }
}

/// Every character token of a corpus is consistent with its initial vocabulary.
proof fn lemma_tokenize_consistent(ws: Seq<Seq<char>>, v: Seq<Seq<char>>)
    requires
        all_known(ws, v),
        v.len() <= usize::MAX,
    ensures
        consistent(tokenize(ws, v), v),
    decreases ws.len(),
{
    if ws.len() > 0 {
        let p = ws.drop_last();
        assert forall|i: int, j: int| 0 <= i < p.len() && 0 <= j < p[i].len() implies
            (#[trigger] lookup(v, seq![p[i][j]])) is Some by {
            assert(p[i] == ws[i]);
            assert(lookup(v, seq![ws[i][j]]) is Some);
        }
        lemma_tokenize_consistent(p, v);
        let a = tokenize(p, v);
        let w = ws.last();
        let b = word_tokens(w, ws.len() - 1, v);
        assert forall|j: int| 0 <= j < b.len() implies #[trigger] b[j].tok_id < v.len() && v[b[j].tok_id as int] == b[j].slice by {
            assert(w == ws[ws.len() - 1]);
            assert(lookup(v, seq![ws[ws.len() - 1][j]]) is Some);
            lemma_lookup(v, seq![w[j]]);
            assert(b[j].slice == seq![w[j]]);
        }
        assert forall|i: int| 0 <= i < (a + b).len() implies #[trigger] (a + b)[i].tok_id < v.len() && v[(a + b)[i].tok_id as int] == (a + b)[i].slice by {
            if i >= a.len() {
                assert((a + b)[i] == b[i - a.len()]);
            }
        }
    }
}

proof fn lemma_apply_rules_push(ts: Seq<TokenView>, rules: Seq<Rule>, r: Rule)
    ensures
        apply_rules(ts, rules.push(r)) == merge_seq(apply_rules(ts, rules), r.0, r.1),
{
    assert(rules.push(r).drop_last() =~= rules);
}

/// Learns at most `num_merges` merge rules from `words`. Returns the
/// vocabulary and the rules in the order they were learned. Among pairs of
/// equal count the smaller left identifier wins, then the smaller right one.
pub fn train(words: &[&str], num_merges: usize) -> (r: (Vocab, Vec<Rule>))
    ensures
        trained(word_seqs(words@), num_merges as nat, r.0@, r.1@),
{
    let ghost ws = word_seqs(words@);
    let mut vocab = build_initial_vocab(words);
    let ghost init = vocab@;
    let ghost base = init.len();
    proof {
        lemma_initial_vocab_knows(ws);
    }
    let ghost t0 = tokenize(ws, init);
    let mut tokens = match words_to_tokens(words, &vocab) {
        Some(t) => t,
        None => Vec::new(),
    };
    let mut tree: Vec<Rule> = Vec::new();
    let mut fresh: usize = vocab.len();
    let mut it: usize = 0;
    proof {
        lemma_tokenize_consistent(ws, init);
        assert(init.take(base as int) =~= init);
        reveal(learned);
    }
    while it < num_merges && fresh < usize::MAX
        invariant
            ws == word_seqs(words@),
            init == initial_vocab(ws),
            base == init.len(),
            t0 == tokenize(ws, init),
            it <= num_merges,
            tree@.len() == it,
            fresh == vocab@.len(),
            vocab@.len() == base + tree@.len(),
            vocab@.take(base as int) == init,
            views(tokens@) == apply_rules(t0, tree@),
            consistent(views(tokens@), vocab@),
            learned(t0, base, vocab@, tree@),
        ensures
            tree@.len() < num_merges ==> pair_free(apply_rules(t0, tree@)) || vocab@.len() == usize::MAX,
            ws == word_seqs(words@),
            init == initial_vocab(ws),
            base == init.len(),
            t0 == tokenize(ws, init),
            tree@.len() <= num_merges,
            vocab@.len() == base + tree@.len(),
            vocab@.take(base as int) == init,
            learned(t0, base, vocab@, tree@),
        decreases num_merges - it,
    {
        let pair = match most_frequent_pair(&tokens) {
            None => break,
            Some(p) => p,
        };
        let ghost ts = views(tokens@);
        let ghost v = vocab@;
        let ghost old_tree = tree@;
        proof {
            lemma_count_pos(ts, pair);
            let i = choose|i: int| 0 <= i < ts.len() - 1 && #[trigger] joins(ts[i], ts[i + 1], pair);
            assert(ts[i].tok_id < v.len() && ts[i + 1].tok_id < v.len());
            lemma_merge_consistent(ts, pair, v);
            lemma_learn_step(t0, base, v, tree@, pair);
        }
        let (l, r) = pair;
        let mut s = vocab.entries[l].clone();
        s.append(vocab.entries[r].as_str());
        assert(s@ == v[l as int] + v[r as int]);
        tokens = merge(&tokens, pair, fresh);
        vocab.insert(s);
        tree.push((pair, fresh));
        proof {
            lemma_apply_rules_push(t0, old_tree, (pair, fresh));
            assert(vocab@.take(base as int) =~= v.take(base as int));
        }
        fresh += 1;
        it += 1;
    }
    proof {
        reveal(learned);
        let tr = tree@;
        assert forall|k: int| 0 <= k < tr.len() implies {
            &&& base <= #[trigger] tr[k].1
            &&& tr[k].0.0 < tr[k].1
            &&& tr[k].0.1 < tr[k].1
            &&& forall|j: int| 0 <= j < k ==> tr[j].0.0 < tr[k].1 && tr[j].0.1 < tr[k].1 && tr[j].1 < tr[k].1
        } by {
            assert forall|j: int| 0 <= j < k implies tr[j].0.0 < tr[k].1 && tr[j].0.1 < tr[k].1 && tr[j].1 < tr[k].1 by {
                assert(tr[j].1 == base + j);
            }
        }
    }
    (vocab, tree)
}

} // verus!
