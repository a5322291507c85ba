//! Encoding words with a learned model, and decoding token streams.

use vstd::prelude::*;
use vstd::string::StringExecFns;
use crate::token::{Token, TokenView, views};
use crate::vocab::{Vocab, contents};
use crate::merge::{Rule, merge, apply_rules};
use crate::tokenize::{word_seqs, tokenize, all_known, words_to_tokens};

verus! {

/// The words of a token stream: the texts of each run of neighbouring
/// tokens that share a word identifier, in order.
pub open spec fn decode_seq(ts: Seq<TokenView>) -> Seq<Seq<char>>
    decreases ts.len(),
{
    if ts.len() == 0 {
        Seq::empty()
    } else {
        let d = decode_seq(ts.drop_last());
        let t = ts.last();
        if ts.len() >= 2 && ts[ts.len() - 2].word_id == t.word_id {
            d.update(d.len() - 1, d.last() + t.slice)
        } else {
            d.push(t.slice)
        }
    }
}

/// The token stream that a model gives for a list of words.
pub open spec fn encode_seq(ws: Seq<Seq<char>>, v: Seq<Seq<char>>, tree: Seq<Rule>) -> Seq<TokenView> {
    apply_rules(tokenize(ws, v), tree)
}

pub proof fn lemma_decode_len(ts: Seq<TokenView>)
    ensures
        ts.len() > 0 ==> decode_seq(ts).len() > 0,
    decreases ts.len(),
{
    if ts.len() > 0 {
        lemma_decode_len(ts.drop_last());
    }
}

/// Splits `words` into characters and applies every rule of `merge_tree` in
/// order. Returns `None` when a character has no vocabulary entry.
pub fn encode(words: &[&str], vocab: &Vocab, merge_tree: &Vec<Rule>) -> (r: Option<Vec<Token>>)
    ensures
        r is Some <==> all_known(word_seqs(words@), vocab@),
        r matches Some(t) ==> views(t@) == encode_seq(word_seqs(words@), vocab@, merge_tree@),
{
    let mut tokens = match words_to_tokens(words, vocab) {
        Some(t) => t,
        None => return None,
    };
    let ghost t0 = tokenize(word_seqs(words@), vocab@);
    let mut k: usize = 0;
    assert(merge_tree@.take(0) =~= Seq::<Rule>::empty());
    while k < merge_tree.len()
        invariant
            k <= merge_tree.len(),
            views(tokens@) == apply_rules(t0, merge_tree@.take(k as int)),
        decreases merge_tree.len() - k,
    {
        let rule = merge_tree[k];
        assert(merge_tree@.take(k + 1).drop_last() =~= merge_tree@.take(k as int));
        tokens = merge(&tokens, rule.0, rule.1);
        k += 1;
    }
    assert(merge_tree@.take(k as int) =~= merge_tree@);
    Some(tokens)
}

/// Joins the texts of neighbouring tokens of the same word: one word for
/// each run of equal word identifiers. No tokens give no words.
pub fn decode(tokens: &[Token]) -> (r: Vec<String>)
    ensures
        contents(r@) == decode_seq(views(tokens@)),
{
    let ghost ts = views(tokens@);
    let mut words: Vec<String> = Vec::new();
    let mut word = String::new();
    let mut last_word_id: usize = 0;
    let mut i: usize = 0;
    assert(ts.take(0) =~= Seq::<TokenView>::empty());
    while i < tokens.len()
        invariant
            i <= tokens.len(),
            ts == views(tokens@),
            i == 0 ==> words@.len() == 0 && word@.len() == 0,
            i > 0 ==> last_word_id == ts[i - 1].word_id,
            i > 0 ==> contents(words@).push(word@) == decode_seq(ts.take(i as int)),
        decreases tokens.len() - i,
    {
        let token = &tokens[i];
        let ghost pre = ts.take(i as int);
        let ghost post = ts.take(i + 1);
        assert(post.drop_last() =~= pre);
        assert(post.last() == token@);
        proof {
            lemma_decode_len(pre);
        }
        if i > 0 && last_word_id != token.word_id {
            assert(post[post.len() - 2] == ts[i - 1]);
            let done = word;
            words.push(done);
            word = String::new();
            assert(contents(words@) =~= decode_seq(pre));
        } else if i > 0 {
            assert(post[post.len() - 2] == ts[i - 1]);
            assert(contents(words@) =~= decode_seq(pre).drop_last());
        }
        let ghost before = word@;
        word.append(token.slice.as_str());
        last_word_id = token.word_id;
        proof {
            if i == 0 {
                assert(contents(words@) =~= Seq::<Seq<char>>::empty());
                assert(word@ =~= token.slice@);
            }
            assert(contents(words@).push(word@) =~= decode_seq(post));
        }
        i += 1;
    }
    if i > 0 {
        words.push(word);
    }
    assert(ts.take(i as int) =~= ts);
    assert(contents(words@) =~= decode_seq(ts));
    words
}

} // verus!
