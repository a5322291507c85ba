//! The merge applicator: fuse every occurrence of one adjacent pair.

use vstd::prelude::*;
use vstd::string::StringExecFns;
use crate::token::{Token, TokenView, views, lemma_views_push};

verus! {

/// Two tokens form an occurrence of `pair`: same word, and their
/// identifiers are the pair's, in order.
pub open spec fn joins(a: TokenView, b: TokenView, pair: (usize, usize)) -> bool {
    a.word_id == b.word_id && a.tok_id == pair.0 && b.tok_id == pair.1
}

/// The token that replaces the adjacent tokens `a` and `b`.
pub open spec fn fuse(a: TokenView, b: TokenView, fresh: usize) -> TokenView {
    TokenView { slice: a.slice + b.slice, tok_id: fresh, word_id: a.word_id }
}

/// One left-to-right pass that replaces each occurrence of `pair` by one
/// token with identifier `fresh`; a fused token is not looked at again.
pub open spec fn merge_seq(ts: Seq<TokenView>, pair: (usize, usize), fresh: usize) -> Seq<TokenView>
    decreases ts.len(),
{
    if ts.len() < 2 {
        ts
    } else if joins(ts[0], ts[1], pair) {
        seq![fuse(ts[0], ts[1], fresh)] + merge_seq(ts.skip(2), pair, fresh)
    } else {
        seq![ts[0]] + merge_seq(ts.skip(1), pair, fresh)
    }
}

/// Rewrites `tokens`, fusing every non-overlapping occurrence of `pair`
/// (scanning from the left) into one token with identifier `fresh`.
pub fn merge(tokens: &Vec<Token>, pair: (usize, usize), fresh: usize) -> (r: Vec<Token>)
    ensures
        views(r@) == merge_seq(views(tokens@), pair, fresh),
{
    broadcast use lemma_views_push;

    let ghost ts = views(tokens@);
    let n = tokens.len();
    let mut out: Vec<Token> = Vec::new();
    let mut i: usize = 0;
    proof {
        assert(ts.skip(0) =~= ts);
    }
    while n - i > 1
        invariant
            n == tokens.len(),
            i <= n,
            ts == views(tokens@),
            views(out@) + merge_seq(ts.skip(i as int), pair, fresh) == merge_seq(ts, pair, fresh),
        decreases n - i,
    {
        let t1 = &tokens[i];
        let t2 = &tokens[i + 1];
        let ghost rest = ts.skip(i as int);
        proof {
            assert(rest[0] == t1@ && rest[1] == t2@);
        }
        if t1.word_id == t2.word_id && t1.tok_id == pair.0 && t2.tok_id == pair.1 {
            let mut s = t1.slice.clone();
            s.append(t2.slice.as_str());
            let fused = Token { slice: s, tok_id: fresh, word_id: t1.word_id };
            proof {
                assert(fused@ == fuse(t1@, t2@, fresh));
                assert(rest.skip(2) =~= ts.skip(i + 2));
            }
            out.push(fused);
            i += 2;
        } else {
            proof {
                assert(rest.skip(1) =~= ts.skip(i + 1));
            }
            out.push(t1.duplicate());
            i += 1;
        }
    }
    if i < n {
        out.push(tokens[i].duplicate());
        proof {
            assert(ts.skip(i as int) =~= seq![ts[i as int]]);
        }
        i += 1;
    }
    proof {
        assert(ts.skip(i as int) =~= Seq::<TokenView>::empty());
    }
    out
}


/// A merge rule: the pair of identifiers to fuse, and the identifier of
/// the fused token.
pub type Rule = ((usize, usize), usize);

/// The stream after applying `rules` to `ts`, first rule first.
pub open spec fn apply_rules(ts: Seq<TokenView>, rules: Seq<Rule>) -> Seq<TokenView>
    decreases rules.len(),
{
    if rules.len() == 0 {
        ts
    } else {
        merge_seq(apply_rules(ts, rules.drop_last()), rules.last().0, rules.last().1)
    }
}

/// Every token's identifier names a vocabulary entry holding the token's text.
pub open spec fn consistent(ts: Seq<TokenView>, v: Seq<Seq<char>>) -> bool {
    forall|i: int| 0 <= i < ts.len() ==> #[trigger] ts[i].tok_id < v.len() && v[ts[i].tok_id as int] == ts[i].slice
}

/// Merging into a fresh identifier whose entry is the concatenation of the
/// pair's entries keeps a stream consistent with its vocabulary.
pub proof fn lemma_merge_consistent(ts: Seq<TokenView>, pair: (usize, usize), v: Seq<Seq<char>>)
    requires
        consistent(ts, v),
        pair.0 < v.len(),
        pair.1 < v.len(),
        v.len() <= usize::MAX,
    ensures
        consistent(
            merge_seq(ts, pair, v.len() as usize),
            v.push(v[pair.0 as int] + v[pair.1 as int]),
        ),
    decreases ts.len(),
{
    let fresh = v.len() as usize;
    let v2 = v.push(v[pair.0 as int] + v[pair.1 as int]);
    assert forall|i: int| 0 <= i < ts.len() implies #[trigger] ts[i].tok_id < v2.len() && v2[ts[i].tok_id as int] == ts[i].slice by {
        assert(ts[i].tok_id < v.len());
    }
    if ts.len() >= 2 {
        if joins(ts[0], ts[1], pair) {
            let rest = ts.skip(2);
            assert forall|i: int| 0 <= i < rest.len() implies #[trigger] rest[i].tok_id < v.len() && v[rest[i].tok_id as int] == rest[i].slice by {
                assert(rest[i] == ts[i + 2]);
            }
            lemma_merge_consistent(rest, pair, v);
            let f = fuse(ts[0], ts[1], fresh);
            let m = merge_seq(rest, pair, fresh);
            assert forall|i: int| 0 <= i < 1 + m.len() implies #[trigger] (seq![f] + m)[i].tok_id < v2.len() && v2[(seq![f] + m)[i].tok_id as int] == (seq![f] + m)[i].slice by {
                if i > 0 {
                    assert((seq![f] + m)[i] == m[i - 1]);
                }
            }
        } else {
            let rest = ts.skip(1);
            assert forall|i: int| 0 <= i < rest.len() implies #[trigger] rest[i].tok_id < v.len() && v[rest[i].tok_id as int] == rest[i].slice by {
                assert(rest[i] == ts[i + 1]);
            }
            lemma_merge_consistent(rest, pair, v);
            let m = merge_seq(rest, pair, fresh);
            assert forall|i: int| 0 <= i < 1 + m.len() implies #[trigger] (seq![ts[0]] + m)[i].tok_id < v2.len() && v2[(seq![ts[0]] + m)[i].tok_id as int] == (seq![ts[0]] + m)[i].slice by {
                if i > 0 {
                    assert((seq![ts[0]] + m)[i] == m[i - 1]);
                }
            }
        }
    }
}

} // verus!
