//! Pair statistics and the choice of the next merge.

use vstd::prelude::*;
use crate::token::{Token, TokenView, views, pair_free};
use crate::merge::joins;

verus! {

/// How many times `pair` occurs between neighbouring tokens of one word.
pub open spec fn pair_count(ts: Seq<TokenView>, pair: (usize, usize)) -> nat
    decreases ts.len(),
{
    if ts.len() < 2 {
        0
    } else {
        pair_count(ts.drop_last(), pair) + if joins(ts[ts.len() - 2], ts.last(), pair) {
            1nat
        } else {
            0nat
        }
    }
}

/// The order in which merge candidates are ranked: a higher count first;
/// among equal counts the smaller left identifier, then the smaller right one.
pub open spec fn ranks_above(c1: nat, p1: (usize, usize), c2: nat, p2: (usize, usize)) -> bool {
    c1 > c2 || (c1 == c2 && (p1.0 < p2.0 || (p1.0 == p2.0 && p1.1 <= p2.1)))
}

/// `pair` is the merge that the stream `ts` calls for: it occurs, and it
/// ranks above every pair that occurs.
pub open spec fn is_best(ts: Seq<TokenView>, pair: (usize, usize)) -> bool {
    pair_count(ts, pair) > 0 && forall|q: (usize, usize)|
        #[trigger] pair_count(ts, q) > 0 ==> ranks_above(pair_count(ts, pair), pair, pair_count(ts, q), q)
}

/// The statistics `s` of stream `ts`: each entry holds a distinct pair and
/// its count, and every pair that occurs has an entry.
pub open spec fn stats_of(s: Seq<((usize, usize), usize)>, ts: Seq<TokenView>) -> bool {
    &&& forall|k: int| 0 <= k < s.len() ==> #[trigger] s[k].1 == pair_count(ts, s[k].0) && s[k].1 > 0
    &&& forall|k1: int, k2: int| 0 <= k1 < s.len() && 0 <= k2 < s.len() && k1 != k2 ==> s[k1].0 != s[k2].0
    &&& forall|p: (usize, usize)| #[trigger] pair_count(ts, p) > 0 ==> exists|k: int| 0 <= k < s.len() && s[k].0 == p
}

pub proof fn lemma_count_le(ts: Seq<TokenView>, pair: (usize, usize))
    ensures
        pair_count(ts, pair) <= ts.len(),
    decreases ts.len(),
{
    if ts.len() >= 2 {
        lemma_count_le(ts.drop_last(), pair);
    }
}

/// A pair occurs exactly when it is found at some position.
pub proof fn lemma_count_pos(ts: Seq<TokenView>, pair: (usize, usize))
    ensures
        pair_count(ts, pair) > 0 <==> exists|i: int| 0 <= i < ts.len() - 1 && #[trigger] joins(ts[i], ts[i + 1], pair),
    decreases ts.len(),
{
    if ts.len() >= 2 {
        let p = ts.drop_last();
        lemma_count_pos(p, pair);
        if pair_count(p, pair) > 0 {
            let i = choose|i: int| 0 <= i < p.len() - 1 && #[trigger] joins(p[i], p[i + 1], pair);
            assert(joins(ts[i], ts[i + 1], pair));
        }
        if exists|i: int| 0 <= i < ts.len() - 1 && #[trigger] joins(ts[i], ts[i + 1], pair) {
            let i = choose|i: int| 0 <= i < ts.len() - 1 && #[trigger] joins(ts[i], ts[i + 1], pair);
            if i < ts.len() - 2 {
                assert(joins(p[i], p[i + 1], pair));
            }
        }
    }
}

/// A stream has nothing to merge exactly when no pair occurs in it.
pub proof fn lemma_pair_free(ts: Seq<TokenView>)
    ensures
        pair_free(ts) <==> forall|p: (usize, usize)| pair_count(ts, p) == 0,
{
    if !pair_free(ts) {
        let i = choose|i: int| 0 <= i < ts.len() - 1 && #[trigger] ts[i].word_id == ts[i + 1].word_id;
        let p = (ts[i].tok_id, ts[i + 1].tok_id);
        lemma_count_pos(ts, p);
        assert(joins(ts[i], ts[i + 1], p));
    } else {
        assert forall|p: (usize, usize)| pair_count(ts, p) == 0 by {
            lemma_count_pos(ts, p);
            if pair_count(ts, p) > 0 {
                let i = choose|i: int| 0 <= i < ts.len() - 1 && #[trigger] joins(ts[i], ts[i + 1], p);
                assert(ts[i].word_id != ts[i + 1].word_id);
            }
        }
    }
}

/// Counts every adjacent pair of token identifiers within one word.
pub fn get_stats(tokens: &Vec<Token>) -> (r: Vec<((usize, usize), usize)>)
    ensures
        stats_of(r@, views(tokens@)),
{
    let ghost ts = views(tokens@);
    let n = tokens.len();
    let mut stats: Vec<((usize, usize), usize)> = Vec::new();
    if n < 2 {
        proof {
            assert forall|p: (usize, usize)| #[trigger] pair_count(ts, p) > 0 implies
                exists|k: int| 0 <= k < stats@.len() && stats@[k].0 == p by {}
        }
        return stats;
    }
    let mut i: usize = 0;
    assert forall|p: (usize, usize)| #[trigger] pair_count(ts.take(1), p) == 0 by {}
    while i < n - 1
        invariant
            n == tokens.len(),
            n >= 2,
            i <= n - 1,
            ts == views(tokens@),
            stats_of(stats@, ts.take(i + 1)),
        decreases n - 1 - i,
    {
        let ghost pre = ts.take(i + 1);
        let ghost post = ts.take(i + 2);
        assert(post.drop_last() =~= pre);
        assert(post[post.len() - 2] == ts[i as int] && post.last() == ts[i + 1]);
        let ghost old_stats = stats@;
        let t1 = &tokens[i];
        let t2 = &tokens[i + 1];
        if t1.word_id == t2.word_id {
            let pair = (t1.tok_id, t2.tok_id);
            let mut k: usize = 0;
            while k < stats.len()
                invariant
                    k <= stats.len(),
                    stats@ == old_stats,
                    forall|m: int| 0 <= m < k ==> stats@[m].0 != pair,
                ensures
                    k <= stats.len(),
                    stats@ == old_stats,
                    forall|m: int| 0 <= m < k ==> stats@[m].0 != pair,
                    k < stats.len() ==> stats@[k as int].0 == pair,
                decreases stats.len() - k,
            {
                if stats[k].0.0 == pair.0 && stats[k].0.1 == pair.1 {
                    break;
                }
                k += 1;
            }
            if k < stats.len() {
                let c = stats[k].1;
                proof {
                    lemma_count_le(pre, pair);
                    assert(stats@[k as int].1 == pair_count(pre, stats@[k as int].0));
                }
                stats.set(k, (pair, c + 1));
                proof {
                    assert forall|p: (usize, usize)| #[trigger] pair_count(post, p) > 0 implies
                        exists|m: int| 0 <= m < stats@.len() && stats@[m].0 == p by {
                        if p != pair {
                            assert(pair_count(post, p) == pair_count(pre, p));
                            let m = choose|m: int| 0 <= m < old_stats.len() && old_stats[m].0 == p;
                            assert(stats@[m].0 == p);
                        } else {
                            assert(stats@[k as int].0 == p);
                        }
                    }
                    assert forall|m: int| 0 <= m < stats@.len() implies
                        #[trigger] stats@[m].1 == pair_count(post, stats@[m].0) && stats@[m].1 > 0 by {
                        if m != k {
                            assert(old_stats[m].0 != pair);
                        }
                    }
                }
            } else {
                stats.push((pair, 1));
                proof {
                    assert(pair_count(pre, pair) == 0);
                    assert(stats@[stats@.len() - 1].0 == pair);
                    assert forall|p: (usize, usize)| #[trigger] pair_count(post, p) > 0 implies
                        exists|m: int| 0 <= m < stats@.len() && stats@[m].0 == p by {
                        if p != pair {
                            assert(pair_count(post, p) == pair_count(pre, p));
                            let m = choose|m: int| 0 <= m < old_stats.len() && old_stats[m].0 == p;
                            assert(stats@[m].0 == p);
                        }
                    }
                    assert forall|m: int| 0 <= m < stats@.len() implies
                        #[trigger] stats@[m].1 == pair_count(post, stats@[m].0) && stats@[m].1 > 0 by {
                        if m < old_stats.len() {
                            assert(old_stats[m].0 != pair);
                            assert(stats@[m] == old_stats[m]);
                        }
                    }
                }
            }
        } else {
            proof {
                assert forall|p: (usize, usize)| #[trigger] pair_count(post, p) > 0 implies
                    exists|m: int| 0 <= m < stats@.len() && stats@[m].0 == p by {
                    assert(pair_count(pre, p) > 0);
                }
            }
        }
        i += 1;
    }
    assert(ts.take(n as int) =~= ts);
    stats
}

/// The highest-ranking entry of a statistics table, if it has any.
pub fn best_entry(stats: &Vec<((usize, usize), usize)>) -> (r: Option<((usize, usize), usize)>)
    ensures
        r is None <==> stats@.len() == 0,
        r matches Some(e) ==> stats@.contains(e) && forall|k: int| 0 <= k < stats@.len() ==>
            ranks_above(e.1 as nat, e.0, #[trigger] stats@[k].1 as nat, stats@[k].0),
{
    if stats.len() == 0 {
        return None;
    }
    let mut best = stats[0];
    let mut k: usize = 1;
    while k < stats.len()
        invariant
            1 <= k <= stats.len(),
            stats@.contains(best),
            forall|m: int| 0 <= m < k ==> ranks_above(best.1 as nat, best.0, #[trigger] stats@[m].1 as nat, stats@[m].0),
        decreases stats.len() - k,
    {
        let e = stats[k];
        if e.1 > best.1 || (e.1 == best.1 && (e.0.0 < best.0.0 || (e.0.0 == best.0.0 && e.0.1 < best.0.1))) {
            best = e;
        }
        k += 1;
    }
    Some(best)
}

/// The pair that the next merge of `tokens` fuses, or `None` when no two
/// neighbouring tokens belong to the same word.
pub fn most_frequent_pair(tokens: &Vec<Token>) -> (r: Option<(usize, usize)>)
    ensures
        r is None <==> pair_free(views(tokens@)),
        r matches Some(p) ==> is_best(views(tokens@), p),
{
    let ghost ts = views(tokens@);
    let stats = get_stats(tokens);
    proof {
        lemma_pair_free(ts);
    }
    match best_entry(&stats) {
        None => {
            proof {
                assert forall|p: (usize, usize)| pair_count(ts, p) == 0 by {
                    if pair_count(ts, p) > 0 {
                        let k = choose|k: int| 0 <= k < stats@.len() && stats@[k].0 == p;
                    }
                }
            }
            None
        },
        Some(e) => {
            proof {
                let k0 = choose|k: int| 0 <= k < stats@.len() && stats@[k] == e;
                assert(stats@[k0] == e);
                assert forall|q: (usize, usize)| #[trigger] pair_count(ts, q) > 0 implies
                    ranks_above(pair_count(ts, e.0), e.0, pair_count(ts, q), q) by {
                    let k = choose|k: int| 0 <= k < stats@.len() && stats@[k].0 == q;
                    assert(ranks_above(e.1 as nat, e.0, stats@[k].1 as nat, stats@[k].0));
                }
            }
            Some(e.0)
        },
    }
}

} // verus!
