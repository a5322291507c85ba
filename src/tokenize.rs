//! The initial vocabulary and the character-level tokenizer.

use vstd::prelude::*;
use vstd::string::{StrSliceExecFns, StringExecFns};
use crate::token::{Token, TokenView, views, lemma_views_push};
use crate::vocab::{Vocab, lookup, lemma_lookup};

verus! {

/// The texts of a list of words.
pub open spec fn word_seqs(words: Seq<&str>) -> Seq<Seq<char>> {
    words.map_values(|w: &str| w@)
}

/// All characters of all words, in order.
pub open spec fn all_chars(ws: Seq<Seq<char>>) -> Seq<char>
    decreases ws.len(),
{
    if ws.len() == 0 {
        Seq::empty()
    } else {
        all_chars(ws.drop_last()) + ws.last()
    }
}

/// The distinct characters of `cs`, in order of first occurrence.
pub open spec fn distinct(cs: Seq<char>) -> Seq<char>
    decreases cs.len(),
{
    if cs.len() == 0 {
        Seq::empty()
    } else if distinct(cs.drop_last()).contains(cs.last()) {
        distinct(cs.drop_last())
    } else {
        distinct(cs.drop_last()).push(cs.last())
    }
}

/// The one-character contents for a list of characters.
pub open spec fn singles(cs: Seq<char>) -> Seq<Seq<char>> {
    cs.map_values(|c: char| seq![c])
}

/// The vocabulary built from a corpus: each distinct character, numbered in
/// order of first occurrence.
pub open spec fn initial_vocab(ws: Seq<Seq<char>>) -> Seq<Seq<char>> {
    singles(distinct(all_chars(ws)))
}

/// The identifier of a one-character token (0 if the character is unknown).
pub open spec fn char_id(v: Seq<Seq<char>>, c: char) -> usize {
    match lookup(v, seq![c]) {
        Some(i) => i as usize,
        None => 0,
    }
}

/// Every character of every word has an entry in `v`.
pub open spec fn all_known(ws: Seq<Seq<char>>, v: Seq<Seq<char>>) -> bool {
    forall|i: int, j: int|
        0 <= i < ws.len() && 0 <= j < ws[i].len() ==> (#[trigger] lookup(v, seq![ws[i][j]])) is Some
}

/// The one-character tokens of word number `wid`.
pub open spec fn word_tokens(w: Seq<char>, wid: int, v: Seq<Seq<char>>) -> Seq<TokenView> {
    Seq::new(
        w.len(),
        |j: int| TokenView { slice: seq![w[j]], tok_id: char_id(v, w[j]), word_id: wid as usize },
    )
}

/// The character-level token stream of a list of words.
pub open spec fn tokenize(ws: Seq<Seq<char>>, v: Seq<Seq<char>>) -> Seq<TokenView>
    decreases ws.len(),
{
    if ws.len() == 0 {
        Seq::empty()
    } else {
        tokenize(ws.drop_last(), v) + word_tokens(ws.last(), ws.len() - 1, v)
    }
}

proof fn lemma_all_chars_take(ws: Seq<Seq<char>>, w: int)
    requires
        0 <= w < ws.len(),
    ensures
        all_chars(ws.take(w + 1)) == all_chars(ws.take(w)) + ws[w],
{
    assert(ws.take(w + 1).drop_last() =~= ws.take(w));
}

proof fn lemma_tokenize_take(ws: Seq<Seq<char>>, v: Seq<Seq<char>>, w: int)
    requires
        0 <= w < ws.len(),
    ensures
        tokenize(ws.take(w + 1), v) == tokenize(ws.take(w), v) + word_tokens(ws[w], w, v),
{
    assert(ws.take(w + 1).drop_last() =~= ws.take(w));
}

pub proof fn lemma_distinct(cs: Seq<char>)
    ensures
        forall|k: int| 0 <= k < cs.len() ==> distinct(cs).contains(#[trigger] cs[k]),
        distinct(cs).no_duplicates(),
    decreases cs.len(),
{
    if cs.len() > 0 {
        let p = cs.drop_last();
        lemma_distinct(p);
        assert forall|k: int| 0 <= k < cs.len() implies distinct(cs).contains(#[trigger] cs[k]) by {
            if k < cs.len() - 1 {
                assert(p[k] == cs[k]);
                assert(distinct(p).contains(p[k]));
                if !distinct(p).contains(cs.last()) {
                    let m = choose|m: int| 0 <= m < distinct(p).len() && distinct(p)[m] == cs[k];
                    assert(distinct(cs)[m] == cs[k]);
                }
            } else if !distinct(p).contains(cs.last()) {
                assert(distinct(cs)[distinct(p).len() as int] == cs[k]);
            }
        }
    }
}

pub proof fn lemma_all_chars(ws: Seq<Seq<char>>)
    ensures
        forall|i: int, j: int|
            0 <= i < ws.len() && 0 <= j < ws[i].len() ==> all_chars(ws).contains(#[trigger] ws[i][j]),
    decreases ws.len(),
{
    if ws.len() > 0 {
        let p = ws.drop_last();
        lemma_all_chars(p);
        let a = all_chars(p);
        assert forall|i: int, j: int|
            0 <= i < ws.len() && 0 <= j < ws[i].len() implies all_chars(ws).contains(#[trigger] ws[i][j]) by {
            if i < ws.len() - 1 {
                assert(p[i] == ws[i]);
                let k = choose|k: int| 0 <= k < a.len() && a[k] == p[i][j];
                assert((a + ws.last())[k] == ws[i][j]);
            } else {
                assert((a + ws.last())[a.len() + j] == ws[i][j]);
            }
        }
    }
}

/// Every character of the corpus has an entry in the vocabulary built from it.
pub proof fn lemma_initial_vocab_knows(ws: Seq<Seq<char>>)
    ensures
        all_known(ws, initial_vocab(ws)),
{
    let d = distinct(all_chars(ws));
    let v = initial_vocab(ws);
    lemma_all_chars(ws);
    lemma_distinct(all_chars(ws));
    assert forall|i: int, j: int| 0 <= i < ws.len() && 0 <= j < ws[i].len() implies
        (#[trigger] lookup(v, seq![ws[i][j]])) is Some by {
        let c = ws[i][j];
        assert(all_chars(ws).contains(c));
        let k0 = choose|k: int| 0 <= k < all_chars(ws).len() && all_chars(ws)[k] == c;
        assert(d.contains(all_chars(ws)[k0]));
        let k = choose|k: int| 0 <= k < d.len() && d[k] == c;
        assert(v[k] == seq![c]);
        lemma_lookup(v, seq![c]);
    }
}

/// Builds the vocabulary of a corpus: one entry per distinct character, with
/// identifiers assigned from 0 in order of first occurrence.
pub fn build_initial_vocab(words: &[&str]) -> (r: Vocab)
    ensures
        r@ == initial_vocab(word_seqs(words@)),
{
    let ghost ws = word_seqs(words@);
    let mut vocab = Vocab::new();
    let mut w: usize = 0;
    assert(ws.take(0) =~= Seq::<Seq<char>>::empty());
    assert(singles(distinct(all_chars(ws.take(0)))) =~= Seq::<Seq<char>>::empty());
    while w < words.len()
        invariant
            w <= words.len(),
            ws == word_seqs(words@),
            vocab@ == singles(distinct(all_chars(ws.take(w as int)))),
        decreases words.len() - w,
    {
        let word: &str = words[w];
        assert(word@ == ws[w as int]);
        let n = word.unicode_len();
        let mut j: usize = 0;
        let ghost before = all_chars(ws.take(w as int));
        assert(before + word@.take(0) =~= before);
        while j < n
            invariant
                n == word@.len(),
                j <= n,
                vocab@ == singles(distinct(before + word@.take(j as int))),
            decreases n - j,
        {
            let c = String::from_str(word.substring_char(j, j + 1));
            let ghost ch = word@[j as int];
            let ghost cs = before + word@.take(j as int);
            let ghost cs1 = before + word@.take(j + 1);
            assert(c@ =~= seq![ch]);
            assert(cs1.drop_last() =~= cs);
            assert(cs1.last() == ch);
            let ghost d = distinct(cs);
            proof {
                lemma_lookup(vocab@, c@);
                if d.contains(ch) {
                    let k = choose|k: int| 0 <= k < d.len() && d[k] == ch;
                    assert(vocab@[k] == c@);
                } else {
                    assert forall|i: int| 0 <= i < vocab@.len() implies vocab@[i] != c@ by {
                        if vocab@[i] == c@ {
                            assert(vocab@[i][0] == d[i]);
                        }
                    }
                }
            }
            if vocab.id_of(&c).is_none() {
                vocab.insert(c);
                assert(vocab@ =~= singles(distinct(cs1)));
            }
            j += 1;
        }
        proof {
            assert(word@.take(n as int) =~= word@);
            lemma_all_chars_take(ws, w as int);
        }
        w += 1;
    }
    assert(ws.take(w as int) =~= ws);
    vocab
}

/// Splits each word into one-character tokens, tagged with the word's
/// position. Returns `None` when a character has no vocabulary entry.
pub fn words_to_tokens(words: &[&str], vocab: &Vocab) -> (r: Option<Vec<Token>>)
    ensures
        r is Some <==> all_known(word_seqs(words@), vocab@),
        r is Some ==> views(r->Some_0@) == tokenize(word_seqs(words@), vocab@),
{
    broadcast use lemma_views_push;

    let ghost ws = word_seqs(words@);
    let ghost v = vocab@;
    let mut out: Vec<Token> = Vec::new();
    let mut w: usize = 0;
    assert(views(out@) =~= tokenize(ws.take(0), v));
    while w < words.len()
        invariant
            w <= words.len(),
            ws == word_seqs(words@),
            v == vocab@,
            views(out@) == tokenize(ws.take(w as int), v),
            forall|i: int, j: int|
                0 <= i < w && 0 <= j < ws[i].len() ==> (#[trigger] lookup(v, seq![ws[i][j]])) is Some,
        decreases words.len() - w,
    {
        let word: &str = words[w];
        assert(word@ == ws[w as int]);
        let n = word.unicode_len();
        let mut j: usize = 0;
        let ghost before = tokenize(ws.take(w as int), v);
        let ghost wt = word_tokens(ws[w as int], w as int, v);
        assert(before + wt.take(0) =~= before);
        while j < n
            invariant
                n == word@.len(),
                word@ == ws[w as int],
                wt == word_tokens(ws[w as int], w as int, v),
                v == vocab@,
                j <= n,
                w < words.len(),
                ws == word_seqs(words@),
                views(out@) == before + wt.take(j as int),
                forall|k: int| 0 <= k < j ==> (#[trigger] lookup(v, seq![word@[k]])) is Some,
            decreases n - j,
        {
            let c = String::from_str(word.substring_char(j, j + 1));
            assert(c@ =~= seq![word@[j as int]]);
            match vocab.id_of(&c) {
                None => {
                    assert(lookup(v, seq![ws[w as int][j as int]]) is None);
                    assert(!all_known(ws, v));
                    return None;
                },
                Some(id) => {
                    proof {
                        lemma_lookup(v, c@);
                    }
                    let t = Token { slice: c, tok_id: id, word_id: w };
                    assert(t@ == wt[j as int]);
                    out.push(t);
                    assert(before + wt.take(j + 1) =~= (before + wt.take(j as int)).push(wt[j as int]));
                },
            }
            j += 1;
        }
        proof {
            assert(wt.take(n as int) =~= wt);
            lemma_tokenize_take(ws, v, w as int);
        }
        w += 1;
    }
    assert(ws.take(w as int) =~= ws);
    Some(out)
}

} // verus!
