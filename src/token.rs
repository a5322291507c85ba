//! Tokens: occurrences of a text fragment inside one source word.

use vstd::prelude::*;

verus! {

/// One occurrence of a fragment of a word: its text, the vocabulary
/// identifier it maps to, and the index of the word it belongs to.
#[derive(Clone, Debug)]
pub struct Token {
    pub slice: String,
    pub tok_id: usize,
    pub word_id: usize,
}

/// The mathematical value of a token.
pub struct TokenView {
    pub slice: Seq<char>,
    pub tok_id: usize,
    pub word_id: usize,
}

impl View for Token {
    type V = TokenView;

    open spec fn view(&self) -> TokenView {
        TokenView { slice: self.slice@, tok_id: self.tok_id, word_id: self.word_id }
    }
}

/// The values of a sequence of tokens.
pub open spec fn views(ts: Seq<Token>) -> Seq<TokenView> {
    ts.map_values(|t: Token| t@)
}

/// Every character of a token stream, in order, tagged with the word it
/// belongs to.
pub open spec fn flat(ts: Seq<TokenView>) -> Seq<(char, usize)>
    decreases ts.len(),
{
    if ts.len() == 0 {
        Seq::empty()
    } else {
        let t = ts.last();
        flat(ts.drop_last()) + t.slice.map_values(|c: char| (c, t.word_id))
    }
}

/// No two neighbouring tokens belong to the same word: nothing is left to merge.
pub open spec fn pair_free(ts: Seq<TokenView>) -> bool {
    forall|i: int| 0 <= i < ts.len() - 1 ==> #[trigger] ts[i].word_id != ts[i + 1].word_id
}

pub broadcast proof fn lemma_views_push(ts: Seq<Token>, t: Token)
    ensures
        #[trigger] views(ts.push(t)) == views(ts).push(t@),
{
    assert(views(ts.push(t)) =~= views(ts).push(t@));
}

impl Token {
    /// A copy of this token.
    pub fn duplicate(&self) -> (r: Token)
        ensures
            r@ == self@,
    {
        Token { slice: self.slice.clone(), tok_id: self.tok_id, word_id: self.word_id }
    }
}

} // verus!
