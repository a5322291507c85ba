//! The vocabulary table: identifiers are positions, contents are strings.

use vstd::prelude::*;

verus! {

/// The vocabulary: the entry at position `i` is the content of token `i`.
/// Identifiers are therefore dense and never reused.
pub struct Vocab {
    pub entries: Vec<String>,
}

/// The contents of a list of strings.
pub open spec fn contents(v: Seq<String>) -> Seq<Seq<char>> {
    v.map_values(|s: String| s@)
}

impl View for Vocab {
    type V = Seq<Seq<char>>;

    open spec fn view(&self) -> Seq<Seq<char>> {
        contents(self.entries@)
    }
}

/// The identifier that a content maps to: the most recent entry holding it.
pub open spec fn lookup(v: Seq<Seq<char>>, s: Seq<char>) -> Option<int>
    decreases v.len(),
{
    if v.len() == 0 {
        None
    } else if v.last() == s {
        Some(v.len() - 1)
    } else {
        lookup(v.drop_last(), s)
    }
}

pub proof fn lemma_lookup(v: Seq<Seq<char>>, s: Seq<char>)
    ensures
        lookup(v, s) is Some ==> 0 <= lookup(v, s)->Some_0 < v.len() && v[lookup(v, s)->Some_0] == s,
        lookup(v, s) is None <==> forall|i: int| 0 <= i < v.len() ==> v[i] != s,
    decreases v.len(),
{
    if v.len() > 0 {
        lemma_lookup(v.drop_last(), s);
        if v.last() != s {
            assert forall|i: int| 0 <= i < v.len() - 1 implies v[i] == v.drop_last()[i] by {}
        }
    }
}

impl Vocab {
    /// An empty vocabulary.
    pub fn new() -> (r: Vocab)
        ensures
            r@ == Seq::<Seq<char>>::empty(),
    {
        let r = Vocab { entries: Vec::new() };
        assert(r@ =~= Seq::<Seq<char>>::empty());
        r
    }

    /// The number of entries.
    pub fn len(&self) -> (r: usize)
        ensures
            r == self@.len(),
    {
        self.entries.len()
    }

    /// The identifier of `s`, if the vocabulary holds it.
    pub fn id_of(&self, s: &String) -> (r: Option<usize>)
        ensures
            match r {
                Some(i) => lookup(self@, s@) == Some(i as int),
                None => lookup(self@, s@) is None,
            },
    {
        let ghost v = self@;
        let mut i: usize = self.entries.len();
        proof {
            assert(v.take(i as int) =~= v);
        }
        while i > 0
            invariant
                i <= self.entries.len(),
                v == self@,
                lookup(v, s@) == lookup(v.take(i as int), s@),
            decreases i,
        {
            let ghost vi = v.take(i as int);
            assert(vi.last() == self.entries[i - 1]@);
            if self.entries[i - 1] == *s {
                return Some(i - 1);
            }
            assert(vi.drop_last() =~= v.take(i - 1));
            i -= 1;
        }
        None
    }

    /// The content of identifier `id`, if it is in the vocabulary.
    pub fn content_of(&self, id: usize) -> (r: Option<&String>)
        ensures
            match r {
                Some(s) => id < self@.len() && s@ == self@[id as int],
                None => id >= self@.len(),
            },
    {
        if id < self.entries.len() {
            Some(&self.entries[id])
        } else {
            None
        }
    }

    /// Adds `s` as the entry with the next identifier, which is returned.
    pub fn insert(&mut self, s: String) -> (r: usize)
        ensures
            r == old(self)@.len(),
            final(self)@ == old(self)@.push(s@),
    {
        let r = self.entries.len();
        self.entries.push(s);
        assert(self@ =~= old(self)@.push(s@));
        r
    }
}

} // verus!
