use super::{
    lemma_encoding_keeps_all_occurrences, lemma_foreign_element_never_occurs,
    lemma_occurrence_comes_first, lemma_occurrence_elements, lemma_occurrences_past_end,
    lemma_occurrences_skip,
    occurrences_from, occurs_at, search_offsets, Matcher, Matches,
};
use crate::utils::alphabet::{is_alphabet_of, lemma_alphabet_size};
use crate::utils::{CharacterTrait, Str, StrMapper, StrMappers};
use vstd::prelude::*;

verus! {

/// Compares `p` against the window of `x` that starts at `at`, character by
/// character, and stops at the first mismatch.
pub fn occurs_here<Char: CharacterTrait>(x: &Str<Char>, p: &Str<Char>, at: usize) -> (r: bool)
    requires
        at + p@.len() <= x@.len(),
    ensures
        r == occurs_at(x@, p@, at as int),
{
    let n = x.len();
    let m = p.len();
    proof {
        lemma_occurrence_elements(x@, p@, at as int);
    }
    let mut t: usize = 0;
    while t < m
        invariant
            n == x@.len(),
            m == p@.len(),
            at + m <= n,
            t <= m,
            forall|u: int| 0 <= u < t ==> #[trigger] p@[u] == x@[at + u],
        decreases m - t,
    {
        if p[t].to_usize() != x[at + t].to_usize() {
            assert(p@[t as int] != x@[at + t]);
            return false;
        }
        t += 1;
    }
    true
}

/// The brute-force matcher: it tries every offset in turn.
pub struct NaiveSearch<Char: CharacterTrait> {
    x: Str<Char>,
    p: Str<Char>,
    i: usize,
}

impl<Char: CharacterTrait> NaiveSearch<Char> {
    #[verifier::type_invariant]
    spec fn wf(&self) -> bool {
        &&& self.p@.len() > 0
        &&& self.i <= self.x@.len()
    }

    /// The codes of the text that is searched.
    pub closed spec fn text(&self) -> Seq<nat> {
        self.x@
    }

    /// The codes of the pattern that is searched for.
    pub closed spec fn pattern(&self) -> Seq<nat> {
        self.p@
    }

    /// The scan index: the first offset that has not been tried.
    pub closed spec fn position(&self) -> int {
        self.i as int
    }

    /// A matcher that reports every occurrence of `p` in `x`.
    pub fn new(x: Str<Char>, p: Str<Char>) -> (s: Self)
        requires
            p@.len() > 0,
        ensures
            s.text() == x@,
            s.pattern() == p@,
            s.position() == 0,
    {
        NaiveSearch { x, p, i: 0 }
    }
}

impl<Char: CharacterTrait> Matcher for NaiveSearch<Char> {
    open spec fn pending(&self) -> Seq<int> {
        occurrences_from(self.text(), self.pattern(), self.position())
    }

    /// Tries the offsets from the scan index on. After a hit the index
    /// stands one behind it; where nothing is left it stays where it was.
    /// Text and pattern are never touched.
    fn next(&mut self) -> (r: Option<usize>)
        ensures
            final(self).text() == old(self).text(),
            final(self).pattern() == old(self).pattern(),
            match r {
                Some(s) => final(self).position() == s + 1,
                None => final(self).position() == old(self).position(),
            },
    {
        proof {
            use_type_invariant(&*self);
        }
        let n = self.x.len();
        let m = self.p.len();
        if m > n {
            proof {
                lemma_occurrences_past_end(self.x@, self.p@, self.i as int);
            }
            return None;
        }
        let mut j = self.i;
        while j <= n - m
            invariant
                *self == *old(self),
                n == self.x@.len(),
                m == self.p@.len(),
                0 < m <= n,
                self.i <= j <= n,
                forall|s: int| self.i <= s < j ==> !occurs_at(self.x@, self.p@, s),
            decreases n - j,
        {
            if occurs_here(&self.x, &self.p, j) {
                proof {
                    lemma_occurrences_skip(self.x@, self.p@, self.i as int, j as int);
                    lemma_occurrence_comes_first(self.x@, self.p@, j as int);
                }
                self.i = j + 1;
                return Some(j);
            }
            j += 1;
        }
        proof {
            lemma_occurrences_skip(self.x@, self.p@, self.i as int, j as int);
            lemma_occurrences_past_end(self.x@, self.p@, j as int);
        }
        None
    }
}

/// Encodes the text and the pattern and sets a naive matcher on them. There
/// is none where the pattern cannot occur: where it is longer than the text,
/// or holds a character that the text lacks.
fn naive_impl<Char: CharacterTrait>(x: &str, p: &str, mapper: StrMapper<Char>) -> (r: Option<
    NaiveSearch<Char>,
>)
    requires
        p@.len() > 0,
        is_alphabet_of(mapper.symbols(), x@),
        mapper.symbols().len() <= Char::max(),
    ensures
        match r {
            Some(search) => search.pending() == occurrences_from(x@, p@, 0),
            None => occurrences_from(x@, p@, 0) == Seq::<int>::empty(),
        },
{
    let ghost alphabet = mapper.symbols();
    let text = match mapper.map_str(x) {
        Ok(text) => text,
        Err(_) => {
            return None;
        },
    };
    let pattern = match mapper.map_str(p) {
        Ok(pattern) => pattern,
        Err(_) => {
            proof {
                let i = choose|i: int| 0 <= i < p@.len() && !alphabet.contains(p@[i]);
                lemma_foreign_element_never_occurs(x@, p@, i, 0);
            }
            return None;
        },
    };
    if text.len() < pattern.len() {
        proof {
            lemma_occurrences_past_end(x@, p@, 0);
        }
        return None;
    }
    proof {
        lemma_encoding_keeps_all_occurrences(alphabet, x@, p@, 0);
    }
    Some(NaiveSearch::new(text, pattern))
}

/// Returns the starting indices of occurrences of the pattern `p` in the
/// text `x` using the naive string matching algorithm.
///
/// The naive algorithm checks for the pattern `p` at every position in the text
/// `x` from `0` to `n - m`, where `n` is the length of the text and `m` is the
/// length of the pattern. It compares the substring of `x` starting at each
/// position with `p` to find matches.
///
/// The algorithm runs in worst time O((n - m + 1) * m) and best time O(n - m + 1),
/// where `n` is the length of the text and `m` is the length of the pattern.
///
/// The indices count characters. They come lazily, in ascending order, from
/// the matcher that is returned.
pub fn naive(x: &str, p: &str) -> (r: Matches<NaiveSearch<u8>, NaiveSearch<u16>>)
    ensures
        r.pending() == search_offsets(x@, p@),
{
    if x.is_empty() || p.is_empty() {
        proof {
            lemma_occurrences_past_end(x@, p@, 0);
        }
        return Matches::Empty;
    }
    let mappers = StrMappers::new_from_str(x);
    proof {
        if mappers is Ok {
            lemma_alphabet_size(mappers->Ok_0.symbols(), x@);
        }
    }
    let found = match mappers {
        Ok(StrMappers::U8Mapper(mapper)) => match naive_impl(x, p, mapper) {
            Some(search) => Matches::U8(search),
            None => Matches::Empty,
        },
        Ok(StrMappers::U16Mapper(mapper)) => match naive_impl(x, p, mapper) {
            Some(search) => Matches::U16(search),
            None => Matches::Empty,
        },
        Err(_) => Matches::Empty,
    };
    found
}

} // verus!
