use super::{
    disjoint_occurrences_from, disjoint_search_offsets, lemma_disjoint_occurrences_skip,
    lemma_encoding_keeps_all_occurrences, lemma_foreign_element_never_occurs,
    lemma_occurrence_comes_first, lemma_occurrence_elements, occurs_at, Matcher, Matches,
};
use crate::utils::alphabet::{is_alphabet_of, lemma_alphabet_size};
use crate::utils::{CharacterTrait, Str, StrMapper, StrMappers};
use vstd::prelude::*;

verus! {

/// `d` is the shift that the code `c` allows for the pattern `p`: the
/// distance from the rightmost occurrence of `c` in `p`, its last position
/// left aside, to the end of `p`; the whole length of `p` where `c` does not
/// occur there.
pub open spec fn is_bad_char_shift(p: Seq<nat>, c: nat, d: int) -> bool {
    &&& 1 <= d <= p.len()
    &&& d < p.len() ==> p[p.len() - 1 - d] == c
    &&& forall|e: int| 1 <= e < d ==> #[trigger] p[p.len() - 1 - e] != c
}

/// `table` is the bad-character table of `p` for codes up to `size`.
pub open spec fn is_bad_char_table(p: Seq<nat>, size: nat, table: Seq<usize>) -> bool {
    &&& table.len() == size + 1
    &&& forall|c: int| 0 <= c <= size ==> is_bad_char_shift(p, c as nat, #[trigger] table[c] as int)
}

/// A window of `x` that ends in the code `c`, and where `p` may or may not
/// occur, is followed by no occurrence of `p` closer than the shift of `c`.
pub proof fn lemma_bad_char_shift_is_safe(p: Seq<nat>, x: Seq<nat>, i: int, d: int, s: int)
    requires
        p.len() > 0,
        0 <= i,
        i + p.len() <= x.len(),
        is_bad_char_shift(p, x[i + p.len() - 1], d),
        i < s < i + d,
    ensures
        !occurs_at(x, p, s),
{
    if occurs_at(x, p, s) {
        let e = s - i;
        let t = p.len() - 1 - e;
        lemma_occurrence_elements(x, p, s);
        assert(p[t] == x[s + t]);
        assert(p[p.len() - 1 - e] != x[i + p.len() - 1]);
    }
}

/// Builds the bad-character table of the Boyer-Moore-Horspool matcher: one
/// shift for each code of the pattern's alphabet, and one for the sentinel.
pub fn build_bad_char_table<Char: CharacterTrait>(p: &Str<Char>) -> (table: Vec<usize>)
    requires
        p@.len() > 0,
    ensures
        is_bad_char_table(p@, p.symbols().len(), table@),
{
    proof {
        use_type_invariant(p);
        p.lemma_wf_codes();
    }
    let m = p.len();
    let size = p.alphabet().len();
    let mut bad_char_table: Vec<usize> = vec![m; size + 1];
    let mut i: usize = 0;
    while i < m - 1
        invariant
            m == p@.len(),
            m > 0,
            i <= m - 1,
            size == p.symbols().len(),
            bad_char_table@.len() == size + 1,
            crate::utils::str::codes_within(p@, size as nat),
            forall|c: int|
                0 <= c <= size ==> {
                    let d = #[trigger] bad_char_table@[c] as int;
                    &&& m - i <= d <= m
                    &&& d < m ==> p@[m - 1 - d] == c
                    &&& forall|e: int| m - i <= e < d ==> #[trigger] p@[m - 1 - e] != c
                },
        decreases m - i,
    {
        let c = p[i].to_usize();
        bad_char_table.set(c, m - i - 1);
        i += 1;
    }
    bad_char_table
}

/// The Boyer-Moore-Horspool matcher: it compares a window from its last
/// character backward and shifts by the bad-character table. After a match
/// it goes on behind the match, so occurrences that overlap a reported one
/// are not reported.
pub struct BMHSearch<Char: CharacterTrait> {
    x: Str<Char>,
    p: Str<Char>,
    i: usize,
    bad_char_table: Vec<usize>,
}

impl<Char: CharacterTrait> BMHSearch<Char> {
    #[verifier::type_invariant]
    spec fn wf(&self) -> bool {
        &&& self.p@.len() > 0
        &&& self.i <= self.x@.len()
        &&& self.x.symbols() == self.p.symbols()
        &&& is_bad_char_table(self.p@, self.p.symbols().len(), self.bad_char_table@)
    }

    /// The codes of the text that is searched.
    pub closed spec fn text(&self) -> Seq<nat> {
        self.x@
    }

    /// The codes of the pattern that is searched for.
    pub closed spec fn pattern(&self) -> Seq<nat> {
        self.p@
    }

    /// The bad-character table of the pattern.
    pub closed spec fn table(&self) -> Seq<usize> {
        self.bad_char_table@
    }

    /// The scan index: the start of the next window.
    pub closed spec fn position(&self) -> int {
        self.i as int
    }

    /// A matcher that reports the occurrences of `p` in `x` from left to
    /// right, each one behind the end of the one before.
    pub fn new(x: Str<Char>, p: Str<Char>) -> (s: Self)
        requires
            p@.len() > 0,
            x.symbols() == p.symbols(),
        ensures
            s.text() == x@,
            s.pattern() == p@,
            s.position() == 0,
            is_bad_char_table(p@, p.symbols().len(), s.table()),
    {
        let bad_char_table = build_bad_char_table(&p);
        BMHSearch { x, p, i: 0, bad_char_table }
    }
}

impl<Char: CharacterTrait> Matcher for BMHSearch<Char> {
    open spec fn pending(&self) -> Seq<int> {
        disjoint_occurrences_from(self.text(), self.pattern(), self.position())
    }

    /// Shifts the window from the scan index on. After a hit the index
    /// stands just behind the match; where nothing is left it stands past
    /// the last window. Text, pattern and table are never touched, and the
    /// index never goes back.
    fn next(&mut self) -> (r: Option<usize>)
        ensures
            final(self).text() == old(self).text(),
            final(self).pattern() == old(self).pattern(),
            final(self).table() == old(self).table(),
            old(self).position() <= final(self).position() <= old(self).text().len(),
            match r {
                Some(s) => final(self).position() == s + old(self).pattern().len(),
                None => final(self).position() + old(self).pattern().len() > old(
                    self,
                ).text().len(),
            },
    {
        proof {
            use_type_invariant(&*self);
            use_type_invariant(&self.x);
            self.x.lemma_wf_codes();
        }
        let n = self.x.len();
        let m = self.p.len();
        if m > n {
            return None;
        }
        let mut i = self.i;
        while i <= n - m
            invariant
                *self == *old(self),
                n == self.x@.len(),
                m == self.p@.len(),
                0 < m <= n,
                self.i <= i <= n,
                crate::utils::str::codes_within(self.x@, self.x.symbols().len()),
                self.x.symbols() == self.p.symbols(),
                is_bad_char_table(self.p@, self.p.symbols().len(), self.bad_char_table@),
                disjoint_occurrences_from(self.x@, self.p@, self.i as int)
                    == disjoint_occurrences_from(self.x@, self.p@, i as int),
            decreases n - i,
        {
            let mut k = m - 1;
            while k > 0 && self.p[k].to_usize() == self.x[i + k].to_usize()
                invariant
                    *self == *old(self),
                    n == self.x@.len(),
                    m == self.p@.len(),
                    i + m <= n,
                    k < m,
                    forall|t: int| k < t < m ==> #[trigger] self.p@[t] == self.x@[i + t],
                decreases k,
            {
                k -= 1;
            }
            if k == 0 && self.p[0].to_usize() == self.x[i].to_usize() {
                let hit = i;
                proof {
                    assert(occurs_at(self.x@, self.p@, hit as int)) by {
                        lemma_occurrence_elements(self.x@, self.p@, hit as int);
                        assert forall|t: int| 0 <= t < m implies #[trigger] self.p@[t]
                            == self.x@[hit + t] by {
                            if t == 0 {
                                assert(self.p@[0] == self.x@[i as int]);
                            }
                        }
                    }
                    lemma_occurrence_comes_first(self.x@, self.p@, hit as int);
                }
                self.i = i + m;
                return Some(hit);
            }
            let last = self.x[i + m - 1].to_usize();
            let jump = self.bad_char_table[last];
            proof {
                let p = self.p@;
                let x = self.x@;
                assert(!occurs_at(x, p, i as int)) by {
                    if occurs_at(x, p, i as int) {
                        lemma_occurrence_elements(x, p, i as int);
                        assert(p[k as int] == x[i + k]);
                        if k == 0 {
                            assert(self.p@[0] == self.x@[i as int]);
                        }
                    }
                }
                assert(is_bad_char_shift(p, last as nat, jump as int));
                assert forall|s: int| i <= s < i + jump implies !occurs_at(x, p, s) by {
                    if s > i {
                        lemma_bad_char_shift_is_safe(p, x, i as int, jump as int, s);
                    }
                }
                lemma_disjoint_occurrences_skip(x, p, i as int, i + jump);
            }
            i += jump;
        }
        self.i = i;
        None
    }
}

/// Encodes the text and the pattern and sets a matcher on them. There is
/// none where the pattern cannot occur: where it is longer than the text, or
/// holds a character that the text lacks.
fn bmh_impl<Char: CharacterTrait>(x: &str, p: &str, mapper: StrMapper<Char>) -> (r: Option<
    BMHSearch<Char>,
>)
    requires
        p@.len() > 0,
        is_alphabet_of(mapper.symbols(), x@),
        mapper.symbols().len() <= Char::max(),
    ensures
        match r {
            Some(search) => search.pending() == disjoint_occurrences_from(x@, p@, 0),
            None => disjoint_occurrences_from(x@, p@, 0) == Seq::<int>::empty(),
        },
{
    let ghost alphabet = mapper.symbols();
    let text = match mapper.map_str(x) {
        Ok(text) => text,
        Err(_) => {
            return None;
        },
    };
    let pattern = match mapper.map_str(p) {
        Ok(pattern) => pattern,
        Err(_) => {
            proof {
                let i = choose|i: int| 0 <= i < p@.len() && !alphabet.contains(p@[i]);
                lemma_foreign_element_never_occurs(x@, p@, i, 0);
            }
            return None;
        },
    };
    if text.len() < pattern.len() {
        return None;
    }
    proof {
        lemma_encoding_keeps_all_occurrences(alphabet, x@, p@, 0);
    }
    Some(BMHSearch::new(text, pattern))
}

/// Returns the starting indices of occurrences of the pattern `p` in the
/// text `x` using the Boyer-Moore-Horspool string matching algorithm.
///
/// The algorithm compares the pattern against a window of the text from the
/// last character backward. On a mismatch it shifts the window by what the
/// bad-character table holds for the last character of the window; after a
/// match it shifts it by the length of the pattern, so that of occurrences
/// which overlap only the first is reported.
///
/// The indices count characters. They come lazily, in ascending order, from
/// the matcher that is returned.
pub fn bmh(x: &str, p: &str) -> (r: Matches<BMHSearch<u8>, BMHSearch<u16>>)
    ensures
        r.pending() == disjoint_search_offsets(x@, p@),
{
    if x.is_empty() || p.is_empty() {
        return Matches::Empty;
    }
    let mappers = StrMappers::new_from_str(x);
    proof {
        if mappers is Ok {
            lemma_alphabet_size(mappers->Ok_0.symbols(), x@);
        }
    }
    let found = match mappers {
        Ok(StrMappers::U8Mapper(mapper)) => match bmh_impl(x, p, mapper) {
            Some(search) => Matches::U8(search),
            None => Matches::Empty,
        },
        Ok(StrMappers::U16Mapper(mapper)) => match bmh_impl(x, p, mapper) {
            Some(search) => Matches::U16(search),
            None => Matches::Empty,
        },
        Err(_) => Matches::Empty,
    };
    found
}

} // verus!
