use super::{
    lemma_encoding_keeps_all_occurrences, lemma_foreign_element_never_occurs,
    lemma_occurrence_comes_first, lemma_occurrence_is_whole_prefix, lemma_occurrences_past_end,
    lemma_occurrences_skip, occurrences_from, search_offsets, Matcher, Matches,
};
use crate::patterns::{
    is_border, is_longest_strict_border, is_strict_border, is_strict_border_array,
    lemma_border_ends_where_prefix_ends, lemma_empty_prefix_ends_everywhere, lemma_fall_back,
    lemma_shorter_prefix_is_border,
    lemma_step_forward, prefix_ends_at, strict_border_array,
};
use crate::utils::alphabet::{is_alphabet_of, lemma_alphabet_size};
use crate::utils::{CharacterTrait, Str, StrMapper, StrMappers};
use vstd::prelude::*;

verus! {

/// `j` is the length of the longest prefix of `p`, shorter than `bound`, that
/// ends in `x` just before position `i`.
pub open spec fn is_longest_prefix_ending_at<A>(
    p: Seq<A>,
    x: Seq<A>,
    i: int,
    j: int,
    bound: int,
) -> bool {
    &&& j < bound
    &&& prefix_ends_at(p, j, x, i)
    &&& forall|k: int| j < k < bound ==> !prefix_ends_at(p, k, x, i)
}

/// After a match that ends before `end`, the scan goes on with the longest
/// border of the pattern: it is the longest prefix, short of the whole
/// pattern, that ends there.
proof fn lemma_restart_after_match<A>(p: Seq<A>, x: Seq<A>, end: int, border: int)
    requires
        prefix_ends_at(p, p.len() as int, x, end),
        is_longest_strict_border(p, p.len() as int, border),
    ensures
        is_longest_prefix_ending_at(p, x, end, border, p.len() as int),
{
    let m = p.len() as int;
    lemma_border_ends_where_prefix_ends(p, x, end, m, border);
    assert forall|k: int| border < k < m implies !prefix_ends_at(p, k, x, end) by {
        if prefix_ends_at(p, k, x, end) {
            lemma_shorter_prefix_is_border(p, x, end, m, k);
            assert(is_strict_border(p, m, k));
        }
    }
}

/// Where a scan stands. The two indices move together, so they are kept and
/// replaced as one value.
struct Cursor {
    /// The current index in the string
    x_index: usize,
    /// The current index in the pattern
    p_index: usize,
}

/// The Knuth-Morris-Pratt matcher: it reads each character of the text once
/// and falls back along the strict borders of the pattern on a mismatch.
pub struct KMPSearch<Char: CharacterTrait> {
    /// The string we are searching in
    x: Str<Char>,
    /// The pattern we are searching for
    p: Str<Char>,
    /// The strict border array of the pattern
    ba: Vec<usize>,
    /// The position of the scan
    cursor: Cursor,
}

impl<Char: CharacterTrait> KMPSearch<Char> {
    #[verifier::type_invariant]
    spec fn wf(&self) -> bool {
        &&& self.p@.len() > 0
        &&& is_strict_border_array(self.p@, self.ba@)
        &&& self.cursor.x_index <= self.x@.len()
        &&& is_longest_prefix_ending_at(
            self.p@,
            self.x@,
            self.cursor.x_index as int,
            self.cursor.p_index as int,
            self.p@.len() as int,
        )
    }

    /// The codes of the text that is searched.
    pub closed spec fn text(&self) -> Seq<nat> {
        self.x@
    }

    /// The codes of the pattern that is searched for.
    pub closed spec fn pattern(&self) -> Seq<nat> {
        self.p@
    }

    /// The strict border array that the scan falls back along.
    pub closed spec fn borders(&self) -> Seq<usize> {
        self.ba@
    }

    /// The text index: the characters before it have been read.
    pub closed spec fn text_index(&self) -> int {
        self.cursor.x_index as int
    }

    /// The pattern index: the length of the prefix of the pattern that is
    /// matched at the text index.
    pub closed spec fn pattern_index(&self) -> int {
        self.cursor.p_index as int
    }

    /// A matcher that reports every occurrence of `p` in `x`, given the
    /// strict border array `ba` of `p`.
    pub fn new(x: Str<Char>, p: Str<Char>, ba: Vec<usize>) -> (s: Self)
        requires
            p@.len() > 0,
            is_strict_border_array(p@, ba@),
        ensures
            s.text() == x@,
            s.pattern() == p@,
            s.borders() == ba@,
            s.text_index() == 0,
            s.pattern_index() == 0,
            s.pending() == occurrences_from(x@, p@, 0),
    {
        proof {
            lemma_occurrences_skip(x@, p@, 1 - p@.len(), 0);
            lemma_empty_prefix_ends_everywhere(p@, x@, 0);
        }
        KMPSearch { x, p, ba, cursor: Cursor { x_index: 0, p_index: 0 } }
    }
}

impl<Char: CharacterTrait> Matcher for KMPSearch<Char> {
    /// The occurrences that end behind the text index.
    open spec fn pending(&self) -> Seq<int> {
        occurrences_from(
            self.text(),
            self.pattern(),
            self.text_index() - self.pattern().len() + 1,
        )
    }

    /// Reads on from the text index. After a hit the text index stands
    /// behind the match and the pattern index is the last entry of the
    /// border array; where nothing is left the text index stands at the end
    /// of the text, and a further request moves nothing. Text, pattern and
    /// border array are never touched, and the text index never goes back.
    fn next(&mut self) -> (r: Option<usize>)
        ensures
            final(self).text() == old(self).text(),
            final(self).pattern() == old(self).pattern(),
            final(self).borders() == old(self).borders(),
            old(self).text_index() <= final(self).text_index(),
            0 <= final(self).pattern_index() < old(self).pattern().len(),
            match r {
                Some(s) => {
                    &&& final(self).text_index() == s + old(self).pattern().len()
                    &&& final(self).pattern_index() == old(self).borders()[old(
                        self,
                    ).pattern().len() - 1]
                },
                None => final(self).text_index() == old(self).text().len(),
            },
            old(self).text_index() == old(self).text().len() ==> final(self).pattern_index()
                == old(self).pattern_index(),
    {
        proof {
            use_type_invariant(&*self);
        }
        let n = self.x.len();
        let m = self.p.len();
        let mut i = self.cursor.x_index;
        let mut j = self.cursor.p_index;
        while i < n
            invariant
                *self == *old(self),
                n == self.x@.len(),
                m == self.p@.len(),
                m > 0,
                self.cursor.x_index <= i <= n,
                i == self.cursor.x_index ==> j == self.cursor.p_index,
                is_strict_border_array(self.p@, self.ba@),
                is_longest_prefix_ending_at(self.p@, self.x@, i as int, j as int, m as int),
                occurrences_from(self.x@, self.p@, self.cursor.x_index - m + 1) == occurrences_from(
                    self.x@,
                    self.p@,
                    i - m + 1,
                ),
            decreases n - i,
        {
            // Shift pattern until it matches the border
            while j > 0 && self.x[i].to_usize() != self.p[j].to_usize()
                invariant
                    *self == *old(self),
                    n == self.x@.len(),
                    m == self.p@.len(),
                    i < n,
                    j < m,
                    is_strict_border_array(self.p@, self.ba@),
                    prefix_ends_at(self.p@, j as int, self.x@, i as int),
                    forall|k: int|
                        j < k < m && prefix_ends_at(self.p@, k, self.x@, i as int) ==> self.p@[k]
                            != self.x@[i as int],
                decreases j,
            {
                let shorter = self.ba[j - 1];
                proof {
                    let p = self.p@;
                    assert(is_longest_strict_border(p, j as int, shorter as int));
                    assert forall|k: int| shorter < k && is_border(p, j as int, k) implies p[k]
                        == p[j as int] by {
                        assert(!is_strict_border(p, j as int, k));
                    }
                    lemma_fall_back(p, self.x@, i as int, j as int, shorter as int, m as int);
                }
                j = shorter;
            }

            // Move one step forward (if we can)
            let ghost tried = j as int;
            if self.x[i].to_usize() == self.p[j].to_usize() {
                j += 1;
            }
            proof {
                lemma_step_forward(self.p@, self.x@, i as int, tried, m as int, i + 1, j as int);
            }

            // Move to the next position (saving it for the next call to next)
            i += 1;

            // Return if a match was found
            proof {
                lemma_occurrence_is_whole_prefix(self.x@, self.p@, i - m, i as int);
            }
            if j == m {
                let hit = i - m;
                j = self.ba[j - 1];
                proof {
                    assert(is_longest_strict_border(self.p@, m as int, j as int));
                    lemma_restart_after_match(self.p@, self.x@, i as int, j as int);
                    lemma_occurrence_comes_first(self.x@, self.p@, hit as int);
                }
                self.cursor = Cursor { x_index: i, p_index: j };
                return Some(hit);
            }
            proof {
                lemma_occurrences_skip(self.x@, self.p@, i - m, i - m + 1);
            }
        }
        proof {
            lemma_occurrences_past_end(self.x@, self.p@, i - m + 1);
        }
        self.cursor = Cursor { x_index: i, p_index: j };
        None
    }
}

/// Returns the starting indices of occurrences of the pattern `p` in the
/// text `x` using the Knuth-Morris-Pratt (KMP) string matching algorithm.
///
/// The KMP algorithm uses the border array to efficiently find occurrences of
/// the pattern `p` in the text `x`. It shifts the pattern according to the
/// border array to avoid unnecessary comparisons.
///
/// The algorithm runs in O(n + m) time, where `n` is the length of the text, and
/// `m` is the length of the pattern.
///
/// The indices count characters. They come lazily, in ascending order, from
/// the matcher that is returned.
pub fn kmp(x: &str, p: &str) -> (r: Matches<KMPSearch<u8>, KMPSearch<u16>>)
    ensures
        r.pending() == search_offsets(x@, p@),
{
    if x.is_empty() || p.is_empty() {
        proof {
            lemma_occurrences_past_end(x@, p@, 0);
        }
        return Matches::Empty;
    }
    let mappers = StrMappers::new_from_str(x);
    proof {
        if mappers is Ok {
            lemma_alphabet_size(mappers->Ok_0.symbols(), x@);
        }
    }
    let found = match mappers {
        Ok(StrMappers::U8Mapper(mapper)) => match kmp_impl(x, p, mapper) {
            Some(search) => Matches::U8(search),
            None => Matches::Empty,
        },
        Ok(StrMappers::U16Mapper(mapper)) => match kmp_impl(x, p, mapper) {
            Some(search) => Matches::U16(search),
            None => Matches::Empty,
        },
        Err(_) => Matches::Empty,
    };
    found
}

/// Encodes the text and the pattern, builds the strict border array of the
/// pattern and sets a matcher on them. There is none where the pattern
/// cannot occur: where it is longer than the text, or holds a character that
/// the text lacks.
fn kmp_impl<Char: CharacterTrait>(x: &str, p: &str, mapper: StrMapper<Char>) -> (r: Option<
    KMPSearch<Char>,
>)
    requires
        p@.len() > 0,
        is_alphabet_of(mapper.symbols(), x@),
        mapper.symbols().len() <= Char::max(),
    ensures
        match r {
            Some(search) => search.pending() == occurrences_from(x@, p@, 0),
            None => occurrences_from(x@, p@, 0) == Seq::<int>::empty(),
        },
{
    let ghost alphabet = mapper.symbols();
    let text = match mapper.map_str(x) {
        Ok(text) => text,
        Err(_) => {
            return None;
        },
    };
    let pattern = match mapper.map_str(p) {
        Ok(pattern) => pattern,
        Err(_) => {
            proof {
                let i = choose|i: int| 0 <= i < p@.len() && !alphabet.contains(p@[i]);
                lemma_foreign_element_never_occurs(x@, p@, i, 0);
            }
            return None;
        },
    };
    if text.len() < pattern.len() {
        proof {
            lemma_occurrences_past_end(x@, p@, 0);
        }
        return None;
    }
    proof {
        lemma_encoding_keeps_all_occurrences(alphabet, x@, p@, 0);
    }
    let ba = strict_border_array(&pattern);
    Some(KMPSearch::new(text, pattern, ba))
}

} // verus!
