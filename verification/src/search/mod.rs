pub mod bmh;
pub mod kmp;
pub mod naive;

pub use bmh::{bmh, BMHSearch};
pub use kmp::{kmp, KMPSearch};
pub use naive::{naive, NaiveSearch};

use crate::patterns::{
    is_border, is_longest_border, lemma_shorter_prefix_is_border, prefix_ends_at,
};
use crate::utils::alphabet::{encodable, encoding, lemma_code_of_injective};
use crate::utils::CharSize;
use vstd::prelude::*;

verus! {

/// `p` occurs in `x` at offset `s`.
pub open spec fn occurs_at<A>(x: Seq<A>, p: Seq<A>, s: int) -> bool {
    &&& 0 <= s
    &&& s + p.len() <= x.len()
    &&& x.subrange(s, s + p.len()) == p
}

/// An occurrence, element by element.
pub proof fn lemma_occurrence_elements<A>(x: Seq<A>, p: Seq<A>, s: int)
    requires
        0 <= s,
        s + p.len() <= x.len(),
    ensures
        occurs_at(x, p, s) <==> forall|t: int| 0 <= t < p.len() ==> #[trigger] p[t] == x[s + t],
{
    let window = x.subrange(s, s + p.len());
    if occurs_at(x, p, s) {
        assert forall|t: int| 0 <= t < p.len() implies #[trigger] p[t] == x[s + t] by {
            assert(window[t] == x[s + t]);
        }
    }
    if forall|t: int| 0 <= t < p.len() ==> #[trigger] p[t] == x[s + t] {
        assert forall|t: int| 0 <= t < p.len() implies window[t] == p[t] by {
            assert(p[t] == x[s + t]);
        }
        assert(window =~= p);
    }
}

/// Every offset at or after `from` at which `p` occurs in `x`, in ascending
/// order.
pub open spec fn occurrences_from<A>(x: Seq<A>, p: Seq<A>, from: int) -> Seq<int>
    decreases x.len() - from + 1,
{
    if from > x.len() - p.len() {
        Seq::empty()
    } else if occurs_at(x, p, from) {
        seq![from] + occurrences_from(x, p, from + 1)
    } else {
        occurrences_from(x, p, from + 1)
    }
}

/// The offsets at or after `from` that a scan reports which, after each
/// occurrence, goes on behind its end: the leftmost occurrence, then the
/// leftmost one that does not overlap it, and so on.
pub open spec fn disjoint_occurrences_from<A>(x: Seq<A>, p: Seq<A>, from: int) -> Seq<int>
    decreases x.len() - from,
{
    if p.len() == 0 || from > x.len() - p.len() {
        Seq::empty()
    } else if occurs_at(x, p, from) {
        seq![from] + disjoint_occurrences_from(x, p, from + p.len())
    } else {
        disjoint_occurrences_from(x, p, from + 1)
    }
}

/// `p` occurs at `s` where, and only where, the whole of `p` ends before
/// `end = s + |p|`.
pub proof fn lemma_occurrence_is_whole_prefix<A>(x: Seq<A>, p: Seq<A>, s: int, end: int)
    requires
        end == s + p.len(),
    ensures
        occurs_at(x, p, s) <==> prefix_ends_at(p, p.len() as int, x, end),
{
    assert(p.subrange(0, p.len() as int) =~= p);
}

/// An occurrence at `from` is the first of the occurrences from `from` on;
/// those behind it follow.
pub proof fn lemma_occurrence_comes_first<A>(x: Seq<A>, p: Seq<A>, from: int)
    requires
        occurs_at(x, p, from),
    ensures
        occurrences_from(x, p, from).len() > 0,
        occurrences_from(x, p, from)[0] == from,
        occurrences_from(x, p, from).drop_first() == occurrences_from(x, p, from + 1),
        p.len() > 0 ==> {
            &&& disjoint_occurrences_from(x, p, from).len() > 0
            &&& disjoint_occurrences_from(x, p, from)[0] == from
            &&& disjoint_occurrences_from(x, p, from).drop_first() == disjoint_occurrences_from(
                x,
                p,
                from + p.len(),
            )
        },
{
    assert(occurrences_from(x, p, from) == seq![from] + occurrences_from(x, p, from + 1));
    assert((seq![from] + occurrences_from(x, p, from + 1)).drop_first() == occurrences_from(
        x,
        p,
        from + 1,
    ));
    if p.len() > 0 {
        let later = disjoint_occurrences_from(x, p, from + p.len());
        assert(disjoint_occurrences_from(x, p, from) == seq![from] + later);
        assert((seq![from] + later).drop_first() == later);
    }
}

/// Where `p` occurs nowhere from `from` up to `to`, the occurrences from
/// `from` on are those from `to` on.
pub proof fn lemma_occurrences_skip<A>(x: Seq<A>, p: Seq<A>, from: int, to: int)
    requires
        from <= to,
        forall|s: int| from <= s < to ==> !occurs_at(x, p, s),
    ensures
        occurrences_from(x, p, from) == occurrences_from(x, p, to),
    decreases to - from,
{
    if from < to {
        lemma_occurrences_skip(x, p, from + 1, to);
        lemma_occurrences_past_end(x, p, to);
    }
}

/// Behind the last place where `p` fits there are no occurrences.
pub proof fn lemma_occurrences_past_end<A>(x: Seq<A>, p: Seq<A>, from: int)
    ensures
        from > x.len() - p.len() ==> occurrences_from(x, p, from) == Seq::<int>::empty(),
{
}

/// The same for a scan that steps over each occurrence.
pub proof fn lemma_disjoint_occurrences_skip<A>(x: Seq<A>, p: Seq<A>, from: int, to: int)
    requires
        from <= to,
        forall|s: int| from <= s < to ==> !occurs_at(x, p, s),
    ensures
        disjoint_occurrences_from(x, p, from) == disjoint_occurrences_from(x, p, to),
    decreases to - from,
{
    if from < to {
        lemma_disjoint_occurrences_skip(x, p, from + 1, to);
    }
}

/// `occurrences_from` lists exactly the occurrences at or after `from`, and
/// lists them in ascending order.
pub proof fn lemma_occurrences_from_lists_all<A>(x: Seq<A>, p: Seq<A>, from: int)
    ensures
        forall|s: int| #[trigger]
            occurrences_from(x, p, from).contains(s) <==> from <= s && occurs_at(x, p, s),
        forall|i: int, j: int|
            0 <= i < j < occurrences_from(x, p, from).len() ==> occurrences_from(x, p, from)[i]
                < occurrences_from(x, p, from)[j],
    decreases x.len() - from + 1,
{
    let all = occurrences_from(x, p, from);
    if from > x.len() - p.len() {
        assert forall|s: int| #[trigger] all.contains(s) <==> from <= s && occurs_at(x, p, s) by {
        }
    } else {
        let rest = occurrences_from(x, p, from + 1);
        lemma_occurrences_from_lists_all(x, p, from + 1);
        if occurs_at(x, p, from) {
            assert(all == seq![from] + rest);
            assert forall|s: int| #[trigger] all.contains(s) <==> from <= s && occurs_at(
                x,
                p,
                s,
            ) by {
                if all.contains(s) {
                    let i = choose|i: int| 0 <= i < all.len() && all[i] == s;
                    if i > 0 {
                        assert(rest[i - 1] == s);
                        assert(rest.contains(s));
                    }
                }
                if from <= s && occurs_at(x, p, s) {
                    if s == from {
                        assert(all[0] == s);
                    } else {
                        assert(rest.contains(s));
                        let i = choose|i: int| 0 <= i < rest.len() && rest[i] == s;
                        assert(all[i + 1] == s);
                    }
                }
            }
            assert forall|i: int, j: int| 0 <= i < j < all.len() implies all[i] < all[j] by {
                assert(rest[j - 1] == all[j]);
                assert(rest.contains(all[j]));
                if i > 0 {
                    assert(rest[i - 1] == all[i]);
                }
            }
        } else {
            assert(all == rest);
            assert forall|s: int| #[trigger] all.contains(s) <==> from <= s && occurs_at(
                x,
                p,
                s,
            ) by {
            }
        }
    }
}

/// What the naive and the Knuth-Morris-Pratt search report for the text `x`
/// and the pattern `p`: every offset, counted in characters, at which `p`
/// occurs in `x`, in ascending order. An empty pattern is found nowhere, and
/// nothing is found in a text with more distinct characters than the widest
/// code type can index.
pub open spec fn search_offsets(x: Seq<char>, p: Seq<char>) -> Seq<int> {
    if p.len() == 0 || CharSize::for_alphabet_size(x.to_set().len()) is None {
        Seq::empty()
    } else {
        occurrences_from(x, p, 0)
    }
}

/// What the Boyer-Moore-Horspool search reports for the text `x` and the
/// pattern `p`: the leftmost occurrence, then the leftmost one behind its
/// end, and so on. The exceptions are those of [`search_offsets`].
pub open spec fn disjoint_search_offsets(x: Seq<char>, p: Seq<char>) -> Seq<int> {
    if p.len() == 0 || CharSize::for_alphabet_size(x.to_set().len()) is None {
        Seq::empty()
    } else {
        disjoint_occurrences_from(x, p, 0)
    }
}

/// A pattern occurs in a text where, and only where, its codes occur in the
/// codes of the text.
pub proof fn lemma_encoding_keeps_occurrences(
    alphabet: Seq<char>,
    x: Seq<char>,
    p: Seq<char>,
    s: int,
)
    requires
        encodable(alphabet, x),
        encodable(alphabet, p),
    ensures
        occurs_at(encoding(alphabet, x), encoding(alphabet, p), s) <==> occurs_at(x, p, s),
{
    let ex = encoding(alphabet, x);
    let ep = encoding(alphabet, p);
    if 0 <= s && s + p.len() <= x.len() {
        lemma_occurrence_elements(x, p, s);
        lemma_occurrence_elements(ex, ep, s);
        if occurs_at(ex, ep, s) {
            assert forall|t: int| 0 <= t < p.len() implies #[trigger] p[t] == x[s + t] by {
                assert(ep[t] == ex[s + t]);
                assert(alphabet.contains(p[t]));
                assert(alphabet.contains(x[s + t]));
                lemma_code_of_injective(alphabet, p[t], x[s + t]);
            }
        }
        if occurs_at(x, p, s) {
            assert forall|t: int| 0 <= t < ep.len() implies #[trigger] ep[t] == ex[s + t] by {
                assert(p[t] == x[s + t]);
            }
        }
    }
}

/// The codes of a pattern occur in the codes of a text at the offsets at
/// which the pattern occurs in the text.
pub proof fn lemma_encoding_keeps_all_occurrences(
    alphabet: Seq<char>,
    x: Seq<char>,
    p: Seq<char>,
    from: int,
)
    requires
        encodable(alphabet, x),
        encodable(alphabet, p),
    ensures
        occurrences_from(encoding(alphabet, x), encoding(alphabet, p), from) == occurrences_from(
            x,
            p,
            from,
        ),
        disjoint_occurrences_from(encoding(alphabet, x), encoding(alphabet, p), from)
            == disjoint_occurrences_from(x, p, from),
    decreases x.len() - from + 1,
{
    lemma_encoding_keeps_occurrences(alphabet, x, p, from);
    if from <= x.len() - p.len() {
        lemma_encoding_keeps_all_occurrences(alphabet, x, p, from + 1);
        if p.len() > 0 {
            lemma_encoding_keeps_all_occurrences(alphabet, x, p, from + p.len());
        }
    }
}

/// A pattern that is longer than the text is found nowhere in it.
pub proof fn lemma_longer_pattern_is_not_found(x: Seq<char>, p: Seq<char>)
    requires
        p.len() > x.len(),
    ensures
        search_offsets(x, p) == Seq::<int>::empty(),
        disjoint_search_offsets(x, p) == Seq::<int>::empty(),
{
}

/// A pattern never occurs in a text that lacks one of its elements.
pub proof fn lemma_foreign_element_never_occurs<A>(x: Seq<A>, p: Seq<A>, i: int, from: int)
    requires
        0 <= i < p.len(),
        !x.contains(p[i]),
    ensures
        occurrences_from(x, p, from) == Seq::<int>::empty(),
        disjoint_occurrences_from(x, p, from) == Seq::<int>::empty(),
    decreases x.len() - from + 1,
{
    if from <= x.len() - p.len() {
        if occurs_at(x, p, from) {
            assert(x.subrange(from, from + p.len())[i] == x[from + i]);
            assert(x.contains(p[i]));
        }
        lemma_foreign_element_never_occurs(x, p, i, from + 1);
    }
}

/// A pattern with a character that the text lacks is found nowhere in it.
pub proof fn lemma_foreign_character_is_not_found(x: Seq<char>, p: Seq<char>, i: int)
    requires
        0 <= i < p.len(),
        !x.contains(p[i]),
    ensures
        search_offsets(x, p) == Seq::<int>::empty(),
        disjoint_search_offsets(x, p) == Seq::<int>::empty(),
{
    lemma_foreign_element_never_occurs(x, p, i, 0);
}

/// Two occurrences of a pattern that overlap show a border of the pattern.
pub proof fn lemma_overlap_is_border<A>(x: Seq<A>, p: Seq<A>, s: int, later: int)
    requires
        occurs_at(x, p, s),
        occurs_at(x, p, later),
        s < later < s + p.len(),
    ensures
        is_border(p, p.len() as int, s + p.len() - later),
{
    let m = p.len() as int;
    let k = s + m - later;
    let end = s + m;
    lemma_occurrence_is_whole_prefix(x, p, s, end);
    assert(prefix_ends_at(p, k, x, end)) by {
        assert(p.subrange(0, k) =~= x.subrange(later, later + m).subrange(0, k));
        assert(x.subrange(end - k, end) =~= x.subrange(later, later + m).subrange(0, k));
    }
    lemma_shorter_prefix_is_border(p, x, end, m, k);
}

/// Where the pattern has no border but the empty one, no two of its
/// occurrences overlap, and a scan that steps over each occurrence misses
/// none.
pub proof fn lemma_disjoint_is_all_without_border<A>(x: Seq<A>, p: Seq<A>, from: int)
    requires
        p.len() > 0,
        is_longest_border(p, p.len() as int, 0),
    ensures
        disjoint_occurrences_from(x, p, from) == occurrences_from(x, p, from),
    decreases x.len() - from + 1,
{
    if from <= x.len() - p.len() {
        lemma_disjoint_is_all_without_border(x, p, from + 1);
        if occurs_at(x, p, from) {
            let end = from + p.len();
            assert forall|s: int| from + 1 <= s < end implies !occurs_at(x, p, s) by {
                if occurs_at(x, p, s) {
                    lemma_overlap_is_border(x, p, from, s);
                }
            }
            lemma_occurrences_skip(x, p, from + 1, end);
            lemma_disjoint_is_all_without_border(x, p, end);
        }
    }
}

/// The naive and the Knuth-Morris-Pratt search agree on every text and
/// pattern, as both report [`search_offsets`]; the Boyer-Moore-Horspool
/// search agrees with them where the pattern has no border but the empty
/// one.
pub proof fn lemma_searches_agree(
    x: Seq<char>,
    p: Seq<char>,
    by_naive: Seq<int>,
    by_kmp: Seq<int>,
    by_bmh: Seq<int>,
)
    requires
        by_naive == search_offsets(x, p),
        by_kmp == search_offsets(x, p),
        by_bmh == disjoint_search_offsets(x, p),
    ensures
        by_naive == by_kmp,
        p.len() > 0 && is_longest_border(p, p.len() as int, 0) ==> by_bmh == by_kmp,
{
    if p.len() > 0 && is_longest_border(p, p.len() as int, 0) {
        lemma_disjoint_is_all_without_border(x, p, 0);
    }
}

/// A cursor over the offsets at which a pattern occurs in a text.
///
/// The offsets come lazily, one per call of [`Matcher::next`], in ascending
/// order; once the cursor is exhausted, further calls yield no more results.
pub trait Matcher: Sized {
    /// The offsets that the cursor has yet to report, in the order in which
    /// it will report them.
    spec fn pending(&self) -> Seq<int>;

    /// Reports the next offset, or `None` when none is left.
    fn next(&mut self) -> (r: Option<usize>)
        ensures
            match r {
                Some(s) => {
                    &&& old(self).pending().len() > 0
                    &&& s == old(self).pending()[0]
                    &&& final(self).pending() == old(self).pending().drop_first()
                },
                None => old(self).pending().len() == 0 && final(self).pending().len() == 0,
            },
    ;
}

/// The offsets of a search whose code width was chosen at run time: a
/// matcher over 8-bit codes, one over 16-bit codes, or nothing to report.
pub enum Matches<N: Matcher, W: Matcher> {
    /// Nothing to report.
    Empty,
    /// A search over 8-bit codes.
    U8(N),
    /// A search over 16-bit codes.
    U16(W),
}

impl<N: Matcher, W: Matcher> Matcher for Matches<N, W> {
    open spec fn pending(&self) -> Seq<int> {
        match self {
            Matches::Empty => Seq::empty(),
            Matches::U8(matcher) => matcher.pending(),
            Matches::U16(matcher) => matcher.pending(),
        }
    }

    fn next(&mut self) -> (r: Option<usize>) {
        match self {
            Matches::Empty => None,
            Matches::U8(matcher) => matcher.next(),
            Matches::U16(matcher) => matcher.next(),
        }
    }
}

impl<N: Matcher, W: Matcher> Matches<N, W> {
    /// Drives the search to its end and returns every offset it reports.
    pub fn collect(self) -> (offsets: Vec<usize>)
        ensures
            offsets@.len() == self.pending().len(),
            forall|i: int| 0 <= i < offsets@.len() ==> #[trigger] offsets@[i] == self.pending()[i],
    {
        let mut matcher = self;
        let mut offsets: Vec<usize> = Vec::new();
        loop
            invariant
                offsets@.len() + matcher.pending().len() == self.pending().len(),
                forall|i: int| 0 <= i < offsets@.len() ==> #[trigger] offsets@[i] == self.pending()[i],
                forall|i: int|
                    0 <= i < matcher.pending().len() ==> #[trigger] matcher.pending()[i]
                        == self.pending()[offsets@.len() + i],
            ensures
                offsets@.len() == self.pending().len(),
                forall|i: int| 0 <= i < offsets@.len() ==> #[trigger] offsets@[i] == self.pending()[i],
            decreases matcher.pending().len(),
        {
            let ghost before = matcher.pending();
            match matcher.next() {
                Some(offset) => {
                    offsets.push(offset);
                    proof {
                        assert forall|i: int| 0 <= i < matcher.pending().len() implies #[trigger]
                            matcher.pending()[i] == self.pending()[offsets@.len() + i] by {
                            assert(matcher.pending()[i] == before[i + 1]);
                        }
                    }
                },
                None => {
                    break ;
                },
            }
        }
        offsets
    }
}

} // verus!
