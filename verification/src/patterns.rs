use crate::utils::{CharacterTrait, Str};
use vstd::prelude::*;

verus! {

/// The first `k` elements of `p` are the `k` elements of `x` that end just
/// before position `end`.
pub open spec fn prefix_ends_at<A>(p: Seq<A>, k: int, x: Seq<A>, end: int) -> bool {
    &&& 0 <= k <= p.len()
    &&& k <= end <= x.len()
    &&& p.subrange(0, k) == x.subrange(end - k, end)
}

/// The first `n` elements of `p` begin and end with the same `k` elements,
/// where `k < n`: they have a border of length `k`.
pub open spec fn is_border<A>(p: Seq<A>, n: int, k: int) -> bool {
    k < n && prefix_ends_at(p, k, p, n)
}

/// `k` is the length of the longest border of the first `n` elements of `p`.
pub open spec fn is_longest_border<A>(p: Seq<A>, n: int, k: int) -> bool {
    &&& is_border(p, n, k)
    &&& forall|j: int| is_border(p, n, j) ==> j <= k
}

/// `b` is the border array of `p`: `b[i]` is the length of the longest proper
/// prefix of `p[0..=i]` that is also a suffix of it.
pub open spec fn is_border_array<A>(p: Seq<A>, b: Seq<usize>) -> bool {
    &&& b.len() == p.len()
    &&& forall|i: int| 0 <= i < p.len() ==> is_longest_border(p, i + 1, #[trigger] b[i] as int)
}

/// A border of the first `n` elements of `p` is strict when the element after
/// it differs from the element after the `n`: a scan that failed on `p[n]`
/// need not try `p[k]`. The empty border is strict, and at the end of `p`
/// every border is.
pub open spec fn is_strict_border<A>(p: Seq<A>, n: int, k: int) -> bool {
    &&& is_border(p, n, k)
    &&& k == 0 || n >= p.len() || p[k] != p[n]
}

/// `k` is the length of the longest strict border of the first `n` elements of `p`.
pub open spec fn is_longest_strict_border<A>(p: Seq<A>, n: int, k: int) -> bool {
    &&& is_strict_border(p, n, k)
    &&& forall|j: int| is_strict_border(p, n, j) ==> j <= k
}

/// `b` is the strict border array of `p`.
pub open spec fn is_strict_border_array<A>(p: Seq<A>, b: Seq<usize>) -> bool {
    &&& b.len() == p.len()
    &&& forall|i: int|
        0 <= i < p.len() ==> is_longest_strict_border(p, i + 1, #[trigger] b[i] as int)
}

/// The empty prefix ends everywhere.
pub proof fn lemma_empty_prefix_ends_everywhere<A>(p: Seq<A>, x: Seq<A>, end: int)
    requires
        0 <= end <= x.len(),
    ensures
        prefix_ends_at(p, 0, x, end),
{
    assert(p.subrange(0, 0) =~= x.subrange(end, end));
}

/// Where a prefix of `p` ends in `x`, its borders end there too.
pub proof fn lemma_border_ends_where_prefix_ends<A>(p: Seq<A>, x: Seq<A>, end: int, k: int, b: int)
    requires
        prefix_ends_at(p, k, x, end),
        prefix_ends_at(p, b, p, k),
    ensures
        prefix_ends_at(p, b, x, end),
{
    let long = p.subrange(0, k);
    assert(p.subrange(k - b, k) =~= long.subrange(k - b, k));
    assert(x.subrange(end - b, end) =~= x.subrange(end - k, end).subrange(k - b, k));
}

/// Of two prefixes of `p` that end at the same place, the shorter one is a
/// border of the longer one.
pub proof fn lemma_shorter_prefix_is_border<A>(p: Seq<A>, x: Seq<A>, end: int, k: int, b: int)
    requires
        prefix_ends_at(p, k, x, end),
        prefix_ends_at(p, b, x, end),
        b <= k,
    ensures
        prefix_ends_at(p, b, p, k),
{
    let long = p.subrange(0, k);
    assert(p.subrange(k - b, k) =~= long.subrange(k - b, k));
    assert(x.subrange(end - b, end) =~= x.subrange(end - k, end).subrange(k - b, k));
}

/// A prefix that ends before `end` grows by one element when `x[end]` is the
/// element that follows it in `p`.
pub proof fn lemma_prefix_extends<A>(p: Seq<A>, x: Seq<A>, end: int, k: int)
    requires
        prefix_ends_at(p, k, x, end),
        k < p.len(),
        end < x.len(),
        p[k] == x[end],
    ensures
        prefix_ends_at(p, k + 1, x, end + 1),
{
    assert(p.subrange(0, k + 1) =~= p.subrange(0, k).push(p[k]));
    assert(x.subrange(end - k, end + 1) =~= x.subrange(end - k, end).push(x[end]));
}

/// A non-empty prefix that ends before `end + 1` is a prefix that ends before
/// `end`, followed by `x[end]`.
pub proof fn lemma_prefix_shrinks<A>(p: Seq<A>, x: Seq<A>, end: int, k: int)
    requires
        prefix_ends_at(p, k + 1, x, end + 1),
        k >= 0,
    ensures
        prefix_ends_at(p, k, x, end),
        p[k] == x[end],
{
    let head = p.subrange(0, k + 1);
    let tail = x.subrange(end - k, end + 1);
    assert(p.subrange(0, k) =~= head.subrange(0, k));
    assert(x.subrange(end - k, end) =~= tail.subrange(0, k));
    assert(head[k] == p[k]);
    assert(tail[k] == x[end]);
}

/// The entries of a border array stay below their positions: `b[i] <= i`, and
/// `b[0]` is zero.
pub proof fn lemma_border_array_bounds<A>(p: Seq<A>, b: Seq<usize>)
    requires
        is_border_array(p, b),
    ensures
        forall|i: int| 0 <= i < p.len() ==> #[trigger] b[i] <= i,
{
    assert forall|i: int| 0 <= i < p.len() implies #[trigger] b[i] <= i by {
        assert(is_longest_border(p, i + 1, b[i] as int));
    }
}

/// A pattern has one border array only.
pub proof fn lemma_border_array_is_unique<A>(p: Seq<A>, a: Seq<usize>, b: Seq<usize>)
    requires
        is_border_array(p, a),
        is_border_array(p, b),
    ensures
        a == b,
{
    assert forall|i: int| 0 <= i < p.len() implies a[i] == b[i] by {
        assert(is_longest_border(p, i + 1, a[i] as int));
        assert(is_longest_border(p, i + 1, b[i] as int));
    }
    assert(a =~= b);
}

/// One step back in a scan. The first `j` elements of `p` end before `end`
/// in `x`, `x[end]` does not follow them in `p`, and it follows none of the
/// longer prefixes below `bound` that end there. Let `shorter` be a border of
/// those `j` elements such that every longer border of them is followed by
/// `p[j]`. Then `shorter` takes the place of `j`.
pub proof fn lemma_fall_back<A>(p: Seq<A>, x: Seq<A>, end: int, j: int, shorter: int, bound: int)
    requires
        prefix_ends_at(p, j, x, end),
        is_border(p, j, shorter),
        j < bound <= p.len(),
        end < x.len(),
        p[j] != x[end],
        forall|k: int| shorter < k && is_border(p, j, k) ==> p[k] == p[j],
        forall|k: int| j < k < bound && prefix_ends_at(p, k, x, end) ==> p[k] != x[end],
    ensures
        prefix_ends_at(p, shorter, x, end),
        forall|k: int| shorter < k < bound && prefix_ends_at(p, k, x, end) ==> p[k] != x[end],
{
    lemma_border_ends_where_prefix_ends(p, x, end, j, shorter);
    assert forall|k: int| shorter < k < bound && prefix_ends_at(p, k, x, end) implies p[k]
        != x[end] by {
        if k < j {
            lemma_shorter_prefix_is_border(p, x, end, j, k);
            assert(is_border(p, j, k));
        }
    }
}

/// One step forward in a scan. The first `j` elements of `p` end before
/// `end` in `x`, and `x[end]` follows none of the longer prefixes below
/// `bound` that end there. Then the longest prefix that ends before
/// `next = end + 1` has `reached` elements: `j + 1` where `x[end]` follows
/// the `j`, and none where `j` is zero and `x[end]` is not the first element
/// of `p`.
pub proof fn lemma_step_forward<A>(
    p: Seq<A>,
    x: Seq<A>,
    end: int,
    j: int,
    bound: int,
    next: int,
    reached: int,
)
    requires
        prefix_ends_at(p, j, x, end),
        j < bound <= p.len(),
        end < x.len(),
        j == 0 || p[j] == x[end],
        forall|k: int| j < k < bound && prefix_ends_at(p, k, x, end) ==> p[k] != x[end],
        next == end + 1,
        reached == if p[j] == x[end] {
            j + 1
        } else {
            0
        },
    ensures
        prefix_ends_at(p, reached, x, next),
        forall|k: int| reached < k <= bound ==> !prefix_ends_at(p, k, x, next),
{
    if p[j] == x[end] {
        lemma_prefix_extends(p, x, end, j);
    } else {
        lemma_empty_prefix_ends_everywhere(p, x, next);
    }
    assert forall|k: int| reached < k <= bound implies !prefix_ends_at(p, k, x, next) by {
        if prefix_ends_at(p, k, x, next) {
            lemma_prefix_shrinks(p, x, end, k - 1);
            assert(prefix_ends_at(p, k - 1, x, end));
            assert(p[k - 1] == x[end]);
        }
    }
}

/// Computes the border array for the given pattern `p`.
///
/// The border array is an array where the value at each index `i` is the length
/// of the longest proper prefix of the substring `p[0..=i]` which is also a
/// suffix of this substring.
///
/// The algorithm runs in O(m) time, where `m` is the length of the pattern.
pub fn border_array<Char: CharacterTrait>(p: &Str<Char>) -> (ba: Vec<usize>)
    ensures
        is_border_array(p@, ba@),
{
    let m = p.len();
    let mut ba: Vec<usize> = vec![0; m];
    if m == 0 {
        return ba;
    }
    proof {
        lemma_empty_prefix_ends_everywhere(p@, p@, 1);
    }
    let mut j: usize = 0;
    let mut i: usize = 1;
    while i < m
        invariant
            m == p@.len(),
            ba@.len() == m,
            1 <= i <= m,
            j == ba@[i - 1],
            forall|n: int| 0 <= n < i ==> is_longest_border(p@, n + 1, #[trigger] ba@[n] as int),
        decreases m - i,
    {
        proof {
            assert(is_longest_border(p@, i as int, j as int));
            assert forall|k: int| j < k < i && prefix_ends_at(p@, k, p@, i as int) implies p@[k]
                != p@[i as int] by {
                assert(is_border(p@, i as int, k));
            }
        }
        while j > 0 && p[i].to_usize() != p[j].to_usize()
            invariant
                m == p@.len(),
                ba@.len() == m,
                1 <= i < m,
                j < i,
                prefix_ends_at(p@, j as int, p@, i as int),
                forall|k: int|
                    j < k < i && prefix_ends_at(p@, k, p@, i as int) ==> p@[k] != p@[i as int],
                forall|n: int|
                    0 <= n < i ==> is_longest_border(p@, n + 1, #[trigger] ba@[n] as int),
            decreases j,
        {
            let shorter = ba[j - 1];
            proof {
                assert(is_longest_border(p@, j as int, shorter as int));
                lemma_fall_back(p@, p@, i as int, j as int, shorter as int, i as int);
            }
            j = shorter;
        }
        let ghost tried = j as int;
        if p[i].to_usize() == p[j].to_usize() {
            j += 1;
        }
        proof {
            let n = i + 1;
            lemma_step_forward(p@, p@, i as int, tried, i as int, n, j as int);
            assert(is_border(p@, n, j as int));
            assert forall|k: int| is_border(p@, n, k) implies k <= j by {
                if k > j {
                    assert(!prefix_ends_at(p@, k, p@, n));
                }
            }
        }
        ba.set(i, j);
        i += 1;
    }
    ba
}

/// No entry of the strict border array exceeds that of the border array.
pub proof fn lemma_strict_border_array_dominated<A>(
    p: Seq<A>,
    strict: Seq<usize>,
    borders: Seq<usize>,
)
    requires
        is_strict_border_array(p, strict),
        is_border_array(p, borders),
    ensures
        forall|i: int| 0 <= i < p.len() ==> #[trigger] strict[i] <= borders[i],
{
    assert forall|i: int| 0 <= i < p.len() implies #[trigger] strict[i] <= borders[i] by {
        assert(is_longest_strict_border(p, i + 1, strict[i] as int));
        assert(is_longest_border(p, i + 1, borders[i] as int));
    }
}

/// At the end of the pattern every border is strict, so the two arrays end
/// with the same entry: the length of the longest border of the pattern.
pub proof fn lemma_last_entries_agree<A>(p: Seq<A>, strict: Seq<usize>, borders: Seq<usize>)
    requires
        p.len() > 0,
        is_strict_border_array(p, strict),
        is_border_array(p, borders),
    ensures
        strict[p.len() - 1] == borders[p.len() - 1],
{
    let last = p.len() - 1;
    let n = p.len() as int;
    assert(is_longest_strict_border(p, last + 1, strict[last] as int));
    assert(is_longest_border(p, last + 1, borders[last] as int));
    assert(is_strict_border(p, n, borders[last] as int));
    assert(is_border(p, n, strict[last] as int));
}

/// Where the element after the longest border of the first `n` elements is
/// the element after the `n`, the strict borders of the `n` elements are
/// those of the border.
pub proof fn lemma_strict_border_chases<A>(p: Seq<A>, n: int, b: int, shorter: int)
    requires
        is_longest_border(p, n, b),
        b > 0,
        n < p.len(),
        p[b] == p[n],
        is_longest_strict_border(p, b, shorter),
    ensures
        is_longest_strict_border(p, n, shorter),
{
    lemma_border_ends_where_prefix_ends(p, p, n, b, shorter);
    assert forall|k: int| is_strict_border(p, n, k) implies k <= shorter by {
        assert(is_border(p, n, k));
        assert(k <= b);
        lemma_shorter_prefix_is_border(p, p, n, b, k);
        assert(is_strict_border(p, b, k));
    }
}

/// Computes the strict border array for the given pattern `p`.
///
/// The strict border array `ba` is an array where the value at each index `i`
/// is the length of the longest proper prefix of the substring `p[0..=i]`
/// which is also a suffix of this substring, with the additional constraint
/// that `p[ba[i]] != p[i+1]` unless `ba[i]` is zero or `i` is the last index.
///
/// The algorithm runs in O(m) time, where `m` is the length of the pattern.
pub fn strict_border_array<Char: CharacterTrait>(p: &Str<Char>) -> (ba: Vec<usize>)
    ensures
        is_strict_border_array(p@, ba@),
{
    let mut ba = border_array(p);
    let m = ba.len();
    if m == 0 {
        return ba;
    }
    let ghost borders = ba@;
    let mut j: usize = 1;
    while j < m - 1
        invariant
            m == p@.len(),
            m >= 1,
            ba@.len() == m,
            1 <= j,
            is_border_array(p@, borders),
            forall|n: int|
                0 <= n < j && n < m ==> is_longest_strict_border(
                    p@,
                    n + 1,
                    #[trigger] ba@[n] as int,
                ),
            forall|n: int| j <= n < m ==> #[trigger] ba@[n] == borders[n],
        decreases m - j,
    {
        let b = ba[j];
        proof {
            assert(is_longest_border(p@, j + 1, borders[j as int] as int));
        }
        if b > 0 && p[b].to_usize() == p[j + 1].to_usize() {
            let shorter = ba[b - 1];
            proof {
                assert(is_longest_strict_border(p@, b as int, shorter as int));
                lemma_strict_border_chases(p@, j + 1, b as int, shorter as int);
            }
            ba.set(j, shorter);
        }
        j += 1;
    }
    proof {
        assert(is_longest_border(p@, 1, borders[0] as int));
        assert(is_longest_border(p@, m as int, borders[m - 1] as int));
    }
    ba
}

} // verus!
