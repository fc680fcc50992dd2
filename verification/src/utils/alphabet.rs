use super::char::{CharSize, CharacterTrait};
use std::collections::HashMap;
use std::collections::HashSet;
use vstd::prelude::*;

verus! {

/// Why a text could not be encoded.
#[derive(Debug, PartialEq, Eq, Clone, Copy, Structural)]
pub enum AlphabetError {
    /// The alphabet has more characters than the code type can index.
    AlphabetTooLarge,
    /// The text holds a character that the alphabet lacks.
    UnknownCharacter {
        /// The first such character.
        character: char,
        /// Its position in the text, counted in characters.
        position: usize,
    },
}

/// Every element is smaller than the ones after it.
pub open spec fn strictly_ascending(s: Seq<char>) -> bool {
    forall|i: int, j: int| 0 <= i < j < s.len() ==> s[i] < s[j]
}

/// `alphabet` lists the characters of `source`, each once, in ascending order.
pub open spec fn is_alphabet_of(alphabet: Seq<char>, source: Seq<char>) -> bool {
    &&& strictly_ascending(alphabet)
    &&& forall|c: char| alphabet.contains(c) <==> source.contains(c)
}

/// The code of `c`: one more than its position in `alphabet`, so that `0`
/// stays free for the sentinel.
pub open spec fn code_of(alphabet: Seq<char>, c: char) -> Option<nat> {
    if alphabet.contains(c) {
        Some((alphabet.index_of(c) + 1) as nat)
    } else {
        None
    }
}

/// The codes of `text` under `alphabet`, in order. A character that the
/// alphabet lacks has no code; the sentinel stands in its place.
pub open spec fn encoding(alphabet: Seq<char>, text: Seq<char>) -> Seq<nat> {
    text.map_values(
        |c: char|
            match code_of(alphabet, c) {
                Some(k) => k,
                None => 0,
            },
    )
}

/// `alphabet` holds every character of `text`.
pub open spec fn encodable(alphabet: Seq<char>, text: Seq<char>) -> bool {
    forall|i: int| 0 <= i < text.len() ==> alphabet.contains(#[trigger] text[i])
}

/// `position` is the first place in `text` of a character that `alphabet`
/// lacks.
pub open spec fn is_first_unknown(alphabet: Seq<char>, text: Seq<char>, position: int) -> bool {
    &&& 0 <= position < text.len()
    &&& !alphabet.contains(text[position])
    &&& encodable(alphabet, text.take(position))
}

/// The key under which the index map files a character.
spec fn key_of(c: char) -> u32 {
    c as u32
}

proof fn lemma_key_of_injective(a: char, b: char)
    requires
        key_of(a) == key_of(b),
    ensures
        a == b,
{
}

/// In an ascending alphabet a character has one position only, so its code
/// is the one place where it stands.
pub proof fn lemma_code_of_position(alphabet: Seq<char>, i: int)
    requires
        strictly_ascending(alphabet),
        0 <= i < alphabet.len(),
    ensures
        code_of(alphabet, alphabet[i]) == Some((i + 1) as nat),
{
    let c = alphabet[i];
    assert(alphabet.contains(c));
    let j = alphabet.index_of(c);
    assert(0 <= j < alphabet.len() && alphabet[j] == c);
    if j < i {
        assert(alphabet[j] < alphabet[i]);
    }
    if i < j {
        assert(alphabet[i] < alphabet[j]);
    }
}

/// A code names its character: the alphabet holds `c` at position `code - 1`.
pub proof fn lemma_code_of_names_character(alphabet: Seq<char>, c: char)
    requires
        code_of(alphabet, c) is Some,
    ensures
        1 <= code_of(alphabet, c)->0 <= alphabet.len(),
        alphabet[code_of(alphabet, c)->0 - 1] == c,
{
    let j = alphabet.index_of(c);
    assert(0 <= j < alphabet.len() && alphabet[j] == c);
}

/// Different characters never share a code.
pub proof fn lemma_code_of_injective(alphabet: Seq<char>, a: char, b: char)
    requires
        code_of(alphabet, a) is Some,
        code_of(alphabet, a) == code_of(alphabet, b),
    ensures
        a == b,
{
    lemma_code_of_names_character(alphabet, a);
    lemma_code_of_names_character(alphabet, b);
}

/// A character is a code point, and characters compare as their code points do.
proof fn lemma_code_point(a: char, b: char)
    ensures
        0 <= a as int <= 0x10_FFFF,
        a < b <==> (a as int) < (b as int),
{
}

/// The `i`-th of ascending characters has at least `i` characters below it.
proof fn lemma_ascending_floor(s: Seq<char>, i: int)
    requires
        strictly_ascending(s),
        0 <= i < s.len(),
    ensures
        s[i] as int >= i,
    decreases i,
{
    lemma_code_point(s[i], s[i]);
    if i > 0 {
        lemma_ascending_floor(s, i - 1);
        lemma_code_point(s[i - 1], s[i]);
    }
}

/// There are no more distinct characters than code points.
pub proof fn lemma_ascending_bounded(s: Seq<char>)
    requires
        strictly_ascending(s),
    ensures
        s.len() <= 0x11_0000,
{
    if s.len() > 0 {
        lemma_ascending_floor(s, s.len() - 1);
        lemma_code_point(s.last(), s.last());
    }
}

/// Ascending characters differ from one another.
pub proof fn lemma_ascending_no_duplicates(s: Seq<char>)
    requires
        strictly_ascending(s),
    ensures
        s.no_duplicates(),
{
    assert forall|i: int, j: int| 0 <= i < s.len() && 0 <= j < s.len() && i != j implies s[i]
        != s[j] by {
        if i < j {
            assert(s[i] < s[j]);
        } else {
            assert(s[j] < s[i]);
        }
    }
}

/// A text has one alphabet only.
pub proof fn lemma_alphabet_is_unique(a: Seq<char>, b: Seq<char>, source: Seq<char>)
    requires
        is_alphabet_of(a, source),
        is_alphabet_of(b, source),
    ensures
        a == b,
    decreases a.len(),
{
    if a.len() == 0 {
        if b.len() > 0 {
            assert(b.contains(b[0]));
            assert(a.contains(b[0]));
        }
    } else if b.len() == 0 {
        assert(a.contains(a[0]));
        assert(b.contains(a[0]));
    } else {
        // the largest character of the text ends both
        let la = a.last();
        let lb = b.last();
        assert(a.contains(la));
        assert(b.contains(lb));
        assert(b.contains(la));
        assert(a.contains(lb));
        let ia = a.index_of(lb);
        let ib = b.index_of(la);
        assert(0 <= ia < a.len() && a[ia] == lb);
        assert(0 <= ib < b.len() && b[ib] == la);
        if ia < a.len() - 1 {
            assert(a[ia] < a[a.len() - 1]);
        }
        if ib < b.len() - 1 {
            assert(b[ib] < b[b.len() - 1]);
        }
        assert(la == lb);
        let ra = a.drop_last();
        let rb = b.drop_last();
        assert forall|c: char| ra.contains(c) <==> rb.contains(c) by {
            if ra.contains(c) {
                let i = ra.index_of(c);
                assert(0 <= i < ra.len() && ra[i] == c);
                assert(a[i] == c && a[i] < a[a.len() - 1]);
                assert(a.contains(c));
                assert(b.contains(c));
                let j = b.index_of(c);
                assert(0 <= j < b.len() && b[j] == c);
                assert(rb[j] == c);
            }
            if rb.contains(c) {
                let i = rb.index_of(c);
                assert(0 <= i < rb.len() && rb[i] == c);
                assert(b[i] == c && b[i] < b[b.len() - 1]);
                assert(b.contains(c));
                assert(a.contains(c));
                let j = a.index_of(c);
                assert(0 <= j < a.len() && a[j] == c);
                assert(ra[j] == c);
            }
        }
        assert(is_alphabet_of(ra, ra));
        assert(is_alphabet_of(rb, ra));
        lemma_alphabet_is_unique(ra, rb, ra);
        assert(a =~= ra.push(la));
        assert(b =~= rb.push(lb));
    }
}

/// The alphabet of a text has as many characters as the text has distinct
/// ones.
pub proof fn lemma_alphabet_size(alphabet: Seq<char>, source: Seq<char>)
    requires
        is_alphabet_of(alphabet, source),
    ensures
        alphabet.len() == source.to_set().len(),
{
    lemma_ascending_no_duplicates(alphabet);
    alphabet.unique_seq_to_set();
    assert(alphabet.to_set() =~= source.to_set());
}

/// `c` stands in `s` before position `i`.
spec fn occurs_before(s: Seq<char>, i: int, c: char) -> bool {
    exists|k: int| 0 <= k < i && k < s.len() && s[k] == c
}

proof fn lemma_occurs_before_step(s: Seq<char>, i: int, c: char)
    requires
        0 <= i < s.len(),
    ensures
        occurs_before(s, i + 1, c) <==> occurs_before(s, i, c) || s[i] == c,
{
    if occurs_before(s, i + 1, c) {
        let k = choose|k: int| 0 <= k < i + 1 && k < s.len() && s[k] == c;
        if k < i {
            assert(0 <= k < i && k < s.len() && s[k] == c);
        }
    }
    if occurs_before(s, i, c) {
        let k = choose|k: int| 0 <= k < i && k < s.len() && s[k] == c;
        assert(0 <= k < i + 1 && k < s.len() && s[k] == c);
    }
    if s[i] == c {
        assert(0 <= i < i + 1 && i < s.len() && s[i] == c);
    }
}

proof fn lemma_occurs_before_all(s: Seq<char>, c: char)
    ensures
        occurs_before(s, s.len() as int, c) <==> s.contains(c),
{
    if occurs_before(s, s.len() as int, c) {
        let k = choose|k: int| 0 <= k < s.len() && k < s.len() && s[k] == c;
        assert(s[k] == c);
    }
    if s.contains(c) {
        let k = s.index_of(c);
        assert(0 <= k < s.len() && k < s.len() && s[k] == c);
    }
}

/// `c` stands in one of the first `n` strings.
pub open spec fn occurs_in_some(strings: Seq<&str>, n: int, c: char) -> bool {
    exists|i: int| 0 <= i < n && i < strings.len() && (#[trigger] strings[i])@.contains(c)
}

/// The characters that occur in one of the strings.
pub open spec fn chars_of(strings: Seq<&str>) -> Set<char> {
    Set::new(|c: char| occurs_in_some(strings, strings.len() as int, c))
}

/// An alphabet of some strings has as many characters as the strings have
/// distinct ones.
pub proof fn lemma_alphabet_size_of_strings(alphabet: Seq<char>, strings: Seq<&str>)
    requires
        strictly_ascending(alphabet),
        forall|c: char| alphabet.contains(c) <==> chars_of(strings).contains(c),
    ensures
        chars_of(strings).finite(),
        alphabet.len() == chars_of(strings).len(),
{
    lemma_ascending_no_duplicates(alphabet);
    alphabet.unique_seq_to_set();
    assert(alphabet.to_set() =~= chars_of(strings));
}

proof fn lemma_occurs_in_some_step(strings: Seq<&str>, n: int, c: char)
    requires
        0 <= n < strings.len(),
    ensures
        occurs_in_some(strings, n + 1, c) <==> occurs_in_some(strings, n, c)
            || strings[n]@.contains(c),
{
    if occurs_in_some(strings, n + 1, c) {
        let i = choose|i: int|
            0 <= i < n + 1 && i < strings.len() && (#[trigger] strings[i])@.contains(c);
        if i < n {
            assert(0 <= i < n && i < strings.len() && strings[i]@.contains(c));
        }
    }
    if occurs_in_some(strings, n, c) {
        let i = choose|i: int|
            0 <= i < n && i < strings.len() && (#[trigger] strings[i])@.contains(c);
        assert(0 <= i < n + 1 && i < strings.len() && strings[i]@.contains(c));
    }
    if strings[n]@.contains(c) {
        assert(0 <= n < n + 1 && n < strings.len() && strings[n]@.contains(c));
    }
}

/// `unique` holds, once each, the characters whose keys are in `seen`.
spec fn collects(seen: Set<u32>, unique: Seq<char>) -> bool {
    &&& unique.no_duplicates()
    &&& forall|c: char| unique.contains(c) <==> seen.contains(key_of(c))
}

/// Appends `c` to `unique` unless it is there already, which `seen` tells.
fn push_unseen(seen: &mut HashSet<u32>, unique: &mut Vec<char>, c: char)
    requires
        collects(old(seen)@, old(unique)@),
    ensures
        collects(final(seen)@, final(unique)@),
        forall|d: char| final(unique)@.contains(d) <==> old(unique)@.contains(d) || d == c,
{
    let ghost before = unique@;
    let ghost seen_before = seen@;
    let is_new = seen.insert(c as u32);
    if is_new {
        unique.push(c);
    }
    proof {
        assert(seen@ == seen_before.insert(key_of(c)));
        assert(is_new == !seen_before.contains(key_of(c)));
        assert forall|d: char| unique@.contains(d) <==> before.contains(d) || d == c by {
            if unique@.contains(d) {
                let k = unique@.index_of(d);
                assert(0 <= k < unique@.len() && unique@[k] == d);
                if k < before.len() {
                    assert(before[k] == d);
                }
            }
            if before.contains(d) {
                let k = before.index_of(d);
                assert(0 <= k < before.len() && before[k] == d);
                assert(unique@[k] == d);
            }
            if d == c {
                if is_new {
                    assert(unique@[before.len() as int] == d);
                } else {
                    assert(before.contains(c));
                }
            }
        }
        assert forall|d: char| unique@.contains(d) <==> seen@.contains(key_of(d)) by {
            assert(before.contains(d) <==> seen_before.contains(key_of(d)));
            if key_of(d) == key_of(c) {
                lemma_key_of_injective(d, c);
            }
        }
        assert(unique@.no_duplicates()) by {
            if is_new {
                assert(!before.contains(c));
                assert forall|i: int, j: int|
                    0 <= i < unique@.len() && 0 <= j < unique@.len() && i != j implies unique@[i]
                    != unique@[j] by {
                    if i < before.len() {
                        assert(before[i] == unique@[i]);
                        assert(before.contains(unique@[i]));
                    }
                    if j < before.len() {
                        assert(before[j] == unique@[j]);
                        assert(before.contains(unique@[j]));
                    }
                }
            }
        }
    }
}

/// Sorts the characters in ascending order of their code points.
///
/// This is `sort_unstable` of the standard library, which is taken at its
/// word: afterwards the vector holds the characters it held before, each as
/// often as before, and none of them stands before a smaller one.
#[verifier::external_body]
fn sort_chars(chars: &mut Vec<char>)
    ensures
        final(chars)@.to_multiset() == old(chars)@.to_multiset(),
        forall|i: int, j: int|
            0 <= i <= j < final(chars)@.len() ==> final(chars)@[i] <= final(chars)@[j],
{
    chars.sort_unstable();
}

/// Sorting characters that differ from one another makes an alphabet of them.
proof fn lemma_sorted_distinct_is_alphabet(sorted: Seq<char>, distinct: Seq<char>)
    requires
        distinct.no_duplicates(),
        sorted.to_multiset() == distinct.to_multiset(),
        forall|i: int, j: int| 0 <= i <= j < sorted.len() ==> sorted[i] <= sorted[j],
    ensures
        is_alphabet_of(sorted, distinct),
{
    sorted.to_multiset_ensures();
    distinct.to_multiset_ensures();
    distinct.lemma_multiset_has_no_duplicates();
    sorted.lemma_multiset_has_no_duplicates_conv();
    assert forall|i: int, j: int| 0 <= i < j < sorted.len() implies sorted[i] < sorted[j] by {
        assert(sorted[i] <= sorted[j]);
        assert(sorted[i] != sorted[j]);
    }
    assert forall|c: char| sorted.contains(c) <==> distinct.contains(c) by {
        vstd::seq_lib::to_multiset_contains(sorted, c);
        vstd::seq_lib::to_multiset_contains(distinct, c);
    }
}

/// An alphabet we can have strings over.
///
/// This is predominantly used for mapping UTF-8 str strings to vectors where we have
/// constant time access to the characters, without relying on a Vec<char> which would take
/// up four bytes per character.
#[derive(Debug, PartialEq)]
pub struct Alphabet {
    /// The characters of the alphabet, in ascending order.
    chars: Vec<char>,
    /// Maps the code point of each character to its code.
    indices: HashMap<u32, usize>,
}

impl View for Alphabet {
    type V = Seq<char>;

    /// The characters in the order of their codes: `self@[i]` has code `i + 1`.
    closed spec fn view(&self) -> Seq<char> {
        self.chars@
    }
}

impl Alphabet {
    /// What holds of every alphabet: its characters ascend, and the index map
    /// files each of them, and nothing else, under its code.
    #[verifier::type_invariant]
    pub closed spec fn wf(&self) -> bool {
        &&& strictly_ascending(self.chars@)
        &&& forall|i: int|
            0 <= i < self.chars@.len() ==> self.indices@.contains_key(
                #[trigger] key_of(self.chars@[i]),
            ) && self.indices@[key_of(self.chars@[i])] == i + 1
        &&& forall|k: u32| #[trigger]
            self.indices@.contains_key(k) ==> 1 <= self.indices@[k] <= self.chars@.len() && key_of(
                self.chars@[self.indices@[k] - 1],
            ) == k
    }

    /// The characters of a well-formed alphabet ascend.
    pub proof fn lemma_wf_ascending(&self)
        requires
            self.wf(),
        ensures
            strictly_ascending(self@),
            self@.len() <= 0x11_0000,
    {
        lemma_ascending_bounded(self@);
    }

    /// Files each character under its code.
    fn from_sorted(chars: Vec<char>) -> (a: Alphabet)
        requires
            strictly_ascending(chars@),
        ensures
            a@ == chars@,
    {
        let mut indices: HashMap<u32, usize> = HashMap::with_capacity(chars.len());
        let mut i: usize = 0;
        while i < chars.len()
            invariant
                i <= chars@.len(),
                strictly_ascending(chars@),
                forall|n: int|
                    0 <= n < i ==> indices@.contains_key(#[trigger] key_of(chars@[n]))
                        && indices@[key_of(chars@[n])] == n + 1,
                forall|k: u32| #[trigger]
                    indices@.contains_key(k) ==> 1 <= indices@[k] <= i && key_of(
                        chars@[indices@[k] - 1],
                    ) == k,
            decreases chars@.len() - i,
        {
            let c = chars[i];
            proof {
                assert forall|n: int| 0 <= n < i implies key_of(chars@[n]) != key_of(c) by {
                    if key_of(chars@[n]) == key_of(c) {
                        lemma_key_of_injective(chars@[n], c);
                        assert(chars@[n] < chars@[i as int]);
                    }
                }
            }
            indices.insert(c as u32, i + 1);  // The +1 is to leave room for the sentinel at zero
            i += 1;
        }
        Alphabet { chars, indices }
    }

    /// Creates a new `Alphabet` from a slice of characters.
    ///
    /// The alphabet holds each character of the slice once; the characters
    /// get their codes in ascending order, starting at 1.
    pub fn new(chars: &[char]) -> (a: Alphabet)
        ensures
            is_alphabet_of(a@, chars@),
    {
        // Turn the chars into the unique chars they contain.
        let mut seen: HashSet<u32> = HashSet::new();
        let mut unique: Vec<char> = Vec::new();
        let mut i: usize = 0;
        while i < chars.len()
            invariant
                i <= chars@.len(),
                collects(seen@, unique@),
                forall|c: char| unique@.contains(c) <==> occurs_before(chars@, i as int, c),
            decreases chars@.len() - i,
        {
            push_unseen(&mut seen, &mut unique, chars[i]);
            proof {
                assert forall|c: char| unique@.contains(c) <==> occurs_before(
                    chars@,
                    i + 1,
                    c,
                ) by {
                    lemma_occurs_before_step(chars@, i as int, c);
                }
            }
            i += 1;
        }
        proof {
            assert forall|c: char| unique@.contains(c) <==> chars@.contains(c) by {
                lemma_occurs_before_all(chars@, c);
            }
        }
        let ghost distinct = unique@;
        sort_chars(&mut unique);
        proof {
            lemma_sorted_distinct_is_alphabet(unique@, distinct);
        }
        Alphabet::from_sorted(unique)
    }

    /// Creates a new `Alphabet` from a string.
    ///
    /// The alphabet will contain the characters in the string plus zero as a sentinel.
    pub fn from_str(s: &str) -> (a: Alphabet)
        ensures
            is_alphabet_of(a@, s@),
    {
        let mut chars: Vec<char> = Vec::new();
        for c in it: s.chars()
            invariant
                chars@ == it.seq().take(it.index()),
        {
            chars.push(c);
        }
        assert(chars@ == s@);
        Alphabet::new(chars.as_slice())
    }

    /// Creates a new `Alphabet` from a slice of string slices.
    ///
    /// The alphabet holds every character that occurs in one of the strings,
    /// once, and the characters get their codes in ascending order, starting
    /// at 1 (with zero reserved as a sentinel).
    pub fn from_strs(strings: &[&str]) -> (a: Alphabet)
        ensures
            strictly_ascending(a@),
            forall|c: char| a@.contains(c) <==> chars_of(strings@).contains(c),
    {
        // Making the characters unique here, even though we do it again in
        // Alphabet::new(), just so we don't build a huge Vec<char>.
        let mut chars: Vec<char> = Vec::new();
        let mut seen: HashSet<u32> = HashSet::new();
        let mut n: usize = 0;
        while n < strings.len()
            invariant
                n <= strings@.len(),
                collects(seen@, chars@),
                forall|c: char| chars@.contains(c) <==> occurs_in_some(strings@, n as int, c),
            decreases strings@.len() - n,
        {
            let s = strings[n];
            let ghost before = chars@;
            for c in it: s.chars()
                invariant
                    it.seq() == s@,
                    collects(seen@, chars@),
                    forall|d: char|
                        chars@.contains(d) <==> before.contains(d) || occurs_before(
                            s@,
                            it.index(),
                            d,
                        ),
            {
                let ghost held = chars@;
                push_unseen(&mut seen, &mut chars, c);
                proof {
                    assert forall|d: char|
                        chars@.contains(d) <==> before.contains(d) || occurs_before(
                            s@,
                            it.index() + 1,
                            d,
                        ) by {
                        lemma_occurs_before_step(s@, it.index(), d);
                        assert(held.contains(d) <==> before.contains(d) || occurs_before(
                            s@,
                            it.index(),
                            d,
                        ));
                    }
                }
            }
            proof {
                assert forall|c: char| chars@.contains(c) <==> occurs_in_some(
                    strings@,
                    n + 1,
                    c,
                ) by {
                    lemma_occurs_before_all(s@, c);
                    lemma_occurs_in_some_step(strings@, n as int, c);
                    assert(before.contains(c) <==> occurs_in_some(strings@, n as int, c));
                }
            }
            n += 1;
        }
        Alphabet::new(chars.as_slice())
    }

    /// Checks if the alphabet contains the given character.
    pub fn contains(&self, c: char) -> (r: bool)
        ensures
            r == self@.contains(c),
    {
        self.index(c).is_some()
    }

    /// Returns the index of the given character in the alphabet.
    ///
    /// The index is the character's code: indexing starts at 1, with zero
    /// reserved as a sentinel.
    pub fn index(&self, c: char) -> (r: Option<usize>)
        ensures
            match r {
                Some(k) => code_of(self@, c) == Some(k as nat),
                None => code_of(self@, c) is None,
            },
    {
        proof {
            use_type_invariant(self);
        }
        let key: u32 = c as u32;
        match self.indices.get(&key) {
            Some(k) => {
                proof {
                    lemma_key_of_injective(self.chars@[*k - 1], c);
                    lemma_code_of_position(self@, *k - 1);
                }
                Some(*k)
            },
            None => {
                assert forall|i: int| 0 <= i < self.chars@.len() implies self.chars@[i] != c by {
                    assert(self.indices@.contains_key(key_of(self.chars@[i])));
                }
                None
            },
        }
    }

    /// Returns the number of characters in the alphabet.
    ///
    /// The size of the alphabet does not include the sentinel
    /// character zero.
    pub fn len(&self) -> (n: usize)
        ensures
            n == self@.len(),
    {
        self.chars.len()
    }

    /// Returns the size of characters needed to represent a given string over this alphabet.
    pub fn char_size(&self) -> (r: Result<CharSize, AlphabetError>)
        ensures
            r == match CharSize::for_alphabet_size(self@.len()) {
                Some(width) => Ok::<CharSize, AlphabetError>(width),
                None => Err(AlphabetError::AlphabetTooLarge),
            },
    {
        CharSize::from_alphabet_size(self.len())
    }
}

impl Alphabet {
    /// Maps a Rust built-in character (char) to a character of another type (Char).
    ///
    /// Fails with [`AlphabetError::AlphabetTooLarge`] where `Char` cannot
    /// index the alphabet, and else with
    /// [`AlphabetError::UnknownCharacter`] where the alphabet lacks `c`,
    /// which is then reported at position 0, as the only character looked at.
    pub fn map_char<Char: CharacterTrait>(&self, c: char) -> (r: Result<Char, AlphabetError>)
        ensures
            match r {
                Ok(mapped) => self@.len() <= Char::max() && code_of(self@, c) == Some(mapped.code()),
                Err(AlphabetError::AlphabetTooLarge) => self@.len() > Char::max(),
                Err(AlphabetError::UnknownCharacter { character, position }) => {
                    &&& self@.len() <= Char::max()
                    &&& !self@.contains(c)
                    &&& character == c
                    &&& position == 0
                },
            },
    {
        if self.len() > Char::max() {
            return Err(AlphabetError::AlphabetTooLarge);
        }
        let idx = match self.index(c) {
            None => return Err(AlphabetError::UnknownCharacter { character: c, position: 0 }),
            Some(idx) => idx,
        };
        proof {
            lemma_code_of_names_character(self@, c);
        }
        match Char::from_usize(idx) {
            Some(mapped) => Ok(mapped),
            None => Err(AlphabetError::AlphabetTooLarge),
        }
    }

    /// Maps a Rust built-in string slice (str) to a vector of characters of another type (Char).
    ///
    /// The resulting vector contains the codes of the characters in the same
    /// order as they appear in the string slice, and essentially is another
    /// representation of the string, but unlike `str` it is not in UTF-8
    /// encoding so we can index individual characters in constant time.
    ///
    /// The mapping stops at the first character that cannot be mapped; an
    /// empty string maps to an empty vector under every alphabet.
    pub fn map_str<Char: CharacterTrait>(&self, s: &str) -> (r: Result<Vec<Char>, AlphabetError>)
        ensures
            match r {
                Ok(mapped) => {
                    &&& s@.len() == 0 || self@.len() <= Char::max()
                    &&& encodable(self@, s@)
                    &&& mapped@.map_values(|c: Char| c.code()) == encoding(self@, s@)
                },
                Err(AlphabetError::AlphabetTooLarge) => s@.len() > 0 && self@.len() > Char::max(),
                Err(AlphabetError::UnknownCharacter { character, position }) => {
                    &&& self@.len() <= Char::max()
                    &&& is_first_unknown(self@, s@, position as int)
                    &&& character == s@[position as int]
                },
            },
    {
        let mut mapped: Vec<Char> = Vec::new();
        for c in it: s.chars()
            invariant
                it.seq() == s@,
                mapped@.len() == it.index(),
                it.index() > 0 ==> self@.len() <= Char::max(),
                encodable(self@, s@.take(it.index())),
                mapped@.map_values(|c: Char| c.code()) == encoding(self@, s@.take(it.index())),
        {
            let ghost read = s@.take(it.index());
            let ghost codes = mapped@.map_values(|c: Char| c.code());
            match self.map_char::<Char>(c) {
                Ok(code) => {
                    mapped.push(code);
                    proof {
                        let now = s@.take(it.index() + 1);
                        assert(now == read.push(c));
                        assert(mapped@.map_values(|c: Char| c.code()) == codes.push(code.code()));
                        assert(encoding(self@, now) == encoding(self@, read).push(code.code()));
                        assert forall|i: int| 0 <= i < now.len() implies self@.contains(
                            #[trigger] now[i],
                        ) by {
                            if i < read.len() {
                                assert(read[i] == now[i]);
                            }
                        }
                    }
                },
                Err(AlphabetError::AlphabetTooLarge) => {
                    return Err(AlphabetError::AlphabetTooLarge);
                },
                Err(AlphabetError::UnknownCharacter { character, position: _ }) => {
                    return Err(
                        AlphabetError::UnknownCharacter { character, position: mapped.len() },
                    );
                },
            }
        }
        assert(s@.take(s@.len() as int) == s@);
        Ok(mapped)
    }
}

} // verus!
