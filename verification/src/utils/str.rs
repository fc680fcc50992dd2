use super::alphabet::{
    chars_of, encodable, encoding, is_alphabet_of, is_first_unknown,
    lemma_alphabet_size_of_strings, lemma_code_of_names_character, strictly_ascending, Alphabet,
    AlphabetError,
};
use super::char::{CharSize, CharacterTrait};
use std::rc::Rc;
use vstd::prelude::*;
use vstd::std_specs::iter::IteratorSpec;

verus! {

/// The codes that a vector of code values stands for.
pub open spec fn codes_of<Char: CharacterTrait>(v: Seq<Char>) -> Seq<nat> {
    v.map_values(|c: Char| c.code())
}

/// Every code is that of some character of an alphabet with `size` characters.
pub open spec fn codes_within(codes: Seq<nat>, size: nat) -> bool {
    forall|i: int| 0 <= i < codes.len() ==> 1 <= #[trigger] codes[i] <= size
}

/// The codes of an encodable text are codes of the alphabet.
pub proof fn lemma_encoding_within(alphabet: Seq<char>, text: Seq<char>)
    requires
        encodable(alphabet, text),
    ensures
        codes_within(encoding(alphabet, text), alphabet.len()),
{
    assert forall|i: int| 0 <= i < text.len() implies 1 <= #[trigger] encoding(alphabet, text)[i]
        <= alphabet.len() by {
        assert(alphabet.contains(text[i]));
        lemma_code_of_names_character(alphabet, text[i]);
    }
}

/// A string type that uses a custom alphabet for character encoding.
#[derive(Debug, PartialEq)]
pub struct Str<Char: CharacterTrait> {
    char_vector: Vec<Char>,
    alphabet: Rc<Alphabet>,
}

impl<Char: CharacterTrait> View for Str<Char> {
    type V = Seq<nat>;

    /// The codes of the string, in order.
    closed spec fn view(&self) -> Seq<nat> {
        codes_of(self.char_vector@)
    }
}

impl<Char: CharacterTrait> Str<Char> {
    /// What holds of every encoded string: each code names a character of
    /// the string's alphabet.
    #[verifier::type_invariant]
    pub closed spec fn wf(&self) -> bool {
        &&& codes_within(codes_of(self.char_vector@), self.alphabet@.len())
        &&& self.alphabet.wf()
    }

    /// The characters of the string's alphabet, in the order of their codes.
    pub closed spec fn symbols(&self) -> Seq<char> {
        self.alphabet@
    }

    /// The codes of a well-formed string name characters of its alphabet.
    pub proof fn lemma_wf_codes(&self)
        requires
            self.wf(),
        ensures
            codes_within(self@, self.symbols().len()),
            self.symbols().len() <= 0x11_0000,
    {
        self.alphabet.lemma_wf_ascending();
    }

    /// Creates a new `Str` from a given alphabet and a vector of characters.
    pub fn new(x: Vec<Char>, alphabet: &Rc<Alphabet>) -> (s: Self)
        requires
            codes_within(codes_of(x@), alphabet@.len()),
        ensures
            s@ == codes_of(x@),
            s.symbols() == alphabet@,
    {
        proof {
            use_type_invariant(&**alphabet);
        }
        Self { char_vector: x, alphabet: alphabet.clone() }
    }

    /// Creates a new `Str` from a string slice and a given alphabet.
    ///
    /// Fails with [`AlphabetError::AlphabetTooLarge`] where `Char` cannot
    /// index the alphabet, and else with
    /// [`AlphabetError::UnknownCharacter`] at the first character of `s`
    /// that the alphabet lacks.
    pub fn from_str(s: &str, alphabet: &Rc<Alphabet>) -> (r: Result<Self, AlphabetError>)
        ensures
            match r {
                Ok(mapped) => {
                    &&& alphabet@.len() <= Char::max()
                    &&& encodable(alphabet@, s@)
                    &&& mapped@ == encoding(alphabet@, s@)
                    &&& mapped.symbols() == alphabet@
                },
                Err(AlphabetError::AlphabetTooLarge) => alphabet@.len() > Char::max(),
                Err(AlphabetError::UnknownCharacter { character, position }) => {
                    &&& alphabet@.len() <= Char::max()
                    &&& is_first_unknown(alphabet@, s@, position as int)
                    &&& character == s@[position as int]
                },
            },
    {
        if alphabet.len() > Char::max() {
            return Err(AlphabetError::AlphabetTooLarge);
        }
        match alphabet.map_str::<Char>(s) {
            Ok(x) => {
                proof {
                    lemma_encoding_within(alphabet@, s@);
                }
                Ok(Self::new(x, alphabet))
            },
            Err(e) => Err(e),
        }
    }

    /// Creates a new `Str` from a string slice using the same alphabet
    /// as the current `Str`. This maps the two strings to the same string-space,
    /// so they can be manipulated together.
    pub fn translate_to_this_alphabet(&self, s: &str) -> (r: Result<Self, AlphabetError>)
        ensures
            match r {
                Ok(mapped) => {
                    &&& self.symbols().len() <= Char::max()
                    &&& encodable(self.symbols(), s@)
                    &&& mapped@ == encoding(self.symbols(), s@)
                    &&& mapped.symbols() == self.symbols()
                },
                Err(AlphabetError::AlphabetTooLarge) => self.symbols().len() > Char::max(),
                Err(AlphabetError::UnknownCharacter { character, position }) => {
                    &&& self.symbols().len() <= Char::max()
                    &&& is_first_unknown(self.symbols(), s@, position as int)
                    &&& character == s@[position as int]
                },
            },
    {
        let alphabet = self.alphabet.clone();
        Self::from_str(s, &alphabet)
    }

    /// Returns the length of the string.
    pub fn len(&self) -> (n: usize)
        ensures
            n == self@.len(),
    {
        self.char_vector.len()
    }

    /// An iterator over the code values of the string, in order.
    pub fn iter(&self) -> (it: std::slice::Iter<'_, Char>)
        ensures
            it.remaining().len() == self@.len(),
            forall|i: int| 0 <= i < self@.len() ==> (#[trigger] it.remaining()[i]).code() == self@[i],
    {
        self.char_vector.as_slice().iter()
    }

    /// The alphabet that the codes of the string refer to.
    pub fn alphabet(&self) -> (a: &Rc<Alphabet>)
        ensures
            a@ == self.symbols(),
    {
        &self.alphabet
    }
}

impl<Char: CharacterTrait> Clone for Str<Char> {
    /// A string with the same codes over the same alphabet.
    fn clone(&self) -> (copy: Self)
        ensures
            copy@ == self@,
            copy.symbols() == self.symbols(),
    {
        proof {
            use_type_invariant(self);
        }
        let mut char_vector: Vec<Char> = Vec::with_capacity(self.char_vector.len());
        let mut i: usize = 0;
        while i < self.char_vector.len()
            invariant
                i <= self.char_vector@.len(),
                char_vector@ == self.char_vector@.take(i as int),
            decreases self.char_vector@.len() - i,
        {
            char_vector.push(self.char_vector[i]);
            i += 1;
        }
        assert(char_vector@ == self.char_vector@);
        Str { char_vector, alphabet: self.alphabet.clone() }
    }
}

impl<Char: CharacterTrait> std::ops::Index<usize> for Str<Char> {
    type Output = Char;

    fn index(&self, index: usize) -> (c: &Char)
        ensures
            c.code() == self@[index as int],
    {
        &self.char_vector[index]
    }
}

impl<Char: CharacterTrait> vstd::std_specs::core::IndexSpecImpl<usize> for Str<Char> {
    open spec fn index_req(&self, index: &usize) -> bool {
        *index < self@.len()
    }
}

/// A string mapper that uses a custom alphabet for character encoding.
pub struct StrMapper<Char: CharacterTrait> {
    /// The alphabet used for character encoding.
    pub alphabet: Rc<Alphabet>,
    /// Names the code type; it holds nothing.
    pub _phantom: std::marker::PhantomData<Char>,
}

impl<Char: CharacterTrait> StrMapper<Char> {
    /// The characters of the mapper's alphabet, in the order of their codes.
    pub open spec fn symbols(&self) -> Seq<char> {
        self.alphabet@
    }

    /// Creates a new `StrMapper` from a given alphabet.
    pub fn new(alphabet: &Rc<Alphabet>) -> (mapper: Self)
        ensures
            mapper.alphabet@ == alphabet@,
            mapper.symbols() == alphabet@,
    {
        Self { alphabet: alphabet.clone(), _phantom: std::marker::PhantomData }
    }

    /// Maps a string to a vector of characters using the alphabet.
    ///
    /// Fails where the string contains characters not in the alphabet, or
    /// where the string is not empty and `Char` cannot index the alphabet.
    pub fn map_str(&self, s: &str) -> (r: Result<Str<Char>, AlphabetError>)
        ensures
            match r {
                Ok(mapped) => {
                    &&& s@.len() == 0 || self.symbols().len() <= Char::max()
                    &&& encodable(self.symbols(), s@)
                    &&& mapped@ == encoding(self.symbols(), s@)
                    &&& mapped.symbols() == self.symbols()
                },
                Err(AlphabetError::AlphabetTooLarge) => s@.len() > 0 && self.symbols().len()
                    > Char::max(),
                Err(AlphabetError::UnknownCharacter { character, position }) => {
                    &&& self.symbols().len() <= Char::max()
                    &&& is_first_unknown(self.symbols(), s@, position as int)
                    &&& character == s@[position as int]
                },
            },
    {
        match self.alphabet.map_str::<Char>(s) {
            Ok(char_vector) => {
                proof {
                    lemma_encoding_within(self.alphabet@, s@);
                }
                Ok(Str::new(char_vector, &self.alphabet))
            },
            Err(e) => Err(e),
        }
    }
}

/// A string mapper that uses a custom alphabet for character encoding.
///
/// This enum is used to select the correct mapper, and the underlying character type (u8 or u16).
pub enum StrMappers {
    /// Mapping to u8 characters
    U8Mapper(StrMapper<u8>),
    /// Mapping to u16 characters
    U16Mapper(StrMapper<u16>),
}

impl StrMappers {
    /// The alphabet that the mapper encodes with.
    pub open spec fn symbols(&self) -> Seq<char> {
        match self {
            StrMappers::U8Mapper(mapper) => mapper.symbols(),
            StrMappers::U16Mapper(mapper) => mapper.symbols(),
        }
    }

    /// The width of the codes that the mapper produces.
    pub open spec fn width(&self) -> CharSize {
        match self {
            StrMappers::U8Mapper(_) => CharSize::U8,
            StrMappers::U16Mapper(_) => CharSize::U16,
        }
    }

    /// Creates a new `StrMappers` instance from a given alphabet.
    ///
    /// When picking a mapper, the character type is selected based on the
    /// size of the alphabet: the narrowest that can index it. Fails with
    /// [`AlphabetError::AlphabetTooLarge`] where none can.
    pub fn new(alphabet: &Rc<Alphabet>) -> (r: Result<Self, AlphabetError>)
        ensures
            match r {
                Ok(mapper) => {
                    &&& mapper.symbols() == alphabet@
                    &&& CharSize::for_alphabet_size(alphabet@.len()) == Some(mapper.width())
                },
                Err(e) => {
                    &&& e == AlphabetError::AlphabetTooLarge
                    &&& CharSize::for_alphabet_size(alphabet@.len()) is None
                },
            },
    {
        match alphabet.char_size() {
            Ok(CharSize::U8) => Ok(StrMappers::U8Mapper(StrMapper::new(alphabet))),
            Ok(CharSize::U16) => Ok(StrMappers::U16Mapper(StrMapper::new(alphabet))),
            Err(e) => Err(e),
        }
    }

    /// Creates a new `StrMappers` instance from a string slice.
    ///
    /// This is a convenience method that creates an alphabet from the string slice.
    pub fn new_from_str(s: &str) -> (r: Result<Self, AlphabetError>)
        ensures
            match r {
                Ok(mapper) => {
                    &&& is_alphabet_of(mapper.symbols(), s@)
                    &&& CharSize::for_alphabet_size(s@.to_set().len()) == Some(mapper.width())
                },
                Err(e) => {
                    &&& e == AlphabetError::AlphabetTooLarge
                    &&& CharSize::for_alphabet_size(s@.to_set().len()) is None
                },
            },
    {
        let alphabet = Rc::new(Alphabet::from_str(s));
        proof {
            super::alphabet::lemma_alphabet_size(alphabet@, s@);
        }
        Self::new(&alphabet)
    }

    /// Creates a new `StrMappers` instance from an array of string slices.
    ///
    /// This is a convenience method that creates an alphabet from the array of string slices.
    pub fn new_from_strs(strings: &[&str]) -> (r: Result<Self, AlphabetError>)
        ensures
            match r {
                Ok(mapper) => {
                    &&& strictly_ascending(mapper.symbols())
                    &&& forall|c: char|
                        mapper.symbols().contains(c) <==> chars_of(strings@).contains(c)
                    &&& CharSize::for_alphabet_size(chars_of(strings@).len()) == Some(
                        mapper.width(),
                    )
                },
                Err(e) => {
                    &&& e == AlphabetError::AlphabetTooLarge
                    &&& CharSize::for_alphabet_size(chars_of(strings@).len()) is None
                },
            },
    {
        let alphabet = Rc::new(Alphabet::from_strs(strings));
        proof {
            lemma_alphabet_size_of_strings(alphabet@, strings@);
        }
        Self::new(&alphabet)
    }
}

} // verus!
