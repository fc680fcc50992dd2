use super::alphabet::AlphabetError;
use vstd::prelude::*;

verus! {

/// An integer type wide enough to hold the codes of an alphabet.
///
/// Code `0` is the sentinel; the characters of an alphabet get the codes
/// `1..=N`. A type can serve every alphabet with `N <= max()`.
pub trait CharacterTrait: Copy + Sized + Eq + std::fmt::Debug {
    /// The largest alphabet size the type can encode.
    spec fn spec_max() -> usize;

    /// The largest alphabet size the type can encode: one less than the
    /// largest value of the type, to leave room for the sentinel.
    #[verifier::when_used_as_spec(spec_max)]
    fn max() -> (m: usize)
        ensures
            m == Self::spec_max(),
    ;

    /// The code that a value stands for.
    spec fn code(self) -> nat;

    /// The code as an index.
    fn to_usize(&self) -> (r: usize)
        ensures
            r == self.code(),
    ;

    /// The value that stands for code `idx`, if the type has one.
    fn from_usize(idx: usize) -> (r: Option<Self>)
        ensures
            match r {
                Some(c) => c.code() == idx,
                None => idx > Self::max(),
            },
    ;
}

impl CharacterTrait for u8 {
    open spec fn spec_max() -> usize {
        254
    }

    fn max() -> (m: usize) {
        254
    }

    open spec fn code(self) -> nat {
        self as nat
    }

    fn to_usize(&self) -> (r: usize) {
        *self as usize
    }

    fn from_usize(idx: usize) -> (r: Option<Self>) {
        match u8::try_from(idx) {
            Ok(c) => Some(c),
            Err(_) => None,
        }
    }
}

impl CharacterTrait for u16 {
    open spec fn spec_max() -> usize {
        65534
    }

    fn max() -> (m: usize) {
        65534
    }

    open spec fn code(self) -> nat {
        self as nat
    }

    fn to_usize(&self) -> (r: usize) {
        *self as usize
    }

    fn from_usize(idx: usize) -> (r: Option<Self>) {
        match u16::try_from(idx) {
            Ok(c) => Some(c),
            Err(_) => None,
        }
    }
}

/// The size of characters needed to represent a given string.
#[derive(Debug, PartialEq, Eq, Clone, Copy, Structural)]
pub enum CharSize {
    /// 8 bits needed for each character
    U8,
    /// 16 bits needed for each character
    U16,
}

impl CharSize {
    /// The narrowest width that can encode an alphabet of `size` characters.
    pub open spec fn for_alphabet_size(size: nat) -> Option<CharSize> {
        if size <= <u8 as CharacterTrait>::max() {
            Some(CharSize::U8)
        } else if size <= <u16 as CharacterTrait>::max() {
            Some(CharSize::U16)
        } else {
            None
        }
    }

    /// Returns the character size needed to represent an alphabet of a given size.
    ///
    /// Fails with [`AlphabetError::AlphabetTooLarge`] when no supported width
    /// can hold `size` codes beside the sentinel.
    pub fn from_alphabet_size(size: usize) -> (r: Result<CharSize, AlphabetError>)
        ensures
            r == match CharSize::for_alphabet_size(size as nat) {
                Some(width) => Ok::<CharSize, AlphabetError>(width),
                None => Err(AlphabetError::AlphabetTooLarge),
            },
    {
        if size <= <u8 as CharacterTrait>::max() {
            Ok(CharSize::U8)
        } else if size <= <u16 as CharacterTrait>::max() {
            Ok(CharSize::U16)
        } else {
            Err(AlphabetError::AlphabetTooLarge)
        }
    }
}

} // verus!
