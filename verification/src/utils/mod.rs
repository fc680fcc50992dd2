pub mod alphabet;
pub mod char;
pub mod str;

pub use alphabet::{Alphabet, AlphabetError};
pub use char::{CharSize, CharacterTrait};
pub use str::{Str, StrMapper, StrMappers};
