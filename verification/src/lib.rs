//! Exact substring search over alphabet-compacted strings.
//!
//! A text and a pattern are first translated into dense integer codes by an
//! [`utils::Alphabet`]; the matchers in [`search`] then scan the codes and
//! report every offset at which the pattern occurs.
pub mod patterns;
pub mod search;
pub mod utils;

pub use patterns::border_array;
pub use patterns::strict_border_array;
pub use search::bmh;
pub use search::kmp;
pub use search::naive;
pub use utils::Alphabet;
