//! Parsing and matching of HTTP `Accept-Language` values: language subtags,
//! language tags, language ranges and quality values.

pub mod error;
pub mod header;
pub mod negotiate;
pub mod qvalue;
pub mod rank;
pub mod range;
pub mod subtag;
pub mod tag;
pub mod text;

pub use error::AcceptError;
pub use header::{parse_accept_language, parse_preference, Preference};
pub use negotiate::{negotiate, Acceptance};
pub use qvalue::QValue;
pub use range::{language_range, LanguageRange};
pub use subtag::{subtag, Subtag};
pub use tag::{language_tag, LanguageTag};
