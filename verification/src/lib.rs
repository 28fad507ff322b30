//! Validation, normalization, and conversion of standard bibliographic
//! identifiers: ISBN (10- and 13-digit book numbers), ISSN (8-digit serial
//! numbers), and LCCN (Library of Congress Control Numbers).
//!
//! Each identifier kind is a value type wrapping a raw identifier string,
//! with checksum arithmetic and format-normalization rules specified over
//! the string's character sequence and proved correct.

pub mod isbn;
pub mod issn;
pub mod lccn;
pub mod text;
pub mod traits;

pub use isbn::ISBN;
pub use issn::ISSN;
pub use lccn::LCCN;
pub use traits::Normalize;
pub use traits::Valid;
