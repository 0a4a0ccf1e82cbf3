//! Lazy splitting of a borrowed text at the occurrences of a delimiter.
//!
//! [`StrSplit`] walks a text once and yields the segments between the
//! occurrences of a [`Delimiter`], without copying the text. A delimiter is
//! a literal pattern, a single character, or any type of the caller's that
//! implements the trait.
use vstd::prelude::*;

pub mod delimiter;
pub mod search;
pub mod split;
pub mod text;
pub mod laws;

pub use delimiter::Delimiter;
pub use split::{until_char, StrSplit};
