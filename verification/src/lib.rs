//! Rewrites TypeScript enums as constant objects.
//!
//! An enum such as `enum Color { RED = 'r', GREEN = 'g' }` becomes a frozen
//! object that holds its entries, and a type of the same name for the values
//! of that object. The enums are found by a pattern, not by a parser: what
//! the pattern does not match is left as it is.
//!
//! [`transform_enums`] rewrites one text. [`walk`] holds the decisions of the
//! walk over a directory tree that picks the files to rewrite.

pub mod entries;
pub mod finder;
pub mod second_pass;
pub mod spans;
pub mod text;
pub mod transform;
pub mod walk;

pub use transform::transform_enums;
