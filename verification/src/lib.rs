//! Turns a static theme or stylesheet into a parameterized template:
//! every color literal that a fixed multi-flavor palette accounts for
//! becomes a placeholder expression naming the color's semantic role,
//! and everything the palette cannot account for is left untouched and
//! reported.
//!
//! The engine scans the text for functional color literals
//! (`rgb()`/`rgba()`/`hsl()`/`hsla()`), searches it for each palette
//! color's hex digits in any letter case, matches functional literals
//! exactly by RGB or within tolerance by HSL, and rewrites the working
//! copy with opacity-aware placeholders. The pipeline lives in
//! [`whiskerify::convert`]; its behaviour is specified and verified
//! down to the exact bytes produced, relative to what the color parser
//! returns for each literal.

pub mod cli;
pub mod csscolor;
pub mod github;
pub mod location;
pub mod models;
pub mod palette;
pub mod query;
pub mod rewrite;
pub mod scan;
pub mod text;
pub mod whiskerify;
