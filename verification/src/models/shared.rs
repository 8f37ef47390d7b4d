//! Model pieces shared between the registries.

use vstd::prelude::*;

verus! {

/// A field that may hold one string or several.
#[derive(Debug)]
pub enum StringOrStrings {
    Single(String),
    Multiple(Vec<String>),
}

impl Default for StringOrStrings {
    /// The default is a single empty string.
    fn default() -> (r: Self)
        ensures
            r matches StringOrStrings::Single(s) && s@ == Seq::<char>::empty(),
    {
        StringOrStrings::Single(String::new())
    }
}

/// A maintainer, identified by profile URL.
#[derive(Debug)]
pub struct Maintainer {
    pub url: String,
}

} // verus!
