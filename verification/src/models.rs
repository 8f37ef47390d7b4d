//! Data models for the port and userstyle registries.

pub mod ports;
pub mod shared;
pub mod userstyles;

use std::collections::HashMap;

use vstd::prelude::*;

verus! {

/// The root of the combined registry document.
#[derive(Debug)]
pub struct Root {
    pub collaborators: Vec<Collaborator>,
    pub userstyles: HashMap<String, Userstyle>,
}

/// The root of a userstyles-only registry document.
#[derive(Debug)]
pub struct UserstylesRoot {
    pub userstyles: HashMap<String, Userstyle>,
}

/// A registry collaborator.
#[derive(Debug)]
pub struct Collaborator {
    pub url: String,
    pub name: Option<String>,
}

/// A field that may hold one string or several.
#[derive(Debug)]
pub enum StringOrStrings {
    Single(String),
    Multiple(Vec<String>),
}

impl Default for StringOrStrings {
    /// The default is a single empty string.
    fn default() -> (r: Self)
        ensures
            r matches StringOrStrings::Single(s) && s@ == Seq::<char>::empty(),
    {
        StringOrStrings::Single(String::new())
    }
}

/// A userstyle entry.
#[derive(Debug)]
pub struct Userstyle {
    pub name: StringOrStrings,
    pub categories: Vec<String>,
    pub icon: Option<String>,
    pub color: String,
    pub readme: Readme,
}

/// The readme metadata of a userstyle.
#[derive(Debug)]
pub struct Readme {
    pub app_link: StringOrStrings,
    pub current_maintainers: Vec<Maintainer>,
    pub past_maintainers: Option<Vec<Maintainer>>,
}

/// A maintainer, with an optional display name.
#[derive(Debug)]
pub struct Maintainer {
    pub name: Option<String>,
    pub url: String,
}

} // verus!
