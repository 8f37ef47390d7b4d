//! Choices offered on the command line, as plain data. Argument
//! parsing itself lives outside the library.

use vstd::prelude::*;

verus! {

/// Which template to instantiate.
#[derive(Debug)]
pub enum Template {
    /// A new port.
    Port { name: Option<String>, url: Option<String>, whiskers: Option<bool> },
    /// A new userstyle.
    Userstyle {
        name: Option<String>,
        categories: Option<Vec<String>>,
        icon: Option<String>,
        color: Option<String>,
        url: Option<String>,
        clear_comments: bool,
    },
}

/// A queryable field of a port.
#[derive(Debug, Clone, Copy, PartialEq, Eq)]
pub enum Key {
    Identifier,
    Name,
    Categories,
    Upstreamed,
    Platform,
    Icon,
    Color,
    Alias,
    Url,
    CurrentMaintainers,
    PastMaintainers,
}

impl Default for Key {
    /// The default field is the identifier.
    fn default() -> (r: Self)
        ensures
            r == Key::Identifier,
    {
        Key::Identifier
    }
}

/// A queryable field of a userstyle.
#[derive(Debug, Clone, Copy, PartialEq, Eq)]
pub enum UserstyleKey {
    Identifier,
    Name,
    Categories,
    Icon,
    Color,
    AppLink,
    CurrentMaintainers,
    PastMaintainers,
}

impl Default for UserstyleKey {
    /// The default field is the identifier.
    fn default() -> (r: Self)
        ensures
            r == UserstyleKey::Identifier,
    {
        UserstyleKey::Identifier
    }
}

/// The migration state recorded for a repository.
#[derive(Debug, Clone, Copy, PartialEq, Eq)]
pub enum WhiskersCustomProperty {
    True,
    False,
    NotApplicable,
}

} // verus!
