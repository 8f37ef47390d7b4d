//! Data model of the userstyles registry.

use std::collections::HashMap;

use vstd::prelude::*;

verus! {

use crate::models::ports::Port;

/// The root of the userstyles registry document.
#[derive(Debug)]
pub struct Root {
    pub collaborators: Vec<String>,
    pub userstyles: HashMap<String, Userstyle>,
}

/// A userstyles-only root document.
#[derive(Debug)]
pub struct UserstylesRoot {
    pub userstyles: HashMap<String, Userstyle>,
}

/// One userstyle of the registry.
#[derive(Debug)]
pub struct Userstyle {
    pub name: String,
    pub categories: Vec<String>,
    pub icon: Option<String>,
    pub color: String,
    pub link: String,
    pub note: Option<String>,
    pub supports: Option<HashMap<String, SupportedWebsite>>,
    pub current_maintainers: Vec<String>,
    pub past_maintainers: Option<Vec<String>>,
}

/// A website a userstyle supports.
#[derive(Debug)]
pub struct SupportedWebsite {
    pub name: String,
    pub link: String,
}

impl Port {
    /// Presents a userstyle as a port: same metadata, the `web`
    /// platform, not upstreamed, and the userstyle's link as URL.
    pub fn from(userstyle: Userstyle) -> (r: Port)
        ensures
            r.name == userstyle.name,
            r.categories == userstyle.categories,
            r.upstreamed == Some(false),
            r.platform@.len() == 1 && r.platform@[0]@ == "web"@,
            r.url == Some(userstyle.link),
            r.links is None,
            r.icon == userstyle.icon,
            r.color == userstyle.color,
            r.alias is None,
            r.current_maintainers == userstyle.current_maintainers,
            r.past_maintainers == userstyle.past_maintainers,
    {
        let mut platform: Vec<String> = Vec::new();
        platform.push(String::from_str("web"));
        Port {
            name: userstyle.name,
            categories: userstyle.categories,
            upstreamed: Some(false),
            platform,
            url: Some(userstyle.link),
            links: None,
            icon: userstyle.icon,
            color: userstyle.color,
            alias: None,
            current_maintainers: userstyle.current_maintainers,
            past_maintainers: userstyle.past_maintainers,
        }
    }
}

} // verus!
