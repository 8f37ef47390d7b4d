//! Data model of the ports registry.

use std::collections::HashMap;

use vstd::prelude::*;

verus! {

/// The root of the ports registry document.
#[derive(Debug)]
pub struct Root {
    pub collaborators: Vec<String>,
    pub ports: HashMap<String, Port>,
}

/// One port of the registry.
#[derive(Debug)]
pub struct Port {
    pub name: String,
    pub categories: Vec<String>,
    pub upstreamed: Option<bool>,
    pub platform: Vec<String>,
    pub url: Option<String>,
    pub links: Option<Vec<Link>>,
    pub icon: Option<String>,
    pub color: String,
    pub alias: Option<String>,
    pub current_maintainers: Vec<String>,
    pub past_maintainers: Option<Vec<String>>,
}

/// A related link of a port.
#[derive(Debug)]
pub struct Link {
    pub name: String,
    pub color: Option<String>,
    pub icon: Option<String>,
    pub url: String,
}

} // verus!
