//! Shapes of the repository data fetched from the hosting service. The
//! fetching itself lives outside the library.

use vstd::prelude::*;

verus! {

/// The part of a repository response the tool reads.
#[derive(Debug)]
pub struct RepositoryResponse {
    pub stargazers_count: i64,
}

/// A custom property set on a repository.
#[derive(Debug)]
pub struct CustomProperty {
    pub property_name: String,
    pub value: String,
}

} // verus!
