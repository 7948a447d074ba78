//! The values the service reads from the registry and the values it answers with.

use vstd::prelude::*;

verus! {

/// Where the tarball of a published version lies, and its SHA-1 sum.
#[derive(Debug)]
pub struct NpmDist {
    pub tarball: String,
    pub shasum: String,
}

/// One published version of a package.
#[derive(Debug)]
pub struct NpmVersion {
    pub version: String,
    pub dist: NpmDist,
}

/// A package's document in the registry: its versions, each under the key the
/// registry files it under, and, when present, the time each was published.
/// Both are kept as lists of key and value, in the order they were read.
#[derive(Debug)]
pub struct NpmPackage {
    pub versions: Vec<(String, NpmVersion)>,
    pub time: Option<Vec<(String, String)>>,
}

/// One entry of a package's release list.
#[derive(Debug, Clone)]
pub struct Release {
    pub version: String,
    pub date_time: Option<String>,
    pub tarball: String,
    pub shasum: String,
    pub diff: Option<String>,
    pub diff_raw: Option<String>,
}

/// The body of an error answer.
#[derive(Debug)]
pub struct ErrorResponse {
    pub error: String,
}

/// What the service says of itself.
#[derive(Debug)]
pub struct IndexResponse {
    pub service: String,
    pub description: String,
    pub version: String,
    pub usage: String,
}

} // verus!
