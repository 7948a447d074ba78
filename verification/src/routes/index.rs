//! What the service says of itself.

use vstd::prelude::*;
use crate::models::IndexResponse;
use vstd::string::StringExecFns;

verus! {

/// The service's version.
pub const SERVICE_VERSION: &'static str = "0.1.0";

/// How the service is used.
pub const USAGE: &'static str = "GET /<package-name> (e.g., /react or /@payfurl/client), GET /diff/<package-name>?version[]=v1&version[]=v2 (e.g., /diff/@payfurl/client?version[]=4.8.6&version[]=4.8.7)";

/// The service's name, purpose, version and usage.
pub fn index() -> (r: IndexResponse)
    ensures
        r.service@ == "npmv"@,
        r.description@ == "NPM Registry version to simplified release array converter API"@,
        r.version@ == SERVICE_VERSION@,
        r.usage@ == USAGE@,
{
    IndexResponse {
        service: String::from_str("npmv"),
        description: String::from_str("NPM Registry version to simplified release array converter API"),
        version: String::from_str(SERVICE_VERSION),
        usage: String::from_str(USAGE),
    }
}

} // verus!
