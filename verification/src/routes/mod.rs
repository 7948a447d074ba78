//! The service's routes, as decisions on plain values, and what they share:
//! the package name a request names and the answers to a failed request to
//! the registry.

pub mod archive;
pub mod diff;
pub mod index;
pub mod package;
pub mod page;
pub mod strip;

use vstd::prelude::*;
use vstd::string::StringExecFns;
use crate::models::ErrorResponse;
use crate::text::{str_chars, range_eq};

verus! {

broadcast use vstd::string::group_string_axioms;

pub const BAD_REQUEST: u16 = 400;
pub const NOT_FOUND: u16 = 404;
pub const UNPROCESSABLE_ENTITY: u16 = 422;
pub const BAD_GATEWAY: u16 = 502;

/// The registry's address; a package's document lies under its name there.
pub const REGISTRY_URL: &'static str = "https://registry.npmjs.org/";

/// A request that is refused: the status to answer with and its body.
#[derive(Debug)]
pub struct RouteError {
    pub status: u16,
    pub response: ErrorResponse,
}

impl RouteError {
    /// The error's status and message.
    pub open spec fn is(self, status: u16, message: Seq<char>) -> bool {
        self.status == status && self.response.error@ == message
    }
}

/// A refusal with `status` and `message`.
pub fn route_error(status: u16, message: String) -> (r: RouteError)
    ensures
        r.is(status, message@),
{
    RouteError { status, response: ErrorResponse { error: message } }
}

/// The segments of a path joined by `/`.
pub open spec fn joined(segments: Seq<Seq<char>>) -> Seq<char>
    decreases segments.len(),
{
    if segments.len() == 0 {
        seq![]
    } else if segments.len() == 1 {
        segments[0]
    } else {
        joined(segments.drop_last()) + "/"@ + segments.last()
    }
}

/// The package name a request path names: its segments joined by `/`, so
/// that a scoped name such as `@scope/name` is kept whole.
pub fn package_name_from_segments(segments: &Vec<String>) -> (r: String)
    ensures
        r@ == joined(segments@.map_values(|s: String| s@)),
{
    let ghost view = segments@.map_values(|s: String| s@);
    let mut name = String::new();
    let mut i: usize = 0;
    while i < segments.len()
        invariant
            i <= segments@.len(),
            view == segments@.map_values(|s: String| s@),
            name@ == joined(view.take(i as int)),
        decreases segments@.len() - i,
    {
        assert(view.take(i + 1).drop_last() =~= view.take(i as int));
        if i > 0 {
            name.append("/");
        } else {
            assert(view.take(0) =~= Seq::<Seq<char>>::empty());
        }
        name.append(segments[i].as_str());
        assert(view.take(i + 1).last() == segments@[i as int]@);
        proof {
            if i == 0 {
                assert(name@ =~= view.take(1)[0]);
            }
        }
        i = i + 1;
    }
    assert(view.take(segments@.len() as int) =~= view);
    name
}

/// Whether two strings are equal.
pub fn str_eq(a: &str, b: &str) -> (r: bool)
    ensures
        r == (a@ == b@),
{
    let va = str_chars(a);
    let vb = str_chars(b);
    let r = range_eq(&va, 0, va.len(), &vb);
    assert(va@.subrange(0, va@.len() as int) =~= va@);
    r
}

/// The address of a package's document in the registry.
pub fn registry_url(package_name: &str) -> (r: String)
    ensures
        r@ == REGISTRY_URL@ + package_name@,
{
    let mut s = String::new();
    s.append(REGISTRY_URL);
    s.append(package_name);
    assert(s@ =~= REGISTRY_URL@ + package_name@);
    s
}

/// A status the registry answers with that counts as success (`2xx`).
pub open spec fn success(status: u16) -> bool {
    200 <= status <= 299
}

/// The refusal for an answer of the registry with `status`, shown as
/// `status_text`, or `None` when the answer can be read.
pub open spec fn registry_refusal(package_name: Seq<char>, status: u16, status_text: Seq<char>) -> Option<(u16, Seq<char>)> {
    if status == NOT_FOUND {
        Some((NOT_FOUND, "Package '"@ + package_name + "' not found in NPM registry"@))
    } else if !success(status) {
        Some((BAD_GATEWAY, "NPM registry returned HTTP status: "@ + status_text))
    } else {
        None
    }
}

/// Checks the status of the registry's answer for a package's document: a
/// package the registry does not know is not found, any other status but
/// success is a bad gateway.
pub fn check_registry_status(package_name: &str, status: u16, status_text: &str) -> (r: Option<RouteError>)
    ensures
        match registry_refusal(package_name@, status, status_text@) {
            Some((code, message)) => r matches Some(e) && e.is(code, message),
            None => r is None,
        },
{
    if status == NOT_FOUND {
        let mut m = String::new();
        m.append("Package '");
        m.append(package_name);
        m.append("' not found in NPM registry");
        assert(m@ =~= "Package '"@ + package_name@ + "' not found in NPM registry"@);
        Some(route_error(NOT_FOUND, m))
    } else if status < 200 || status > 299 {
        let mut m = String::new();
        m.append("NPM registry returned HTTP status: ");
        m.append(status_text);
        assert(m@ =~= "NPM registry returned HTTP status: "@ + status_text@);
        Some(route_error(BAD_GATEWAY, m))
    } else {
        None
    }
}

/// The refusal when the registry cannot be reached.
pub fn registry_unreachable(detail: &str) -> (r: RouteError)
    ensures
        r.is(BAD_GATEWAY, "Failed to connect to NPM registry: "@ + detail@),
{
    let mut m = String::new();
    m.append("Failed to connect to NPM registry: ");
    m.append(detail);
    route_error(BAD_GATEWAY, m)
}

/// The refusal when the registry's answer is not a package document.
pub fn registry_unreadable(detail: &str) -> (r: RouteError)
    ensures
        r.is(UNPROCESSABLE_ENTITY, "Failed to parse NPM registry response: "@ + detail@),
{
    let mut m = String::new();
    m.append("Failed to parse NPM registry response: ");
    m.append(detail);
    route_error(UNPROCESSABLE_ENTITY, m)
}

} // verus!
