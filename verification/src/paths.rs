//! The few `std::path` operations the library needs, on paths held as
//! strings. Each wrapper calls one `Path` method; what the method computes
//! is named, not restated.

use vstd::prelude::*;
use std::path::Path;

verus! {

/// What `Path::join` gives.
pub uninterp spec fn joined(base: Seq<char>, part: Seq<char>) -> Seq<char>;

/// What `Path::file_name` gives.
pub uninterp spec fn path_file_name(p: Seq<char>) -> Option<Seq<char>>;

/// What `Path::file_stem` gives.
pub uninterp spec fn path_file_stem(p: Seq<char>) -> Option<Seq<char>>;

/// What `Path::extension` gives.
pub uninterp spec fn path_extension(p: Seq<char>) -> Option<Seq<char>>;

/// What `Path::strip_prefix` gives.
pub uninterp spec fn path_strip_prefix(p: Seq<char>, base: Seq<char>) -> Option<Seq<char>>;

/// What `Path::parent` gives.
pub uninterp spec fn path_parent(p: Seq<char>) -> Option<Seq<char>>;

/// The items of `Path::components`, as text.
pub uninterp spec fn path_components(p: Seq<char>) -> Seq<Seq<char>>;

/// The first item of `Path::components`, as text.
pub uninterp spec fn path_first_component(p: Seq<char>) -> Option<Seq<char>>;

/// Calls `Path::join`. Claimed: the result depends on the two paths alone.
#[verifier::external_body]
pub fn join(base: &str, part: &str) -> (r: String)
    ensures
        r@ == joined(base@, part@),
{
    Path::new(base).join(part).to_string_lossy().into_owned()
}

/// Calls `Path::file_name`. Claimed: the result depends on the path alone.
#[verifier::external_body]
pub fn file_name(p: &str) -> (r: Option<String>)
    ensures
        match path_file_name(p@) {
            Some(n) => r matches Some(s) && s@ == n,
            None => r is None,
        },
{
    match Path::new(p).file_name() {
        Some(n) => Some(n.to_string_lossy().into_owned()),
        None => None,
    }
}

/// Calls `Path::file_stem`. Claimed: the result depends on the path alone.
#[verifier::external_body]
pub fn file_stem(p: &str) -> (r: Option<String>)
    ensures
        match path_file_stem(p@) {
            Some(n) => r matches Some(s) && s@ == n,
            None => r is None,
        },
{
    match Path::new(p).file_stem() {
        Some(n) => Some(n.to_string_lossy().into_owned()),
        None => None,
    }
}

/// Calls `Path::extension`. Claimed: the result depends on the path alone.
#[verifier::external_body]
pub fn extension(p: &str) -> (r: Option<String>)
    ensures
        match path_extension(p@) {
            Some(n) => r matches Some(s) && s@ == n,
            None => r is None,
        },
{
    match Path::new(p).extension() {
        Some(n) => Some(n.to_string_lossy().into_owned()),
        None => None,
    }
}

/// Calls `Path::strip_prefix`. Claimed: the result depends on the two paths
/// alone.
#[verifier::external_body]
pub fn strip_prefix(p: &str, base: &str) -> (r: Option<String>)
    ensures
        match path_strip_prefix(p@, base@) {
            Some(n) => r matches Some(s) && s@ == n,
            None => r is None,
        },
{
    match Path::new(p).strip_prefix(base) {
        Ok(r) => Some(r.to_string_lossy().into_owned()),
        Err(_) => None,
    }
}

/// Calls `Path::components` and takes the first one. Claimed: the result
/// depends on the path alone.
#[verifier::external_body]
pub fn first_component(p: &str) -> (r: Option<String>)
    ensures
        match path_first_component(p@) {
            Some(n) => r matches Some(s) && s@ == n,
            None => r is None,
        },
{
    match Path::new(p).components().next() {
        Some(c) => Some(c.as_os_str().to_string_lossy().into_owned()),
        None => None,
    }
}

/// Calls `Path::parent`. Claimed: the result depends on the path alone.
#[verifier::external_body]
pub fn parent(p: &str) -> (r: Option<String>)
    ensures
        match path_parent(p@) {
            Some(n) => r matches Some(s) && s@ == n,
            None => r is None,
        },
{
    match Path::new(p).parent() {
        Some(d) => Some(d.to_string_lossy().into_owned()),
        None => None,
    }
}

/// Calls `Path::components` and collects each component's text. Claimed:
/// the result depends on the path alone.
#[verifier::external_body]
pub fn components(p: &str) -> (r: Vec<String>)
    ensures
        r@.map_values(|s: String| s@) == path_components(p@),
{
    Path::new(p).components().map(|c| c.as_os_str().to_string_lossy().into_owned()).collect()
}

} // verus!
