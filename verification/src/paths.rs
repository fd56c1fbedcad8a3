//! Paths as strings: joining (whose behaviour is a few lines, stated here) and
//! the component queries of `std::path::Path` (trusted wrappers, named results).

use vstd::prelude::*;

use crate::text::{chars_of, concat};

verus! {

/// A Unix path is absolute when it starts with the root `/`.
pub open spec fn is_absolute(p: Seq<char>) -> bool {
    p.len() > 0 && p[0] == '/'
}

/// `Path::join` on Unix: an absolute `rel` replaces `base`; otherwise a `/`
/// separates the two unless `base` is empty or already ends with one.
pub open spec fn join(base: Seq<char>, rel: Seq<char>) -> Seq<char> {
    if is_absolute(rel) {
        rel
    } else if base.len() == 0 || base.last() == '/' {
        base + rel
    } else {
        base + seq!['/'] + rel
    }
}

pub fn path_is_absolute(p: &str) -> (r: bool)
    ensures
        r == is_absolute(p@),
{
    let v = chars_of(p);
    v.len() > 0 && v[0] == '/'
}

/// `base` joined with `rel`, as `Path::join` does it.
pub fn path_join(base: &str, rel: &str) -> (r: String)
    ensures
        r@ == join(base@, rel@),
{
    if path_is_absolute(rel) {
        return String::from_str(rel);
    }
    let vb = chars_of(base);
    if vb.len() == 0 || vb[vb.len() - 1] == '/' {
        concat(base, rel)
    } else {
        let mut s = String::from_str(base);
        s.push('/');
        s.append(rel);
        s
    }
}

/// What `Path::file_name` gives for a path: its last normal component.
pub uninterp spec fn file_name_of(p: Seq<char>) -> Option<Seq<char>>;

/// What `Path::file_stem` gives for a path.
pub uninterp spec fn file_stem_of(p: Seq<char>) -> Option<Seq<char>>;

/// What `Path::extension` gives for a path.
pub uninterp spec fn extension_of(p: Seq<char>) -> Option<Seq<char>>;

/// What `Path::parent` gives for a path.
pub uninterp spec fn parent_of(p: Seq<char>) -> Option<Seq<char>>;

/// What `Path::strip_prefix` gives for a path and a base: the rest of `p`
/// after the components of `base`, when `base` is a component-wise prefix.
pub uninterp spec fn strip_base_of(p: Seq<char>, base: Seq<char>) -> Option<Seq<char>>;

/// Calls `std::path::Path::file_name`; the contract claims only that the
/// result is a function of the path's characters.
#[verifier::external_body]
pub(crate) fn path_file_name(p: &str) -> (r: Option<String>)
    ensures
        r matches Some(n) ==> file_name_of(p@) == Some(n@),
        r is None ==> file_name_of(p@) is None,
{
    std::path::Path::new(p).file_name().map(|n| n.to_string_lossy().into_owned())
}

/// Calls `std::path::Path::file_stem`; the contract claims only that the
/// result is a function of the path's characters.
#[verifier::external_body]
pub(crate) fn path_file_stem(p: &str) -> (r: Option<String>)
    ensures
        r matches Some(n) ==> file_stem_of(p@) == Some(n@),
        r is None ==> file_stem_of(p@) is None,
{
    std::path::Path::new(p).file_stem().map(|n| n.to_string_lossy().into_owned())
}

/// Calls `std::path::Path::extension`; the contract claims only that the
/// result is a function of the path's characters.
#[verifier::external_body]
pub(crate) fn path_extension(p: &str) -> (r: Option<String>)
    ensures
        r matches Some(n) ==> extension_of(p@) == Some(n@),
        r is None ==> extension_of(p@) is None,
{
    std::path::Path::new(p).extension().map(|n| n.to_string_lossy().into_owned())
}

/// Calls `std::path::Path::parent`; the contract claims only that the result
/// is a function of the path's characters.
#[verifier::external_body]
pub(crate) fn path_parent(p: &str) -> (r: Option<String>)
    ensures
        r matches Some(n) ==> parent_of(p@) == Some(n@),
        r is None ==> parent_of(p@) is None,
{
    std::path::Path::new(p).parent().map(|n| n.to_string_lossy().into_owned())
}

/// Calls `std::path::Path::strip_prefix`; the contract claims only that the
/// result is a function of the two paths' characters.
#[verifier::external_body]
pub(crate) fn path_strip_base(p: &str, base: &str) -> (r: Option<String>)
    ensures
        r matches Some(n) ==> strip_base_of(p@, base@) == Some(n@),
        r is None ==> strip_base_of(p@, base@) is None,
{
    std::path::Path::new(p).strip_prefix(base).ok().map(|n| n.to_string_lossy().into_owned())
}

} // verus!
