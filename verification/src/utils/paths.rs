//! File paths as text. The library keeps a path as the string that names it;
//! what a path means is left to the platform's own path functions, which the
//! wrappers in this file call.
//!
//! The names below stand for what those functions give on the platform that
//! the library is built for: a path is taken apart at the separators of that
//! platform. They depend on their arguments alone; nothing is read from the
//! file system or the environment.

use vstd::prelude::*;
use crate::utils::text::{opt_text, texts};

verus! {

/// Whether `text` holds no path separator.
pub open spec fn no_separator(text: Seq<char>) -> bool {
    forall|i: int| 0 <= i < text.len() ==> text[i] != '/' && text[i] != '\\'
}

/// The path `path` with its extension replaced by `extension` (removed, where
/// `extension` is empty).
pub uninterp spec fn path_with_extension(path: Seq<char>, extension: Seq<char>) -> Seq<char>;

/// What is left of `path` below `root`, if `path` lies below `root`.
pub uninterp spec fn path_strip_prefix(path: Seq<char>, root: Seq<char>) -> Option<Seq<char>>;

/// The components of `path`, in order.
pub uninterp spec fn path_components(path: Seq<char>) -> Seq<Seq<char>>;

/// The last component of `path` without its extension, if `path` ends in a
/// file name.
pub uninterp spec fn path_file_stem(path: Seq<char>) -> Option<Seq<char>>;

/// The extension of the last component of `path`, if it has one.
pub uninterp spec fn path_extension(path: Seq<char>) -> Option<Seq<char>>;

/// Whether `path` lies below `root`, component by component.
pub uninterp spec fn path_starts_with(path: Seq<char>, root: Seq<char>) -> bool;

/// The path one level up from `path`, if there is one.
pub uninterp spec fn path_parent(path: Seq<char>) -> Option<Seq<char>>;

/// The last component of `path`, if `path` ends in a name.
pub uninterp spec fn path_file_name(path: Seq<char>) -> Option<Seq<char>>;

/// The path `name` below the directory `dir`.
pub uninterp spec fn path_join(dir: Seq<char>, name: Seq<char>) -> Seq<char>;

/// Trusted: `std::path::Path::with_extension` depends on its two arguments
/// alone. An extension that holds a path separator makes it panic, so such an
/// extension is not accepted here.
#[verifier::external_body]
pub(crate) fn with_extension(path: &str, extension: &str) -> (r: String)
    requires
        no_separator(extension@),
    ensures
        r@ == path_with_extension(path@, extension@),
{
    std::path::Path::new(path).with_extension(extension).to_string_lossy().into_owned()
}

/// Trusted: `std::path::Path::strip_prefix` depends on its two arguments
/// alone; it fails where `path` does not lie below `root`.
#[verifier::external_body]
pub(crate) fn strip_prefix(path: &str, root: &str) -> (r: Option<String>)
    ensures
        opt_text(r) == path_strip_prefix(path@, root@),
{
    std::path::Path::new(path).strip_prefix(root).ok().map(|p| p.to_string_lossy().into_owned())
}

/// Trusted: `std::path::Path::components` depends on the path alone.
#[verifier::external_body]
pub(crate) fn components(path: &str) -> (r: Vec<String>)
    ensures
        texts(r@) == path_components(path@),
{
    std::path::Path::new(path).components().map(
        |c| c.as_os_str().to_string_lossy().into_owned(),
    ).collect()
}

/// Trusted: `std::path::Path::file_stem` depends on the path alone.
#[verifier::external_body]
pub(crate) fn file_stem(path: &str) -> (r: Option<String>)
    ensures
        opt_text(r) == path_file_stem(path@),
{
    std::path::Path::new(path).file_stem().map(|s| s.to_string_lossy().into_owned())
}

/// Trusted: `std::path::Path::extension` depends on the path alone.
#[verifier::external_body]
pub(crate) fn extension(path: &str) -> (r: Option<String>)
    ensures
        opt_text(r) == path_extension(path@),
{
    std::path::Path::new(path).extension().map(|s| s.to_string_lossy().into_owned())
}

/// Trusted: `std::path::Path::starts_with` depends on its two arguments
/// alone.
#[verifier::external_body]
pub(crate) fn starts_with(path: &str, root: &str) -> (r: bool)
    ensures
        r == path_starts_with(path@, root@),
{
    std::path::Path::new(path).starts_with(root)
}

/// Trusted: `std::path::Path::parent` depends on the path alone, and what it
/// returns is a leading part of the path that is shorter than the path.
#[verifier::external_body]
pub(crate) fn parent(path: &str) -> (r: Option<String>)
    ensures
        opt_text(r) == path_parent(path@),
        r matches Some(p) ==> p@.len() < path@.len(),
{
    std::path::Path::new(path).parent().map(|p| p.to_string_lossy().into_owned())
}

/// Trusted: `std::path::Path::file_name` depends on the path alone.
#[verifier::external_body]
pub(crate) fn file_name(path: &str) -> (r: Option<String>)
    ensures
        opt_text(r) == path_file_name(path@),
{
    std::path::Path::new(path).file_name().map(|s| s.to_string_lossy().into_owned())
}

/// Trusted: `std::path::Path::join` depends on its two arguments alone.
#[verifier::external_body]
pub(crate) fn join_path(dir: &str, name: &str) -> (r: String)
    ensures
        r@ == path_join(dir@, name@),
{
    std::path::Path::new(dir).join(name).to_string_lossy().into_owned()
}

} // verus!
