//! File paths as the editing core sees them: plain strings, which are
//! compared as paths and of which only the file name is ever looked at.

use vstd::prelude::*;

verus! {

/// The file name that `Path::file_name` finds in a path: its final
/// component, if it has one, by the rules of the platform that the library
/// is built for.
pub uninterp spec fn file_name_in(path: Seq<char>) -> Option<Seq<char>>;

/// True when `a` and `b` are equal as paths, which is how `Path` compares
/// with `==`: component by component, by the rules of the platform that
/// the library is built for, so that a repeated separator, a `.` inside
/// the path and a separator at its end make no difference.
pub uninterp spec fn same_path(a: Seq<char>, b: Seq<char>) -> bool;

/// True when `held`, the path of a document, is there and equal to `path`
/// as a path.
pub open spec fn is_path(held: Option<Seq<char>>, path: Seq<char>) -> bool {
    match held {
        Some(p) => same_path(p, path),
        None => false,
    }
}

/// The title of a document with the given path: the file name of the
/// path, or "Untitled" for a document without a path or a path without a
/// file name.
pub open spec fn title_of(path: Option<Seq<char>>) -> Seq<char> {
    match path {
        Some(p) => match file_name_in(p) {
            Some(name) => name,
            None => "Untitled"@,
        },
        None => "Untitled"@,
    }
}

/// `Path::file_name` gives the final component of a path, if it has one.
/// The contract only gives the result its name: the same path has the same
/// file name every time.
#[verifier::external_body]
pub(crate) fn file_name_of(path: &str) -> (name: Option<String>)
    ensures
        match name {
            Some(n) => file_name_in(path@) == Some(n@),
            None => file_name_in(path@) is None,
        },
{
    match std::path::Path::new(path).file_name() {
        Some(name) => Some(name.to_string_lossy().into_owned()),
        None => None,
    }
}

/// `Path`'s `==` compares two paths by their components. The contract
/// gives the result its name, and says of it what `Eq` promises of every
/// type: a path is equal to itself.
#[verifier::external_body]
pub(crate) fn paths_equal(a: &str, b: &str) -> (same: bool)
    ensures
        same == same_path(a@, b@),
        a@ == b@ ==> same,
{
    std::path::Path::new(a) == std::path::Path::new(b)
}

/// The title of a document whose path has the given file name: the file
/// name itself, or "Untitled" where there is none.
pub fn title_from(file_name: Option<String>) -> (title: String)
    ensures
        title@ == (match file_name {
            Some(name) => name@,
            None => "Untitled"@,
        }),
{
    match file_name {
        Some(name) => name,
        None => "Untitled".to_owned(),
    }
}

} // verus!
