//! Turning paths into text, and finding a file's history beside it.
use vstd::prelude::*;
use std::path::PathBuf;
use crate::errors::BBError;

verus! {

/// `std::path::PathBuf`, carried through as an opaque value.
#[verifier::external_type_specification]
#[verifier::external_body]
pub struct ExPathBuf(std::path::PathBuf);

/// The text of a path, or `None` where it is not valid Unicode.
pub uninterp spec fn path_text_of(p: PathBuf) -> Option<Seq<char>>;

/// Relies on `std::path::Path::to_str`: the path as text, or `None` where it
/// is not valid Unicode.
#[verifier::external_body]
fn path_text(path: &PathBuf) -> (r: Option<String>)
    ensures
        match r {
            Some(s) => path_text_of(*path) == Some(s@),
            None => path_text_of(*path) is None,
        },
{
    path.to_str().map(|s| s.to_string())
}

/// The path as text; a `ConversionError` exactly where it is not valid Unicode.
pub fn pathbuf_to_string<I: Into<PathBuf>>(path: I) -> (r: Result<String, BBError>)
    ensures
        exists|p: PathBuf|
            call_ensures(<I as Into<PathBuf>>::into, (path,), p) && match r {
                Ok(s) => path_text_of(p) == Some(s@),
                Err(e) => e is ConversionError && path_text_of(p) is None,
            },
{
    let pathbuf: PathBuf = path.into();
    match path_text(&pathbuf) {
        Some(text) => Ok(text),
        None => Err(BBError::ConversionError(String::from_str("unable to convert path to text"))),
    }
}

/// The last component of a path as text: `None` where there is none (the
/// path ends in `..` or is a root) or it is not valid Unicode.
pub uninterp spec fn file_name_of(p: PathBuf) -> Option<Seq<char>>;

/// The path without its last component.
pub uninterp spec fn parent_of(p: PathBuf) -> PathBuf;

/// The path extended by the component `s`.
pub uninterp spec fn pushed(p: PathBuf, s: Seq<char>) -> PathBuf;

/// Relies on `std::path::Path::file_name` and `std::ffi::OsStr::to_str`: the
/// last component as text, if there is one and it is valid Unicode.
#[verifier::external_body]
fn file_name_text(path: &PathBuf) -> (r: Option<String>)
    ensures
        match r {
            Some(s) => file_name_of(*path) == Some(s@),
            None => file_name_of(*path) is None,
        },
{
    path.file_name().and_then(|n| n.to_str()).map(|s| s.to_string())
}

/// Relies on `std::path::PathBuf::pop`: truncates the path to its parent.
#[verifier::external_body]
fn pop_path(path: &mut PathBuf)
    ensures
        *final(path) == parent_of(*old(path)),
{
    path.pop();
}

/// Relies on `std::path::PathBuf::push`: extends the path by `s`.
#[verifier::external_body]
fn push_path(path: &mut PathBuf, s: &str)
    ensures
        *final(path) == pushed(*old(path), s@),
{
    path.push(s);
}

/// Where the history of `file` is kept: `<parent>/bak/<name>/<name>_swinstall_stack`,
/// with `<name>` the file's name; a `ConversionError` where the path has no
/// file name that is valid Unicode.
pub fn stack_history_from_path<F: Into<PathBuf>>(file: F) -> (r: Result<PathBuf, BBError>)
    ensures
        exists|p: PathBuf|
            call_ensures(<F as Into<PathBuf>>::into, (file,), p) && match r {
                Ok(q) => file_name_of(p) matches Some(n) && q == pushed(
                    pushed(pushed(parent_of(p), "bak"@), n),
                    n + "_swinstall_stack"@,
                ),
                Err(e) => e is ConversionError && file_name_of(p) is None,
            },
{
    let mut pb: PathBuf = file.into();
    let ghost p = pb;
    let filename = match file_name_text(&pb) {
        Some(n) => n,
        None => {
            return Err(
                BBError::ConversionError(String::from_str("unable to get a file name from the path")),
            );
        },
    };
    pop_path(&mut pb);
    push_path(&mut pb, "bak");
    push_path(&mut pb, filename.as_str());
    let history = filename.clone().concat("_swinstall_stack");
    push_path(&mut pb, history.as_str());
    Ok(pb)
}

} // verus!
