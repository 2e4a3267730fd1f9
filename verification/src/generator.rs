//! Decisions of the program that generates patch archives from a patch
//! definition.

use vstd::prelude::*;
use vstd::string::*;

verus! {

/// One entry of a patch definition.
#[derive(Clone, Debug)]
pub struct PatchEntry {
    /// Path of the file or directory, relative to the patch data directory.
    pub relative_path: String,
    /// Whether the patch removes the path.
    pub is_removed: bool,
    /// Path under which the file is stored in the target archive, if it
    /// differs.
    pub in_grf_path: Option<String>,
}

/// What the patch data directory holds at an entry's path.
#[derive(Clone, Copy, Debug, PartialEq, Eq, Structural)]
pub enum PathKind {
    File,
    Directory,
    Missing,
}

/// What the generator does for one entry of a patch definition.
#[derive(Clone, Debug)]
pub enum PatchAction {
    /// Record the removal of the given archive path.
    Remove(String),
    /// Store the file found at the native path under the archive path.
    UpdateFile { native_path: String, archive_path: String },
    /// Store every file below the directory at the native path.
    UpdateDirectory { native_path: String },
    /// The path is neither a file nor a directory.
    Invalid { native_path: String },
}

/// `path` with every `from` replaced by `to`.
pub open spec fn with_separator(path: Seq<char>, from: char, to: char) -> Seq<char> {
    Seq::new(path.len(), |i: int| if path[i] == from {
        to
    } else {
        path[i]
    })
}

/// Replaces every `from` in `path` by the one character of `to`, with
/// `str::replace`. The std documentation says that all matches of the
/// pattern, here one character, are replaced; every other character is
/// kept in its place.
#[verifier::external_body]
fn replace_separator(path: &str, from: char, to: &str) -> (r: String)
    requires
        to@.len() == 1,
    ensures
        r@ == with_separator(path@, from, to@[0]),
{
    path.replace(from, to)
}

/// `path` with forward slashes in place of backslashes.
pub fn posix_path(path: &str) -> (r: String)
    ensures
        r@ == with_separator(path@, '\\', '/'),
{
    proof {
        reveal_strlit("/");
    }
    replace_separator(path, '\\', "/")
}

/// `path` with backslashes in place of forward slashes.
pub fn win32_path(path: &str) -> (r: String)
    ensures
        r@ == with_separator(path@, '/', '\\'),
{
    proof {
        reveal_strlit("\\");
    }
    replace_separator(path, '/', "\\")
}

/// Decides what to do for one entry of a patch definition, given what the
/// patch data directory holds at its path. A removal is recorded under the
/// entry's own path with backslashes. A file is stored under the path the
/// entry names for the archive, or else under its own path with
/// backslashes. The native path is the entry's path with forward slashes.
pub fn plan_entry(entry: &PatchEntry, kind: PathKind) -> (r: PatchAction)
    ensures
        match r {
            PatchAction::Remove(path) => entry.is_removed && path@ == with_separator(
                entry.relative_path@,
                '/',
                '\\',
            ),
            PatchAction::UpdateFile { native_path, archive_path } => {
                &&& !entry.is_removed
                &&& kind == PathKind::File
                &&& native_path@ == with_separator(entry.relative_path@, '\\', '/')
                &&& archive_path@ == match entry.in_grf_path {
                    Some(p) => p@,
                    None => with_separator(entry.relative_path@, '/', '\\'),
                }
            },
            PatchAction::UpdateDirectory { native_path } => {
                &&& !entry.is_removed
                &&& kind == PathKind::Directory
                &&& native_path@ == with_separator(entry.relative_path@, '\\', '/')
            },
            PatchAction::Invalid { native_path } => {
                &&& !entry.is_removed
                &&& kind == PathKind::Missing
                &&& native_path@ == with_separator(entry.relative_path@, '\\', '/')
            },
        },
{
    let win32_relative_path = win32_path(entry.relative_path.as_str());
    if entry.is_removed {
        return PatchAction::Remove(win32_relative_path);
    }
    let native_path = posix_path(entry.relative_path.as_str());
    match kind {
        PathKind::File => {
            let archive_path = match &entry.in_grf_path {
                Some(p) => p.clone(),
                None => win32_relative_path,
            };
            PatchAction::UpdateFile { native_path, archive_path }
        },
        PathKind::Directory => PatchAction::UpdateDirectory { native_path },
        PathKind::Missing => PatchAction::Invalid { native_path },
    }
}

} // verus!
