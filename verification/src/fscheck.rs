//! Validation of the primary trace file argument: it must name an existing
//! regular file. Only the primary file's unavailability is fatal to a run;
//! the checks themselves go to the filesystem and are therefore trusted,
//! while the decision taken on their outcome is verified.

use vstd::prelude::*;

verus! {

/// The verdict on a candidate trace file path.
#[derive(PartialEq, Eq, Structural, Clone, Copy, Debug)]
pub enum FileCheck {
    Usable,
    Missing,
    NotRegular,
}

/// The decision taken on the outcome of the two filesystem probes: a path is
/// usable exactly when it exists and is a regular file; a missing path is
/// reported as missing even though it is not a regular file either.
pub fn file_status(exists: bool, regular: bool) -> (r: FileCheck)
    ensures
        r == (if !exists {
            FileCheck::Missing
        } else if !regular {
            FileCheck::NotRegular
        } else {
            FileCheck::Usable
        }),
{
    if !exists {
        FileCheck::Missing
    } else if !regular {
        FileCheck::NotRegular
    } else {
        FileCheck::Usable
    }
}

/// Relies on std::path::Path::exists: whether the path names anything on
/// disk. The outcome depends on the filesystem, so nothing is promised of it.
#[verifier::external_body]
fn path_exists(s: &str) -> bool {
    std::path::Path::new(s).exists()
}

/// Relies on std::path::Path::is_file: whether the path names a regular
/// file. The outcome depends on the filesystem, so nothing is promised of it.
#[verifier::external_body]
fn path_is_file(s: &str) -> bool {
    std::path::Path::new(s).is_file()
}

/// Relies on the Debug rendering of std::path::Path to quote the path in the
/// error message.
#[verifier::external_body]
fn describe_missing(s: &str) -> String {
    format!("does not exist: {:?}", std::path::Path::new(s))
}

/// Relies on the Debug rendering of std::path::Path to quote the path in the
/// error message.
#[verifier::external_body]
fn describe_not_file(s: &str) -> String {
    format!("is not a file: {:?}", std::path::Path::new(s))
}

/// Checks that `s` names an existing regular file; the error message says
/// which of the two conditions failed. The outcome follows the filesystem,
/// so no more can be stated of it.
pub fn is_file(s: String) -> Result<(), String> {
    let exists = path_exists(s.as_str());
    let regular = path_is_file(s.as_str());
    match file_status(exists, regular) {
        FileCheck::Usable => Ok(()),
        FileCheck::Missing => Err(describe_missing(s.as_str())),
        FileCheck::NotRegular => Err(describe_not_file(s.as_str())),
    }
}

} // verus!
