//! Wattea: battery consumption tracking for Linux laptops.
//!
//! The verified core: parsers for the kernel's text interfaces and UPower's
//! history files, the sample model, on-battery session segmentation, the
//! per-process CPU attribution, the dashboard's view state and its text
//! formatting.

pub mod app;
pub mod battery;
pub mod process;
pub mod storage;
pub mod system;
pub mod text;
pub mod ui;
pub mod upower;

use std::path::PathBuf;
use vstd::prelude::*;

verus! {

/// `dirs::data_dir`: the user's data directory (on Linux `$XDG_DATA_HOME`,
/// else `$HOME/.local/share`). It depends on the environment, so nothing is
/// stated of the result.
#[verifier::external_body]
fn user_data_dir() -> Option<PathBuf> {
    dirs::data_dir()
}

/// What `Path::join` gives for `base` and the relative part `part`: a
/// function of the two alone (it only manipulates the path, it does not
/// look at the file system).
pub uninterp spec fn joined_path(base: PathBuf, part: Seq<char>) -> PathBuf;

/// `Path::join`: `base` with `part` appended. The result is named, not
/// spelled out: it is `joined_path` of the two arguments.
#[verifier::external_body]
fn path_join(base: &PathBuf, part: &str) -> (r: PathBuf)
    ensures
        r == joined_path(*base, part@),
{
    base.join(part)
}

/// The wattea data directory under the user's data directory `base`:
/// `base` joined with `wattea`; `None` when there is no data directory.
pub fn data_dir_in(base: Option<PathBuf>) -> (r: Option<PathBuf>)
    ensures
        r == match base {
            Some(b) => Some(joined_path(b, "wattea"@)),
            None => None,
        },
{
    match base {
        Some(d) => Some(path_join(&d, "wattea")),
        None => None,
    }
}

/// The database file under the user's data directory `base`: `base`
/// joined with `wattea`, then `db.sqlite`; `None` when there is no data
/// directory.
pub fn db_path_in(base: Option<PathBuf>) -> (r: Option<PathBuf>)
    ensures
        r == match base {
            Some(b) => Some(joined_path(joined_path(b, "wattea"@), "db.sqlite"@)),
            None => None,
        },
{
    match data_dir_in(base) {
        Some(dd) => Some(path_join(&dd, "db.sqlite")),
        None => None,
    }
}

/// Wattea data directory: `~/.local/share/wattea/`.
///
/// Holds the SQLite database and any future runtime artifacts. It is
/// `data_dir_in` of the user's data directory, which depends on the
/// environment: whatever that lookup gives, a returned path is some
/// directory joined with `wattea`.
pub fn data_dir() -> (r: Option<PathBuf>)
    ensures
        r matches Some(p) ==> exists|d: PathBuf| p == #[trigger] joined_path(d, "wattea"@),
{
    data_dir_in(user_data_dir())
}

/// Full path to the SQLite database file: `db_path_in` of the user's data
/// directory (which depends on the environment): `db.sqlite` in the data
/// directory, `None` when there is no data directory.
pub fn db_path() -> (r: Option<PathBuf>)
    ensures
        r matches Some(p) ==> exists|d: PathBuf|
            p == joined_path(#[trigger] joined_path(d, "wattea"@), "db.sqlite"@),
{
    db_path_in(user_data_dir())
}

} // verus!
