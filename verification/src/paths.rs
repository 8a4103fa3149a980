//! Where the schedules are kept on disk by default.

use std::path::PathBuf;
use vstd::prelude::*;

verus! {

/// A path of the file system; nothing of what is inside it is looked at
/// here.
#[verifier::external_type_specification]
#[verifier::external_body]
pub struct ExPathBuf(PathBuf);

/// The name of the directory, under the user's data directory, that holds
/// what the application stores.
pub const APP_DIR_NAME: &'static str = "uni-schedule";

/// The name of the file of schedules inside that directory.
pub const SCHEDULE_DB_FILE: &'static str = "schedules.db";

/// The path that `PathBuf::from` makes of a text.
pub uninterp spec fn path_of(text: Seq<char>) -> PathBuf;

/// The path that `Path::join` makes of a path and the text of a further
/// component.
pub uninterp spec fn joined(base: PathBuf, name: Seq<char>) -> PathBuf;

/// The path written as `text`, by `PathBuf::from`, which turns a string
/// into a path without looking at the file system.
#[verifier::external_body]
fn path_from(text: &str) -> (p: PathBuf)
    ensures
        p == path_of(text@),
{
    PathBuf::from(text)
}

/// `base` with `name` adjoined, by `Path::join`, which works on the two
/// paths alone and does not look at the file system.
#[verifier::external_body]
fn join(base: &PathBuf, name: &str) -> (p: PathBuf)
    ensures
        p == joined(*base, name@),
{
    base.join(name)
}

/// The user's data directory as `dirs::data_dir` reports it. It is read
/// from the environment of the process, so nothing is claimed of it.
#[verifier::external_body]
fn user_data_dir() -> (dir: Option<PathBuf>) {
    dirs::data_dir()
}

/// The application's directory under the data directory `base`; under the
/// current directory where there is no data directory.
pub open spec fn app_dir_under(base: Option<PathBuf>) -> PathBuf {
    joined(
        match base {
            Some(dir) => dir,
            None => path_of("."@),
        },
        APP_DIR_NAME@,
    )
}

/// The file of schedules in the application's directory under `base`.
pub open spec fn storage_file_under(base: Option<PathBuf>) -> PathBuf {
    joined(app_dir_under(base), SCHEDULE_DB_FILE@)
}

/// The application's directory under the data directory `base`; under the
/// current directory where there is no data directory.
pub fn app_data_dir_under(base: Option<PathBuf>) -> (p: PathBuf)
    ensures
        p == app_dir_under(base),
{
    let root = match base {
        Some(dir) => dir,
        None => path_from("."),
    };
    join(&root, APP_DIR_NAME)
}

/// The file of schedules in the application's directory under `base`.
pub fn default_storage_file_under(base: Option<PathBuf>) -> (p: PathBuf)
    ensures
        p == storage_file_under(base),
{
    let dir = app_data_dir_under(base);
    join(&dir, SCHEDULE_DB_FILE)
}

/// The application's directory under the user's data directory.
pub fn app_data_dir() -> (p: PathBuf)
    ensures
        exists|base: Option<PathBuf>| p == app_dir_under(base),
{
    app_data_dir_under(user_data_dir())
}

/// The file of schedules under the user's data directory.
pub fn default_storage_file() -> (p: PathBuf)
    ensures
        exists|base: Option<PathBuf>| p == storage_file_under(base),
{
    default_storage_file_under(user_data_dir())
}

/// The directory to hand to a loader of schedules: the application's
/// directory, which holds the file of schedules.
pub fn default_storage_path() -> (p: PathBuf)
    ensures
        exists|base: Option<PathBuf>| p == app_dir_under(base),
{
    app_data_dir()
}

} // verus!
