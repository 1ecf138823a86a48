//! The directory resolver: one platform-appropriate configuration root
//! for the application, with an empty fallback when the host cannot name
//! one.  The lookup itself is the platform's; the fallback decision and
//! the fixed database subpaths are verified here.  The surrounding
//! application computes the root once and caches it for the process
//! lifetime, since it never changes.

use vstd::prelude::*;
use vstd::string::StringExecFns;

verus! {

/// Relies on directories::UserDirs::new (directories crate): whether the
/// host can determine the user's home directory; `is_some` converts the
/// answer to a plain truth value.  The answer depends on the machine, so
/// nothing more is promised.
#[verifier::external_body]
fn user_dirs_present() -> bool {
    directories::UserDirs::new().is_some()
}

/// Relies on directories::ProjectDirs::from (directories crate), with
/// this application's fixed qualifier, organization and name: the
/// per-user configuration directory for the application, if the host has
/// one; `config_dir` picks the path out of the result, and the path is
/// converted to text.  The answer depends on the machine, so nothing
/// more is promised.
#[verifier::external_body]
fn project_config_dir() -> Option<String> {
    directories::ProjectDirs::from("net", "yarwhq", "yarw").map(
        |dirs| dirs.config_dir().to_string_lossy().into_owned(),
    )
}

/// The fallback rule: the looked-up directory when there is one, the
/// empty path otherwise.
pub fn config_dir_or_default(found: Option<String>) -> (r: String)
    ensures
        found matches Option::Some(p) ==> r@ == p@,
        found is None ==> r@ == Seq::<char>::empty(),
{
    match found {
        Option::Some(p) => p,
        Option::None => String::new(),
    }
}

/// The application's configuration root: the platform lookup, with the
/// empty path when the host has no user directory or no project
/// directory.  Callers must not assume the path exists or is writable;
/// what the lookup returns depends on the machine, so nothing is stated
/// of the non-empty case.
pub fn config_dir() -> String {
    if user_dirs_present() {
        config_dir_or_default(project_config_dir())
    } else {
        String::new()
    }
}

/// The profile store's database directory under the configuration root.
pub fn profiles_db_path(base: &str) -> (r: String)
    ensures
        r@ == base@ + "/profiles"@,
{
    let mut s = String::from_str(base);
    s.append("/profiles");
    s
}

/// The configuration record's database directory under the configuration
/// root.
pub fn config_db_path(base: &str) -> (r: String)
    ensures
        r@ == base@ + "/config"@,
{
    let mut s = String::from_str(base);
    s.append("/config");
    s
}

} // verus!
