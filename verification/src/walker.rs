//! The rules of the gitignore-aware walk shared by the commands: the noise
//! directories it never enters, and what counts as a test file.
use vstd::prelude::*;
use crate::commands::grep::is_test_name;
use crate::paths::{file_name_or_empty, name_or_empty};
use crate::text::{chars_of, contains_exec, starts_with_exec};

verus! {

/// The standard noise directories excluded from all walks.
pub open spec fn is_noise(name: Seq<char>) -> bool {
    name == "node_modules"@ || name == ".git"@ || name == ".yarn"@ || name == "dist"@ || name == "build"@
        || name == ".next"@ || name == "__pycache__"@ || name == "target"@ || name == ".turbo"@ || name == ".cache"@
        || name == ".parcel-cache"@
}

/// Whether the walk skips an entry of this name.
pub fn is_noise_dir(name: &str) -> (b: bool)
    ensures
        b == is_noise(name@),
{
    name.eq("node_modules") || name.eq(".git") || name.eq(".yarn") || name.eq("dist") || name.eq("build")
        || name.eq(".next") || name.eq("__pycache__") || name.eq("target") || name.eq(".turbo") || name.eq(".cache")
        || name.eq(".parcel-cache")
}

/// Check if a file path looks like a test file.
pub fn is_test_file(path: &str) -> (b: bool)
    ensures
        b == is_test_name(name_or_empty(path@)),
{
    let name = file_name_or_empty(path);
    contains_exec(&name, &chars_of(".test.")) || contains_exec(&name, &chars_of(".spec."))
        || contains_exec(&name, &chars_of("_test.")) || starts_with_exec(&name, &chars_of("test_"))
        || contains_exec(&name, &chars_of(".mocha."))
}

} // verus!
