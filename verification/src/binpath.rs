//! Builds the path of a compiled binary inside a cargo target directory,
//! the way integration-test harnesses look a program up: under
//! `target/debug` locally, or under `target/<triple>/debug` when a build
//! target is set.

use vstd::prelude::*;
use vstd::string::StringExecFns;

verus! {

/// The path to a package's debug binary, honouring an optional build
/// target directory.
pub fn program_path(package_name: &str, target: Option<&str>) -> (r: String)
    ensures
        match target {
            Some(t) => r@ == "target/"@ + t@ + "/debug/"@ + package_name@,
            None => r@ == "target/debug/"@ + package_name@,
        },
{
    let mut s = String::new();
    match target {
        Some(t) => {
            s.append("target/");
            s.append(t);
            s.append("/debug/");
            s.append(package_name);
            proof {
                assert(s@ =~= "target/"@ + t@ + "/debug/"@ + package_name@);
            }
        },
        None => {
            s.append("target/debug/");
            s.append(package_name);
            proof {
                assert(s@ =~= "target/debug/"@ + package_name@);
            }
        },
    }
    s
}

} // verus!
