//! Who may scan and connect.

use vstd::prelude::*;

verus! {

/// Scanning and connecting are for the `root` user alone.
pub fn is_root_user(user: &str) -> (r: bool)
    ensures
        r == (user@ == "root"@),
{
    let name = String::from_str(user);
    let root = String::from_str("root");
    name == root
}

} // verus!
