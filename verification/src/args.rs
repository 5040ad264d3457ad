//! Parsing of `repo:package[:version]` command-line arguments.

use vstd::prelude::*;

use crate::text::{lemma_split_colon_len, split_colon};

verus! {

/// Whether `arg` has the `repo:package` shape that `parse_pkg_arg` requires:
/// at least two `':'`-separated segments.
pub fn has_package_shape(arg: &str) -> (r: bool)
    ensures
        r == (split_colon(arg@).len() >= 2),
{
    let i = crate::text::find_colon(arg);
    let n = arg.unicode_len();
    proof {
        lemma_split_colon_len(arg@);
    }
    i < n
}

/// Split a `repo:package[:version]` argument into its repository, package and
/// optional version: the first three `':'`-separated segments (anything after
/// a third `':'` is ignored).
pub fn parse_pkg_arg(arg: &str) -> (r: (String, String, Option<String>))
    requires
        split_colon(arg@).len() >= 2,
    ensures
        r.0@ == split_colon(arg@)[0],
        r.1@ == split_colon(arg@)[1],
        match r.2 {
            Some(v) => split_colon(arg@).len() >= 3 && v@ == split_colon(arg@)[2],
            None => split_colon(arg@).len() == 2,
        },
{
    let parts = crate::text::split_colons(arg);
    let repo = parts[0].clone();
    let package = parts[1].clone();
    let version = if parts.len() > 2 {
        Some(parts[2].clone())
    } else {
        None
    };
    (repo, package, version)
}

} // verus!
