//! Which files are raster files.

use vstd::prelude::*;

verus! {

/// Tells whether a file name has the extension `asc`: it ends in `.asc`
/// and has at least one byte before that. The match is case-sensitive.
pub open spec fn has_asc_extension(name: Seq<u8>) -> bool {
    &&& name.len() > 4
    &&& name[name.len() - 4] == 46
    &&& name[name.len() - 3] == 97
    &&& name[name.len() - 2] == 115
    &&& name[name.len() - 1] == 99
}

/// Tells whether the file of the given name, taken without its directory,
/// is a raster file to be converted.
pub fn is_asc_file_name(name: &[u8]) -> (r: bool)
    ensures
        r == has_asc_extension(name@),
{
    let n = name.len();
    n > 4 && name[n - 4] == 46 && name[n - 3] == 97 && name[n - 2] == 115 && name[n - 1] == 99
}

} // verus!
