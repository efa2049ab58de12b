//! Which directory entries a listing shows.

use vstd::prelude::*;

verus! {

/// The Windows file attribute bit of hidden files.
pub const FILE_ATTRIBUTE_HIDDEN: u32 = 0x2;

/// The Windows file attribute bit of system files.
pub const FILE_ATTRIBUTE_SYSTEM: u32 = 0x4;

/// Whether Windows file attributes mark a file hidden or system.
pub fn is_hidden_or_system(attributes: u32) -> (r: bool)
    ensures
        r == (attributes & FILE_ATTRIBUTE_HIDDEN != 0 || attributes & FILE_ATTRIBUTE_SYSTEM != 0),
{
    (attributes & FILE_ATTRIBUTE_HIDDEN) > 0 || (attributes & FILE_ATTRIBUTE_SYSTEM) > 0
}

/// A name that starts with a dot.
pub open spec fn is_dot_name(name: Seq<u8>) -> bool {
    name.len() > 0 && name[0] == 0x2eu8
}

/// Whether an entry is listed: all are when hidden files are shown;
/// otherwise neither dot-named entries nor those marked hidden or system are.
pub fn entry_visible(name: &[u8], hidden_or_system: bool, show_hidden: bool) -> (r: bool)
    ensures
        r == (show_hidden || (!is_dot_name(name@) && !hidden_or_system)),
{
    if show_hidden {
        return true;
    }
    let dot = name.len() > 0 && name[0] == 0x2eu8;
    !dot && !hidden_or_system
}

} // verus!
