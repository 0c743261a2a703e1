//! Paths of tables, as text.

use vstd::prelude::*;

pub use crate::read::create_index_path;

verus! {

/// The path as text to be shown.
pub fn get_path_str(path: &String) -> (r: &str)
    ensures
        r@ == path@,
{
    path.as_str()
}

} // verus!
