//! Where a store keeps its files.

use vstd::prelude::*;

verus! {

pub struct Config {
    /// Directory to store the main data in. Should exist and be writable.
    pub dir: String,
    /// Directory to store the value log in. Can be the same as `dir`.
    pub value_dir: String,
}

} // verus!
