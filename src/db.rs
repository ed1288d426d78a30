//! The store's façade; reading and writing go through the caller's I/O.

use crate::config::Config;
use vstd::prelude::*;

verus! {

/// An open store.
pub struct DB {}

/// Opens the store that `config` describes.
pub fn open_db(config: Config) -> (r: DB) {
    DB::new()
}

impl DB {
    pub fn new() -> (r: DB) {
        DB {  }
    }
}

} // verus!
