//! Startup configuration handed to the server: the listen address and the
//! optional snapshot directory and file name.

use vstd::prelude::*;

verus! {

/// What the process was started with.
pub struct Config {
    pub addr: String,
    pub rdb_dir: Option<String>,
    pub rdb_file_name: Option<String>,
}

impl Config {
    /// A configuration with the given address and optional snapshot names.
    pub fn new(addr: String, rdb_dir: Option<String>, rdb_file_name: Option<String>) -> (r: Self)
        ensures
            r.addr == addr,
            r.rdb_dir == rdb_dir,
            r.rdb_file_name == rdb_file_name,
    {
        Self { addr, rdb_dir, rdb_file_name }
    }
}

} // verus!
