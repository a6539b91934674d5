//! The arguments of the `SET` command.

use vstd::prelude::*;

verus! {

/// Key, value, and the optional `PX` expiry in milliseconds.
#[derive(Debug)]
pub struct SetArguments {
    pub key: String,
    pub value: String,
    pub px: Option<u128>,
}

impl SetArguments {
    /// Arguments with no expiry; `PX` fills `px` in afterwards.
    pub fn new(key: String, value: String) -> (r: Self)
        ensures
            r.key == key,
            r.value == value,
            r.px is None,
    {
        Self { key, value, px: None }
    }
}

} // verus!
