//! A titled tab.

use vstd::prelude::*;

verus! {

/// A tab with a title of its own.
pub struct Tab {
    pub title: String,
}

impl Tab {
    pub fn new(title: &str) -> (r: Self)
        ensures
            r.title@ == title@,
    {
        Tab { title: String::from_str(title) }
    }
}

} // verus!
