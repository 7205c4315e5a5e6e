//! Messages shown to the player.

use vstd::prelude::*;
use vstd::string::StringExecFns;
use crate::priority::Priority;

verus! {

/// A line of text with its urgency.
#[derive(Debug)]
pub struct Message {
    pub text: String,
    pub priority: Priority,
}

impl Message {
    pub fn new(s: &str, p: Priority) -> (m: Message)
        ensures
            m.text@ == s@,
            m.priority == p,
    {
        Message { text: String::from_str(s), priority: p }
    }
}

} // verus!
