//! Records handed to mappers, and the key and value types that flow between phases.

use vstd::prelude::*;

verus! {

pub type Key = String;

pub type Value = String;

/// One line of input: its position among all input lines, and its text.
#[derive(Debug, Clone, PartialEq, Eq)]
pub struct InputRecord {
    pub offset: u64,
    pub value: String,
}

impl InputRecord {
    pub fn new(offset: u64, value: &str) -> (r: Self)
        ensures
            r.offset == offset,
            r.value@ == value@,
    {
        InputRecord { offset, value: String::from_str(value) }
    }
}

} // verus!
