//! Response status.

use vstd::prelude::*;

verus! {

#[derive(Debug, Clone, Copy, PartialEq, Eq)]
pub struct Status<'a> {
    pub code: u16,
    pub reason: &'a str,
}

impl<'a> Status<'a> {
    pub fn borrowed(code: u16, reason: &'a str) -> (r: Self)
        ensures
            r.code == code,
            r.reason@ == reason@,
    {
        Status { code, reason }
    }
}

} // verus!
