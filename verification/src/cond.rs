//! What an execution reports about a comparison: the site that compared and
//! the input byte ranges whose contents reached it.

use vstd::prelude::*;

verus! {

/// One tainted range of the input: the bytes from `begin` up to, but not
/// including, `end`, and whether they were read as a signed quantity.
#[derive(Clone, Copy, Debug, PartialEq, Eq)]
pub struct TagSeg {
    pub sign: bool,
    pub begin: u32,
    pub end: u32,
}

/// A discovered-token record: the comparison site and the tainted ranges
/// whose live contents are candidates for the dictionary.
#[derive(Clone, Debug, PartialEq, Eq)]
pub struct SCond {
    pub cmpid: u32,
    pub offsets: Vec<TagSeg>,
}

impl SCond {
    /// A record for comparison site `cmpid` over the ranges `offsets`.
    pub fn new(cmpid: u32, offsets: Vec<TagSeg>) -> (cond: SCond)
        ensures
            cond.cmpid == cmpid,
            cond.offsets == offsets,
    {
        SCond { cmpid, offsets }
    }
}

impl Default for SCond {
    /// The record of site 0 with no ranges.
    fn default() -> (cond: SCond)
        ensures
            cond.cmpid == 0,
            cond.offsets@.len() == 0,
    {
        SCond { cmpid: 0, offsets: Vec::new() }
    }
}

} // verus!
