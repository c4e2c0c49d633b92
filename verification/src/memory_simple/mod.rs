//! Memory traces that were recorded beforehand.

pub mod hbm_ld_st;

use vstd::prelude::*;
use vstd::string::*;

verus! {

/// A block of a recorded trace: which tile was loaded, and how long that took.
#[derive(Debug, Clone, Copy, PartialEq, Eq)]
pub struct HBMEntry {
    pub outer: u32,
    pub m: u32,
    pub n: u32,
    pub k: u32,
    pub time_block_ns: u64,
    pub output_tile_available: bool,
    pub num_elems: u32,
}

/// A tile in on-chip memory.
#[derive(Debug, Clone, Copy, PartialEq, Eq, PartialOrd, Default)]
pub struct PMUEntry {
    pub outer: u32,
    pub m: u32,
    pub n: u32,
    pub k: u32,
    pub output_tile_available: bool,
    pub num_elems: u32,
}

/// The tile that a block of a trace loads.
pub fn hbm_to_pmu(hbm_entry: &HBMEntry) -> (res: PMUEntry)
    ensures
        res == (PMUEntry {
            outer: hbm_entry.outer,
            m: hbm_entry.m,
            n: hbm_entry.n,
            k: hbm_entry.k,
            output_tile_available: hbm_entry.output_tile_available,
            num_elems: hbm_entry.num_elems,
        }),
{
    PMUEntry {
        outer: hbm_entry.outer,
        m: hbm_entry.m,
        n: hbm_entry.n,
        k: hbm_entry.k,
        output_tile_available: hbm_entry.output_tile_available,
        num_elems: hbm_entry.num_elems,
    }
}

/// Reads a boolean as Python writes it; `None` for anything else.
pub fn parse_python_bool(s: &str) -> (res: Option<bool>)
    ensures
        res == (if s@ == "True"@ {
            Some(true)
        } else if s@ == "False"@ {
            Some(false)
        } else {
            None
        }),
{
    proof {
        reveal_strlit("True");
        reveal_strlit("False");
    }
    let len: usize = s.unicode_len();
    if len == 4 && s.get_char(0) == 'T' && s.get_char(1) == 'r' && s.get_char(2) == 'u'
        && s.get_char(3) == 'e' {
        assert(s@ =~= "True"@);
        Some(true)
    } else if len == 5 && s.get_char(0) == 'F' && s.get_char(1) == 'a' && s.get_char(2) == 'l'
        && s.get_char(3) == 's' && s.get_char(4) == 'e' {
        assert(s@ =~= "False"@);
        assert("False"@.len() == 5 && "True"@.len() == 4);
        Some(false)
    } else {
        assert("False"@.len() == 5 && "True"@.len() == 4);
        None
    }
}

} // verus!
