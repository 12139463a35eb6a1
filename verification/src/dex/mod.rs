//! DEX file parsing.

pub mod class_data;
pub mod descriptor;
pub mod instructions;
pub mod leb128;
pub mod raw;
pub mod reader;

use vstd::prelude::*;

use crate::error::Result;

verus! {

/// A parsed DEX file.
#[derive(Debug, Clone, PartialEq, Eq)]
pub struct ParsedDex {
    pub raw: raw::RawDex,
}

/// Parses a DEX file.
pub fn parse_dex(bytes: &[u8]) -> (r: Result<ParsedDex>)
    ensures
        match raw::tables_at(bytes@) {
            Ok(v) => r matches Ok(d) && raw::raw_matches(d.raw, v, bytes@),
            Err(t) => r matches Err(e) && e@ == t,
        },
{
    Ok(ParsedDex { raw: raw::parse_raw_dex(bytes)? })
}

} // verus!
