//! The flag bits that tiers store with an entry and hand back unchanged.
//! The values are part of the wire contract with the components that set and
//! read them.

use vstd::prelude::*;

verus! {

pub const COMP_NONE: u32 = 0x0000_0000;

pub const COMP_GZIP: u32 = 0x0000_0001;

pub const COMP_ZSTD: u32 = 0x0000_0002;

pub const COMP_BROTLI: u32 = 0x0000_0004;

pub const CACHE_MISS: u32 = 0x0001_0000;

pub const CACHE_L1: u32 = 0x0002_0000;

pub const CACHE_L2: u32 = 0x0004_0000;

pub const CACHE_L3: u32 = 0x0008_0000;

pub const SEC_OK: u32 = 0x0010_0000;

pub const SEC_WAF: u32 = 0x0020_0000;

pub const SEC_RATELIM: u32 = 0x0040_0000;

} // verus!
