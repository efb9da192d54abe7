//! The compression facade: the caller picks an algorithm, the bytes pass
//! through unchanged, and the result carries the flag that names the
//! algorithm.

use vstd::prelude::*;
use vstd::string::StringSliceAdditionalSpecFns;
use crate::bytes::{find_subslice_ci, lowered, occurs_in, to_owned_bytes};
use crate::cache::meta;

verus! {

/// The algorithms that a flag can name.
#[derive(Clone, Copy, Debug, PartialEq, Eq, Structural)]
pub enum Algo {
    Identity,
    Gzip,
    Zstd,
    Brotli,
}

/// The bytes to store and the flag to store with them.
#[derive(Clone, Debug)]
pub struct CompResult {
    pub data: Vec<u8>,
    pub meta_flags: u32,
}

impl Algo {
    /// The flag that names the algorithm.
    pub open spec fn flag(self) -> u32 {
        match self {
            Algo::Identity => meta::COMP_NONE,
            Algo::Gzip => meta::COMP_GZIP,
            Algo::Zstd => meta::COMP_ZSTD,
            Algo::Brotli => meta::COMP_BROTLI,
        }
    }
}

/// Whether a MIME type, given as its bytes, names content that compresses
/// well: it holds `text/`, `json` or `xml`, in any case of ASCII letters.
pub open spec fn compressible(mime: Seq<u8>) -> bool {
    ||| occurs_in(lowered("text/".spec_bytes()), lowered(mime))
    ||| occurs_in(lowered("json".spec_bytes()), lowered(mime))
    ||| occurs_in(lowered("xml".spec_bytes()), lowered(mime))
}

/// Tags `input` with the flag of `algo`. The bytes are handed on as they
/// are.
pub fn compress(input: &[u8], algo: Algo) -> (r: CompResult)
    ensures
        r.data@ == input@,
        r.meta_flags == algo.flag(),
{
    match algo {
        Algo::Identity => CompResult { data: to_owned_bytes(input), meta_flags: meta::COMP_NONE },
        Algo::Gzip => CompResult { data: to_owned_bytes(input), meta_flags: meta::COMP_GZIP },
        Algo::Zstd => CompResult { data: to_owned_bytes(input), meta_flags: meta::COMP_ZSTD },
        Algo::Brotli => CompResult { data: to_owned_bytes(input), meta_flags: meta::COMP_BROTLI },
    }
}

/// The algorithm to use for content of the given MIME type: gzip for what
/// compresses well, none for the rest.
pub fn best_for_mime(mime: &str) -> (r: Algo)
    ensures
        r == if compressible(mime.spec_bytes()) {
            Algo::Gzip
        } else {
            Algo::Identity
        },
{
    let m = mime.as_bytes();
    if find_subslice_ci(m, "text/".as_bytes()) || find_subslice_ci(m, "json".as_bytes())
        || find_subslice_ci(m, "xml".as_bytes()) {
        return Algo::Gzip;
    }
    Algo::Identity
}

} // verus!
