//! The numbers of the PND2 format.

use vstd::prelude::*;

verus! {

/// The format's version byte.
pub const PND2_VERSION: u8 = 2;

/// Flag bit: the blob carries a stats section.
pub const FLAG_HAS_STATS: u8 = 1;

/// Compression tag: the inner data stands as it is.
pub const COMPRESSION_NONE: u8 = 0;

/// Compression tag: the inner data is one zstd stream.
pub const COMPRESSION_ZSTD: u8 = 2;

/// The bytes before the inner data.
pub const HEADER_LEN: usize = 13;

pub const VT_INT64: u8 = 1;

pub const VT_FLOAT64: u8 = 2;

pub const VT_STRING: u8 = 3;

pub const VT_NULL: u8 = 4;

pub const VT_BINARY: u8 = 5;

/// Mixed-type columns: each value is a JSON text.
pub const VT_VARIANT: u8 = 6;

pub const VT_BOOLEAN: u8 = 7;

pub const VT_DATE: u8 = 8;

pub const VT_TIMESTAMP: u8 = 9;

pub const VT_VECTOR: u8 = 10;

pub const ENC_RAW: u8 = 0;

pub const ENC_RLE: u8 = 1;

pub const ENC_DICT: u8 = 2;

pub const ENC_BITPACK: u8 = 3;

/// The length that stands for a null value in a list of byte strings.
pub const NULL_LEN: u32 = 0xFFFF_FFFF;

/// The four bytes every blob starts with: `PND2`.
pub open spec fn magic() -> Seq<u8> {
    seq![80u8, 78u8, 68u8, 50u8]
}

/// The four bytes every blob starts with.
pub fn pnd2_magic() -> (r: [u8; 4])
    ensures
        r@ == magic(),
{
    let r: [u8; 4] = [80u8, 78u8, 68u8, 50u8];
    proof {
        assert(r@ =~= magic());
    }
    r
}

} // verus!
