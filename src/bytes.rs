//! Big-endian integers and four-character box tags.

use vstd::prelude::*;

verus! {

/// The big-endian value of the four bytes of `d` that start at `i`.
pub open spec fn be_u32(d: Seq<u8>, i: int) -> int {
    d[i] as int * 16777216 + d[i + 1] as int * 65536 + d[i + 2] as int * 256 + d[i + 3] as int
}

/// Reads the big-endian `u32` stored at `d[i..i + 4]`.
pub fn read_u32_be(d: &[u8], i: usize) -> (r: u32)
    requires
        i + 4 <= d@.len(),
    ensures
        r as int == be_u32(d@, i as int),
{
    (d[i] as u32) * 16777216 + (d[i + 1] as u32) * 65536 + (d[i + 2] as u32) * 256 + (d[i
        + 3] as u32)
}

pub const TAG_FTYP: u32 = 0x66747970;

pub const TAG_MOOV: u32 = 0x6d6f6f76;

pub const TAG_MDAT: u32 = 0x6d646174;

pub const TAG_MVHD: u32 = 0x6d766864;

pub const TAG_TRAK: u32 = 0x7472616b;

pub const TAG_TKHD: u32 = 0x746b6864;

pub const TAG_MDIA: u32 = 0x6d646961;

pub const TAG_MDHD: u32 = 0x6d646864;

pub const TAG_HDLR: u32 = 0x68646c72;

pub const TAG_MINF: u32 = 0x6d696e66;

pub const TAG_DINF: u32 = 0x64696e66;

pub const TAG_VMHD: u32 = 0x766d6864;

pub const TAG_SMHD: u32 = 0x736d6864;

pub const TAG_STBL: u32 = 0x7374626c;

pub const TAG_STSD: u32 = 0x73747364;

pub const TAG_STTS: u32 = 0x73747473;

pub const TAG_CTTS: u32 = 0x63747473;

pub const TAG_STSC: u32 = 0x73747363;

pub const TAG_STSZ: u32 = 0x7374737a;

pub const TAG_STCO: u32 = 0x7374636f;

pub const TAG_STSS: u32 = 0x73747373;

pub const TAG_AVC1: u32 = 0x61766331;

pub const TAG_AVCC: u32 = 0x61766343;

} // verus!
