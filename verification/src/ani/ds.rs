//! Low-level data structures of ANI animations.
use vstd::prelude::*;
use crate::utils::{read_u32_le, u32_le};

verus! {

/// The 32-byte header of an animation.
pub struct Header {
    pub head_size: u32,
    pub __gap_0: [u8; 8],
    pub frames_num: u32,
    pub offset: u32,
    pub __gap_1: [u8; 12],
}

/// Bytes in an animation header.
pub const HEADER_SIZE: usize = 32;

impl Header {
    /// Reads the header from the first 32 bytes of `buf` (little-endian fields).
    pub fn read(buf: &[u8]) -> (h: Header)
        requires
            buf@.len() >= 32,
        ensures
            h.head_size == u32_le(buf@, 0),
            h.frames_num == u32_le(buf@, 12),
            h.offset == u32_le(buf@, 16),
    {
        Header {
            head_size: read_u32_le(buf, 0),
            __gap_0: [buf[4], buf[5], buf[6], buf[7], buf[8], buf[9], buf[10], buf[11]],
            frames_num: read_u32_le(buf, 12),
            offset: read_u32_le(buf, 16),
            __gap_1: [
                buf[20],
                buf[21],
                buf[22],
                buf[23],
                buf[24],
                buf[25],
                buf[26],
                buf[27],
                buf[28],
                buf[29],
                buf[30],
                buf[31],
            ],
        }
    }
}

} // verus!
