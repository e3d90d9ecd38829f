//! Low-level data structures of PID images.
use vstd::prelude::*;
use crate::img::point::RawPoint;
use crate::utils::{read_u32_le, read_i32_le, u32_le, i32_le};

verus! {

/// The 32-byte header of a PID image.
#[derive(Debug, Copy, Clone)]
pub struct Head {
    /// Magic byte like in PCX. But it's not a PCX!
    pub magic_byte: u32,
    /// WAP_PID_FLAG
    pub flags: u32,
    /// width, height
    pub size: RawPoint<u32>,
    /// x, y
    pub offset: RawPoint<i32>,
    /// two nulls
    pub __pad: [u32; 2],
}

/// Bytes in a PID header.
pub const HEAD_SIZE: usize = 32;

impl Head {
    /// Reads the header from the first 32 bytes of `buf` (little-endian fields).
    pub fn read(buf: &[u8]) -> (h: Head)
        requires
            buf@.len() >= 32,
        ensures
            h.flags == u32_le(buf@, 4),
            h.size == [u32_le(buf@, 8), u32_le(buf@, 12)],
            h.offset == [i32_le(buf@, 16), i32_le(buf@, 20)],
    {
        Head {
            magic_byte: read_u32_le(buf, 0),
            flags: read_u32_le(buf, 4),
            size: [read_u32_le(buf, 8), read_u32_le(buf, 12)],
            offset: [read_i32_le(buf, 16), read_i32_le(buf, 20)],
            __pad: [read_u32_le(buf, 24), read_u32_le(buf, 28)],
        }
    }
}

} // verus!
