//! WAP32 standard flags of a PID header.
use vstd::prelude::*;

verus! {

pub const TRANSPARENCY: u32 = 1;
pub const VIDEO_MEMORY: u32 = 2;
pub const SYSTEM_MEMORY: u32 = 4;
pub const MIRROR: u32 = 8;
pub const INVERT: u32 = 16;
pub const COMPRESSION: u32 = 32;
pub const LIGHTS: u32 = 64;
pub const EMBEDDED_PALETTE: u32 = 128;

} // verus!
