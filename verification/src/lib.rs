//! Readers for the resource formats of the WAP32 engine (REZ packages,
//! PID images, ANI animations, WWD worlds, encrypted text files).

pub mod utils;
pub mod img;
pub mod res;
pub mod pid;
pub mod common;
pub mod crypto;
pub mod txt;
pub mod ani;
pub mod wwd;
pub mod pcx;
