//! Pixel formats.
use vstd::prelude::*;

verus! {


/// Red, green, blue and alpha bytes.
#[derive(Debug)]
pub struct RGBA;

/// Alpha, red, green and blue bytes.
#[derive(Debug)]
pub struct ARGB;

/// Red, green and blue bytes.
#[derive(Debug)]
pub struct RGB;

/// Indices (u8) pointing into a palette.
#[derive(Debug)]
pub struct I;

/// Only alpha. Used as lights/shadow texture.
#[derive(Debug)]
pub struct A;

/// A pixel format.
pub trait PxFmt {
    /// Bytes per pixel.
    spec fn spec_components() -> u8;

    /// Bytes per pixel.
    /// Pixel components num in bytes.
    fn components() -> (c: u8)
        ensures
            c == Self::spec_components(),
    ;
}

impl PxFmt for RGBA {
    open spec fn spec_components() -> u8 {
        4
    }

    fn components() -> (c: u8) {
        4
    }
}

impl PxFmt for ARGB {
    open spec fn spec_components() -> u8 {
        4
    }

    fn components() -> (c: u8) {
        4
    }
}

impl PxFmt for RGB {
    open spec fn spec_components() -> u8 {
        3
    }

    fn components() -> (c: u8) {
        3
    }
}

impl PxFmt for I {
    open spec fn spec_components() -> u8 {
        1
    }

    fn components() -> (c: u8) {
        1
    }
}

impl PxFmt for A {
    open spec fn spec_components() -> u8 {
        1
    }

    fn components() -> (c: u8) {
        1
    }
}


} // verus!
