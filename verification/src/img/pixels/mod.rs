use vstd::prelude::*;
use core::marker::PhantomData;
use super::point::RawPoint;
use super::point::ZERO;
use self::format::PxFmt;

pub mod format;

verus! {

/// Raw pixels.
pub trait Pxls<T>: Sized {
    /// The pixels, as a sequence.
    spec fn spec_pixels(&self) -> Seq<T>;

    /// Raw pixels.
    fn pixels(&self) -> (r: &[T])
        ensures
            r@ == self.spec_pixels(),
    ;
}

/// Raw pixels with dimensions and position.
pub trait PxlsSized<T>: Pxls<T> {
    /// Dimensions `[width, height]`.
    spec fn spec_size(&self) -> RawPoint<u32>;

    /// Position `[x, y]`.
    spec fn spec_offset(&self) -> RawPoint<i32>;

    /// Dimensions. Raw point - `&[width, height]`.
    fn size(&self) -> (r: &RawPoint<u32>)
        ensures
            *r == self.spec_size(),
    ;

    /// Pos. Raw point - `&[x, y]`.
    fn offset(&self) -> (r: &RawPoint<i32>)
        ensures
            *r == self.spec_offset(),
    ;
}

/// Elements per pixel.
pub trait PxComponents<T>: PxlsSized<T> {
    /// Elements per pixel, as a number.
    spec fn spec_color_components(&self) -> u8;

    /// Elements per pixel. Not in bytes.
    /// e.g. for u8: 1 / 3 / 4 for A / RGB / RGBA
    /// and for u32 all is eq 1.
    fn color_components(&self) -> (c: u8)
        ensures
            c == self.spec_color_components(),
    ;
}

/// Raw pixels, writable.
pub trait PxlsMut<T>: Sized {
    /// The pixels, as a sequence.
    spec fn spec_pixels_mut(&self) -> Seq<T>;

    /// Raw pixels
    fn pixels_mut(&mut self) -> (r: &mut [T])
        ensures
            r@ == old(self).spec_pixels_mut(),
            final(self).spec_pixels_mut() == final(r)@,
    ;
}

/// A buffer of pixels in the format `F`.
#[derive(Debug)]
pub struct PxBuf<F: PxFmt, T> {
    buffer: Vec<T>,
    _format: PhantomData<F>,
}

/// A buffer of pixels in the format `F` with its dimensions.
pub struct PxBufSized<F: PxFmt, T> {
    inner: PxBuf<F, T>,
    size: RawPoint<u32>,
}

impl<F: PxFmt, T> View for PxBuf<F, T> {
    type V = Seq<T>;

    open spec fn view(&self) -> Seq<T> {
        self.spec_buffer()
    }
}

impl<F: PxFmt, T> PxBuf<F, T> {
    /// The pixels held.
    pub closed spec fn spec_buffer(&self) -> Seq<T> {
        self.buffer@
    }

    pub fn new(pixels: Vec<T>) -> (r: Self)
        ensures
            r@ == pixels@,
    {
        PxBuf { buffer: pixels, _format: PhantomData }
    }

    pub fn into_inner(self) -> (r: Vec<T>)
        ensures
            r@ == self@,
    {
        self.buffer
    }

    pub fn as_inner(&self) -> (r: &[T])
        ensures
            r@ == self@,
    {
        self.buffer.as_slice()
    }

    pub fn as_inner_mut(&mut self) -> (r: &mut [T])
        ensures
            r@ == old(self)@,
            final(self)@ == final(r)@,
    {
        self.buffer.as_mut_slice()
    }
}

impl<F: PxFmt, T> View for PxBufSized<F, T> {
    type V = Seq<T>;

    open spec fn view(&self) -> Seq<T> {
        self.spec_inner()@
    }
}

impl<F: PxFmt, T> PxBufSized<F, T> {
    /// The pixel buffer.
    pub closed spec fn spec_inner(&self) -> PxBuf<F, T> {
        self.inner
    }

    /// Dimensions `[width, height]`.
    pub closed spec fn spec_dims(&self) -> RawPoint<u32> {
        self.size
    }

    pub fn into_inner(self) -> (r: Vec<T>)
        ensures
            r@ == self@,
    {
        self.inner.into_inner()
    }

    pub fn as_inner(&self) -> (r: &[T])
        ensures
            r@ == self@,
    {
        self.inner.as_inner()
    }

    pub fn as_inner_mut(&mut self) -> (r: &mut [T])
        ensures
            r@ == old(self)@,
            final(self)@ == final(r)@,
            final(self).spec_dims() == old(self).spec_dims(),
    {
        self.inner.as_inner_mut()
    }
}

/// The height that `len` bytes of pixels of `comps` bytes each have in rows of `width` pixels.
pub open spec fn height_of(len: nat, width: u32, comps: u8) -> u32 {
    ((len as u32) / width) / (comps as u32)
}

impl<F: PxFmt> PxBufSized<F, u8> {
    /// The dimensions must agree with the length of `pixels`.
    pub fn new(pixels: Vec<u8>, width: u32, height: u32) -> (r: Self)
        requires
            width != 0,
            F::spec_components() != 0,
            height == height_of(pixels@.len(), width, F::spec_components()),
        ensures
            r@ == pixels@,
            r.spec_dims() == [width, height],
    {
        PxBufSized { inner: PxBuf::new(pixels), size: [width, height] }
    }

    /// A square of side `side`.
    pub fn new_rect(pixels: Vec<u8>, side: u32) -> (r: Self)
        requires
            side != 0,
            F::spec_components() != 0,
            side == height_of(pixels@.len(), side, F::spec_components()),
        ensures
            r@ == pixels@,
            r.spec_dims() == [side, side],
    {
        Self::new(pixels, side, side)
    }
}

impl<F: PxFmt> PxComponents<u8> for PxBufSized<F, u8> {
    open spec fn spec_color_components(&self) -> u8 {
        F::spec_components()
    }

    fn color_components(&self) -> (c: u8) {
        F::components()
    }
}

impl<F: PxFmt> PxComponents<u32> for PxBufSized<F, u32> {
    open spec fn spec_color_components(&self) -> u8 {
        1
    }

    fn color_components(&self) -> (c: u8) {
        1
    }
}

impl<F: PxFmt, T> Pxls<T> for PxBuf<F, T> {
    open spec fn spec_pixels(&self) -> Seq<T> {
        self@
    }

    fn pixels(&self) -> (r: &[T]) {
        self.buffer.as_slice()
    }
}

impl<F: PxFmt, T> Pxls<T> for PxBufSized<F, T> {
    open spec fn spec_pixels(&self) -> Seq<T> {
        self@
    }

    fn pixels(&self) -> (r: &[T]) {
        self.inner.pixels()
    }
}

impl<F: PxFmt, T> PxlsSized<T> for PxBufSized<F, T> {
    open spec fn spec_size(&self) -> RawPoint<u32> {
        self.spec_dims()
    }

    open spec fn spec_offset(&self) -> RawPoint<i32> {
        ZERO
    }

    fn size(&self) -> (r: &RawPoint<u32>) {
        &self.size
    }

    fn offset(&self) -> (r: &RawPoint<i32>) {
        &ZERO
    }
}

impl<F: PxFmt, T> PxlsMut<T> for PxBuf<F, T> {
    open spec fn spec_pixels_mut(&self) -> Seq<T> {
        self@
    }

    fn pixels_mut(&mut self) -> (r: &mut [T]) {
        self.buffer.as_mut_slice()
    }
}

impl<F: PxFmt, T> PxlsMut<T> for PxBufSized<F, T> {
    open spec fn spec_pixels_mut(&self) -> Seq<T> {
        self@
    }

    fn pixels_mut(&mut self) -> (r: &mut [T]) {
        self.inner.pixels_mut()
    }
}

/// Indices into a palette.
pub type Indices = PxBuf<format::I, u8>;

/// Colours of a palette in the format `Format`.
pub type Palette<Format> = PxBuf<Format, u8>;

impl<T> From<PxBuf<format::I, T>> for PxBuf<format::A, T> {
    fn from(buf: PxBuf<format::I, T>) -> (r: Self)
        ensures
            r@ == buf@,
    {
        PxBuf { buffer: buf.buffer, _format: PhantomData }
    }
}

impl<T> vstd::std_specs::convert::FromSpecImpl<PxBuf<format::I, T>> for PxBuf<format::A, T> {
    open spec fn obeys_from_spec() -> bool {
        true
    }

    closed spec fn from_spec(buf: PxBuf<format::I, T>) -> Self {
        PxBuf { buffer: buf.buffer, _format: PhantomData }
    }
}

impl<T> From<PxBuf<format::A, T>> for PxBuf<format::I, T> {
    fn from(buf: PxBuf<format::A, T>) -> (r: Self)
        ensures
            r@ == buf@,
    {
        PxBuf { buffer: buf.buffer, _format: PhantomData }
    }
}

impl<T> vstd::std_specs::convert::FromSpecImpl<PxBuf<format::A, T>> for PxBuf<format::I, T> {
    open spec fn obeys_from_spec() -> bool {
        true
    }

    closed spec fn from_spec(buf: PxBuf<format::A, T>) -> Self {
        PxBuf { buffer: buf.buffer, _format: PhantomData }
    }
}

/// Extra information of an image.
pub trait PxMeta {
    spec fn spec_mirror(&self) -> bool;

    spec fn spec_invert(&self) -> bool;

    spec fn spec_lightmap(&self) -> bool;

    spec fn spec_transparent(&self) -> bool;

    fn mirror(&self) -> (r: bool)
        ensures
            r == self.spec_mirror(),
    ;

    fn invert(&self) -> (r: bool)
        ensures
            r == self.spec_invert(),
    ;

    fn lightmap(&self) -> (r: bool)
        ensures
            r == self.spec_lightmap(),
    ;

    fn transparent(&self) -> (r: bool)
        ensures
            r == self.spec_transparent(),
    ;
}

} // verus!
