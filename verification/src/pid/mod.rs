//! PID images: indices into a palette, possibly run-length compressed.
//! Looks like PCX ver. 2.5 image data, and like the DIB.

use vstd::prelude::*;
use crate::res::node::Node;
use crate::utils::{ByteStream, ReadError, in_stream, u32_le, i32_le, flags_has};
use crate::img::pixels::{Indices, Palette, PxBufSized, Pxls, PxlsSized, PxMeta};
use crate::img::pixels::format::{PxFmt, RGB};
use crate::img::point::{RawPoint, Size};
use crate::img::pal::{read_palette_256, palette_256_pos};
use self::indices::{decode_indices, decode_rle_to, decode_plain_to, min};
use self::ds::{Head, HEAD_SIZE};

pub mod ds;
pub mod flags;
pub mod indices;

verus! {

/// What the header of a PID image says.
#[derive(Debug)]
pub struct PidInfo {
    /// Raw point - `[x, y]`.
    pub offset: RawPoint<i32>,
    /// Raw point - `[width, height]`.
    pub size: RawPoint<u32>,
    // WAP32 standard flags:
    pub video_memory: bool,
    pub system_memory: bool,
    pub mirror: bool,
    pub invert: bool,
    /// meta: lightmap
    pub lights: bool,
    /// meta: blitting by mask
    pub transparent: bool,
}

#[derive(Debug)]
struct PidInfoInternal {
    info: PidInfo,
    embedded_palette: bool,
    /// Binary RLE compression.
    rle: bool,
}

/// A PID image: indices and, when the file embeds one, its palette.
#[derive(Debug)]
pub struct Pid<PalFmt: PxFmt> {
    pub info: PidInfo,
    pub indices: Indices,
    pub palette: Option<Palette<PalFmt>>,
}

impl<F: PxFmt> Pxls<u8> for Pid<F> {
    open spec fn spec_pixels(&self) -> Seq<u8> {
        self.indices@
    }

    fn pixels(&self) -> (r: &[u8]) {
        self.indices.pixels()
    }
}

impl<F: PxFmt> PxlsSized<u8> for Pid<F> {
    open spec fn spec_size(&self) -> RawPoint<u32> {
        self.info.size
    }

    open spec fn spec_offset(&self) -> RawPoint<i32> {
        self.info.offset
    }

    fn size(&self) -> (r: &RawPoint<u32>) {
        &self.info.size
    }

    fn offset(&self) -> (r: &RawPoint<i32>) {
        &self.info.offset
    }
}

impl<F: PxFmt> PxMeta for Pid<F> {
    open spec fn spec_mirror(&self) -> bool {
        self.info.mirror
    }

    open spec fn spec_invert(&self) -> bool {
        self.info.invert
    }

    open spec fn spec_lightmap(&self) -> bool {
        self.info.lights
    }

    open spec fn spec_transparent(&self) -> bool {
        self.info.transparent
    }

    fn mirror(&self) -> (r: bool) {
        self.info.mirror
    }

    fn invert(&self) -> (r: bool) {
        self.info.invert
    }

    fn lightmap(&self) -> (r: bool) {
        self.info.lights
    }

    fn transparent(&self) -> (r: bool) {
        self.info.transparent
    }
}

/// The information that a header with `flags`, `size` and `offset` gives.
pub open spec fn spec_pid_info(flags: u32, size: RawPoint<u32>, offset: RawPoint<i32>) -> PidInfo {
    PidInfo {
        offset,
        size,
        video_memory: flags_has(flags, flags::VIDEO_MEMORY),
        system_memory: flags_has(flags, flags::SYSTEM_MEMORY),
        mirror: flags_has(flags, flags::MIRROR),
        invert: flags_has(flags, flags::INVERT),
        lights: flags_has(flags, flags::LIGHTS),
        transparent: flags_has(flags, flags::TRANSPARENCY),
    }
}

/// The information in the header at byte `o` of `data`.
pub open spec fn spec_header_info(data: Seq<u8>, o: int) -> PidInfo {
    spec_pid_info(
        u32_le(data, o + 4),
        [u32_le(data, o + 8), u32_le(data, o + 12)],
        [i32_le(data, o + 16), i32_le(data, o + 20)],
    )
}

/// What reading the PID image of `node` from `data` gives: the information, the indices
/// and the embedded palette, or a read error. `None` where the reading cannot go on
/// (dimensions or positions that overflow 32 bits, index data that end early, a node
/// smaller than its header).
pub open spec fn spec_read_as_pid(node: Node, data: Seq<u8>) -> Option<
    Result<(PidInfo, Seq<u8>, Option<Seq<u8>>), ReadError>,
> {
    let o = node.offset as int;
    if !in_stream(data.len() as int, o, 32) {
        Some(Err(ReadError::UnexpectedEof))
    } else {
        let flags = u32_le(data, o + 4);
        let info = spec_header_info(data, o);
        let w = info.size[0];
        let h = info.size[1];
        let total = w as int * h as int;
        if total > u32::MAX || node.size < 32 || o + 32 > u32::MAX {
            None
        } else {
            let bs = min(total, node.size - 32);
            if !in_stream(data.len() as int, o + 32, bs) {
                Some(Err(ReadError::UnexpectedEof))
            } else {
                match decode_indices(
                    data.subrange(o + 32, o + 32 + bs),
                    w,
                    h,
                    flags_has(flags, flags::COMPRESSION),
                    Seq::new(total as nat, |_i: int| 0u8),
                ) {
                    None => None,
                    Some(indices) => if !flags_has(flags, flags::EMBEDDED_PALETTE) {
                        Some(Ok((info, indices, None)))
                    } else {
                        match palette_256_pos(node, o + 32 + bs) {
                            None => None,
                            Some(pp) => if in_stream(data.len() as int, pp, 768) {
                                Some(Ok((info, indices, Some(data.subrange(pp, pp + 768)))))
                            } else {
                                Some(Err(ReadError::UnexpectedEof))
                            },
                        }
                    },
                }
            }
        }
    }
}

/// An image that is read has one index for each of its pixels, and an embedded palette
/// of 256 colors of three bytes.
pub proof fn lemma_pid_index_per_pixel(node: Node, data: Seq<u8>)
    ensures
        spec_read_as_pid(node, data) matches Some(Ok((info, indices, palette))) ==> {
            &&& indices.len() == info.size[0] as int * info.size[1] as int
            &&& palette matches Some(p) ==> p.len() == 768
        },
{
    let o = node.offset as int;
    if in_stream(data.len() as int, o, 32) {
        let flags = u32_le(data, o + 4);
        let info = spec_header_info(data, o);
        let w = info.size[0];
        let h = info.size[1];
        let total = w as int * h as int;
        if !(total > u32::MAX || node.size < 32 || o + 32 > u32::MAX) {
            let bs = min(total, node.size - 32);
            if in_stream(data.len() as int, o + 32, bs) {
                assert(total >= 0) by (nonlinear_arith)
                    requires
                        total == w as int * h as int,
                ;
                self::indices::lemma_decode_indices_len(
                    data.subrange(o + 32, o + 32 + bs),
                    w,
                    h,
                    flags_has(flags, flags::COMPRESSION),
                    Seq::new(total as nat, |_i: int| 0u8),
                );
            }
        }
    }
}

/// Whether `pid` is what `spec` describes.
pub open spec fn pid_matches(
    pid: Pid<RGB>,
    spec: (PidInfo, Seq<u8>, Option<Seq<u8>>),
) -> bool {
    &&& pid.info == spec.0
    &&& pid.indices@ == spec.1
    &&& match (pid.palette, spec.2) {
        (Some(p), Some(s)) => p@ == s,
        (None, None) => true,
        _ => false,
    }
}

/// Read image in PID format, or `None` where the reading cannot go on.
/// Indices: are one byte per index.
/// Palette: RGB in three bytes per color.
pub fn read_as_pid_checked(node: &Node, from: &mut ByteStream) -> (r: Option<
    Result<Pid<RGB>, ReadError>,
>)
    ensures
        final(from).spec_data() == old(from).spec_data(),
        r is None <==> spec_read_as_pid(*node, old(from).spec_data()) is None,
        r matches Some(res) ==> match (res, spec_read_as_pid(*node, old(from).spec_data()).unwrap()) {
            (Ok(pid), Ok(s)) => pid_matches(pid, s),
            (Err(e1), Err(e2)) => e1 == e2,
            _ => false,
        },
{
    let ghost data = from.spec_data();
    // head/meta:
    let info = match read_pid_header(node, from) {
        Ok(info) => info,
        Err(e) => return Some(Err(e)),
    };
    let width = info.info.size[0];
    let height = info.info.size[1];
    let total = match width.checked_mul(height) {
        Some(t) => t,
        None => return None,
    };
    // indices (the pixels that the data skip keep the index 0):
    let mut indices = vec![0u8; total as usize];
    assert(indices@ =~= Seq::new(indices@.len(), |_i: int| 0u8));
    match read_indices_to(node, from, &mut indices, &info) {
        None => return None,
        Some(Err(e)) => return Some(Err(e)),
        Some(Ok(())) => {},
    }
    let indices = Indices::new(indices);
    // palette:
    let palette = if info.embedded_palette {
        let ok = if node.offset == 0 && node.size == 768 {
            true
        } else {
            node.size >= 768 && node.offset <= u32::MAX - (node.size - 768)
        };
        if !ok {
            return None;
        }
        match read_palette_256(node, from) {
            Ok(p) => Some(p),
            Err(e) => return Some(Err(e)),
        }
    } else {
        None
    };
    Some(Ok(Pid { info: info.info, palette, indices }))
}

/// Read image in PID format.
/// Indices: are one byte per index.
/// Palette: RGB in three bytes per color.
pub fn read_as_pid(node: &Node, from: &mut ByteStream) -> (r: Result<Pid<RGB>, ReadError>)
    requires
        spec_read_as_pid(*node, old(from).spec_data()) is Some,
    ensures
        final(from).spec_data() == old(from).spec_data(),
        match (r, spec_read_as_pid(*node, old(from).spec_data()).unwrap()) {
            (Ok(pid), Ok(s)) => pid_matches(pid, s),
            (Err(e1), Err(e2)) => e1 == e2,
            _ => false,
        },
{
    match read_as_pid_checked(node, from) {
        Some(r) => r,
        None => Err(ReadError::UnexpectedEof),
    }
}

/// Seek and read header.
fn read_pid_header(node: &Node, from: &mut ByteStream) -> (r: Result<PidInfoInternal, ReadError>)
    ensures
        final(from).spec_data() == old(from).spec_data(),
        ({
            let data = old(from).spec_data();
            let o = node.offset as int;
            match r {
                Ok(info) => {
                    &&& in_stream(data.len() as int, o, 32)
                    &&& info.info == spec_header_info(data, o)
                    &&& info.rle == flags_has(u32_le(data, o + 4), flags::COMPRESSION)
                    &&& info.embedded_palette == flags_has(
                        u32_le(data, o + 4),
                        flags::EMBEDDED_PALETTE,
                    )
                    &&& final(from).spec_pos() == o + 32
                },
                Err(e) => !in_stream(data.len() as int, o, 32) && e == ReadError::UnexpectedEof,
            }
        }),
{
    from.seek(node.offset as u64);
    read_pid_header_noseek(node, from)
}

/// Read header without seek.
fn read_pid_header_noseek(_node: &Node, from: &mut ByteStream) -> (r: Result<PidInfoInternal, ReadError>)
    ensures
        final(from).spec_data() == old(from).spec_data(),
        ({
            let data = old(from).spec_data();
            let o = old(from).spec_pos();
            match r {
                Ok(info) => {
                    &&& in_stream(data.len() as int, o, 32)
                    &&& info.info == spec_header_info(data, o)
                    &&& info.rle == flags_has(u32_le(data, o + 4), flags::COMPRESSION)
                    &&& info.embedded_palette == flags_has(
                        u32_le(data, o + 4),
                        flags::EMBEDDED_PALETTE,
                    )
                    &&& final(from).spec_pos() == o + 32
                },
                Err(e) => !in_stream(data.len() as int, o, 32) && e == ReadError::UnexpectedEof,
            }
        }),
{
    let buf = from.read_exact(HEAD_SIZE)?;
    let head = Head::read(buf);
    // WAP32 standard flags:
    let fl = head.flags;
    let transparent = fl & flags::TRANSPARENCY == flags::TRANSPARENCY;
    let video_memory = fl & flags::VIDEO_MEMORY == flags::VIDEO_MEMORY;
    let system_memory = fl & flags::SYSTEM_MEMORY == flags::SYSTEM_MEMORY;
    let mirror = fl & flags::MIRROR == flags::MIRROR;
    let invert = fl & flags::INVERT == flags::INVERT;
    let rle = fl & flags::COMPRESSION == flags::COMPRESSION;
    let lights = fl & flags::LIGHTS == flags::LIGHTS;
    let embedded_palette = fl & flags::EMBEDDED_PALETTE == flags::EMBEDDED_PALETTE;
    let info = PidInfo {
        size: head.size,
        offset: head.offset,
        mirror,
        invert,
        lights,
        transparent,
        video_memory,
        system_memory,
    };
    proof {
        let o = old(from).spec_pos();
        assert(u32_le(buf@, 4) == u32_le(from.spec_data(), o + 4));
        assert(u32_le(buf@, 8) == u32_le(from.spec_data(), o + 8));
        assert(u32_le(buf@, 12) == u32_le(from.spec_data(), o + 12));
        assert(i32_le(buf@, 16) == i32_le(from.spec_data(), o + 16));
        assert(i32_le(buf@, 20) == i32_le(from.spec_data(), o + 20));
    }
    Ok(PidInfoInternal { rle, info, embedded_palette })
}

/// Reads indices. Indices point to colors in a palette.
/// Empty colors (transparent or COLOR_MASK) are skipped,
/// so `to` should be prefilled with the "empty color": the pixels skipped keep it.
/// `None` where the reading cannot go on.
fn read_indices_to(node: &Node, from: &mut ByteStream, to: &mut Vec<u8>, info: &PidInfoInternal) -> (r:
    Option<Result<(), ReadError>>)
    requires
        old(to)@.len() == info.info.size[0] as int * info.info.size[1] as int,
        old(to)@.len() <= u32::MAX,
    ensures
        final(from).spec_data() == old(from).spec_data(),
        ({
            let data = old(from).spec_data();
            let o = node.offset as int;
            let total = old(to)@.len() as int;
            let bs = min(total, node.size - 32);
            if node.size < 32 || o + 32 > u32::MAX {
                r is None
            } else if !in_stream(data.len() as int, o + 32, bs) {
                r == Some(Err::<(), ReadError>(ReadError::UnexpectedEof))
            } else {
                let dec = decode_indices(
                    data.subrange(o + 32, o + 32 + bs),
                    info.info.size[0],
                    info.info.size[1],
                    info.rle,
                    old(to)@,
                );
                &&& (r is None <==> dec is None)
                &&& (r is Some ==> r == Some(Ok::<(), ReadError>(())) && Some(final(to)@) == dec)
                &&& final(from).spec_pos() == o + 32 + bs
            }
        }),
{
    let width = info.info.size[0];
    let height = info.info.size[1];
    let total = to.len();
    if (node.size as usize) < HEAD_SIZE {
        return None;
    }
    if node.offset > u32::MAX - HEAD_SIZE as u32 {
        return None;
    }
    let rest = node.size as usize - HEAD_SIZE;
    let buf_size = if total < rest { total } else { rest };
    from.seek((node.offset + HEAD_SIZE as u32) as u64);
    let buf = match from.read_exact(buf_size) {
        Ok(b) => b,
        Err(e) => return Some(Err(e)),
    };
    if width == 0 && height > 0 {
        return None;
    }
    let ok = if info.rle {
        decode_rle_to(buf, to)
    } else {
        decode_plain_to(buf, to)
    };
    if ok {
        Some(Ok(()))
    } else {
        None
    }
}

/// Builds an image of the kind `Target`.
pub trait BuildImage<Target> {
    /// Whether an image can be built.
    spec fn spec_can_build(&self) -> bool;

    /// Whether `t` is the image built.
    spec fn spec_built(&self, t: Target) -> bool;

    fn build_image(&self) -> (t: Target)
        requires
            self.spec_can_build(),
        ensures
            self.spec_built(t),
    ;
}

/// The colours of `idx` looked up in the RGB palette `pal`, three bytes per index.
pub open spec fn colorize(idx: Seq<u8>, pal: Seq<u8>) -> Seq<u8>
    decreases idx.len(),
{
    if idx.len() == 0 {
        Seq::empty()
    } else {
        let i = idx.last() as int * 3;
        colorize(idx.drop_last(), pal) + pal.subrange(i, i + 3)
    }
}

proof fn lemma_colorize_len(idx: Seq<u8>, pal: Seq<u8>)
    requires
        forall|k: int| 0 <= k < idx.len() ==> idx[k] as int * 3 + 3 <= pal.len(),
    ensures
        colorize(idx, pal).len() == 3 * idx.len(),
    decreases idx.len(),
{
    if idx.len() > 0 {
        lemma_colorize_len(idx.drop_last(), pal);
    }
}

impl BuildImage<PxBufSized<RGB, u8>> for Pid<RGB> {
    open spec fn spec_can_build(&self) -> bool {
        let w = self.info.size[0];
        let h = self.info.size[1];
        &&& self.palette is Some
        &&& forall|k: int|
            0 <= k < self.indices@.len() ==> self.indices@[k] as int * 3 + 3
                <= self.palette.unwrap()@.len()
        &&& w != 0
        &&& w as int * h as int <= u32::MAX
        &&& w as int * h as int == self.indices@.len()
        &&& h == crate::img::pixels::height_of(3 * self.indices@.len(), w, 3)
    }

    open spec fn spec_built(&self, t: PxBufSized<RGB, u8>) -> bool {
        &&& t@ == colorize(self.indices@, self.palette.unwrap()@)
        &&& t.spec_dims() == self.info.size
    }

    fn build_image(&self) -> (t: PxBufSized<RGB, u8>) {
        let size = *self.size();
        let indices = self.indices.as_inner();
        let mut buf: Vec<u8> = Vec::new();
        match &self.palette {
            Some(palette) => {
                let palette = palette.as_inner();
                let n = indices.len();
                let mut i: usize = 0;
                while i < n
                    invariant
                        n == indices@.len(),
                        i <= n,
                        indices@ == self.indices@,
                        palette@ == self.palette.unwrap()@,
                        self.spec_can_build(),
                        buf@ == colorize(indices@.take(i as int), palette@),
                    decreases n - i,
                {
                    let pos = indices[i] as usize * 3;
                    buf.extend_from_slice(&palette[pos..pos + 3]);
                    proof {
                        assert(indices@.take(i + 1).drop_last() =~= indices@.take(i as int));
                    }
                    i = i + 1;
                    assert(buf@ =~= colorize(indices@.take(i as int), palette@));
                }
                proof {
                    assert(indices@.take(n as int) =~= indices@);
                    lemma_colorize_len(indices@, palette@);
                }
                let w = *size.width();
                let h = *size.height();
                let t = PxBufSized::new(buf, w, h);
                assert(t.spec_dims() =~= self.info.size);
                t
            },
            None => {
                // A PID without a palette has no RGB image.
                proof { assert(false); }
                PxBufSized::new(vec![0u8; 3], 1, 1)
            },
        }
    }
}

} // verus!
