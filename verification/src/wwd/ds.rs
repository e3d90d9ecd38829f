//! Low-level data structures of WWD worlds.
use vstd::prelude::*;
use crate::utils::{read_u32_le, read_i32_le, u32_le, i32_le};

verus! {

/// left, top, right, bottom
pub type WapRect = [u32; 4];

/// The kind of the properties of a tile.
#[derive(Debug, Clone, Copy, PartialEq, Eq, Structural)]
pub enum TilePropertiesType {
    Unknown,
    Single,
    Double,
}

/// The kind that a number stands for: 0, 1 or 2; `None` for any other number.
pub open spec fn tile_type_of(v: u32) -> Option<TilePropertiesType> {
    if v == 0 {
        Some(TilePropertiesType::Unknown)
    } else if v == 1 {
        Some(TilePropertiesType::Single)
    } else if v == 2 {
        Some(TilePropertiesType::Double)
    } else {
        None
    }
}

/// Reads the kind of tile properties at byte `at` of `buf`.
pub fn read_tile_type(buf: &[u8], at: usize) -> (t: TilePropertiesType)
    requires
        at + 4 <= buf@.len(),
        tile_type_of(u32_le(buf@, at as int)) is Some,
    ensures
        tile_type_of(u32_le(buf@, at as int)) == Some(t),
{
    let v = read_u32_le(buf, at);
    if v == 0 {
        TilePropertiesType::Unknown
    } else if v == 1 {
        TilePropertiesType::Single
    } else {
        TilePropertiesType::Double
    }
}

/// Use z coordinates.
pub const USE_Z_COORDS: u32 = 1;

/// The planes are compressed (zlib).
pub const COMPRESS: u32 = 2;

/// The 32 bytes at byte `at` of `buf`.
pub fn read_bytes_32(buf: &[u8], at: usize) -> (r: [u8; 32])
    requires
        at + 32 <= buf@.len(),
    ensures
        r@ == buf@.subrange(at as int, at + 32),
{
    let mut r = [0u8; 32];
    let mut i: usize = 0;
    while i < 32
        invariant
            at + 32 <= buf.len(),
            i <= 32,
            forall|j: int| 0 <= j < i ==> r@[j] == buf@[at + j],
        decreases 32 - i,
    {
        r[i] = buf[at + i];
        i = i + 1;
    }
    assert(r@ =~= buf@.subrange(at as int, at + 32));
    r
}

/// The 64 bytes at byte `at` of `buf`.
pub fn read_bytes_64(buf: &[u8], at: usize) -> (r: [u8; 64])
    requires
        at + 64 <= buf@.len(),
    ensures
        r@ == buf@.subrange(at as int, at + 64),
{
    let mut r = [0u8; 64];
    let mut i: usize = 0;
    while i < 64
        invariant
            at + 64 <= buf.len(),
            i <= 64,
            forall|j: int| 0 <= j < i ==> r@[j] == buf@[at + j],
        decreases 64 - i,
    {
        r[i] = buf[at + i];
        i = i + 1;
    }
    assert(r@ =~= buf@.subrange(at as int, at + 64));
    r
}

/// The 128 bytes at byte `at` of `buf`.
pub fn read_bytes_128(buf: &[u8], at: usize) -> (r: [u8; 128])
    requires
        at + 128 <= buf@.len(),
    ensures
        r@ == buf@.subrange(at as int, at + 128),
{
    let mut r = [0u8; 128];
    let mut i: usize = 0;
    while i < 128
        invariant
            at + 128 <= buf.len(),
            i <= 128,
            forall|j: int| 0 <= j < i ==> r@[j] == buf@[at + j],
        decreases 128 - i,
    {
        r[i] = buf[at + i];
        i = i + 1;
    }
    assert(r@ =~= buf@.subrange(at as int, at + 128));
    r
}

/// The 256 bytes at byte `at` of `buf`.
pub fn read_bytes_256(buf: &[u8], at: usize) -> (r: [u8; 256])
    requires
        at + 256 <= buf@.len(),
    ensures
        r@ == buf@.subrange(at as int, at + 256),
{
    let mut r = [0u8; 256];
    let mut i: usize = 0;
    while i < 256
        invariant
            at + 256 <= buf.len(),
            i <= 256,
            forall|j: int| 0 <= j < i ==> r@[j] == buf@[at + j],
        decreases 256 - i,
    {
        r[i] = buf[at + i];
        i = i + 1;
    }
    assert(r@ =~= buf@.subrange(at as int, at + 256));
    r
}

/// Word `k` of the record at byte `at` of `s`: the little-endian 32-bit number at byte
/// `at + 4 * k`.
pub open spec fn word(s: Seq<u8>, at: int, k: int) -> u32 {
    u32_le(s, at + 4 * k)
}

/// The 8-byte head of a world: the size of head and header.
#[derive(Debug, Clone, Copy)]
pub struct Head {
    pub size: u32,
    pub __pad: u32,
}

impl Head {
    /// Bytes of a `Head`.
    pub const SIZE: usize = 8;

    /// Whether this is what the 8 bytes at byte `at` of `s` hold (little-endian fields).
    pub open spec fn matches(&self, s: Seq<u8>, at: int) -> bool {
        &&& self.size == u32_le(s, at + 0)
        &&& self.__pad == u32_le(s, at + 4)
    }

    /// The layout of the record, word by word: word `k` is the little-endian 32-bit number
    /// at byte `4 * k` (see `word`); names and texts are the bytes at their offsets.
    pub proof fn lemma_layout(&self, s: Seq<u8>, at: int)
        requires
            self.matches(s, at),
        ensures
            self.size == word(s, at, 0),
            self.__pad == word(s, at, 1),
    {
    }

    /// Reads the 8 bytes at byte `at` of `buf`.
    pub fn read(buf: &[u8], at: usize) -> (r: Self)
        requires
            at + 8 <= buf@.len(),
        ensures
            r.matches(buf@, at as int),
    {
        proof { assert(buf@.len() == buf.len()); }
        Head {
            size: read_u32_le(buf, at + 0),
            __pad: read_u32_le(buf, at + 4),
        }
    }
}

/// The 1516-byte header of a world.
#[derive(Clone, Copy)]
pub struct RawWwdHeader {
    pub flags: u32,
    pub __pad_0: u32,
    pub name: [u8; 64],
    pub author: [u8; 64],
    pub birth: [u8; 64],
    pub rez: [u8; 256],
    pub images: [u8; 128],
    pub palrez: [u8; 128],
    pub cam_x: u32,
    pub cam_y: u32,
    pub __pad_unknown: u32,
    pub planes_num: u32,
    /// Offset of the planes (main block).
    pub planes_offset: u32,
    pub tile_descriptions_offset: u32,
    /// Size of the planes once inflated, if compressed.
    pub all_planes_length: u32,
    pub checksum: u32,
    pub __pad_2: u32,
    pub exe: [u8; 128],
    pub img_sets: [[u8; 128]; 4],
    pub img_sets_prefixes: [[u8; 32]; 4],
}

impl RawWwdHeader {
    /// Bytes of a `RawWwdHeader`.
    pub const SIZE: usize = 1516;

    /// Whether this is what the 1516 bytes at byte `at` of `s` hold (little-endian fields).
    pub open spec fn matches(&self, s: Seq<u8>, at: int) -> bool {
        &&& self.flags == u32_le(s, at + 0)
        &&& self.__pad_0 == u32_le(s, at + 4)
        &&& self.name@ == s.subrange(at + 8, at + 8 + 64)
        &&& self.author@ == s.subrange(at + 72, at + 72 + 64)
        &&& self.birth@ == s.subrange(at + 136, at + 136 + 64)
        &&& self.rez@ == s.subrange(at + 200, at + 200 + 256)
        &&& self.images@ == s.subrange(at + 456, at + 456 + 128)
        &&& self.palrez@ == s.subrange(at + 584, at + 584 + 128)
        &&& self.cam_x == u32_le(s, at + 712)
        &&& self.cam_y == u32_le(s, at + 716)
        &&& self.__pad_unknown == u32_le(s, at + 720)
        &&& self.planes_num == u32_le(s, at + 724)
        &&& self.planes_offset == u32_le(s, at + 728)
        &&& self.tile_descriptions_offset == u32_le(s, at + 732)
        &&& self.all_planes_length == u32_le(s, at + 736)
        &&& self.checksum == u32_le(s, at + 740)
        &&& self.__pad_2 == u32_le(s, at + 744)
        &&& self.exe@ == s.subrange(at + 748, at + 748 + 128)
        &&& self.img_sets@[0]@ == s.subrange(at + 876 + 0, at + 876 + 128)
        &&& self.img_sets@[1]@ == s.subrange(at + 876 + 128, at + 876 + 256)
        &&& self.img_sets@[2]@ == s.subrange(at + 876 + 256, at + 876 + 384)
        &&& self.img_sets@[3]@ == s.subrange(at + 876 + 384, at + 876 + 512)
        &&& self.img_sets_prefixes@[0]@ == s.subrange(at + 1388 + 0, at + 1388 + 32)
        &&& self.img_sets_prefixes@[1]@ == s.subrange(at + 1388 + 32, at + 1388 + 64)
        &&& self.img_sets_prefixes@[2]@ == s.subrange(at + 1388 + 64, at + 1388 + 96)
        &&& self.img_sets_prefixes@[3]@ == s.subrange(at + 1388 + 96, at + 1388 + 128)
    }

    /// The layout of the record, word by word: word `k` is the little-endian 32-bit number
    /// at byte `4 * k` (see `word`); names and texts are the bytes at their offsets.
    pub proof fn lemma_layout(&self, s: Seq<u8>, at: int)
        requires
            self.matches(s, at),
        ensures
            self.flags == word(s, at, 0),
            self.__pad_0 == word(s, at, 1),
            self.name@ == s.subrange(at + 8, at + 8 + 64),
            self.author@ == s.subrange(at + 72, at + 72 + 64),
            self.birth@ == s.subrange(at + 136, at + 136 + 64),
            self.rez@ == s.subrange(at + 200, at + 200 + 256),
            self.images@ == s.subrange(at + 456, at + 456 + 128),
            self.palrez@ == s.subrange(at + 584, at + 584 + 128),
            self.cam_x == word(s, at, 178),
            self.cam_y == word(s, at, 179),
            self.__pad_unknown == word(s, at, 180),
            self.planes_num == word(s, at, 181),
            self.planes_offset == word(s, at, 182),
            self.tile_descriptions_offset == word(s, at, 183),
            self.all_planes_length == word(s, at, 184),
            self.checksum == word(s, at, 185),
            self.__pad_2 == word(s, at, 186),
            self.exe@ == s.subrange(at + 748, at + 748 + 128),
            self.img_sets@[0]@ == s.subrange(at + 876 + 0, at + 876 + 128),
            self.img_sets@[1]@ == s.subrange(at + 876 + 128, at + 876 + 256),
            self.img_sets@[2]@ == s.subrange(at + 876 + 256, at + 876 + 384),
            self.img_sets@[3]@ == s.subrange(at + 876 + 384, at + 876 + 512),
            self.img_sets_prefixes@[0]@ == s.subrange(at + 1388 + 0, at + 1388 + 32),
            self.img_sets_prefixes@[1]@ == s.subrange(at + 1388 + 32, at + 1388 + 64),
            self.img_sets_prefixes@[2]@ == s.subrange(at + 1388 + 64, at + 1388 + 96),
            self.img_sets_prefixes@[3]@ == s.subrange(at + 1388 + 96, at + 1388 + 128),
    {
    }

    /// Reads the 1516 bytes at byte `at` of `buf`.
    pub fn read(buf: &[u8], at: usize) -> (r: Self)
        requires
            at + 1516 <= buf@.len(),
        ensures
            r.matches(buf@, at as int),
    {
        proof { assert(buf@.len() == buf.len()); }
        RawWwdHeader {
            flags: read_u32_le(buf, at + 0),
            __pad_0: read_u32_le(buf, at + 4),
            name: read_bytes_64(buf, at + 8),
            author: read_bytes_64(buf, at + 72),
            birth: read_bytes_64(buf, at + 136),
            rez: read_bytes_256(buf, at + 200),
            images: read_bytes_128(buf, at + 456),
            palrez: read_bytes_128(buf, at + 584),
            cam_x: read_u32_le(buf, at + 712),
            cam_y: read_u32_le(buf, at + 716),
            __pad_unknown: read_u32_le(buf, at + 720),
            planes_num: read_u32_le(buf, at + 724),
            planes_offset: read_u32_le(buf, at + 728),
            tile_descriptions_offset: read_u32_le(buf, at + 732),
            all_planes_length: read_u32_le(buf, at + 736),
            checksum: read_u32_le(buf, at + 740),
            __pad_2: read_u32_le(buf, at + 744),
            exe: read_bytes_128(buf, at + 748),
            img_sets: [read_bytes_128(buf, at + 876 + 0), read_bytes_128(buf, at + 876 + 128), read_bytes_128(buf, at + 876 + 256), read_bytes_128(buf, at + 876 + 384)],
            img_sets_prefixes: [read_bytes_32(buf, at + 1388 + 0), read_bytes_32(buf, at + 1388 + 32), read_bytes_32(buf, at + 1388 + 64), read_bytes_32(buf, at + 1388 + 96)],
        }
    }
}

/// The 160-byte head of a plane.
#[derive(Clone, Copy)]
pub struct PlaneHead {
    pub size: u32,
    pub __pad_0: u32,
    pub flags: u32,
    pub __pad_1: u32,
    pub name: [u8; 64],
    pub plane_width: u32,
    pub plane_height: u32,
    pub tile_width: u32,
    pub tile_height: u32,
    pub tile_wide: u32,
    pub tile_high: u32,
    pub __pad_3: u32,
    pub __pad_4: u32,
    pub movement_x: i32,
    pub movement_y: i32,
    pub fill_color: u32,
    pub tilesets_num: u32,
    pub objects_num: u32,
    pub offset: u32,
    pub image_sets_names_offset: u32,
    pub objects_offset: u32,
    pub plane_z: i32,
    pub __pad_5: [u32; 3],
}

impl PlaneHead {
    /// Bytes of a `PlaneHead`.
    pub const SIZE: usize = 160;

    /// Whether this is what the 160 bytes at byte `at` of `s` hold (little-endian fields).
    pub open spec fn matches(&self, s: Seq<u8>, at: int) -> bool {
        &&& self.size == u32_le(s, at + 0)
        &&& self.__pad_0 == u32_le(s, at + 4)
        &&& self.flags == u32_le(s, at + 8)
        &&& self.__pad_1 == u32_le(s, at + 12)
        &&& self.name@ == s.subrange(at + 16, at + 16 + 64)
        &&& self.plane_width == u32_le(s, at + 80)
        &&& self.plane_height == u32_le(s, at + 84)
        &&& self.tile_width == u32_le(s, at + 88)
        &&& self.tile_height == u32_le(s, at + 92)
        &&& self.tile_wide == u32_le(s, at + 96)
        &&& self.tile_high == u32_le(s, at + 100)
        &&& self.__pad_3 == u32_le(s, at + 104)
        &&& self.__pad_4 == u32_le(s, at + 108)
        &&& self.movement_x == i32_le(s, at + 112)
        &&& self.movement_y == i32_le(s, at + 116)
        &&& self.fill_color == u32_le(s, at + 120)
        &&& self.tilesets_num == u32_le(s, at + 124)
        &&& self.objects_num == u32_le(s, at + 128)
        &&& self.offset == u32_le(s, at + 132)
        &&& self.image_sets_names_offset == u32_le(s, at + 136)
        &&& self.objects_offset == u32_le(s, at + 140)
        &&& self.plane_z == i32_le(s, at + 144)
        &&& self.__pad_5@ == seq![u32_le(s, at + 148 + 0), u32_le(s, at + 148 + 4), u32_le(s, at + 148 + 8)]
    }

    /// The layout of the record, word by word: word `k` is the little-endian 32-bit number
    /// at byte `4 * k` (see `word`); names and texts are the bytes at their offsets.
    pub proof fn lemma_layout(&self, s: Seq<u8>, at: int)
        requires
            self.matches(s, at),
        ensures
            self.size == word(s, at, 0),
            self.__pad_0 == word(s, at, 1),
            self.flags == word(s, at, 2),
            self.__pad_1 == word(s, at, 3),
            self.name@ == s.subrange(at + 16, at + 16 + 64),
            self.plane_width == word(s, at, 20),
            self.plane_height == word(s, at, 21),
            self.tile_width == word(s, at, 22),
            self.tile_height == word(s, at, 23),
            self.tile_wide == word(s, at, 24),
            self.tile_high == word(s, at, 25),
            self.__pad_3 == word(s, at, 26),
            self.__pad_4 == word(s, at, 27),
            self.movement_x == word(s, at, 28) as i32,
            self.movement_y == word(s, at, 29) as i32,
            self.fill_color == word(s, at, 30),
            self.tilesets_num == word(s, at, 31),
            self.objects_num == word(s, at, 32),
            self.offset == word(s, at, 33),
            self.image_sets_names_offset == word(s, at, 34),
            self.objects_offset == word(s, at, 35),
            self.plane_z == word(s, at, 36) as i32,
            self.__pad_5@ == seq![word(s, at, 37), word(s, at, 38), word(s, at, 39)],
    {
    }

    /// Reads the 160 bytes at byte `at` of `buf`.
    pub fn read(buf: &[u8], at: usize) -> (r: Self)
        requires
            at + 160 <= buf@.len(),
        ensures
            r.matches(buf@, at as int),
    {
        proof { assert(buf@.len() == buf.len()); }
        PlaneHead {
            size: read_u32_le(buf, at + 0),
            __pad_0: read_u32_le(buf, at + 4),
            flags: read_u32_le(buf, at + 8),
            __pad_1: read_u32_le(buf, at + 12),
            name: read_bytes_64(buf, at + 16),
            plane_width: read_u32_le(buf, at + 80),
            plane_height: read_u32_le(buf, at + 84),
            tile_width: read_u32_le(buf, at + 88),
            tile_height: read_u32_le(buf, at + 92),
            tile_wide: read_u32_le(buf, at + 96),
            tile_high: read_u32_le(buf, at + 100),
            __pad_3: read_u32_le(buf, at + 104),
            __pad_4: read_u32_le(buf, at + 108),
            movement_x: read_i32_le(buf, at + 112),
            movement_y: read_i32_le(buf, at + 116),
            fill_color: read_u32_le(buf, at + 120),
            tilesets_num: read_u32_le(buf, at + 124),
            objects_num: read_u32_le(buf, at + 128),
            offset: read_u32_le(buf, at + 132),
            image_sets_names_offset: read_u32_le(buf, at + 136),
            objects_offset: read_u32_le(buf, at + 140),
            plane_z: read_i32_le(buf, at + 144),
            __pad_5: [read_u32_le(buf, at + 148 + 0), read_u32_le(buf, at + 148 + 4), read_u32_le(buf, at + 148 + 8)],
        }
    }
}

/// The rectangles of an object.
#[derive(Debug, Clone, Copy)]
pub struct PlaneObjectPropertiesRects {
    pub movement: WapRect,
    pub hit: WapRect,
    pub attack: WapRect,
    pub clip: WapRect,
    pub user1: WapRect,
    pub user2: WapRect,
}

impl PlaneObjectPropertiesRects {
    /// Bytes of a `PlaneObjectPropertiesRects`.
    pub const SIZE: usize = 96;

    /// Whether this is what the 96 bytes at byte `at` of `s` hold (little-endian fields).
    pub open spec fn matches(&self, s: Seq<u8>, at: int) -> bool {
        &&& self.movement@ == seq![u32_le(s, at + 0 + 0), u32_le(s, at + 0 + 4), u32_le(s, at + 0 + 8), u32_le(s, at + 0 + 12)]
        &&& self.hit@ == seq![u32_le(s, at + 16 + 0), u32_le(s, at + 16 + 4), u32_le(s, at + 16 + 8), u32_le(s, at + 16 + 12)]
        &&& self.attack@ == seq![u32_le(s, at + 32 + 0), u32_le(s, at + 32 + 4), u32_le(s, at + 32 + 8), u32_le(s, at + 32 + 12)]
        &&& self.clip@ == seq![u32_le(s, at + 48 + 0), u32_le(s, at + 48 + 4), u32_le(s, at + 48 + 8), u32_le(s, at + 48 + 12)]
        &&& self.user1@ == seq![u32_le(s, at + 64 + 0), u32_le(s, at + 64 + 4), u32_le(s, at + 64 + 8), u32_le(s, at + 64 + 12)]
        &&& self.user2@ == seq![u32_le(s, at + 80 + 0), u32_le(s, at + 80 + 4), u32_le(s, at + 80 + 8), u32_le(s, at + 80 + 12)]
    }

    /// The layout of the record, word by word: word `k` is the little-endian 32-bit number
    /// at byte `4 * k` (see `word`); names and texts are the bytes at their offsets.
    pub proof fn lemma_layout(&self, s: Seq<u8>, at: int)
        requires
            self.matches(s, at),
        ensures
            self.movement@ == seq![word(s, at, 0), word(s, at, 1), word(s, at, 2), word(s, at, 3)],
            self.hit@ == seq![word(s, at, 4), word(s, at, 5), word(s, at, 6), word(s, at, 7)],
            self.attack@ == seq![word(s, at, 8), word(s, at, 9), word(s, at, 10), word(s, at, 11)],
            self.clip@ == seq![word(s, at, 12), word(s, at, 13), word(s, at, 14), word(s, at, 15)],
            self.user1@ == seq![word(s, at, 16), word(s, at, 17), word(s, at, 18), word(s, at, 19)],
            self.user2@ == seq![word(s, at, 20), word(s, at, 21), word(s, at, 22), word(s, at, 23)],
    {
    }

    /// Reads the 96 bytes at byte `at` of `buf`.
    pub fn read(buf: &[u8], at: usize) -> (r: Self)
        requires
            at + 96 <= buf@.len(),
        ensures
            r.matches(buf@, at as int),
    {
        proof { assert(buf@.len() == buf.len()); }
        PlaneObjectPropertiesRects {
            movement: [read_u32_le(buf, at + 0 + 0), read_u32_le(buf, at + 0 + 4), read_u32_le(buf, at + 0 + 8), read_u32_le(buf, at + 0 + 12)],
            hit: [read_u32_le(buf, at + 16 + 0), read_u32_le(buf, at + 16 + 4), read_u32_le(buf, at + 16 + 8), read_u32_le(buf, at + 16 + 12)],
            attack: [read_u32_le(buf, at + 32 + 0), read_u32_le(buf, at + 32 + 4), read_u32_le(buf, at + 32 + 8), read_u32_le(buf, at + 32 + 12)],
            clip: [read_u32_le(buf, at + 48 + 0), read_u32_le(buf, at + 48 + 4), read_u32_le(buf, at + 48 + 8), read_u32_le(buf, at + 48 + 12)],
            user1: [read_u32_le(buf, at + 64 + 0), read_u32_le(buf, at + 64 + 4), read_u32_le(buf, at + 64 + 8), read_u32_le(buf, at + 64 + 12)],
            user2: [read_u32_le(buf, at + 80 + 0), read_u32_le(buf, at + 80 + 4), read_u32_le(buf, at + 80 + 8), read_u32_le(buf, at + 80 + 12)],
        }
    }
}

/// The 284-byte properties of an object.
#[derive(Debug, Clone, Copy)]
pub struct PlaneObjectProperties {
    pub id: u32,
    pub name_length: u32,
    pub logic_length: u32,
    pub graphic_length: u32,
    pub ani_length: u32,
    pub x: u32,
    pub y: u32,
    pub z: u32,
    pub i: u32,
    pub add_flags: u32,
    pub dynamic_flags: u32,
    pub draw_flags: u32,
    pub user_flags: u32,
    pub score: u32,
    pub points: u32,
    pub powerup: u32,
    pub damage: u32,
    pub smarts: u32,
    pub health: u32,
    pub rects: PlaneObjectPropertiesRects,
    pub user_values: [u32; 8],
    pub x_min: u32,
    pub y_min: u32,
    pub x_max: u32,
    pub y_max: u32,
    pub speed_x: u32,
    pub speed_y: u32,
    pub x_tweak: u32,
    pub y_tweak: u32,
    pub counter: u32,
    pub speed: u32,
    pub width: u32,
    pub height: u32,
    pub direction: u32,
    pub face_dir: u32,
    pub time_delay: u32,
    pub frame_delay: u32,
    pub object_type: u32,
    pub hit_type_flags: u32,
    pub x_move_res: u32,
    pub y_move_res: u32,
}

impl PlaneObjectProperties {
    /// Bytes of a `PlaneObjectProperties`.
    pub const SIZE: usize = 284;

    /// Whether this is what the 284 bytes at byte `at` of `s` hold (little-endian fields).
    pub open spec fn matches(&self, s: Seq<u8>, at: int) -> bool {
        &&& self.id == u32_le(s, at + 0)
        &&& self.name_length == u32_le(s, at + 4)
        &&& self.logic_length == u32_le(s, at + 8)
        &&& self.graphic_length == u32_le(s, at + 12)
        &&& self.ani_length == u32_le(s, at + 16)
        &&& self.x == u32_le(s, at + 20)
        &&& self.y == u32_le(s, at + 24)
        &&& self.z == u32_le(s, at + 28)
        &&& self.i == u32_le(s, at + 32)
        &&& self.add_flags == u32_le(s, at + 36)
        &&& self.dynamic_flags == u32_le(s, at + 40)
        &&& self.draw_flags == u32_le(s, at + 44)
        &&& self.user_flags == u32_le(s, at + 48)
        &&& self.score == u32_le(s, at + 52)
        &&& self.points == u32_le(s, at + 56)
        &&& self.powerup == u32_le(s, at + 60)
        &&& self.damage == u32_le(s, at + 64)
        &&& self.smarts == u32_le(s, at + 68)
        &&& self.health == u32_le(s, at + 72)
        &&& self.rects.matches(s, at + 76)
        &&& self.user_values@ == seq![u32_le(s, at + 172 + 0), u32_le(s, at + 172 + 4), u32_le(s, at + 172 + 8), u32_le(s, at + 172 + 12), u32_le(s, at + 172 + 16), u32_le(s, at + 172 + 20), u32_le(s, at + 172 + 24), u32_le(s, at + 172 + 28)]
        &&& self.x_min == u32_le(s, at + 204)
        &&& self.y_min == u32_le(s, at + 208)
        &&& self.x_max == u32_le(s, at + 212)
        &&& self.y_max == u32_le(s, at + 216)
        &&& self.speed_x == u32_le(s, at + 220)
        &&& self.speed_y == u32_le(s, at + 224)
        &&& self.x_tweak == u32_le(s, at + 228)
        &&& self.y_tweak == u32_le(s, at + 232)
        &&& self.counter == u32_le(s, at + 236)
        &&& self.speed == u32_le(s, at + 240)
        &&& self.width == u32_le(s, at + 244)
        &&& self.height == u32_le(s, at + 248)
        &&& self.direction == u32_le(s, at + 252)
        &&& self.face_dir == u32_le(s, at + 256)
        &&& self.time_delay == u32_le(s, at + 260)
        &&& self.frame_delay == u32_le(s, at + 264)
        &&& self.object_type == u32_le(s, at + 268)
        &&& self.hit_type_flags == u32_le(s, at + 272)
        &&& self.x_move_res == u32_le(s, at + 276)
        &&& self.y_move_res == u32_le(s, at + 280)
    }

    /// The layout of the record, word by word: word `k` is the little-endian 32-bit number
    /// at byte `4 * k` (see `word`); names and texts are the bytes at their offsets.
    pub proof fn lemma_layout(&self, s: Seq<u8>, at: int)
        requires
            self.matches(s, at),
        ensures
            self.id == word(s, at, 0),
            self.name_length == word(s, at, 1),
            self.logic_length == word(s, at, 2),
            self.graphic_length == word(s, at, 3),
            self.ani_length == word(s, at, 4),
            self.x == word(s, at, 5),
            self.y == word(s, at, 6),
            self.z == word(s, at, 7),
            self.i == word(s, at, 8),
            self.add_flags == word(s, at, 9),
            self.dynamic_flags == word(s, at, 10),
            self.draw_flags == word(s, at, 11),
            self.user_flags == word(s, at, 12),
            self.score == word(s, at, 13),
            self.points == word(s, at, 14),
            self.powerup == word(s, at, 15),
            self.damage == word(s, at, 16),
            self.smarts == word(s, at, 17),
            self.health == word(s, at, 18),
            self.rects.movement@ == seq![word(s, at, 19), word(s, at, 20), word(s, at, 21), word(s, at, 22)],
            self.rects.hit@ == seq![word(s, at, 23), word(s, at, 24), word(s, at, 25), word(s, at, 26)],
            self.rects.attack@ == seq![word(s, at, 27), word(s, at, 28), word(s, at, 29), word(s, at, 30)],
            self.rects.clip@ == seq![word(s, at, 31), word(s, at, 32), word(s, at, 33), word(s, at, 34)],
            self.rects.user1@ == seq![word(s, at, 35), word(s, at, 36), word(s, at, 37), word(s, at, 38)],
            self.rects.user2@ == seq![word(s, at, 39), word(s, at, 40), word(s, at, 41), word(s, at, 42)],
            self.user_values@ == seq![word(s, at, 43), word(s, at, 44), word(s, at, 45), word(s, at, 46), word(s, at, 47), word(s, at, 48), word(s, at, 49), word(s, at, 50)],
            self.x_min == word(s, at, 51),
            self.y_min == word(s, at, 52),
            self.x_max == word(s, at, 53),
            self.y_max == word(s, at, 54),
            self.speed_x == word(s, at, 55),
            self.speed_y == word(s, at, 56),
            self.x_tweak == word(s, at, 57),
            self.y_tweak == word(s, at, 58),
            self.counter == word(s, at, 59),
            self.speed == word(s, at, 60),
            self.width == word(s, at, 61),
            self.height == word(s, at, 62),
            self.direction == word(s, at, 63),
            self.face_dir == word(s, at, 64),
            self.time_delay == word(s, at, 65),
            self.frame_delay == word(s, at, 66),
            self.object_type == word(s, at, 67),
            self.hit_type_flags == word(s, at, 68),
            self.x_move_res == word(s, at, 69),
            self.y_move_res == word(s, at, 70),
    {
    }

    /// Reads the 284 bytes at byte `at` of `buf`.
    pub fn read(buf: &[u8], at: usize) -> (r: Self)
        requires
            at + 284 <= buf@.len(),
        ensures
            r.matches(buf@, at as int),
    {
        proof { assert(buf@.len() == buf.len()); }
        PlaneObjectProperties {
            id: read_u32_le(buf, at + 0),
            name_length: read_u32_le(buf, at + 4),
            logic_length: read_u32_le(buf, at + 8),
            graphic_length: read_u32_le(buf, at + 12),
            ani_length: read_u32_le(buf, at + 16),
            x: read_u32_le(buf, at + 20),
            y: read_u32_le(buf, at + 24),
            z: read_u32_le(buf, at + 28),
            i: read_u32_le(buf, at + 32),
            add_flags: read_u32_le(buf, at + 36),
            dynamic_flags: read_u32_le(buf, at + 40),
            draw_flags: read_u32_le(buf, at + 44),
            user_flags: read_u32_le(buf, at + 48),
            score: read_u32_le(buf, at + 52),
            points: read_u32_le(buf, at + 56),
            powerup: read_u32_le(buf, at + 60),
            damage: read_u32_le(buf, at + 64),
            smarts: read_u32_le(buf, at + 68),
            health: read_u32_le(buf, at + 72),
            rects: PlaneObjectPropertiesRects::read(buf, at + 76),
            user_values: [read_u32_le(buf, at + 172 + 0), read_u32_le(buf, at + 172 + 4), read_u32_le(buf, at + 172 + 8), read_u32_le(buf, at + 172 + 12), read_u32_le(buf, at + 172 + 16), read_u32_le(buf, at + 172 + 20), read_u32_le(buf, at + 172 + 24), read_u32_le(buf, at + 172 + 28)],
            x_min: read_u32_le(buf, at + 204),
            y_min: read_u32_le(buf, at + 208),
            x_max: read_u32_le(buf, at + 212),
            y_max: read_u32_le(buf, at + 216),
            speed_x: read_u32_le(buf, at + 220),
            speed_y: read_u32_le(buf, at + 224),
            x_tweak: read_u32_le(buf, at + 228),
            y_tweak: read_u32_le(buf, at + 232),
            counter: read_u32_le(buf, at + 236),
            speed: read_u32_le(buf, at + 240),
            width: read_u32_le(buf, at + 244),
            height: read_u32_le(buf, at + 248),
            direction: read_u32_le(buf, at + 252),
            face_dir: read_u32_le(buf, at + 256),
            time_delay: read_u32_le(buf, at + 260),
            frame_delay: read_u32_le(buf, at + 264),
            object_type: read_u32_le(buf, at + 268),
            hit_type_flags: read_u32_le(buf, at + 272),
            x_move_res: read_u32_le(buf, at + 276),
            y_move_res: read_u32_le(buf, at + 280),
        }
    }
}

/// The 12-byte head of the tile properties.
#[derive(Debug, Clone, Copy)]
pub struct TilePropertiesHead {
    pub length: u32,
    pub __pad: u32,
    pub tile_descriptions_num: u32,
}

impl TilePropertiesHead {
    /// Bytes of a `TilePropertiesHead`.
    pub const SIZE: usize = 12;

    /// Whether this is what the 12 bytes at byte `at` of `s` hold (little-endian fields).
    pub open spec fn matches(&self, s: Seq<u8>, at: int) -> bool {
        &&& self.length == u32_le(s, at + 0)
        &&& self.__pad == u32_le(s, at + 4)
        &&& self.tile_descriptions_num == u32_le(s, at + 8)
    }

    /// The layout of the record, word by word: word `k` is the little-endian 32-bit number
    /// at byte `4 * k` (see `word`); names and texts are the bytes at their offsets.
    pub proof fn lemma_layout(&self, s: Seq<u8>, at: int)
        requires
            self.matches(s, at),
        ensures
            self.length == word(s, at, 0),
            self.__pad == word(s, at, 1),
            self.tile_descriptions_num == word(s, at, 2),
    {
    }

    /// Reads the 12 bytes at byte `at` of `buf`.
    pub fn read(buf: &[u8], at: usize) -> (r: Self)
        requires
            at + 12 <= buf@.len(),
        ensures
            r.matches(buf@, at as int),
    {
        proof { assert(buf@.len() == buf.len()); }
        TilePropertiesHead {
            length: read_u32_le(buf, at + 0),
            __pad: read_u32_le(buf, at + 4),
            tile_descriptions_num: read_u32_le(buf, at + 8),
        }
    }
}

/// The 20-byte properties of a tile of one kind.
#[derive(Debug, Clone, Copy)]
pub struct TilePropertiesSingle {
    pub dtype: TilePropertiesType,
    pub __pad: u32,
    pub width: u32,
    pub height: u32,
    pub inside: u32,
}

impl TilePropertiesSingle {
    /// Bytes of a `TilePropertiesSingle`.
    pub const SIZE: usize = 20;

    /// Whether this is what the 20 bytes at byte `at` of `s` hold (little-endian fields).
    pub open spec fn matches(&self, s: Seq<u8>, at: int) -> bool {
        &&& tile_type_of(u32_le(s, at + 0)) == Some(self.dtype)
        &&& self.__pad == u32_le(s, at + 4)
        &&& self.width == u32_le(s, at + 8)
        &&& self.height == u32_le(s, at + 12)
        &&& self.inside == u32_le(s, at + 16)
    }

    /// The layout of the record, word by word: word `k` is the little-endian 32-bit number
    /// at byte `4 * k` (see `word`); names and texts are the bytes at their offsets.
    pub proof fn lemma_layout(&self, s: Seq<u8>, at: int)
        requires
            self.matches(s, at),
        ensures
            tile_type_of(word(s, at, 0)) == Some(self.dtype),
            self.__pad == word(s, at, 1),
            self.width == word(s, at, 2),
            self.height == word(s, at, 3),
            self.inside == word(s, at, 4),
    {
    }

    /// Reads the 20 bytes at byte `at` of `buf`.
    pub fn read(buf: &[u8], at: usize) -> (r: Self)
        requires
            at + 20 <= buf@.len(),
            tile_type_of(u32_le(buf@, at as int)) is Some,
        ensures
            r.matches(buf@, at as int),
    {
        proof { assert(buf@.len() == buf.len()); }
        let dtype = read_tile_type(buf, at);
        TilePropertiesSingle {
            dtype: dtype,
            __pad: read_u32_le(buf, at + 4),
            width: read_u32_le(buf, at + 8),
            height: read_u32_le(buf, at + 12),
            inside: read_u32_le(buf, at + 16),
        }
    }
}

/// The 40-byte properties of a tile of two kinds.
#[derive(Debug, Clone, Copy)]
pub struct TilePropertiesDouble {
    pub dtype: TilePropertiesType,
    pub __pad: u32,
    pub width: u32,
    pub height: u32,
    pub outside: u32,
    pub inside: u32,
    pub rect: WapRect,
}

impl TilePropertiesDouble {
    /// Bytes of a `TilePropertiesDouble`.
    pub const SIZE: usize = 40;

    /// Whether this is what the 40 bytes at byte `at` of `s` hold (little-endian fields).
    pub open spec fn matches(&self, s: Seq<u8>, at: int) -> bool {
        &&& tile_type_of(u32_le(s, at + 0)) == Some(self.dtype)
        &&& self.__pad == u32_le(s, at + 4)
        &&& self.width == u32_le(s, at + 8)
        &&& self.height == u32_le(s, at + 12)
        &&& self.outside == u32_le(s, at + 16)
        &&& self.inside == u32_le(s, at + 20)
        &&& self.rect@ == seq![u32_le(s, at + 24 + 0), u32_le(s, at + 24 + 4), u32_le(s, at + 24 + 8), u32_le(s, at + 24 + 12)]
    }

    /// The layout of the record, word by word: word `k` is the little-endian 32-bit number
    /// at byte `4 * k` (see `word`); names and texts are the bytes at their offsets.
    pub proof fn lemma_layout(&self, s: Seq<u8>, at: int)
        requires
            self.matches(s, at),
        ensures
            tile_type_of(word(s, at, 0)) == Some(self.dtype),
            self.__pad == word(s, at, 1),
            self.width == word(s, at, 2),
            self.height == word(s, at, 3),
            self.outside == word(s, at, 4),
            self.inside == word(s, at, 5),
            self.rect@ == seq![word(s, at, 6), word(s, at, 7), word(s, at, 8), word(s, at, 9)],
    {
    }

    /// Reads the 40 bytes at byte `at` of `buf`.
    pub fn read(buf: &[u8], at: usize) -> (r: Self)
        requires
            at + 40 <= buf@.len(),
            tile_type_of(u32_le(buf@, at as int)) is Some,
        ensures
            r.matches(buf@, at as int),
    {
        proof { assert(buf@.len() == buf.len()); }
        let dtype = read_tile_type(buf, at);
        TilePropertiesDouble {
            dtype: dtype,
            __pad: read_u32_le(buf, at + 4),
            width: read_u32_le(buf, at + 8),
            height: read_u32_le(buf, at + 12),
            outside: read_u32_le(buf, at + 16),
            inside: read_u32_le(buf, at + 20),
            rect: [read_u32_le(buf, at + 24 + 0), read_u32_le(buf, at + 24 + 4), read_u32_le(buf, at + 24 + 8), read_u32_le(buf, at + 24 + 12)],
        }
    }
}

} // verus!
