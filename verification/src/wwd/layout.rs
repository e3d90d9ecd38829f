//! Where the parts of the body of a world lie.
//!
//! The body holds, in this order: the heads of the planes (160 bytes each), the
//! tile indices of each plane (where its head says), the image-set name of each
//! plane, the objects of each plane (284 bytes of properties and four strings
//! each), and the tile properties (a head, then 20 or 40 bytes per tile).
use vstd::prelude::*;
use vstd::utf8::{valid_utf8, decode_utf8};
use crate::utils::{u32_le, until_zero};

verus! {

/// The 32-bit field at byte `off` of the head of plane `i`.
pub open spec fn plane_field(b: Seq<u8>, i: int, off: int) -> u32 {
    u32_le(b, i * 160 + off)
}

/// The number of image sets of plane `i`.
pub open spec fn tilesets_num(b: Seq<u8>, i: int) -> u32 {
    plane_field(b, i, 124)
}

/// The number of objects of plane `i`.
pub open spec fn objects_num(b: Seq<u8>, i: int) -> u32 {
    plane_field(b, i, 128)
}

/// The size that the head of plane `i` gives itself.
pub open spec fn head_size(b: Seq<u8>, i: int) -> u32 {
    plane_field(b, i, 0)
}

/// The heads of the `n` planes lie in the body, each says it has 160 bytes and each
/// plane uses one image set.
pub open spec fn heads_ok(b: Seq<u8>, n: int) -> bool {
    &&& n * 160 <= b.len()
    &&& forall|i: int| 0 <= i < n ==> #[trigger] head_size(b, i) == 160
    &&& forall|i: int| 0 <= i < n ==> #[trigger] tilesets_num(b, i) == 1
}

/// Whether an offset in the file, `field`, less the offset of the body, `base`, is the
/// position `p` in the body, reckoned in 32-bit signed numbers (the difference must not
/// overflow them).
pub open spec fn offset_at(field: u32, base: int, p: int) -> bool {
    let d = (field as i32) as int - ((base as u32) as i32) as int;
    &&& i32::MIN <= d <= i32::MAX
    &&& d == (p as i32) as int
}

/// Where the tiles of plane `i` start in the body (`base` is the offset of the body
/// in the file, which the heads count from).
pub open spec fn tiles_start(b: Seq<u8>, base: int, i: int) -> int {
    plane_field(b, i, 132) - base
}

/// How many tiles plane `i` has: its width times its height in tiles.
pub open spec fn tiles_count(b: Seq<u8>, i: int) -> int {
    plane_field(b, i, 96) * plane_field(b, i, 100)
}

/// Where the tiles of plane `i` end.
pub open spec fn tiles_end(b: Seq<u8>, base: int, i: int) -> int {
    tiles_start(b, base, i) + 4 * tiles_count(b, i)
}

/// The tiles of plane `i` lie in the body and their bounds fit in 32 bits.
pub open spec fn tiles_ok(b: Seq<u8>, base: int, i: int) -> bool {
    &&& tiles_start(b, base, i) >= 0
    &&& tiles_end(b, base, i) <= u32::MAX
    &&& tiles_end(b, base, i) <= b.len()
}

/// The tile indices of plane `i`.
pub open spec fn tiles_of(b: Seq<u8>, base: int, i: int) -> Seq<u32> {
    Seq::new(tiles_count(b, i) as nat, |k: int| u32_le(b, tiles_start(b, base, i) + 4 * k))
}

/// Where the tiles of the last of `n` planes end (0 for no plane).
pub open spec fn after_tiles(b: Seq<u8>, base: int, n: int) -> int {
    if n <= 0 {
        0
    } else {
        tiles_end(b, base, n - 1)
    }
}

/// The 32 bytes at `p`, which hold a zero-terminated name.
pub open spec fn name_window(b: Seq<u8>, p: int) -> Seq<u8> {
    b.subrange(p, p + 32)
}

/// The bytes of the name at `p`.
pub open spec fn name_bytes(b: Seq<u8>, p: int) -> Seq<u8> {
    until_zero(name_window(b, p))
}

/// The name at `p` lies in the body, ends within 32 bytes and is UTF-8.
pub open spec fn name_ok(b: Seq<u8>, p: int) -> bool {
    &&& p + 32 <= b.len()
    &&& name_window(b, p).contains(0u8)
    &&& valid_utf8(name_bytes(b, p))
}

/// Where the name of plane `i` lies, the first at `p0`, each after the zero of the
/// one before.
pub open spec fn name_pos(b: Seq<u8>, p0: int, i: nat) -> int
    decreases i,
{
    if i == 0 {
        p0
    } else {
        let p = name_pos(b, p0, (i - 1) as nat);
        p + name_bytes(b, p).len() + 1
    }
}

/// The name of plane `i` lies where its head says, and is well-formed.
pub open spec fn plane_name_ok(b: Seq<u8>, base: int, p0: int, i: int) -> bool {
    let p = name_pos(b, p0, i as nat);
    offset_at(plane_field(b, i, 136), base, p) && name_ok(b, p)
}

/// The names of the `n` planes lie where their heads say, and are well-formed.
pub open spec fn names_ok(b: Seq<u8>, base: int, p0: int, n: int) -> bool {
    forall|i: int| 0 <= i < n ==> #[trigger] plane_name_ok(b, base, p0, i)
}

/// The bytes of "IMAGEZ".
pub open spec fn imagez() -> Seq<u8> {
    seq![0x49u8, 0x4du8, 0x41u8, 0x47u8, 0x45u8, 0x5au8]
}

/// Whether `u` ends with "IMAGEZ".
pub open spec fn ends_imagez(u: Seq<u8>) -> bool {
    u.len() >= 6 && u.subrange(u.len() - 6, u.len() as int) == imagez()
}

/// The image sets of the header are zero-terminated UTF-8 strings.
pub open spec fn sets_ok(sets: Seq<Seq<u8>>) -> bool {
    forall|t: int|
        0 <= t < 4 ==> (#[trigger] sets[t]).contains(0u8) && valid_utf8(until_zero(sets[t]))
}

/// The tile sets from the first `k` image sets of the header for a plane whose image
/// set is named `name`: each image set that ends with "IMAGEZ" gives its text without
/// that ending, followed by the name.
pub open spec fn tileset_upto(sets: Seq<Seq<u8>>, name: Seq<u8>, k: nat) -> Seq<Seq<char>>
    decreases k,
{
    if k == 0 {
        Seq::empty()
    } else {
        let rest = tileset_upto(sets, name, (k - 1) as nat);
        let u = until_zero(sets[k - 1]);
        if ends_imagez(u) {
            rest.push(decode_utf8(u.subrange(0, u.len() - 6)) + decode_utf8(name))
        } else {
            rest
        }
    }
}

/// The tile sets for a plane whose image set is named `name`.
pub open spec fn tileset_of(sets: Seq<Seq<u8>>, name: Seq<u8>) -> Seq<Seq<char>> {
    tileset_upto(sets, name, 4)
}

/// Where the object whose properties lie at `p` ends: after its 284 bytes and its
/// name, logic, graphic and animation strings.
pub open spec fn object_end(b: Seq<u8>, p: int) -> int {
    p + 284 + u32_le(b, p + 4) + u32_le(b, p + 8) + u32_le(b, p + 12) + u32_le(b, p + 16)
}

/// The object at `p` lies in the body.
pub open spec fn object_ok(b: Seq<u8>, p: int) -> bool {
    &&& p + 284 <= b.len()
    &&& object_end(b, p) <= b.len()
}

/// Where object `k` of a run of objects that starts at `p` lies.
pub open spec fn objects_pos(b: Seq<u8>, p: int, k: nat) -> int
    decreases k,
{
    if k == 0 {
        p
    } else {
        object_end(b, objects_pos(b, p, (k - 1) as nat))
    }
}

/// The `m` objects of a run that starts at `p` lie in the body.
pub open spec fn objects_ok(b: Seq<u8>, p: int, m: int) -> bool {
    forall|k: int| 0 <= k < m ==> object_ok(b, #[trigger] objects_pos(b, p, k as nat))
}

/// Where the objects of plane `i` start, those of the first plane at `r0`.
pub open spec fn plane_objects_pos(b: Seq<u8>, r0: int, i: nat) -> int
    decreases i,
{
    if i == 0 {
        r0
    } else {
        let j = (i - 1) as nat;
        objects_pos(b, plane_objects_pos(b, r0, j), objects_num(b, j as int) as nat)
    }
}

/// The objects of plane `i` start where its head says, when it has any, and lie in the
/// body.
pub open spec fn plane_objects_ok(b: Seq<u8>, base: int, r0: int, i: int) -> bool {
    let p = plane_objects_pos(b, r0, i as nat);
    &&& objects_num(b, i) != 0 ==> offset_at(plane_field(b, i, 140), base, p)
    &&& objects_ok(b, p, objects_num(b, i) as int)
}

/// The objects of the `n` planes lie where their heads say, and in the body.
pub open spec fn planes_objects_ok(b: Seq<u8>, base: int, r0: int, n: int) -> bool {
    forall|i: int| 0 <= i < n ==> #[trigger] plane_objects_ok(b, base, r0, i)
}

/// The size of the tile properties at `q`: 20 bytes for one kind, 40 for two.
pub open spec fn attr_size(b: Seq<u8>, q: int) -> int {
    if u32_le(b, q) == 1 {
        20
    } else {
        40
    }
}

/// The tile properties at `q` lie in the body and are of one kind (1) or two (2).
pub open spec fn attr_ok(b: Seq<u8>, q: int) -> bool {
    &&& q + 20 <= b.len()
    &&& u32_le(b, q) == 1 || (u32_le(b, q) == 2 && q + 40 <= b.len())
}

/// Where the properties of tile `k` lie, the first at `q0`.
pub open spec fn attrs_pos(b: Seq<u8>, q0: int, k: nat) -> int
    decreases k,
{
    if k == 0 {
        q0
    } else {
        let q = attrs_pos(b, q0, (k - 1) as nat);
        q + attr_size(b, q)
    }
}

/// The number of tile properties, from the head at `s`.
pub open spec fn attrs_num(b: Seq<u8>, s: int) -> u32 {
    u32_le(b, s + 8)
}

/// The tile properties whose 32-byte head lies at `s` lie where the header says (`tdo`
/// less the offset of the body `base`), and are well-formed: the head says it has 32
/// bytes and counts at least one tile.
pub open spec fn attrs_ok(b: Seq<u8>, base: int, tdo: int, s: int) -> bool {
    &&& base <= tdo
    &&& tdo - base == (s as u32) as int
    &&& s + 12 <= b.len()
    &&& u32_le(b, s) == 32
    &&& attrs_num(b, s) > 0
    &&& s + 32 <= usize::MAX
    &&& forall|k: int|
        0 <= k < attrs_num(b, s) ==> attr_ok(b, #[trigger] attrs_pos(b, s + 32, k as nat))
}

/// Where the objects of the first plane start.
pub open spec fn objects_start(b: Seq<u8>, base: int, n: int) -> int {
    name_pos(b, after_tiles(b, base, n), n as nat)
}

/// Where the head of the tile properties lies.
pub open spec fn attrs_start(b: Seq<u8>, base: int, n: int) -> int {
    plane_objects_pos(b, objects_start(b, base, n), n as nat)
}

/// A body of `n` planes, whose offsets count from `base`, can be read with the offset
/// of the tile properties `tdo` and the image sets `sets` of the header.
pub open spec fn body_ok(n: int, base: int, tdo: int, sets: Seq<Seq<u8>>, b: Seq<u8>) -> bool {
    &&& heads_ok(b, n)
    &&& forall|i: int| 0 <= i < n ==> #[trigger] tiles_ok(b, base, i)
    &&& n > 0 ==> sets_ok(sets)
    &&& names_ok(b, base, after_tiles(b, base, n), n)
    &&& planes_objects_ok(b, base, objects_start(b, base, n), n)
    &&& attrs_ok(b, base, tdo, attrs_start(b, base, n))
}

} // verus!
