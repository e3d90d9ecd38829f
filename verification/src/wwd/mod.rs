//! WWD worlds: planes of tiles and objects, and tile properties.

pub mod ds;
pub mod layout;

use std::io::Read;
use vstd::prelude::*;
use vstd::utf8::{decode_utf8, valid_utf8};
use vstd::string::{StringSliceAdditionalSpecFns, StringExecFns};
use crate::res::node::Node;
use crate::utils::{
    ByteStream, ReadError, in_stream, flags_has, u32_le, until_zero, read_u32_le, find_zero,
    str_from_utf8, lemma_str_chars,
};
use self::ds::{
    Head, PlaneHead, PlaneObjectProperties, TilePropertiesHead, TilePropertiesSingle, TilePropertiesDouble,
    RawWwdHeader,
};
use self::layout::{
    after_tiles, attr_ok, attrs_num, attrs_ok, attrs_pos, attrs_start, body_ok, ends_imagez,
    head_size, heads_ok, imagez, name_bytes, name_ok, name_pos, name_window, names_ok, object_end,
    object_ok, objects_num, objects_ok, objects_pos, objects_start, offset_at, plane_field,
    plane_name_ok, plane_objects_ok, plane_objects_pos, planes_objects_ok, sets_ok, tiles_count,
    tiles_end, tiles_of, tiles_ok, tiles_start, tileset_of, tileset_upto, tilesets_num,
};

verus! {

/// The strings of an object.
#[derive(Debug)]
pub struct WapObjectTraits {
    pub name: Vec<u8>,
    pub logic: Vec<u8>,
    pub graphic: Vec<u8>,
    pub animation: Vec<u8>,
}

/// An object of a plane.
pub struct WapObject {
    pub i: u32,
    pub traits: WapObjectTraits,
    pub properties: PlaneObjectProperties,
}

/// A plane of a world.
pub struct WapPlane {
    pub i: usize,
    pub properties: PlaneHead,
    pub tiles: Vec<u32>,
    pub tileset: Vec<String>,
    pub tileset_names: Vec<String>,
    pub objects: Vec<WapObject>,
}

/// The properties of a tile.
#[derive(Debug)]
pub enum RawTileAttrs {
    Single(TilePropertiesSingle),
    Double(TilePropertiesDouble),
}

/// A world: the tile properties, the header and the planes.
pub type RawWwd = (Vec<RawTileAttrs>, RawWwdHeader, Vec<WapPlane>);

/// The texts of strings.
pub open spec fn texts(v: Seq<String>) -> Seq<Seq<char>> {
    v.map_values(|s: String| s@)
}

/// The image sets of a header, each the 128 bytes of its field.
pub open spec fn header_sets(h: RawWwdHeader) -> Seq<Seq<u8>> {
    Seq::new(4, |t: int| h.img_sets@[t]@)
}

/// Whether `o` is object `k` of a plane, read at `p`.
pub open spec fn object_matches(o: WapObject, k: int, b: Seq<u8>, p: int) -> bool {
    let n = p + 284;
    let l = n + u32_le(b, p + 4);
    let g = l + u32_le(b, p + 8);
    let a = g + u32_le(b, p + 12);
    &&& o.i == k
    &&& o.properties.matches(b, p)
    &&& o.traits.name@ == b.subrange(n, l)
    &&& o.traits.logic@ == b.subrange(l, g)
    &&& o.traits.graphic@ == b.subrange(g, a)
    &&& o.traits.animation@ == b.subrange(a, object_end(b, p))
}

/// Whether `objects` are the `m` objects of the run at `p`.
pub open spec fn objects_match(objects: Seq<WapObject>, b: Seq<u8>, p: int, m: int) -> bool {
    &&& objects.len() == m
    &&& forall|k: int|
        0 <= k < m ==> object_matches(#[trigger] objects[k], k, b, objects_pos(b, p, k as nat))
}

/// Whether `plane` is plane `i` of a body of `n` planes.
pub open spec fn plane_matches(
    plane: WapPlane,
    i: int,
    n: int,
    base: int,
    sets: Seq<Seq<u8>>,
    b: Seq<u8>,
) -> bool {
    let name = name_bytes(b, name_pos(b, after_tiles(b, base, n), i as nat));
    &&& plane.i == i
    &&& plane.properties.matches(b, i * 160)
    &&& plane.tiles@ == tiles_of(b, base, i)
    &&& texts(plane.tileset_names@) == seq![decode_utf8(name)]
    &&& texts(plane.tileset@) == tileset_of(sets, name)
    &&& objects_match(
        plane.objects@,
        b,
        plane_objects_pos(b, objects_start(b, base, n), i as nat),
        objects_num(b, i) as int,
    )
}

/// Whether `a` are the tile properties read at `q`.
pub open spec fn attr_matches(a: RawTileAttrs, b: Seq<u8>, q: int) -> bool {
    match a {
        RawTileAttrs::Single(s) => u32_le(b, q) == 1 && s.matches(b, q),
        RawTileAttrs::Double(d) => u32_le(b, q) == 2 && d.matches(b, q),
    }
}

/// Whether `attrs` are the tile properties whose head lies at `s`.
pub open spec fn attrs_match(attrs: Seq<RawTileAttrs>, b: Seq<u8>, s: int) -> bool {
    &&& attrs.len() == attrs_num(b, s)
    &&& forall|k: int|
        0 <= k < attrs.len() ==> attr_matches(
            #[trigger] attrs[k],
            b,
            attrs_pos(b, s + 32, k as nat),
        )
}

/// Whether `attrs` and `planes` are what the body `b` of `n` planes holds.
pub open spec fn body_matches(
    n: int,
    base: int,
    sets: Seq<Seq<u8>>,
    b: Seq<u8>,
    attrs: Seq<RawTileAttrs>,
    planes: Seq<WapPlane>,
) -> bool {
    &&& planes.len() == n
    &&& forall|i: int| 0 <= i < n ==> plane_matches(#[trigger] planes[i], i, n, base, sets, b)
    &&& attrs_match(attrs, b, attrs_start(b, base, n))
}

/// Reads the heads of the `n` planes, or `None` where one lies past the body, gives
/// itself another size than 160 bytes or uses more or fewer than one image set.
fn read_plane_heads(b: &[u8], n: u32) -> (r: Option<Vec<PlaneHead>>)
    ensures
        r is Some <==> heads_ok(b@, n as int),
        r matches Some(heads) ==> heads@.len() == n && forall|i: int|
            0 <= i < n ==> (#[trigger] heads@[i]).matches(b@, i * 160),
{
    let mut heads: Vec<PlaneHead> = Vec::new();
    let mut i: u32 = 0;
    while i < n
        invariant
            i <= n,
            heads@.len() == i,
            i * 160 <= b@.len(),
            forall|j: int| 0 <= j < i ==> (#[trigger] heads@[j]).matches(b@, j * 160),
            forall|j: int| 0 <= j < i ==> #[trigger] head_size(b@, j) == 160,
            forall|j: int| 0 <= j < i ==> #[trigger] tilesets_num(b@, j) == 1,
        decreases n - i,
    {
        let pos: usize = match (i as usize).checked_mul(160) {
            Some(p) => p,
            None => {
                proof {
                    assert(b@.len() == b.len());
                    assert(n * 160 >= (i + 1) * 160) by (nonlinear_arith)
                        requires i < n;
                }
                return None;
            },
        };
        if pos > b.len() || b.len() - pos < 160 {
            proof {
                assert(!heads_ok(b@, n as int)) by {
                    assert(n * 160 >= (i + 1) * 160) by (nonlinear_arith)
                        requires i < n;
                }
            }
            return None;
        }
        let head = PlaneHead::read(b, pos);
        if head.size != 160 {
            proof {
                assert(head_size(b@, i as int) != 160);
            }
            return None;
        }
        if head.tilesets_num != 1 {
            proof {
                assert(tilesets_num(b@, i as int) != 1);
            }
            return None;
        }
        heads.push(head);
        i = i + 1;
    }
    Some(heads)
}

/// Reads the tile indices of plane `i`, whose head is `head`, or `None` where they lie
/// past the body or their bounds overflow 32 bits.
fn read_plane_tiles(b: &[u8], base: u32, head: &PlaneHead, i: usize) -> (r: Option<(Vec<u32>, u32)>)
    requires
        head.matches(b@, i * 160),
    ensures
        r is Some <==> tiles_ok(b@, base as int, i as int),
        r matches Some((t, end)) ==> t@ == tiles_of(b@, base as int, i as int) && end == tiles_end(
            b@,
            base as int,
            i as int,
        ),
{
    let start = match head.offset.checked_sub(base) {
        Some(s) => s,
        None => return None,
    };
    let count = match head.tile_wide.checked_mul(head.tile_high) {
        Some(c) => c,
        None => return None,
    };
    let size = match count.checked_mul(4) {
        Some(s) => s,
        None => return None,
    };
    let end = match start.checked_add(size) {
        Some(e) => e,
        None => return None,
    };
    if end as usize > b.len() {
        return None;
    }
    let ghost s = tiles_start(b@, base as int, i as int);
    assert(count == tiles_count(b@, i as int));
    let mut tiles: Vec<u32> = Vec::new();
    let mut k: u32 = 0;
    while k < count
        invariant
            k <= count,
            count == tiles_count(b@, i as int),
            s == start,
            start + 4 * count == end,
            end <= b@.len(),
            tiles@ == Seq::new(k as nat, |j: int| u32_le(b@, s + 4 * j)),
        decreases count - k,
    {
        let at = start as usize + 4 * k as usize;
        tiles.push(read_u32_le(b, at));
        k = k + 1;
        assert(tiles@ =~= Seq::new(k as nat, |j: int| u32_le(b@, s + 4 * j)));
    }
    Some((tiles, end))
}

/// Reads the tile indices of each plane; with them, where those of the last plane end.
fn read_tiles(b: &[u8], base: u32, heads: &Vec<PlaneHead>) -> (r: Option<(Vec<Vec<u32>>, usize)>)
    requires
        forall|i: int| 0 <= i < heads@.len() ==> (#[trigger] heads@[i]).matches(b@, i * 160),
    ensures
        r is Some <==> forall|i: int| 0 <= i < heads@.len() ==> #[trigger] tiles_ok(b@, base as int, i),
        r matches Some((tiles, end)) ==> {
            &&& tiles@.len() == heads@.len()
            &&& forall|i: int| 0 <= i < heads@.len() ==> (#[trigger] tiles@[i])@ == tiles_of(b@, base as int, i)
            &&& end == after_tiles(b@, base as int, heads@.len() as int)
        },
{
    let mut all: Vec<Vec<u32>> = Vec::new();
    let mut end: usize = 0;
    let mut i: usize = 0;
    while i < heads.len()
        invariant
            forall|j: int| 0 <= j < heads@.len() ==> (#[trigger] heads@[j]).matches(b@, j * 160),
            i <= heads@.len(),
            all@.len() == i,
            forall|j: int| 0 <= j < i ==> #[trigger] tiles_ok(b@, base as int, j),
            forall|j: int| 0 <= j < i ==> (#[trigger] all@[j])@ == tiles_of(b@, base as int, j),
            end == after_tiles(b@, base as int, i as int),
        decreases heads@.len() - i,
    {
        let (t, e) = match read_plane_tiles(b, base, &heads[i], i) {
            Some(r) => r,
            None => return None,
        };
        all.push(t);
        end = e as usize;
        i = i + 1;
    }
    Some((all, end))
}

/// Reads the name at `p`: its text and where the next one starts, or `None` where it
/// lies past the body, has no zero within 32 bytes or is not UTF-8.
fn read_name(b: &[u8], p: usize) -> (r: Option<(&str, usize)>)
    ensures
        r is Some <==> name_ok(b@, p as int),
        r matches Some((s, next)) ==> {
            &&& s.spec_bytes() == name_bytes(b@, p as int)
            &&& next == p + name_bytes(b@, p as int).len() + 1
        },
{
    if p > b.len() || b.len() - p < 32 {
        return None;
    }
    let w = &b[p..p + 32];
    assert(w@ == name_window(b@, p as int));
    assert(w@.subrange(0, w@.len() as int) =~= w@);
    let z = match find_zero(w, 0) {
        Some(z) => z,
        None => return None,
    };
    match str_from_utf8(&w[0..z]) {
        Ok(s) => Some((s, p + z + 1)),
        Err(_) => None,
    }
}

/// Whether `field` less `base`, in 32-bit signed numbers, is the position `p`; `false`
/// where the difference overflows.
fn offset_is(field: u32, base: u32, p: usize) -> (r: bool)
    ensures
        r == offset_at(field, base as int, p as int),
{
    let a = field as i32;
    let c = base as i32;
    match a.checked_sub(c) {
        Some(d) => d == p as i32,
        None => false,
    }
}

/// Reads the names of the planes, the first at `p0`; with them, where the last ends.
/// `None` where a name does not lie where the head of its plane says, or is not
/// well-formed.
fn read_names<'b>(b: &'b [u8], base: u32, p0: usize, heads: &Vec<PlaneHead>) -> (r: Option<(Vec<&'b str>, usize)>)
    requires
        forall|i: int| 0 <= i < heads@.len() ==> (#[trigger] heads@[i]).matches(b@, i * 160),
    ensures
        r is Some <==> names_ok(b@, base as int, p0 as int, heads@.len() as int),
        r matches Some((names, end)) ==> {
            &&& names@.len() == heads@.len()
            &&& forall|i: int|
                0 <= i < heads@.len() ==> (#[trigger] names@[i]).spec_bytes() == name_bytes(
                    b@,
                    name_pos(b@, p0 as int, i as nat),
                )
            &&& end == name_pos(b@, p0 as int, heads@.len() as nat)
        },
{
    let n = heads.len();
    let mut names: Vec<&str> = Vec::new();
    let mut p = p0;
    let mut i: usize = 0;
    while i < n
        invariant
            n == heads@.len(),
            forall|j: int| 0 <= j < heads@.len() ==> (#[trigger] heads@[j]).matches(b@, j * 160),
            i <= n,
            names@.len() == i,
            p == name_pos(b@, p0 as int, i as nat),
            forall|j: int| 0 <= j < i ==> #[trigger] plane_name_ok(b@, base as int, p0 as int, j),
            forall|j: int|
                0 <= j < i ==> (#[trigger] names@[j]).spec_bytes() == name_bytes(
                    b@,
                    name_pos(b@, p0 as int, j as nat),
                ),
        decreases n - i,
    {
        assert(heads@[i as int].image_sets_names_offset == plane_field(b@, i as int, 136));
        if !offset_is(heads[i].image_sets_names_offset, base, p) {
            assert(!plane_name_ok(b@, base as int, p0 as int, i as int));
            return None;
        }
        let (s, next) = match read_name(b, p) {
            Some(r) => r,
            None => {
                assert(!plane_name_ok(b@, base as int, p0 as int, i as int));
                return None;
            },
        };
        names.push(s);
        p = next;
        i = i + 1;
    }
    Some((names, p))
}

/// The text of the image set of field `t` of the header, or `None` where it has no
/// zero or is not UTF-8.
fn read_set<'h>(h: &'h RawWwdHeader, t: usize) -> (r: Option<&'h str>)
    requires
        t < 4,
    ensures
        r is Some <==> header_sets(*h)[t as int].contains(0u8) && valid_utf8(
            until_zero(header_sets(*h)[t as int]),
        ),
        r matches Some(s) ==> s.spec_bytes() == until_zero(header_sets(*h)[t as int]),
{
    let f: &[u8] = &h.img_sets[t];
    assert(f@ == header_sets(*h)[t as int]);
    assert(f@.subrange(0, f@.len() as int) =~= f@);
    let z = match find_zero(f, 0) {
        Some(z) => z,
        None => return None,
    };
    match str_from_utf8(&f[0..z]) {
        Ok(s) => Some(s),
        Err(_) => None,
    }
}

/// The texts of the four image sets of the header, or `None` where one has no zero
/// or is not UTF-8.
fn read_sets<'h>(h: &'h RawWwdHeader) -> (r: Option<Vec<&'h str>>)
    ensures
        r is Some <==> sets_ok(header_sets(*h)),
        r matches Some(v) ==> v@.len() == 4 && forall|t: int|
            0 <= t < 4 ==> (#[trigger] v@[t]).spec_bytes() == until_zero(header_sets(*h)[t]),
{
    let mut v: Vec<&'h str> = Vec::new();
    let mut t: usize = 0;
    while t < 4
        invariant
            t <= 4,
            v@.len() == t,
            forall|j: int|
                0 <= j < t ==> (#[trigger] header_sets(*h)[j]).contains(0u8) && valid_utf8(
                    until_zero(header_sets(*h)[j]),
                ),
            forall|j: int|
                0 <= j < t ==> (#[trigger] v@[j]).spec_bytes() == until_zero(header_sets(*h)[j]),
        decreases 4 - t,
    {
        match read_set(h, t) {
            Some(s) => v.push(s),
            None => return None,
        }
        t = t + 1;
    }
    Some(v)
}

/// Whether `u` ends with "IMAGEZ".
fn ends_with_imagez(u: &[u8]) -> (r: bool)
    ensures
        r == ends_imagez(u@),
{
    let n = u.len();
    if n < 6 {
        return false;
    }
    let r = u[n - 6] == 0x49 && u[n - 5] == 0x4d && u[n - 4] == 0x41 && u[n - 3] == 0x47 && u[n
        - 2] == 0x45 && u[n - 1] == 0x5a;
    proof {
        let tail = u@.subrange(n - 6, n as int);
        if r {
            assert(tail =~= imagez());
        } else if tail == imagez() {
            assert(tail[0] == imagez()[0] && tail[1] == imagez()[1] && tail[2] == imagez()[2]);
            assert(tail[3] == imagez()[3] && tail[4] == imagez()[4] && tail[5] == imagez()[5]);
        }
    }
    r
}

/// The tile sets of a plane whose image set is `name`: each image set of the header
/// that ends with "IMAGEZ", without that ending, followed by the name.
fn plane_tileset(h: &RawWwdHeader, sets: &Vec<&str>, name: &str) -> (r: Vec<String>)
    requires
        sets@.len() == 4,
        forall|t: int| 0 <= t < 4 ==> (#[trigger] sets@[t]).spec_bytes() == until_zero(header_sets(*h)[t]),
    ensures
        texts(r@) == tileset_of(header_sets(*h), name.spec_bytes()),
{
    let ghost hs = header_sets(*h);
    let mut out: Vec<String> = Vec::new();
    let mut t: usize = 0;
    proof {
        lemma_str_chars(name, name.spec_bytes());
        assert(texts(out@) =~= tileset_upto(hs, name.spec_bytes(), 0));
    }
    while t < 4
        invariant
            t <= 4,
            hs == header_sets(*h),
            sets@.len() == 4,
            forall|j: int| 0 <= j < 4 ==> (#[trigger] sets@[j]).spec_bytes() == until_zero(hs[j]),
            name@ == decode_utf8(name.spec_bytes()),
            texts(out@) == tileset_upto(hs, name.spec_bytes(), t as nat),
        decreases 4 - t,
    {
        let u: &str = sets[t];
        let ub = u.as_bytes();
        if ends_with_imagez(ub) {
            let mid = ub.len() - 6;
            proof {
                let bytes = u.spec_bytes();
                vstd::utf8::encode_utf8_valid_utf8(u@);
                vstd::utf8::is_char_boundary_iff_is_leading_byte(bytes, mid as int);
                assert(bytes.subrange(bytes.len() - 6, bytes.len() as int)[0] == 0x49u8);
                assert(bytes[mid as int] == 0x49u8);
            }
            let (cut, _) = u.split_at(mid);
            proof {
                lemma_str_chars(cut, cut.spec_bytes());
            }
            let mut s = cut.to_owned();
            s.append(name);
            let ghost before = out@;
            out.push(s);
            proof {
                assert(texts(out@) =~= texts(before).push(s@));
            }
        }
        t = t + 1;
    }
    out
}

/// The `len` bytes at `q` and where they end, or `None` where they lie past the body.
fn read_string(b: &[u8], q: usize, len: u32) -> (r: Option<(Vec<u8>, usize)>)
    ensures
        r is Some <==> q + len <= b@.len(),
        r matches Some((v, e)) ==> v@ == b@.subrange(q as int, q + len) && e == q + len,
{
    let n = len as usize;
    if q > b.len() || b.len() - q < n {
        return None;
    }
    Some((vstd::slice::slice_to_vec(&b[q..q + n]), q + n))
}

/// Reads object `k` of a plane at `p`, and where it ends, or `None` where it lies past
/// the body.
fn read_object(b: &[u8], p: usize, k: u32) -> (r: Option<(WapObject, usize)>)
    ensures
        r is Some <==> object_ok(b@, p as int),
        r matches Some((o, e)) ==> object_matches(o, k as int, b@, p as int) && e == object_end(
            b@,
            p as int,
        ),
{
    if p > b.len() || b.len() - p < 284 {
        return None;
    }
    let properties = PlaneObjectProperties::read(b, p);
    let (name, q) = match read_string(b, p + 284, properties.name_length) {
        Some(r) => r,
        None => return None,
    };
    let (logic, q) = match read_string(b, q, properties.logic_length) {
        Some(r) => r,
        None => return None,
    };
    let (graphic, q) = match read_string(b, q, properties.graphic_length) {
        Some(r) => r,
        None => return None,
    };
    let (animation, q) = match read_string(b, q, properties.ani_length) {
        Some(r) => r,
        None => return None,
    };
    Some((WapObject { i: k, traits: WapObjectTraits { name, logic, graphic, animation }, properties }, q))
}

/// Reads the `m` objects of the run at `p`, and where they end.
fn read_objects(b: &[u8], p: usize, m: u32) -> (r: Option<(Vec<WapObject>, usize)>)
    ensures
        r is Some <==> objects_ok(b@, p as int, m as int),
        r matches Some((objects, e)) ==> objects_match(objects@, b@, p as int, m as int) && e
            == objects_pos(b@, p as int, m as nat),
{
    let mut objects: Vec<WapObject> = Vec::new();
    let mut q = p;
    let mut k: u32 = 0;
    while k < m
        invariant
            k <= m,
            objects@.len() == k,
            q == objects_pos(b@, p as int, k as nat),
            forall|j: int| 0 <= j < k ==> object_ok(b@, #[trigger] objects_pos(b@, p as int, j as nat)),
            forall|j: int|
                0 <= j < k ==> object_matches(
                    #[trigger] objects@[j],
                    j,
                    b@,
                    objects_pos(b@, p as int, j as nat),
                ),
        decreases m - k,
    {
        let (o, e) = match read_object(b, q, k) {
            Some(r) => r,
            None => {
                assert(!objects_ok(b@, p as int, m as int)) by {
                    let j = k as int;
                    assert(!object_ok(b@, objects_pos(b@, p as int, j as nat)));
                }
                return None;
            },
        };
        objects.push(o);
        q = e;
        k = k + 1;
    }
    assert(objects_ok(b@, p as int, m as int)) by {
        assert forall|j: int| 0 <= j < m implies object_ok(b@, #[trigger] objects_pos(b@, p as int, j as nat)) by {
            assert(object_ok(b@, objects_pos(b@, p as int, j as nat)));
        }
    }
    Some((objects, q))
}

/// Reads the objects of each plane, those of the first at `r0`, and where those of the
/// last end.
fn read_planes_objects(b: &[u8], base: u32, r0: usize, heads: &Vec<PlaneHead>) -> (r: Option<
    (Vec<Vec<WapObject>>, usize),
>)
    requires
        forall|i: int| 0 <= i < heads@.len() ==> (#[trigger] heads@[i]).matches(b@, i * 160),
    ensures
        r is Some <==> planes_objects_ok(b@, base as int, r0 as int, heads@.len() as int),
        r matches Some((all, e)) ==> {
            &&& all@.len() == heads@.len()
            &&& forall|i: int|
                0 <= i < heads@.len() ==> objects_match(
                    (#[trigger] all@[i])@,
                    b@,
                    plane_objects_pos(b@, r0 as int, i as nat),
                    objects_num(b@, i) as int,
                )
            &&& e == plane_objects_pos(b@, r0 as int, heads@.len() as nat)
        },
{
    let n = heads.len();
    let mut all: Vec<Vec<WapObject>> = Vec::new();
    let mut q = r0;
    let mut i: usize = 0;
    while i < n
        invariant
            n == heads@.len(),
            forall|j: int| 0 <= j < heads@.len() ==> (#[trigger] heads@[j]).matches(b@, j * 160),
            i <= n,
            all@.len() == i,
            q == plane_objects_pos(b@, r0 as int, i as nat),
            forall|j: int| 0 <= j < i ==> #[trigger] plane_objects_ok(b@, base as int, r0 as int, j),
            forall|j: int|
                0 <= j < i ==> objects_match(
                    (#[trigger] all@[j])@,
                    b@,
                    plane_objects_pos(b@, r0 as int, j as nat),
                    objects_num(b@, j) as int,
                ),
        decreases n - i,
    {
        assert(heads@[i as int].objects_num == objects_num(b@, i as int));
        assert(heads@[i as int].objects_offset == plane_field(b@, i as int, 140));
        if heads[i].objects_num != 0 && !offset_is(heads[i].objects_offset, base, q) {
            assert(!plane_objects_ok(b@, base as int, r0 as int, i as int));
            return None;
        }
        let (objects, e) = match read_objects(b, q, heads[i].objects_num) {
            Some(r) => r,
            None => {
                assert(!plane_objects_ok(b@, base as int, r0 as int, i as int));
                return None;
            },
        };
        all.push(objects);
        q = e;
        i = i + 1;
    }
    Some((all, q))
}

/// Reads the tile properties whose head lies at `s`, or `None` where they do not lie
/// where the header says (`tdo` less `base`), lie past the body, have a head of another
/// size than 32 bytes or no tile, or one is of neither kind.
fn read_tile_attrs(b: &[u8], base: u32, tdo: u32, s: usize) -> (r: Option<Vec<RawTileAttrs>>)
    ensures
        r is Some <==> attrs_ok(b@, base as int, tdo as int, s as int),
        r matches Some(attrs) ==> attrs_match(attrs@, b@, s as int),
{
    if tdo < base || tdo - base != s as u32 {
        return None;
    }
    if s > b.len() || b.len() - s < TilePropertiesHead::SIZE {
        return None;
    }
    let head = TilePropertiesHead::read(b, s);
    if head.length != 32 || head.tile_descriptions_num == 0 {
        return None;
    }
    // the head takes 32 bytes, of which 12 are read
    let q0 = match s.checked_add(32) {
        Some(q) => q,
        None => return None,
    };
    let num = head.tile_descriptions_num;
    let mut attrs: Vec<RawTileAttrs> = Vec::new();
    let mut q = q0;
    let mut k: u32 = 0;
    while k < num
        invariant
            k <= num,
            num == attrs_num(b@, s as int),
            q0 == s + 32,
            attrs@.len() == k,
            q == attrs_pos(b@, q0 as int, k as nat),
            forall|j: int| 0 <= j < k ==> attr_ok(b@, #[trigger] attrs_pos(b@, q0 as int, j as nat)),
            forall|j: int|
                0 <= j < k ==> attr_matches(
                    #[trigger] attrs@[j],
                    b@,
                    attrs_pos(b@, q0 as int, j as nat),
                ),
        decreases num - k,
    {
        let ghost j = k as int;
        if q > b.len() || b.len() - q < TilePropertiesSingle::SIZE {
            assert(!attr_ok(b@, attrs_pos(b@, q0 as int, j as nat)));
            return None;
        }
        let t = read_u32_le(b, q);
        if t == 1 {
            attrs.push(RawTileAttrs::Single(TilePropertiesSingle::read(b, q)));
            q = q + TilePropertiesSingle::SIZE;
        } else if t == 2 {
            if b.len() - q < TilePropertiesDouble::SIZE {
                assert(!attr_ok(b@, attrs_pos(b@, q0 as int, j as nat)));
                return None;
            }
            attrs.push(RawTileAttrs::Double(TilePropertiesDouble::read(b, q)));
            q = q + TilePropertiesDouble::SIZE;
        } else {
            assert(!attr_ok(b@, attrs_pos(b@, q0 as int, j as nat)));
            return None;
        }
        k = k + 1;
    }
    assert(attrs_ok(b@, base as int, tdo as int, s as int)) by {
        assert(b@.len() == b.len());
        assert forall|j: int| 0 <= j < num implies attr_ok(b@, #[trigger] attrs_pos(b@, q0 as int, j as nat)) by {
            assert(attr_ok(b@, attrs_pos(b@, q0 as int, j as nat)));
        }
    }
    Some(attrs)
}

/// Reads the planes and the tile properties from the body of a world (inflated where
/// it was compressed), or `None` where the body does not hold what the header says:
/// parts that lie past its end or elsewhere than the offsets of the header and the
/// heads say, bounds that overflow, a plane head of another size than 160 bytes, a plane
/// with more or fewer than one image set, a name or an image set that is not a
/// zero-terminated UTF-8 string, tile properties with a head of another size than 32
/// bytes or without tiles, a tile of neither kind.
pub fn parse_wwd_body(header: &RawWwdHeader, body: &[u8]) -> (r: Option<
    (Vec<RawTileAttrs>, Vec<WapPlane>),
>)
    ensures
        r is Some <==> body_ok(
            header.planes_num as int,
            header.planes_offset as int,
            header.tile_descriptions_offset as int,
            header_sets(*header),
            body@,
        ),
        r matches Some((attrs, planes)) ==> body_matches(
            header.planes_num as int,
            header.planes_offset as int,
            header_sets(*header),
            body@,
            attrs@,
            planes@,
        ),
{
    let ghost n = header.planes_num as int;
    let ghost base = header.planes_offset as int;
    let ghost tdo = header.tile_descriptions_offset as int;
    let ghost b = body@;
    // heads of planes:
    let heads = match read_plane_heads(body, header.planes_num) {
        Some(h) => h,
        None => return None,
    };
    // tiles:
    let (mut tiles, p0) = match read_tiles(body, header.planes_offset, &heads) {
        Some(r) => r,
        None => return None,
    };
    // names of the image sets:
    let (names, r0) = match read_names(body, header.planes_offset, p0, &heads) {
        Some(r) => r,
        None => {
            assert(!body_ok(n, base, tdo, header_sets(*header), b));
            return None;
        },
    };
    let sets = if heads.len() > 0 {
        match read_sets(header) {
            Some(s) => s,
            None => return None,
        }
    } else {
        Vec::new()
    };
    // objects:
    let (mut objects, s) = match read_planes_objects(body, header.planes_offset, r0, &heads) {
        Some(r) => r,
        None => return None,
    };
    // tile properties:
    let attrs = match read_tile_attrs(body, header.planes_offset, header.tile_descriptions_offset, s) {
        Some(a) => a,
        None => return None,
    };
    assert(body_ok(n, base, tdo, header_sets(*header), b));
    // planes:
    let ghost all_tiles = tiles@;
    let ghost all_objects = objects@;
    let mut planes: Vec<WapPlane> = Vec::new();
    let mut i: usize = 0;
    while i < heads.len()
        invariant
            heads@.len() == n,
            names@.len() == n,
            n > 0 ==> sets@.len() == 4 && forall|t: int|
                0 <= t < 4 ==> (#[trigger] sets@[t]).spec_bytes() == until_zero(header_sets(*header)[t]),
            forall|j: int| 0 <= j < n ==> (#[trigger] heads@[j]).matches(b, j * 160),
            forall|j: int| 0 <= j < n ==> (#[trigger] all_tiles[j])@ == tiles_of(b, base, j),
            forall|j: int|
                0 <= j < n ==> (#[trigger] names@[j]).spec_bytes() == name_bytes(
                    b,
                    name_pos(b, p0 as int, j as nat),
                ),
            p0 == after_tiles(b, base, n),
            r0 == objects_start(b, base, n),
            forall|j: int|
                0 <= j < n ==> objects_match(
                    (#[trigger] all_objects[j])@,
                    b,
                    plane_objects_pos(b, r0 as int, j as nat),
                    objects_num(b, j) as int,
                ),
            all_tiles.len() == n,
            all_objects.len() == n,
            i <= n,
            tiles@ == all_tiles.subrange(i as int, n),
            objects@ == all_objects.subrange(i as int, n),
            planes@.len() == i,
            forall|j: int|
                0 <= j < i ==> plane_matches(#[trigger] planes@[j], j, n, base, header_sets(*header), b),
            b == body@,
            n == header.planes_num,
            base == header.planes_offset,
        decreases n - i,
    {
        let name: &str = names[i];
        proof {
            lemma_str_chars(name, name.spec_bytes());
        }
        let t = tiles.remove(0);
        let o = objects.remove(0);
        assert(t == all_tiles[i as int]);
        assert(o == all_objects[i as int]);
        let tileset = plane_tileset(header, &sets, name);
        let tileset_names = vec![name.to_owned()];
        assert(texts(tileset_names@) =~= seq![decode_utf8(name.spec_bytes())]);
        let plane = WapPlane { i, properties: heads[i], tiles: t, tileset, tileset_names, objects: o };
        planes.push(plane);
        i = i + 1;
        assert(tiles@ =~= all_tiles.subrange(i as int, n));
        assert(objects@ =~= all_objects.subrange(i as int, n));
    }
    Some((attrs, planes))
}

/// What the zlib stream `data` inflates to, read to its end; `None` where it is not a
/// valid stream.
pub uninterp spec fn zlib_inflated(data: Seq<u8>) -> Option<Seq<u8>>;

/// `libflate::zlib::Decoder::new` on `data`, then `read_to_end`: the bytes that the
/// stream inflates to, or `None` where the header, the blocks or the checksum are
/// invalid. The result is a function of `data` alone.
#[verifier::external_body]
fn zlib_inflate(data: &[u8]) -> (r: Option<Vec<u8>>)
    ensures
        match r {
            Some(v) => zlib_inflated(data@) == Some(v@),
            None => zlib_inflated(data@) is None,
        },
{
    let mut out = Vec::new();
    match libflate::zlib::Decoder::new(data) {
        Ok(mut decoder) => match decoder.read_to_end(&mut out) {
            Ok(_) => Some(out),
            Err(_) => None,
        },
        Err(_) => None,
    }
}

/// Field `t` of the image-set prefixes of the header at `h`.
pub open spec fn prefix_field(d: Seq<u8>, h: int, t: int) -> Seq<u8> {
    d.subrange(h + 1388 + 32 * t, h + 1388 + 32 * t + 32)
}

/// Field `t` of the image sets of the header at `h`.
pub open spec fn set_field(d: Seq<u8>, h: int, t: int) -> Seq<u8> {
    d.subrange(h + 876 + 128 * t, h + 876 + 128 * t + 128)
}

/// The image sets of the header at `h`.
pub open spec fn data_sets(d: Seq<u8>, h: int) -> Seq<Seq<u8>> {
    Seq::new(4, |t: int| set_field(d, h, t))
}

/// Each image set and each prefix of the header at `h` holds a zero.
pub open spec fn header_strings_end(d: Seq<u8>, h: int) -> bool {
    forall|t: int|
        0 <= t < 4 ==> (#[trigger] prefix_field(d, h, t)).contains(0u8) && set_field(
            d,
            h,
            t,
        ).contains(0u8)
}

/// The first stage of reading the world of `node` from `data`: the head, the header and
/// the body (inflated where the header's flags say so). `Some(Ok(body))`, or the read
/// error, or `None` where the reading cannot go on: a head that gives another size than
/// 1524 bytes to head and header, an image set or prefix without zero, a node smaller
/// than the offset of its body, a body of another length than the header says.
pub open spec fn wwd_stage(node: Node, data: Seq<u8>) -> Option<Result<Seq<u8>, ReadError>> {
    let o = node.offset as int;
    if !in_stream(data.len() as int, o, 8) {
        Some(Err(ReadError::UnexpectedEof))
    } else {
        let size = u32_le(data, o) as int;
        if size != 1524 {
            None
        } else if !in_stream(data.len() as int, o + 8, 1516) {
            Some(Err(ReadError::UnexpectedEof))
        } else {
            let h = o + 8;
            let planes_offset = u32_le(data, h + 728) as int;
            if !header_strings_end(data, h) || node.size < planes_offset {
                None
            } else {
                let start = o + size;
                let len = node.size - planes_offset;
                if !in_stream(data.len() as int, start, len) {
                    Some(Err(ReadError::UnexpectedEof))
                } else {
                    let raw = data.subrange(start, start + len);
                    let all_planes_length = u32_le(data, h + 736) as int;
                    if !flags_has(u32_le(data, h), ds::COMPRESS) {
                        if raw.len() == all_planes_length {
                            Some(Ok(raw))
                        } else {
                            None
                        }
                    } else {
                        match zlib_inflated(raw) {
                            Some(body) => if body.len() == all_planes_length {
                                Some(Ok(body))
                            } else {
                                None
                            },
                            None => Some(Err(ReadError::InvalidData)),
                        }
                    }
                }
            }
        }
    }
}

/// Whether the 1524 bytes of head and header `a` and `b` agree but for the flags.
pub open spec fn same_but_flags(a: Seq<u8>, b: Seq<u8>) -> bool {
    &&& a.len() == 1524
    &&& b.len() == 1524
    &&& a.subrange(0, 8) == b.subrange(0, 8)
    &&& a.subrange(12, 1524) == b.subrange(12, 1524)
}

/// A world stored with its body compressed reads as the same world stored plain: with
/// the same head and header but for the flags, which say compressed for the one and not
/// for the other, and a stored body that inflates to the plain one, the first stage
/// gives the same outcome for both, and so the same planes and tile properties.
pub proof fn lemma_compressed_as_plain(n1: Node, d1: Seq<u8>, n2: Node, d2: Seq<u8>)
    requires
        in_stream(d1.len() as int, n1.offset as int, 1524),
        in_stream(d2.len() as int, n2.offset as int, 1524),
        same_but_flags(
            d1.subrange(n1.offset as int, n1.offset + 1524),
            d2.subrange(n2.offset as int, n2.offset + 1524),
        ),
        !flags_has(u32_le(d1, n1.offset + 8), ds::COMPRESS),
        flags_has(u32_le(d2, n2.offset + 8), ds::COMPRESS),
        ({
            let po = u32_le(d1, n1.offset + 8 + 728) as int;
            let s1 = n1.offset + 1524;
            let s2 = n2.offset + 1524;
            &&& po <= n1.size
            &&& po <= n2.size
            &&& in_stream(d1.len() as int, s1, n1.size - po)
            &&& in_stream(d2.len() as int, s2, n2.size - po)
            &&& zlib_inflated(d2.subrange(s2, s2 + n2.size - po)) == Some(
                d1.subrange(s1, s1 + n1.size - po),
            )
        }),
    ensures
        wwd_stage(n1, d1) == wwd_stage(n2, d2),
        wwd_readable(n1, d1) == wwd_readable(n2, d2),
        u32_le(d1, n1.offset + 8 + 724) == u32_le(d2, n2.offset + 8 + 724),
        u32_le(d1, n1.offset + 8 + 728) == u32_le(d2, n2.offset + 8 + 728),
        u32_le(d1, n1.offset + 8 + 732) == u32_le(d2, n2.offset + 8 + 732),
        data_sets(d1, n1.offset + 8) == data_sets(d2, n2.offset + 8),
{
    let o1 = n1.offset as int;
    let o2 = n2.offset as int;
    let a = d1.subrange(o1, o1 + 1524);
    let b = d2.subrange(o2, o2 + 1524);
    assert(u32_le(d1, o1) == u32_le(d2, o2)) by {
        assert(a.subrange(0, 8)[0] == b.subrange(0, 8)[0]);
        assert(a.subrange(0, 8)[1] == b.subrange(0, 8)[1]);
        assert(a.subrange(0, 8)[2] == b.subrange(0, 8)[2]);
        assert(a.subrange(0, 8)[3] == b.subrange(0, 8)[3]);
    }
    lemma_agree_u32(d1, o1, d2, o2, 732);
    lemma_agree_u32(d1, o1, d2, o2, 736);
    lemma_agree_u32(d1, o1, d2, o2, 740);
    lemma_agree_u32(d1, o1, d2, o2, 744);
    assert forall|t: int| 0 <= t < 4 implies #[trigger] prefix_field(d1, o1 + 8, t) == prefix_field(
        d2,
        o2 + 8,
        t,
    ) && set_field(d1, o1 + 8, t) == set_field(d2, o2 + 8, t) by {
        lemma_agree(d1, o1, d2, o2, 1396 + 32 * t, 1428 + 32 * t);
        lemma_agree(d1, o1, d2, o2, 884 + 128 * t, 1012 + 128 * t);
        assert(prefix_field(d1, o1 + 8, t) =~= d1.subrange(o1 + 1396 + 32 * t, o1 + 1428 + 32 * t));
        assert(prefix_field(d2, o2 + 8, t) =~= d2.subrange(o2 + 1396 + 32 * t, o2 + 1428 + 32 * t));
        assert(set_field(d1, o1 + 8, t) =~= d1.subrange(o1 + 884 + 128 * t, o1 + 1012 + 128 * t));
        assert(set_field(d2, o2 + 8, t) =~= d2.subrange(o2 + 884 + 128 * t, o2 + 1012 + 128 * t));
    }
    assert(header_strings_end(d1, o1 + 8) ==> header_strings_end(d2, o2 + 8)) by {
        if header_strings_end(d1, o1 + 8) {
            assert forall|t: int| 0 <= t < 4 implies (#[trigger] prefix_field(d2, o2 + 8, t)).contains(0u8)
                && set_field(d2, o2 + 8, t).contains(0u8) by {
                assert(prefix_field(d1, o1 + 8, t).contains(0u8));
            }
        }
    }
    assert(header_strings_end(d2, o2 + 8) ==> header_strings_end(d1, o1 + 8)) by {
        if header_strings_end(d2, o2 + 8) {
            assert forall|t: int| 0 <= t < 4 implies (#[trigger] prefix_field(d1, o1 + 8, t)).contains(0u8)
                && set_field(d1, o1 + 8, t).contains(0u8) by {
                assert(prefix_field(d2, o2 + 8, t).contains(0u8));
            }
        }
    }
    assert forall|t: int| 0 <= t < 4 implies #[trigger] data_sets(d1, o1 + 8)[t] == data_sets(d2, o2 + 8)[t] by {
        assert(prefix_field(d1, o1 + 8, t) == prefix_field(d2, o2 + 8, t));
    }
    assert(data_sets(d1, o1 + 8) =~= data_sets(d2, o2 + 8));
}

/// The world read from a compressed store is the world that its plain twin (see
/// `lemma_compressed_as_plain`) describes: its header agrees with the plain header but for
/// the flags, and its tile properties and planes are those that the plain header and the
/// body give.
pub proof fn lemma_compressed_reads_alike(
    n1: Node,
    d1: Seq<u8>,
    n2: Node,
    d2: Seq<u8>,
    hd1: RawWwdHeader,
    hd2: RawWwdHeader,
    attrs: Seq<RawTileAttrs>,
    planes: Seq<WapPlane>,
)
    requires
        in_stream(d1.len() as int, n1.offset as int, 1524),
        in_stream(d2.len() as int, n2.offset as int, 1524),
        same_but_flags(
            d1.subrange(n1.offset as int, n1.offset + 1524),
            d2.subrange(n2.offset as int, n2.offset + 1524),
        ),
        !flags_has(u32_le(d1, n1.offset + 8), ds::COMPRESS),
        flags_has(u32_le(d2, n2.offset + 8), ds::COMPRESS),
        ({
            let po = u32_le(d1, n1.offset + 8 + 728) as int;
            let s1 = n1.offset + 1524;
            let s2 = n2.offset + 1524;
            &&& po <= n1.size
            &&& po <= n2.size
            &&& in_stream(d1.len() as int, s1, n1.size - po)
            &&& in_stream(d2.len() as int, s2, n2.size - po)
            &&& zlib_inflated(d2.subrange(s2, s2 + n2.size - po)) == Some(
                d1.subrange(s1, s1 + n1.size - po),
            )
        }),
        hd1.matches(d1, n1.offset + 8),
        hd2.matches(d2, n2.offset + 8),
        wwd_stage(n2, d2) matches Some(Ok(b)) && body_matches(
            hd2.planes_num as int,
            hd2.planes_offset as int,
            header_sets(hd2),
            b,
            attrs,
            planes,
        ),
    ensures
        (RawWwdHeader { flags: hd1.flags, ..hd2 }).matches(d1, n1.offset + 8),
        wwd_stage(n1, d1) matches Some(Ok(b)) && body_matches(
            hd1.planes_num as int,
            hd1.planes_offset as int,
            header_sets(hd1),
            b,
            attrs,
            planes,
        ),
{
    lemma_compressed_as_plain(n1, d1, n2, d2);
    let o1 = n1.offset as int;
    let o2 = n2.offset as int;
    lemma_header_sets(hd1, d1, o1 + 8);
    lemma_header_sets(hd2, d2, o2 + 8);
    let hd = RawWwdHeader { flags: hd1.flags, ..hd2 };
    lemma_agree_u32(d1, o1, d2, o2, 12);
    lemma_agree_u32(d1, o1, d2, o2, 720);
    lemma_agree_u32(d1, o1, d2, o2, 724);
    lemma_agree_u32(d1, o1, d2, o2, 728);
    lemma_agree_u32(d1, o1, d2, o2, 732);
    lemma_agree_u32(d1, o1, d2, o2, 736);
    lemma_agree_u32(d1, o1, d2, o2, 740);
    lemma_agree_u32(d1, o1, d2, o2, 744);
    lemma_agree_u32(d1, o1, d2, o2, 748);
    lemma_agree_u32(d1, o1, d2, o2, 752);
    lemma_agree(d1, o1, d2, o2, 16, 80);
    lemma_agree(d1, o1, d2, o2, 80, 144);
    lemma_agree(d1, o1, d2, o2, 144, 208);
    lemma_agree(d1, o1, d2, o2, 208, 464);
    lemma_agree(d1, o1, d2, o2, 464, 592);
    lemma_agree(d1, o1, d2, o2, 592, 720);
    lemma_agree(d1, o1, d2, o2, 756, 884);
    lemma_agree(d1, o1, d2, o2, 884, 1012);
    lemma_agree(d1, o1, d2, o2, 1012, 1140);
    lemma_agree(d1, o1, d2, o2, 1140, 1268);
    lemma_agree(d1, o1, d2, o2, 1268, 1396);
    lemma_agree(d1, o1, d2, o2, 1396, 1428);
    lemma_agree(d1, o1, d2, o2, 1428, 1460);
    lemma_agree(d1, o1, d2, o2, 1460, 1492);
    lemma_agree(d1, o1, d2, o2, 1492, 1524);
}

/// Bytes `x` to `y` of two heads and headers that agree but for the flags, past them.
proof fn lemma_agree(d1: Seq<u8>, o1: int, d2: Seq<u8>, o2: int, x: int, y: int)
    requires
        0 <= o1 && o1 + 1524 <= d1.len(),
        0 <= o2 && o2 + 1524 <= d2.len(),
        same_but_flags(d1.subrange(o1, o1 + 1524), d2.subrange(o2, o2 + 1524)),
        12 <= x <= y <= 1524,
    ensures
        d1.subrange(o1 + x, o1 + y) == d2.subrange(o2 + x, o2 + y),
{
    let a = d1.subrange(o1, o1 + 1524);
    let b = d2.subrange(o2, o2 + 1524);
    assert(d1.subrange(o1 + x, o1 + y) =~= a.subrange(12, 1524).subrange(x - 12, y - 12));
    assert(d2.subrange(o2 + x, o2 + y) =~= b.subrange(12, 1524).subrange(x - 12, y - 12));
}

/// The 32-bit field at byte `f` of two heads and headers that agree but for the flags.
proof fn lemma_agree_u32(d1: Seq<u8>, o1: int, d2: Seq<u8>, o2: int, f: int)
    requires
        0 <= o1 && o1 + 1524 <= d1.len(),
        0 <= o2 && o2 + 1524 <= d2.len(),
        same_but_flags(d1.subrange(o1, o1 + 1524), d2.subrange(o2, o2 + 1524)),
        12 <= f && f + 4 <= 1524,
    ensures
        u32_le(d1, o1 + f) == u32_le(d2, o2 + f),
{
    lemma_agree(d1, o1, d2, o2, f, f + 4);
    let s1 = d1.subrange(o1 + f, o1 + f + 4);
    let s2 = d2.subrange(o2 + f, o2 + f + 4);
    assert(s1[0] == s2[0] && s1[1] == s2[1] && s1[2] == s2[2] && s1[3] == s2[3]);
}

/// The image sets of a header are those of the bytes it was read from.
proof fn lemma_header_sets(hd: RawWwdHeader, d: Seq<u8>, h: int)
    requires
        hd.matches(d, h),
    ensures
        header_sets(hd) == data_sets(d, h),
{
    assert(header_sets(hd)[0] == data_sets(d, h)[0]);
    assert(header_sets(hd)[1] == data_sets(d, h)[1]);
    assert(header_sets(hd)[2] == data_sets(d, h)[2]);
    assert(header_sets(hd)[3] == data_sets(d, h)[3]);
    assert(header_sets(hd) =~= data_sets(d, h));
}

/// A header read from bytes that are those at `h` of `d` is the header at `h` of `d`.
proof fn lemma_header_shift(hd: RawWwdHeader, s: Seq<u8>, d: Seq<u8>, h: int)
    requires
        hd.matches(s, 0),
        s.len() >= 1516,
        0 <= h,
        h + 1516 <= d.len(),
        forall|k: int| 0 <= k < 1516 ==> #[trigger] s[k] == d[h + k],
    ensures
        hd.matches(d, h),
{
    assert forall|a: int, e: int| 0 <= a <= e <= 1516 implies #[trigger] s.subrange(a, e) == d.subrange(
        h + a,
        h + e,
    ) by {
        assert(s.subrange(a, e) =~= d.subrange(h + a, h + e));
    }
    assert forall|a: int| 0 <= a && a + 4 <= 1516 implies #[trigger] u32_le(s, a) == u32_le(d, h + a) by {
        assert(s[a] == d[h + a] && s[a + 1] == d[h + a + 1] && s[a + 2] == d[h + a + 2] && s[a + 3] == d[h + a + 3]);
    }
    assert(s.subrange(8, 72) == d.subrange(h + 8, h + 72));
    assert(s.subrange(72, 136) == d.subrange(h + 72, h + 136));
    assert(s.subrange(136, 200) == d.subrange(h + 136, h + 200));
    assert(s.subrange(200, 456) == d.subrange(h + 200, h + 456));
    assert(s.subrange(456, 584) == d.subrange(h + 456, h + 584));
    assert(s.subrange(584, 712) == d.subrange(h + 584, h + 712));
    assert(s.subrange(748, 876) == d.subrange(h + 748, h + 876));
    assert(s.subrange(876, 1004) == d.subrange(h + 876, h + 1004));
    assert(s.subrange(1004, 1132) == d.subrange(h + 1004, h + 1132));
    assert(s.subrange(1132, 1260) == d.subrange(h + 1132, h + 1260));
    assert(s.subrange(1260, 1388) == d.subrange(h + 1260, h + 1388));
    assert(s.subrange(1388, 1420) == d.subrange(h + 1388, h + 1420));
    assert(s.subrange(1420, 1452) == d.subrange(h + 1420, h + 1452));
    assert(s.subrange(1452, 1484) == d.subrange(h + 1452, h + 1484));
    assert(s.subrange(1484, 1516) == d.subrange(h + 1484, h + 1516));
    assert(u32_le(s, 0) == u32_le(d, h));
    assert(u32_le(s, 4) == u32_le(d, h + 4));
    assert(u32_le(s, 712) == u32_le(d, h + 712));
    assert(u32_le(s, 716) == u32_le(d, h + 716));
    assert(u32_le(s, 720) == u32_le(d, h + 720));
    assert(u32_le(s, 724) == u32_le(d, h + 724));
    assert(u32_le(s, 728) == u32_le(d, h + 728));
    assert(u32_le(s, 732) == u32_le(d, h + 732));
    assert(u32_le(s, 736) == u32_le(d, h + 736));
    assert(u32_le(s, 740) == u32_le(d, h + 740));
    assert(u32_le(s, 744) == u32_le(d, h + 744));
}

/// Field `t` of the image sets of the header, and that of their prefixes, hold a zero.
pub open spec fn field_strings_end(hd: RawWwdHeader, t: int) -> bool {
    hd.img_sets_prefixes@[t]@.contains(0u8) && hd.img_sets@[t]@.contains(0u8)
}

/// Whether each image set and each prefix of the header holds a zero.
fn strings_end(hd: &RawWwdHeader) -> (r: bool)
    ensures
        r == forall|t: int| 0 <= t < 4 ==> #[trigger] field_strings_end(*hd, t),
{
    let mut t: usize = 0;
    while t < 4
        invariant
            t <= 4,
            forall|j: int| 0 <= j < t ==> #[trigger] field_strings_end(*hd, j),
        decreases 4 - t,
    {
        let p: &[u8] = &hd.img_sets_prefixes[t];
        let s: &[u8] = &hd.img_sets[t];
        assert(p@.subrange(0, p@.len() as int) =~= p@);
        assert(s@.subrange(0, s@.len() as int) =~= s@);
        let zp = find_zero(p, 0);
        let zs = find_zero(s, 0);
        if zp.is_none() || zs.is_none() {
            assert(!field_strings_end(*hd, t as int));
            return false;
        }
        assert(field_strings_end(*hd, t as int));
        t = t + 1;
    }
    true
}

/// Whether the world of `node` in `data` can be read whole: its first stage does not stop,
/// and a body that it gives is well formed (see `wwd_stage` and `body_ok`).
pub open spec fn wwd_readable(node: Node, data: Seq<u8>) -> bool {
    match wwd_stage(node, data) {
        None => false,
        Some(Err(_)) => true,
        Some(Ok(b)) => {
            let h = node.offset + 8;
            body_ok(
                u32_le(data, h + 724) as int,
                u32_le(data, h + 728) as int,
                u32_le(data, h + 732) as int,
                data_sets(data, h),
                b,
            )
        },
    }
}

/// Reads a world (level) in WWD format: its tile properties, its header and its planes,
/// or the read error. A world that cannot be read whole (see `wwd_readable`), such as one
/// with a plane of more or fewer than one image set or with tile properties of neither
/// kind, is not accepted.
pub fn read_as_wwd(node: &Node, from: &mut ByteStream) -> (r: Result<RawWwd, ReadError>)
    requires
        wwd_readable(*node, old(from).spec_data()),
    ensures
        final(from).spec_data() == old(from).spec_data(),
        r matches Ok((_, header, _)) ==> final(from).spec_pos() == node.offset + 1524 + (node.size
            - header.planes_offset),
        match wwd_stage(*node, old(from).spec_data()) {
            None => false,
            Some(Err(e)) => r matches Err(e2) && e2 == e,
            Some(Ok(b)) => {
                let d = old(from).spec_data();
                let h = node.offset + 8;
                r matches Ok((attrs, header, planes)) && header.matches(d, h) && body_matches(
                    header.planes_num as int,
                    header.planes_offset as int,
                    header_sets(header),
                    b,
                    attrs@,
                    planes@,
                )
            },
        },
{
    match read_wwd(node, from) {
        Some(r) => r,
        None => Err(ReadError::InvalidData),
    }
}

/// Reads a world as `read_as_wwd` does where it can be read whole, and gives `None` where
/// it cannot (see `wwd_readable`). The stored world is read once to learn which, then
/// read for the result.
pub fn read_as_wwd_checked(node: &Node, from: &mut ByteStream) -> (r: Option<Result<RawWwd, ReadError>>)
    ensures
        final(from).spec_data() == old(from).spec_data(),
        r is Some <==> wwd_readable(*node, old(from).spec_data()),
        r matches Some(Ok((_, header, _))) ==> final(from).spec_pos() == node.offset + 1524 + (
        node.size - header.planes_offset),
        match wwd_stage(*node, old(from).spec_data()) {
            None => r is None,
            Some(Err(e)) => r matches Some(Err(e2)) && e2 == e,
            Some(Ok(b)) => {
                let d = old(from).spec_data();
                let h = node.offset + 8;
                if wwd_readable(*node, d) {
                    r matches Some(Ok((attrs, header, planes))) && header.matches(d, h)
                        && body_matches(
                        header.planes_num as int,
                        header.planes_offset as int,
                        header_sets(header),
                        b,
                        attrs@,
                        planes@,
                    )
                } else {
                    r is None
                }
            },
        },
{
    match read_wwd(node, from) {
        None => None,
        Some(_) => Some(read_as_wwd(node, from)),
    }
}

/// Reads a world: the result of `read_as_wwd_checked`.
fn read_wwd(node: &Node, from: &mut ByteStream) -> (r: Option<Result<RawWwd, ReadError>>)
    ensures
        final(from).spec_data() == old(from).spec_data(),
        r matches Some(Ok((_, header, _))) ==> final(from).spec_pos() == node.offset + 1524 + (
        node.size - header.planes_offset),
        match wwd_stage(*node, old(from).spec_data()) {
            None => r is None,
            Some(Err(e)) => r matches Some(Err(e2)) && e2 == e,
            Some(Ok(b)) => {
                let d = old(from).spec_data();
                let h = node.offset + 8;
                if body_ok(
                    u32_le(d, h + 724) as int,
                    u32_le(d, h + 728) as int,
                    u32_le(d, h + 732) as int,
                    data_sets(d, h),
                    b,
                ) {
                    r matches Some(Ok((attrs, header, planes))) && header.matches(d, h)
                        && body_matches(
                        header.planes_num as int,
                        header.planes_offset as int,
                        header_sets(header),
                        b,
                        attrs@,
                        planes@,
                    )
                } else {
                    r is None
                }
            },
        },
{
    let ghost d = from.spec_data();
    let ghost o = node.offset as int;
    from.seek(node.offset as u64);
    // head:
    let head_bytes = match from.read_exact(Head::SIZE) {
        Ok(bytes) => bytes,
        Err(e) => return Some(Err(e)),
    };
    let head = Head::read(head_bytes, 0);
    assert(head.size == u32_le(d, o)) by {
        assert(head_bytes@ =~= d.subrange(o, o + 8));
    }
    if head.size != 1524 {
        return None;
    }
    // header:
    let header_bytes = match from.read_exact(RawWwdHeader::SIZE) {
        Ok(bytes) => bytes,
        Err(e) => return Some(Err(e)),
    };
    let header = RawWwdHeader::read(header_bytes, 0);
    let ghost h = o + 8;
    proof {
        assert forall|k: int| 0 <= k < 1516 implies #[trigger] header_bytes@[k] == d[h + k] by {}
        lemma_header_shift(header, header_bytes@, d, h);
        lemma_header_sets(header, d, h);
    }
    if !strings_end(&header) {
        proof {
            assert(!header_strings_end(d, h)) by {
                let t = choose|t: int| 0 <= t < 4 && !field_strings_end(header, t);
                assert(header.img_sets_prefixes@[t]@ == prefix_field(d, h, t));
                assert(header.img_sets@[t]@ == set_field(d, h, t));
            }
        }
        return None;
    }
    proof {
        assert forall|t: int| 0 <= t < 4 implies (#[trigger] prefix_field(d, h, t)).contains(0u8) && set_field(d, h, t).contains(0u8) by {
            assert(field_strings_end(header, t));
            assert(header.img_sets_prefixes@[t]@ == prefix_field(d, h, t));
            assert(header.img_sets@[t]@ == set_field(d, h, t));
        }
    }
    if node.size < header.planes_offset {
        return None;
    }
    // body:
    let raw = match from.read_exact((node.size - header.planes_offset) as usize) {
        Ok(bytes) => bytes,
        Err(e) => return Some(Err(e)),
    };
    let parsed = if header.flags & ds::COMPRESS == ds::COMPRESS {
        match zlib_inflate(raw) {
            Some(body) => {
                if body.len() != header.all_planes_length as usize {
                    return None;
                }
                parse_wwd_body(&header, body.as_slice())
            },
            None => return Some(Err(ReadError::InvalidData)),
        }
    } else {
        if raw.len() != header.all_planes_length as usize {
            return None;
        }
        parse_wwd_body(&header, raw)
    };
    match parsed {
        Some((attrs, planes)) => Some(Ok((attrs, header, planes))),
        None => None,
    }
}

} // verus!
