//! Reading the index of a package.
use vstd::prelude::*;
use crate::utils::{str_from_utf8, str_trim, trimmed};
use core::str::Utf8Error;
use crate::utils::{find_zero, ByteStream, ReadError, in_stream, u32_le, read_u32_le, until_zero, lemma_until_zero_at, lemma_until_zero_none};
use super::node::{Node, NodeType, type_from_ext, spec_type_from_ext};
use super::uri::{Uri, DELIMITER};
use super::index::{Index, names_view};
use crate::common::{Reader, ReaderTo};

verus! {

/// The 131-byte head of a package: its text and version.
pub struct Header {
    pub head: [u8; 126],
    pub __gap: u8,
    /// The version, little-endian.
    pub version: [u8; 4],
}

/// Bytes of the package head that are not understood.
pub struct HeaderUnknown {
    pub __unknown_0: u32,
    pub __unknown_1: u32,
    pub __unknown_2: u32,
    pub __null_0: u32,
    pub __unknown_3: u32,
    pub __unknown_4: u32,
    pub __null_1: u32,
    pub __unknown_5: u32,
    pub __null_2: [u8; 14],
}

/// Where a node lies: offset and size.
pub struct NodePosition {
    pub offset: u32,
    pub size: u32,
}

/// The 16-byte head of an entry of a directory listing.
pub struct NodeHead {
    /// one byte
    pub directory: bool,
    /// null
    pub __gap_directory: bool,
    /// null
    pub __gap_null: u16,
    pub position: NodePosition,
    /// unix date-time
    pub __gap: i32,
}

/// Bytes of the package head read first.
pub const PACKAGE_HEAD_LEN: usize = 256;

impl Header {
    /// Reads the head from the first 131 bytes of `buf`.
    pub fn read(buf: &[u8]) -> (h: Header)
        requires
            buf@.len() >= 131,
        ensures
            h.head@ == buf@.take(126),
            h.__gap == buf@[126],
            h.version@ == buf@.subrange(127, 131),
    {
        let mut head = [0u8; 126];
        let mut i: usize = 0;
        while i < 126
            invariant
                buf@.len() >= 131,
                i <= 126,
                forall|j: int| 0 <= j < i ==> head@[j] == buf@[j],
            decreases 126 - i,
        {
            head[i] = buf[i];
            i = i + 1;
        }
        assert(head@ =~= buf@.take(126));
        let version = [buf[127], buf[128], buf[129], buf[130]];
        assert(version@ =~= buf@.subrange(127, 131));
        Header { head, __gap: buf[126], version }
    }

    /// The text of the head without surrounding white space, when it is UTF-8.
    pub fn text(&self) -> (r: Result<&str, Utf8Error>)
        ensures
            r is Ok <==> vstd::utf8::valid_utf8(self.head@),
            r matches Ok(t) ==> t@ == trimmed(vstd::utf8::decode_utf8(self.head@)),
    {
        let s = str_from_utf8(self.head.as_slice())?;
        proof { crate::utils::lemma_str_chars(s, self.head@); }
        Ok(str_trim(s))
    }

    /// The version, as a number.
    pub open spec fn spec_version(&self) -> u32 {
        u32_le(self.version@, 0)
    }

    /// The version, as a number.
    pub fn version(&self) -> (v: u32)
        ensures
            v == self.spec_version(),
    {
        read_u32_le(self.version.as_slice(), 0)
    }
}

/// A directory still to be read: its URI (ending with the delimiter), offset and size.
pub type StackEntry = (Seq<u8>, u32, u32);

/// What reading a package reports, in order.
pub enum PackEventView {
    /// A resource: the URI of its directory, its file name and where it lies.
    Node(Seq<u8>, Seq<u8>, Node),
    /// A directory that holds resources: its URI and their file names.
    Dir(Seq<u8>, Seq<Seq<u8>>),
}

/// What reading a package reports, in order.
pub enum PackEvent {
    /// A resource: the URI of its directory, its file name and where it lies.
    Node(Uri, Uri, Node),
    /// A directory that holds resources: its URI and their file names.
    Dir(Uri, Vec<Uri>),
}

impl View for PackEvent {
    type V = PackEventView;

    open spec fn view(&self) -> PackEventView {
        match self {
            PackEvent::Node(d, f, n) => PackEventView::Node(d@, f@, *n),
            PackEvent::Dir(d, fs) => PackEventView::Dir(d@, fs@.map_values(|u: Uri| u@)),
        }
    }
}

/// The type of a node after its extension: the first three bytes, if it has them.
pub open spec fn ext_type(ext: Seq<u8>) -> NodeType {
    if ext.len() >= 3 {
        spec_type_from_ext(ext.take(3))
    } else {
        NodeType::Unknown
    }
}

/// The measure of the entries from `off` on.
pub open spec fn entries_left(len: int, off: int) -> int {
    if off < len {
        len - off
    } else {
        0
    }
}

/// Reading the entries of a directory listing `buf` from byte `off` on, for the directory
/// `dir`: directories found go on `stack`, file names of resources into `files` and
/// resources into `evs`. An entry is a 16-byte head (directory flag, offset, size),
/// for a file four bytes, a four-byte extension ended by zero and four more bytes,
/// then a name ended by zero, and for a file one more byte. Entries of size 0 are skipped.
/// `None` where an entry is cut short or its directory flag is not a boolean.
pub open spec fn dir_entries(
    buf: Seq<u8>,
    off: int,
    dir: Seq<u8>,
    stack: Seq<StackEntry>,
    files: Seq<Seq<u8>>,
    evs: Seq<PackEventView>,
) -> Option<(Seq<StackEntry>, Seq<Seq<u8>>, Seq<PackEventView>)>
    decreases entries_left(buf.len() as int, off),
{
    if off < 0 {
        None
    } else if off >= buf.len() {
        Some((stack, files, evs))
    } else if off + 16 > buf.len() || buf[off] > 1 {
        None
    } else {
        let is_dir = buf[off] == 1;
        let noff = u32_le(buf, off + 4);
        let nsize = u32_le(buf, off + 8);
        let o1 = off + 16;
        if is_dir {
            let rest = buf.subrange(o1, buf.len() as int);
            if !rest.contains(0u8) {
                None
            } else {
                let name = until_zero(rest);
                let stack2 = if nsize != 0 {
                    stack.push((dir + name + seq![DELIMITER], noff, nsize))
                } else {
                    stack
                };
                dir_entries(buf, o1 + name.len() + 1, dir, stack2, files, evs)
            }
        } else if o1 + 12 > buf.len() || !buf.subrange(o1 + 4, o1 + 8).contains(0u8) {
            None
        } else {
            let ext = until_zero(buf.subrange(o1 + 4, o1 + 8));
            let o2 = o1 + 12;
            let rest = buf.subrange(o2, buf.len() as int);
            if !rest.contains(0u8) {
                None
            } else {
                let name = until_zero(rest);
                let file = name + seq![46u8] + ext;
                let node = Node { offset: noff, size: nsize, t: ext_type(ext) };
                if nsize != 0 {
                    dir_entries(
                        buf,
                        o2 + name.len() + 2,
                        dir,
                        stack,
                        files.push(file),
                        evs.push(PackEventView::Node(dir, file, node)),
                    )
                } else {
                    dir_entries(buf, o2 + name.len() + 2, dir, stack, files, evs)
                }
            }
        }
    }
}

/// Reading the directories on `stack`, last first, from `data`, with at most `fuel` of them.
/// `None` where the fuel runs out; `Some(None)` where a listing cannot be read on.
pub open spec fn walk(
    data: Seq<u8>,
    stack: Seq<StackEntry>,
    evs: Seq<PackEventView>,
    fuel: nat,
) -> Option<Option<(Seq<PackEventView>, Result<(), ReadError>)>>
    decreases fuel,
{
    if stack.len() == 0 {
        Some(Some((evs, Ok(()))))
    } else if fuel == 0 {
        None
    } else {
        let d = stack.last();
        let rest = stack.drop_last();
        if !in_stream(data.len() as int, d.1 as int, d.2 as int) {
            Some(Some((evs, Err(ReadError::UnexpectedEof))))
        } else {
            match dir_entries(data.subrange(d.1 as int, d.1 + d.2), 0, d.0, rest, Seq::empty(), evs) {
                None => Some(None),
                Some((st, files, evs2)) => walk(
                    data,
                    st,
                    if files.len() > 0 {
                        evs2.push(PackEventView::Dir(d.0, files))
                    } else {
                        evs2
                    },
                    (fuel - 1) as nat,
                ),
            }
        }
    }
}

/// The root directory of the package whose head is at byte `pos` of `data`.
pub open spec fn root_stack(data: Seq<u8>, pos: int) -> Seq<StackEntry> {
    seq![(Seq::<u8>::empty(), u32_le(data, pos + 131), u32_le(data, pos + 135))]
}

/// Whether the head at `pos` is usable: present and of version 1.
pub open spec fn head_ok(data: Seq<u8>, pos: int) -> bool {
    in_stream(data.len() as int, pos, 256) && u32_le(data, pos + 127) == 1
}

/// Whether reading the package at byte `pos` of `data` comes to an end: the directories
/// do not refer to each other in a circle.
pub open spec fn read_ends(data: Seq<u8>, pos: int) -> bool {
    head_ok(data, pos) ==> exists|fuel: nat| #[trigger] walk(data, root_stack(data, pos), Seq::empty(), fuel) is Some
}

/// What reading the package whose head is at byte `pos` of `data` reports, and whether it
/// ended in a read error. `None` where it cannot go on: a head of another version than 1,
/// a listing cut short.
pub open spec fn spec_read_events(data: Seq<u8>, pos: int) -> Option<(Seq<PackEventView>, Result<(), ReadError>)> {
    if !in_stream(data.len() as int, pos, 256) {
        Some((Seq::empty(), Err(ReadError::UnexpectedEof)))
    } else if u32_le(data, pos + 127) != 1 {
        None
    } else {
        walk(
            data,
            root_stack(data, pos),
            Seq::empty(),
            choose|fuel: nat| #[trigger] walk(data, root_stack(data, pos), Seq::empty(), fuel) is Some,
        ).unwrap()
    }
}

/// The view of a stack of directories to read.
pub open spec fn stack_view(s: Seq<(Uri, u32, u32)>) -> Seq<StackEntry> {
    s.map_values(|e: (Uri, u32, u32)| (e.0@, e.1, e.2))
}

/// The view of a list of file names.
pub open spec fn files_view(s: Seq<Uri>) -> Seq<Seq<u8>> {
    s.map_values(|u: Uri| u@)
}

/// The view of a list of events.
pub open spec fn events_view(s: Seq<PackEvent>) -> Seq<PackEventView> {
    s.map_values(|e: PackEvent| e@)
}

/// The bytes `a`, then `b`, then `c`.
fn concat3(a: &[u8], b: &[u8], c: &[u8]) -> (r: Vec<u8>)
    ensures
        r@ == a@ + b@ + c@,
{
    let mut r: Vec<u8> = Vec::new();
    let mut i: usize = 0;
    while i < a.len()
        invariant
            i <= a@.len(),
            r@ == a@.take(i as int),
        decreases a@.len() - i,
    {
        r.push(a[i]);
        i = i + 1;
        assert(r@ =~= a@.take(i as int));
    }
    let mut i: usize = 0;
    while i < b.len()
        invariant
            i <= b@.len(),
            r@ == a@ + b@.take(i as int),
        decreases b@.len() - i,
    {
        r.push(b[i]);
        i = i + 1;
        assert(r@ =~= a@ + b@.take(i as int));
    }
    let mut i: usize = 0;
    while i < c.len()
        invariant
            i <= c@.len(),
            r@ == a@ + b@ + c@.take(i as int),
        decreases c@.len() - i,
    {
        r.push(c[i]);
        i = i + 1;
        assert(r@ =~= a@ + b@ + c@.take(i as int));
    }
    assert(a@.take(a@.len() as int) =~= a@);
    assert(b@.take(b@.len() as int) =~= b@);
    assert(c@.take(c@.len() as int) =~= c@);
    r
}

/// Reads the entries of the directory listing `buf` of the directory `dir`
/// (see `dir_entries`). `false` where an entry is cut short or malformed.
fn read_entries(
    buf: &[u8],
    dir: &Vec<u8>,
    stack: &mut Vec<(Uri, u32, u32)>,
    files: &mut Vec<Uri>,
    evs: &mut Vec<PackEvent>,
) -> (ok: bool)
    ensures
        ({
            let res = dir_entries(
                buf@,
                0,
                dir@,
                stack_view(old(stack)@),
                files_view(old(files)@),
                events_view(old(evs)@),
            );
            &&& ok == res is Some
            &&& ok ==> res == Some(
                (stack_view(final(stack)@), files_view(final(files)@), events_view(final(evs)@)),
            )
        }),
{
    let ghost result = dir_entries(
        buf@,
        0,
        dir@,
        stack_view(stack@),
        files_view(files@),
        events_view(evs@),
    );
    let len = buf.len();
    let mut off: usize = 0;
    while off < len
        invariant
            len == buf@.len(),
            result == dir_entries(
                buf@,
                0,
                dir@,
                stack_view(old(stack)@),
                files_view(old(files)@),
                events_view(old(evs)@),
            ),
            dir_entries(buf@, off as int, dir@, stack_view(stack@), files_view(files@), events_view(evs@))
                == result,
        decreases entries_left(len as int, off as int),
    {
        if len - off < 16 || buf[off] > 1 {
            return false;
        }
        let is_dir = buf[off] == 1;
        let noff = read_u32_le(buf, off + 4);
        let nsize = read_u32_le(buf, off + 8);
        let o1 = off + 16;
        if is_dir {
            let z = match find_zero(buf, o1) {
                Some(z) => z,
                None => return false,
            };
            let name = &buf[o1..z];
            if nsize != 0 {
                let ghost st = stack@;
                let uri = concat3(dir.as_slice(), name, &[DELIMITER]);
                stack.push((uri, noff, nsize));
                proof {
                    assert(seq![DELIMITER] =~= [DELIMITER]@);
                    assert(stack_view(stack@) =~= stack_view(st).push((dir@ + name@ + seq![DELIMITER], noff, nsize)));
                }
            }
            off = z + 1;
            assert(dir_entries(buf@, off as int, dir@, stack_view(stack@), files_view(files@), events_view(evs@)) == result);
        } else {
            if len - o1 < 12 {
                return false;
            }
            let ez = match find_zero(buf, o1 + 4) {
                Some(ez) => ez,
                None => return false,
            };
            if ez >= o1 + 8 {
                proof {
                    let e4 = buf@.subrange(o1 + 4, o1 + 8);
                    assert(!e4.contains(0u8)) by {
                        if e4.contains(0u8) {
                            let k = choose|k: int| 0 <= k < 4 && #[trigger] e4[k] == 0u8;
                            assert(buf@[o1 + 4 + k] == 0);
                        }
                    }
                }
                return false;
            }
            let ext = &buf[o1 + 4..ez];
            proof {
                let e4 = buf@.subrange(o1 + 4, o1 + 8);
                assert(e4[ez - (o1 + 4)] == 0);
                lemma_until_zero_at(e4, ez - (o1 + 4));
                assert(e4.take(ez - (o1 + 4)) =~= ext@);
            }
            let o2 = o1 + 12;
            let z = match find_zero(buf, o2) {
                Some(z) => z,
                None => return false,
            };
            let name = &buf[o2..z];
            if nsize != 0 {
                let t = if ext.len() >= 3 {
                    type_from_ext(ext)
                } else {
                    NodeType::Unknown
                };
                let file = concat3(name, &[46u8], ext);
                let file2 = file.clone();
                let dir2 = dir.clone();
                let node = Node { offset: noff, size: nsize, t };
                let ghost fs = files@;
                let ghost es = evs@;
                files.push(file);
                evs.push(PackEvent::Node(dir2, file2, node));
                proof {
                    assert(seq![46u8] =~= [46u8]@);
                    assert(dir2@ =~= dir@);
                    assert(file2@ =~= file@);
                    assert(files_view(files@) =~= files_view(fs).push(name@ + seq![46u8] + ext@));
                    assert(events_view(evs@) =~= events_view(es).push(
                        PackEventView::Node(dir@, name@ + seq![46u8] + ext@, node),
                    ));
                }
            }
            let o3 = z + 1;
            assert(dir_entries(buf@, z + 2, dir@, stack_view(stack@), files_view(files@), events_view(evs@)) == result);
            off = if o3 < len { o3 + 1 } else { len };
        }
    }
    true
}

/// Reads the index of the package whose head is at the current position of `from`,
/// reporting resources and directories in order, or `None` where the reading cannot go on.
pub fn read_events_checked(from: &mut ByteStream) -> (r: Option<(Vec<PackEvent>, Result<(), ReadError>)>)
    requires
        read_ends(old(from).spec_data(), old(from).spec_pos()),
    ensures
        final(from).spec_data() == old(from).spec_data(),
        match (r, spec_read_events(old(from).spec_data(), old(from).spec_pos())) {
            (Some((evs, res)), Some((sevs, sres))) => events_view(evs@) == sevs && res == sres,
            (None, None) => true,
            _ => false,
        },
{
    let ghost data = from.spec_data();
    let ghost pos = from.spec_pos();
    // package header:
    let temp = match from.read_exact(PACKAGE_HEAD_LEN) {
        Ok(t) => t,
        Err(e) => {
            let evs: Vec<PackEvent> = Vec::new();
            assert(events_view(evs@) =~= Seq::empty());
            return Some((evs, Err(e)));
        },
    };
    let head = Header::read(temp);
    let version = head.version();
    proof {
        assert(u32_le(head.version@, 0) == u32_le(temp@, 127));
    }
    if version != 1 {
        return None;
    }
    // pos of root:
    let root_offset = read_u32_le(temp, 131);
    let root_size = read_u32_le(temp, 135);
    proof {
        assert(u32_le(temp@, 127) == u32_le(data, pos + 127));
        assert(u32_le(temp@, 131) == u32_le(data, pos + 131));
        assert(u32_le(temp@, 135) == u32_le(data, pos + 135));
    }
    let ghost fuel0 = choose|fuel: nat| #[trigger] walk(data, root_stack(data, pos), Seq::empty(), fuel) is Some;
    let ghost result = walk(data, root_stack(data, pos), Seq::empty(), fuel0);
    let ghost mut fuel: nat = fuel0;
    let mut dirs: Vec<(Uri, u32, u32)> = Vec::new();
    dirs.push((Vec::new(), root_offset, root_size));
    let mut evs: Vec<PackEvent> = Vec::new();
    proof {
        assert(stack_view(dirs@) =~= root_stack(data, pos));
        assert(events_view(evs@) =~= Seq::empty());
    }
    while dirs.len() > 0
        invariant
            from.spec_data() == data,
            data == old(from).spec_data(),
            pos == old(from).spec_pos(),
            result is Some,
            result.unwrap() == spec_read_events(data, pos),
            walk(data, stack_view(dirs@), events_view(evs@), fuel) == result,
        decreases fuel,
    {
        let ghost st = dirs@;
        let dir = dirs.pop().unwrap();
        proof {
            assert(stack_view(dirs@) =~= stack_view(st).drop_last());
        }
        from.seek(dir.1 as u64);
        let buf = match from.read_exact(dir.2 as usize) {
            Ok(b) => b,
            Err(e) => return Some((evs, Err(e))),
        };
        let mut files: Vec<Uri> = Vec::new();
        assert(files_view(files@) =~= Seq::empty());
        if !read_entries(buf, &dir.0, &mut dirs, &mut files, &mut evs) {
            return None;
        }
        if files.len() > 0 {
            let ghost es = evs@;
            let ghost fs = files@;
            let key = dir.0;
            evs.push(PackEvent::Dir(key, files));
            proof {
                assert(events_view(evs@) =~= events_view(es).push(PackEventView::Dir(st.last().0@, files_view(fs))));
            }
        }
        proof {
            fuel = (fuel - 1) as nat;
        }
    }
    Some((evs, Ok(())))
}

/// Whether `d` is the URI of a directory: the root (empty) or ending with the delimiter.
pub open spec fn dir_uri(d: Seq<u8>) -> bool {
    d.len() == 0 || d.last() == DELIMITER
}

/// Whether the event `e` is well-formed: a resource of some size in a directory, or a
/// directory that holds some resource.
pub open spec fn event_sound(e: PackEventView) -> bool {
    match e {
        PackEventView::Node(d, _, n) => dir_uri(d) && n.size > 0,
        PackEventView::Dir(d, fs) => dir_uri(d) && fs.len() > 0,
    }
}

/// Whether the directories still to read are directories.
pub open spec fn stack_sound(st: Seq<StackEntry>) -> bool {
    forall|k: int| 0 <= k < st.len() ==> dir_uri(#[trigger] st[k].0)
}

proof fn lemma_dir_entries_sound(
    buf: Seq<u8>,
    off: int,
    dir: Seq<u8>,
    stack: Seq<StackEntry>,
    files: Seq<Seq<u8>>,
    evs: Seq<PackEventView>,
)
    requires
        dir_uri(dir),
        stack_sound(stack),
        forall|k: int| 0 <= k < evs.len() ==> event_sound(#[trigger] evs[k]),
    ensures
        dir_entries(buf, off, dir, stack, files, evs) matches Some((st, fs, es)) ==> {
            &&& stack_sound(st)
            &&& forall|k: int| 0 <= k < es.len() ==> event_sound(#[trigger] es[k])
            &&& fs.len() >= files.len()
        },
    decreases entries_left(buf.len() as int, off),
{
    if off >= 0 && off < buf.len() && off + 16 <= buf.len() && buf[off] <= 1 {
        let is_dir = buf[off] == 1;
        let noff = u32_le(buf, off + 4);
        let nsize = u32_le(buf, off + 8);
        let o1 = off + 16;
        if is_dir {
            let rest = buf.subrange(o1, buf.len() as int);
            if rest.contains(0u8) {
                let name = until_zero(rest);
                let stack2 = if nsize != 0 {
                    stack.push((dir + name + seq![DELIMITER], noff, nsize))
                } else {
                    stack
                };
                assert(stack_sound(stack2)) by {
                    assert forall|k: int| 0 <= k < stack2.len() implies dir_uri(#[trigger] stack2[k].0) by {
                        if k == stack.len() {
                            assert((dir + name + seq![DELIMITER]).last() == DELIMITER);
                        }
                    }
                }
                lemma_dir_entries_sound(buf, o1 + name.len() + 1, dir, stack2, files, evs);
            }
        } else if o1 + 12 <= buf.len() && buf.subrange(o1 + 4, o1 + 8).contains(0u8) {
            let ext = until_zero(buf.subrange(o1 + 4, o1 + 8));
            let o2 = o1 + 12;
            let rest = buf.subrange(o2, buf.len() as int);
            if rest.contains(0u8) {
                let name = until_zero(rest);
                let file = name + seq![46u8] + ext;
                let node = Node { offset: noff, size: nsize, t: ext_type(ext) };
                if nsize != 0 {
                    let evs2 = evs.push(PackEventView::Node(dir, file, node));
                    assert forall|k: int| 0 <= k < evs2.len() implies event_sound(#[trigger] evs2[k]) by {
                        if k < evs.len() {
                            assert(evs2[k] == evs[k]);
                        }
                    }
                    lemma_dir_entries_sound(buf, o2 + name.len() + 2, dir, stack, files.push(file), evs2);
                } else {
                    lemma_dir_entries_sound(buf, o2 + name.len() + 2, dir, stack, files, evs);
                }
            }
        }
    }
}

proof fn lemma_walk_sound(data: Seq<u8>, stack: Seq<StackEntry>, evs: Seq<PackEventView>, fuel: nat)
    requires
        stack_sound(stack),
        forall|k: int| 0 <= k < evs.len() ==> event_sound(#[trigger] evs[k]),
    ensures
        walk(data, stack, evs, fuel) matches Some(Some((es, _))) ==> forall|k: int|
            0 <= k < es.len() ==> event_sound(#[trigger] es[k]),
    decreases fuel,
{
    if stack.len() > 0 && fuel > 0 {
        let d = stack.last();
        let rest = stack.drop_last();
        assert(stack_sound(rest)) by {
            assert forall|k: int| 0 <= k < rest.len() implies dir_uri(#[trigger] rest[k].0) by {
                assert(rest[k] == stack[k]);
            }
        }
        assert(dir_uri(stack[stack.len() - 1].0));
        if in_stream(data.len() as int, d.1 as int, d.2 as int) {
            let buf = data.subrange(d.1 as int, d.1 + d.2);
            lemma_dir_entries_sound(buf, 0, d.0, rest, Seq::empty(), evs);
            match dir_entries(buf, 0, d.0, rest, Seq::empty(), evs) {
                None => {},
                Some((st, files, evs2)) => {
                    let next = if files.len() > 0 {
                        evs2.push(PackEventView::Dir(d.0, files))
                    } else {
                        evs2
                    };
                    assert forall|k: int| 0 <= k < next.len() implies event_sound(#[trigger] next[k]) by {
                        if k < evs2.len() {
                            assert(next[k] == evs2[k]);
                        }
                    }
                    lemma_walk_sound(data, st, next, (fuel - 1) as nat);
                },
            }
        }
    }
}

/// What a package reports is well-formed: each resource has some size and lies in a
/// directory (the root, or a URI that ends with the delimiter), and each directory
/// reported holds some resource. Entries of size 0 are left out.
pub proof fn lemma_events_sound(data: Seq<u8>, pos: int)
    requires
        read_ends(data, pos),
    ensures
        spec_read_events(data, pos) matches Some((evs, _)) ==> forall|k: int|
            0 <= k < evs.len() ==> event_sound(#[trigger] evs[k]),
{
    let st = root_stack(data, pos);
    let e = Seq::<PackEventView>::empty();
    assert(stack_sound(st)) by {
        assert forall|k: int| 0 <= k < st.len() implies dir_uri(#[trigger] st[k].0) by {
            assert(st[k].0 =~= Seq::<u8>::empty());
        }
    }
    if in_stream(data.len() as int, pos, 256) && u32_le(data, pos + 127) == 1 {
        assert(head_ok(data, pos));
        let f0 = choose|fuel: nat| #[trigger] walk(data, st, e, fuel) is Some;
        lemma_walk_sound(data, st, e, f0);
    }
}

/// The URI of the directory that the event `e` reports, if it reports one.
pub open spec fn listed_dir(e: PackEventView) -> Option<Seq<u8>> {
    match e {
        PackEventView::Dir(d, _) => Some(d),
        PackEventView::Node(..) => None,
    }
}

/// Whether the events `evs` report each directory at most once.
pub open spec fn dirs_unique(evs: Seq<PackEventView>) -> bool {
    forall|i: int, j: int|
        0 <= i < j < evs.len() && (#[trigger] listed_dir(evs[i])) is Some ==> listed_dir(evs[i])
            != #[trigger] listed_dir(evs[j])
}

/// Whether the events `evs` report the directory `d`.
pub open spec fn dir_listed(evs: Seq<PackEventView>, d: Seq<u8>) -> bool {
    exists|i: int| 0 <= i < evs.len() && #[trigger] listed_dir(evs[i]) == Some(d)
}

/// Whether the events `evs` come in blocks, one for each directory that holds resources:
/// its resources in order, then the directory with their file names in the same order.
pub open spec fn dirs_after_nodes(evs: Seq<PackEventView>) -> bool
    decreases evs.len(),
{
    if evs.len() == 0 {
        true
    } else {
        match evs.last() {
            PackEventView::Dir(d, fs) => {
                let s = evs.len() - 1 - fs.len();
                if fs.len() == 0 || s < 0 {
                    false
                } else {
                    &&& forall|k: int|
                        s <= k < evs.len() - 1 ==> (#[trigger] evs[k] matches PackEventView::Node(
                            d2,
                            f,
                            _,
                        ) && d2 == d && f == fs[k - s])
                    &&& dirs_after_nodes(evs.take(s))
                }
            },
            PackEventView::Node(..) => false,
        }
    }
}

/// Whether the resources `nodes` and directories `dirs` of an index agree: each directory
/// is the root or ends with the delimiter and lists some file names, each of which names a
/// resource under the directory's URI followed by the name; each resource has some size
/// and lies under such a URI.
pub open spec fn index_sound(nodes: Map<Seq<u8>, Node>, dirs: Map<Seq<u8>, Seq<Seq<u8>>>) -> bool {
    &&& forall|d: Seq<u8>|
        #[trigger] dirs.dom().contains(d) ==> dir_uri(d) && dirs[d].len() > 0 && forall|j: int|
            0 <= j < dirs[d].len() ==> nodes.dom().contains(d + #[trigger] dirs[d][j])
    &&& forall|k: Seq<u8>|
        #[trigger] nodes.dom().contains(k) ==> nodes[k].size > 0 && exists|d: Seq<u8>, j: int|
            #![trigger dirs[d][j]]
            dirs.dom().contains(d) && 0 <= j < dirs[d].len() && k == d + dirs[d][j]
}

/// The resources that `dir_entries` reports follow those before, one for each file name it
/// adds, in the same order.
proof fn lemma_dir_entries_nodes(
    buf: Seq<u8>,
    off: int,
    dir: Seq<u8>,
    stack: Seq<StackEntry>,
    files: Seq<Seq<u8>>,
    evs: Seq<PackEventView>,
)
    ensures
        dir_entries(buf, off, dir, stack, files, evs) matches Some((st, fs, es)) ==> {
            &&& fs.len() >= files.len()
            &&& es.len() == evs.len() + fs.len() - files.len()
            &&& forall|i: int| 0 <= i < evs.len() ==> #[trigger] es[i] == evs[i]
            &&& forall|i: int| 0 <= i < files.len() ==> #[trigger] fs[i] == files[i]
            &&& forall|k: int|
                evs.len() <= k < es.len() ==> (#[trigger] es[k] matches PackEventView::Node(d2, f, _)
                    && d2 == dir && f == fs[k - evs.len() + files.len()])
        },
    decreases entries_left(buf.len() as int, off),
{
    if off >= 0 && off < buf.len() && off + 16 <= buf.len() && buf[off] <= 1 {
        let is_dir = buf[off] == 1;
        let noff = u32_le(buf, off + 4);
        let nsize = u32_le(buf, off + 8);
        let o1 = off + 16;
        if is_dir {
            let rest = buf.subrange(o1, buf.len() as int);
            if rest.contains(0u8) {
                let name = until_zero(rest);
                let stack2 = if nsize != 0 {
                    stack.push((dir + name + seq![DELIMITER], noff, nsize))
                } else {
                    stack
                };
                lemma_dir_entries_nodes(buf, o1 + name.len() + 1, dir, stack2, files, evs);
            }
        } else if o1 + 12 <= buf.len() && buf.subrange(o1 + 4, o1 + 8).contains(0u8) {
            let ext = until_zero(buf.subrange(o1 + 4, o1 + 8));
            let o2 = o1 + 12;
            let rest = buf.subrange(o2, buf.len() as int);
            if rest.contains(0u8) {
                let name = until_zero(rest);
                let file = name + seq![46u8] + ext;
                let node = Node { offset: noff, size: nsize, t: ext_type(ext) };
                if nsize != 0 {
                    let evs2 = evs.push(PackEventView::Node(dir, file, node));
                    let files2 = files.push(file);
                    lemma_dir_entries_nodes(buf, o2 + name.len() + 2, dir, stack, files2, evs2);
                    match dir_entries(buf, o2 + name.len() + 2, dir, stack, files2, evs2) {
                        Some((st, fs, es)) => {
                            assert(es[evs.len() as int] == evs2[evs.len() as int]);
                            assert(fs[files.len() as int] == files2[files.len() as int]);
                            assert forall|i: int| 0 <= i < evs.len() implies #[trigger] es[i] == evs[i] by {
                                assert(es[i] == evs2[i]);
                            }
                            assert forall|i: int| 0 <= i < files.len() implies #[trigger] fs[i] == files[i] by {
                                assert(fs[i] == files2[i]);
                            }
                        },
                        None => {},
                    }
                } else {
                    lemma_dir_entries_nodes(buf, o2 + name.len() + 2, dir, stack, files, evs);
                }
            }
        }
    }
}

/// Reading a listing keeps the directories already to read, and each directory it adds
/// lies inside the listed directory: its URI is the listed directory's URI followed by
/// more bytes, ending with the delimiter.
proof fn lemma_dir_entries_stack(
    buf: Seq<u8>,
    off: int,
    dir: Seq<u8>,
    stack: Seq<StackEntry>,
    files: Seq<Seq<u8>>,
    evs: Seq<PackEventView>,
)
    ensures
        dir_entries(buf, off, dir, stack, files, evs) matches Some((st, fs, es)) ==> {
            &&& st.len() >= stack.len()
            &&& forall|i: int| 0 <= i < stack.len() ==> #[trigger] st[i] == stack[i]
            &&& forall|i: int|
                stack.len() <= i < st.len() ==> (#[trigger] st[i]).0.len() > dir.len() && st[i].0.take(
                    dir.len() as int,
                ) == dir && st[i].0.last() == DELIMITER
        },
    decreases entries_left(buf.len() as int, off),
{
    if off >= 0 && off < buf.len() && off + 16 <= buf.len() && buf[off] <= 1 {
        let is_dir = buf[off] == 1;
        let noff = u32_le(buf, off + 4);
        let nsize = u32_le(buf, off + 8);
        let o1 = off + 16;
        if is_dir {
            let rest = buf.subrange(o1, buf.len() as int);
            if rest.contains(0u8) {
                let name = until_zero(rest);
                let uri = dir + name + seq![DELIMITER];
                let stack2 = if nsize != 0 {
                    stack.push((uri, noff, nsize))
                } else {
                    stack
                };
                lemma_dir_entries_stack(buf, o1 + name.len() + 1, dir, stack2, files, evs);
                match dir_entries(buf, o1 + name.len() + 1, dir, stack2, files, evs) {
                    Some((st, fs, es)) => {
                        assert(uri.take(dir.len() as int) =~= dir);
                        assert forall|i: int| 0 <= i < stack.len() implies #[trigger] st[i] == stack[i] by {
                            assert(st[i] == stack2[i]);
                        }
                        if nsize != 0 {
                            assert(st[stack.len() as int] == stack2[stack.len() as int]);
                        }
                    },
                    None => {},
                }
            }
        } else if o1 + 12 <= buf.len() && buf.subrange(o1 + 4, o1 + 8).contains(0u8) {
            let ext = until_zero(buf.subrange(o1 + 4, o1 + 8));
            let o2 = o1 + 12;
            let rest = buf.subrange(o2, buf.len() as int);
            if rest.contains(0u8) {
                let name = until_zero(rest);
                let file = name + seq![46u8] + ext;
                let node = Node { offset: noff, size: nsize, t: ext_type(ext) };
                if nsize != 0 {
                    lemma_dir_entries_stack(
                        buf,
                        o2 + name.len() + 2,
                        dir,
                        stack,
                        files.push(file),
                        evs.push(PackEventView::Node(dir, file, node)),
                    );
                } else {
                    lemma_dir_entries_stack(buf, o2 + name.len() + 2, dir, stack, files, evs);
                }
            }
        }
    }
}

/// What an entry of a directory listing gives, read from its bytes. The entry at byte
/// `off` of the listing `buf` of the directory `dir` has a 16-byte head: a directory flag
/// (byte 0), the offset (bytes 4 to 7) and the size (bytes 8 to 11). A directory of some
/// size is read later under the URI `dir`, its name (the bytes from 16 up to a zero) and
/// the delimiter; a resource of some size is reported next, in `dir`, with the file name
/// made of its name (the bytes from 28 up to a zero), a dot and its extension (the bytes
/// from 20 up to a zero), where the head places it. Every directory that the listing adds
/// lies inside `dir`.
pub proof fn lemma_listing_entry(
    buf: Seq<u8>,
    off: int,
    dir: Seq<u8>,
    stack: Seq<StackEntry>,
    files: Seq<Seq<u8>>,
    evs: Seq<PackEventView>,
)
    requires
        0 <= off < buf.len(),
        dir_entries(buf, off, dir, stack, files, evs) is Some,
    ensures
        ({
            let (st, fs, es) = dir_entries(buf, off, dir, stack, files, evs).unwrap();
            let offset = u32_le(buf, off + 4);
            let size = u32_le(buf, off + 8);
            &&& off + 16 <= buf.len()
            &&& buf[off] <= 1
            &&& forall|i: int| 0 <= i < stack.len() ==> #[trigger] st[i] == stack[i]
            &&& forall|i: int|
                stack.len() <= i < st.len() ==> (#[trigger] st[i]).0.take(dir.len() as int) == dir
                    && st[i].0.len() > dir.len()
            &&& (buf[off] == 1 && size != 0) ==> st.len() > stack.len() && st[stack.len() as int] == (
                dir + until_zero(buf.subrange(off + 16, buf.len() as int)) + seq![DELIMITER],
                offset,
                size,
            )
            &&& (buf[off] == 0 && size != 0) ==> {
                let ext = until_zero(buf.subrange(off + 20, off + 24));
                let file = until_zero(buf.subrange(off + 28, buf.len() as int)) + seq![46u8] + ext;
                &&& es.len() > evs.len()
                &&& es[evs.len() as int] == PackEventView::Node(
                    dir,
                    file,
                    Node { offset, size, t: ext_type(ext) },
                )
                &&& fs.len() > files.len()
                &&& fs[files.len() as int] == file
            }
        }),
{
    lemma_dir_entries_stack(buf, off, dir, stack, files, evs);
    let o1 = off + 16;
    let nsize = u32_le(buf, off + 8);
    if buf[off] == 1 {
        let rest = buf.subrange(o1, buf.len() as int);
        let name = until_zero(rest);
        let stack2 = if nsize != 0 {
            stack.push((dir + name + seq![DELIMITER], u32_le(buf, off + 4), nsize))
        } else {
            stack
        };
        lemma_dir_entries_stack(buf, o1 + name.len() + 1, dir, stack2, files, evs);
        if nsize != 0 {
            let st = dir_entries(buf, off, dir, stack, files, evs).unwrap().0;
            assert(st[stack.len() as int] == stack2[stack.len() as int]);
        }
    } else if nsize != 0 {
        let ext = until_zero(buf.subrange(o1 + 4, o1 + 8));
        let o2 = o1 + 12;
        let name = until_zero(buf.subrange(o2, buf.len() as int));
        let file = name + seq![46u8] + ext;
        let node = Node { offset: u32_le(buf, off + 4), size: nsize, t: ext_type(ext) };
        lemma_dir_entries_nodes(
            buf,
            o2 + name.len() + 2,
            dir,
            stack,
            files.push(file),
            evs.push(PackEventView::Node(dir, file, node)),
        );
        let (st, fs, es) = dir_entries(buf, off, dir, stack, files, evs).unwrap();
        assert(es[evs.len() as int] == evs.push(PackEventView::Node(dir, file, node))[evs.len() as int]);
        assert(fs[files.len() as int] == files.push(file)[files.len() as int]);
    }
}

/// A walk that starts from events in blocks ends with events in blocks.
proof fn lemma_walk_blocks(data: Seq<u8>, stack: Seq<StackEntry>, evs: Seq<PackEventView>, fuel: nat)
    requires
        dirs_after_nodes(evs),
    ensures
        walk(data, stack, evs, fuel) matches Some(Some((es, _))) ==> dirs_after_nodes(es),
    decreases fuel,
{
    if stack.len() > 0 && fuel > 0 {
        let d = stack.last();
        let rest = stack.drop_last();
        if in_stream(data.len() as int, d.1 as int, d.2 as int) {
            let buf = data.subrange(d.1 as int, d.1 + d.2);
            lemma_dir_entries_nodes(buf, 0, d.0, rest, Seq::empty(), evs);
            match dir_entries(buf, 0, d.0, rest, Seq::empty(), evs) {
                None => {},
                Some((st, files, evs2)) => {
                    if files.len() > 0 {
                        let next = evs2.push(PackEventView::Dir(d.0, files));
                        let s = next.len() - 1 - files.len();
                        assert(s == evs.len());
                        assert(next.take(s) =~= evs);
                        assert forall|k: int| s <= k < next.len() - 1 implies (#[trigger] next[k] matches PackEventView::Node(
                            d2,
                            f,
                            _,
                        ) && d2 == d.0 && f == files[k - s]) by {
                            assert(next[k] == evs2[k]);
                        }
                        assert(dirs_after_nodes(next));
                        lemma_walk_blocks(data, st, next, (fuel - 1) as nat);
                    } else {
                        assert(evs2 =~= evs);
                        lemma_walk_blocks(data, st, evs2, (fuel - 1) as nat);
                    }
                },
            }
        }
    }
}

/// What a package reports comes in blocks, one for each directory that holds resources:
/// its resources, then the directory with their file names (see `dirs_after_nodes`).
pub proof fn lemma_events_in_blocks(data: Seq<u8>, pos: int)
    requires
        read_ends(data, pos),
    ensures
        spec_read_events(data, pos) matches Some((evs, _)) ==> dirs_after_nodes(evs),
{
    let st = root_stack(data, pos);
    let e = Seq::<PackEventView>::empty();
    if in_stream(data.len() as int, pos, 256) && u32_le(data, pos + 127) == 1 {
        assert(head_ok(data, pos));
        let f0 = choose|fuel: nat| #[trigger] walk(data, st, e, fuel) is Some;
        lemma_walk_blocks(data, st, e, f0);
    }
}

/// What the resources of a block put into an index, one after the other.
proof fn lemma_apply_nodes(evs: Seq<PackEventView>, s: int, t: int, d: Seq<u8>, fs: Seq<Seq<u8>>)
    requires
        0 <= s <= t < evs.len(),
        forall|k: int|
            s <= k < evs.len() - 1 ==> (#[trigger] evs[k] matches PackEventView::Node(d2, f, _) && d2
                == d && f == fs[k - s]),
        forall|k: int| 0 <= k < evs.len() ==> event_sound(#[trigger] evs[k]),
        ({
            let (ns, ds) = apply_events(Map::empty(), Map::empty(), evs.take(s));
            forall|key: Seq<u8>| #[trigger] ns.dom().contains(key) ==> ns[key].size > 0
        }),
    ensures
        ({
            let (ns, ds) = apply_events(Map::empty(), Map::empty(), evs.take(s));
            let (nt, dt) = apply_events(Map::empty(), Map::empty(), evs.take(t));
            &&& dt == ds
            &&& forall|key: Seq<u8>| #[trigger] ns.dom().contains(key) ==> nt.dom().contains(key)
            &&& forall|j: int| 0 <= j < t - s ==> nt.dom().contains(d + #[trigger] fs[j])
            &&& forall|key: Seq<u8>|
                #[trigger] nt.dom().contains(key) ==> nt[key].size > 0 && (ns.dom().contains(key)
                    || exists|j: int| 0 <= j < t - s && key == d + #[trigger] fs[j])
        }),
    decreases t,
{
    if t > s {
        lemma_apply_nodes(evs, s, t - 1, d, fs);
        assert(evs.take(t).drop_last() =~= evs.take(t - 1));
        assert(evs.take(t).last() == evs[t - 1]);
        assert(event_sound(evs[t - 1]));
        let (ns, ds) = apply_events(Map::empty(), Map::empty(), evs.take(s));
        let (np, dp) = apply_events(Map::empty(), Map::empty(), evs.take(t - 1));
        let (nt, dt) = apply_events(Map::empty(), Map::empty(), evs.take(t));
        assert(fs[t - 1 - s] == fs[t - 1 - s]);
        assert forall|key: Seq<u8>| #[trigger] nt.dom().contains(key) implies nt[key].size > 0 && (
        ns.dom().contains(key) || exists|j: int| 0 <= j < t - s && key == d + #[trigger] fs[j]) by {
            if !np.dom().contains(key) {
                assert(key == d + fs[t - 1 - s]);
            }
        }
    } else {
        assert(evs.take(t) =~= evs.take(s));
    }
}

/// Events in blocks that report each directory once, each of them sound, fill an empty
/// index consistently, and only with directories that they report.
proof fn lemma_index_blocks(evs: Seq<PackEventView>)
    requires
        dirs_after_nodes(evs),
        dirs_unique(evs),
        forall|k: int| 0 <= k < evs.len() ==> event_sound(#[trigger] evs[k]),
    ensures
        ({
            let (nodes, dirs) = apply_events(Map::empty(), Map::empty(), evs);
            &&& index_sound(nodes, dirs)
            &&& forall|d: Seq<u8>| #[trigger] dirs.dom().contains(d) ==> dir_listed(evs, d)
        }),
    decreases evs.len(),
{
    if evs.len() == 0 {
        let (nodes, dirs) = apply_events(Map::empty(), Map::empty(), evs);
        assert(nodes =~= Map::empty());
        assert(dirs =~= Map::empty());
    } else {
        let l = evs.len() as int;
        let (d, fs) = match evs.last() {
            PackEventView::Dir(d, fs) => (d, fs),
            PackEventView::Node(..) => (Seq::empty(), Seq::empty()),
        };
        let s = l - 1 - fs.len();
        let pre = evs.take(s);
        assert forall|k: int| 0 <= k < pre.len() implies event_sound(#[trigger] pre[k]) by {
            assert(pre[k] == evs[k]);
        }
        assert forall|i: int, j: int|
            0 <= i < j < pre.len() && (#[trigger] listed_dir(pre[i])) is Some implies listed_dir(pre[i])
                != #[trigger] listed_dir(pre[j]) by {
            assert(pre[i] == evs[i] && pre[j] == evs[j]);
        }
        lemma_index_blocks(pre);
        lemma_apply_nodes(evs, s, l - 1, d, fs);
        assert(evs.take(s) == pre);
        assert(evs.drop_last() =~= evs.take(l - 1));
        let (ns, ds) = apply_events(Map::empty(), Map::empty(), pre);
        let (np, dp) = apply_events(Map::empty(), Map::empty(), evs.take(l - 1));
        let (nodes, dirs) = apply_events(Map::empty(), Map::empty(), evs);
        assert(nodes == np && dirs == dp.insert(d, fs));
        assert(event_sound(evs[l - 1]));
        assert(listed_dir(evs[l - 1]) == Some(d));
        // the directory of this block is reported nowhere before
        assert(!ds.dom().contains(d)) by {
            if ds.dom().contains(d) {
                let i = choose|i: int| 0 <= i < pre.len() && #[trigger] listed_dir(pre[i]) == Some(d);
                assert(listed_dir(evs[i]) == Some(d));
                assert(listed_dir(evs[i]) != listed_dir(evs[l - 1]));
            }
        }
        assert forall|e: Seq<u8>| #[trigger] dirs.dom().contains(e) implies dir_uri(e) && dirs[e].len() > 0
            && forall|j: int| 0 <= j < dirs[e].len() ==> nodes.dom().contains(e + #[trigger] dirs[e][j]) by {
            if e != d {
                assert(ds.dom().contains(e));
                assert forall|j: int| 0 <= j < dirs[e].len() implies nodes.dom().contains(e + #[trigger] dirs[e][j]) by {
                    assert(dirs[e][j] == ds[e][j]);
                    assert(ns.dom().contains(e + ds[e][j]));
                }
            }
        }
        assert forall|k: Seq<u8>| #[trigger] nodes.dom().contains(k) implies nodes[k].size > 0 && exists|
            e: Seq<u8>,
            j: int,
        |
            #![trigger dirs[e][j]]
            dirs.dom().contains(e) && 0 <= j < dirs[e].len() && k == e + dirs[e][j] by {
            if ns.dom().contains(k) {
                let (e, j) = choose|e: Seq<u8>, j: int|
                    #![trigger ds[e][j]]
                    ds.dom().contains(e) && 0 <= j < ds[e].len() && k == e + ds[e][j];
                assert(e != d);
                assert(dirs[e][j] == ds[e][j]);
            } else {
                let j = choose|j: int| 0 <= j < l - 1 - s && k == d + #[trigger] fs[j];
                assert(dirs[d][j] == fs[j]);
            }
        }
        assert forall|e: Seq<u8>| #[trigger] dirs.dom().contains(e) implies dir_listed(evs, e) by {
            if e == d {
                assert(listed_dir(evs[l - 1]) == Some(e));
            } else {
                assert(dir_listed(pre, e));
                let i = choose|i: int| 0 <= i < pre.len() && #[trigger] listed_dir(pre[i]) == Some(e);
                assert(listed_dir(evs[i]) == Some(e));
            }
        }
    }
}

/// The index that reading a package fills into an empty one is consistent (see
/// `index_sound`): each directory holds some resource, each file name it lists names a
/// resource under the directory, each resource lies under a listed name and has some size.
/// This holds where the package lists each directory once.
pub proof fn lemma_read_index_sound(data: Seq<u8>, pos: int)
    requires
        read_ends(data, pos),
        spec_read_events(data, pos) matches Some((evs, _)) && dirs_unique(evs),
    ensures
        ({
            let (evs, _) = spec_read_events(data, pos).unwrap();
            let (nodes, dirs) = apply_events(Map::empty(), Map::empty(), evs);
            index_sound(nodes, dirs)
        }),
{
    lemma_events_sound(data, pos);
    lemma_events_in_blocks(data, pos);
    let (evs, _) = spec_read_events(data, pos).unwrap();
    lemma_index_blocks(evs);
}

/// The URI of the resource that the event `e` reports, if it reports one: that of its
/// directory followed by its file name.
pub open spec fn node_key(e: PackEventView) -> Option<Seq<u8>> {
    match e {
        PackEventView::Node(d, f, _) => Some(d + f),
        PackEventView::Dir(..) => None,
    }
}

/// Whether the events `evs` report each resource URI at most once.
pub open spec fn nodes_unique(evs: Seq<PackEventView>) -> bool {
    forall|i: int, j: int|
        0 <= i < j < evs.len() && (#[trigger] node_key(evs[i])) is Some ==> node_key(evs[i])
            != #[trigger] node_key(evs[j])
}

/// Whether `nodes` and `dirs` hold exactly what the events `evs` report: each resource
/// under its URI, each directory with its file names, and nothing else.
pub open spec fn holds_events(
    nodes: Map<Seq<u8>, Node>,
    dirs: Map<Seq<u8>, Seq<Seq<u8>>>,
    evs: Seq<PackEventView>,
) -> bool {
    &&& forall|k: int|
        0 <= k < evs.len() ==> match #[trigger] evs[k] {
            PackEventView::Node(d, f, n) => nodes.dom().contains(d + f) && nodes[d + f] == n,
            PackEventView::Dir(d, fs) => dirs.dom().contains(d) && dirs[d] == fs,
        }
    &&& forall|key: Seq<u8>|
        #[trigger] nodes.dom().contains(key) ==> exists|k: int|
            0 <= k < evs.len() && #[trigger] node_key(evs[k]) == Some(key)
    &&& forall|d: Seq<u8>| #[trigger] dirs.dom().contains(d) ==> dir_listed(evs, d)
}

/// Events that report each resource and each directory once put exactly what they report
/// into an empty index.
proof fn lemma_apply_exact(evs: Seq<PackEventView>)
    requires
        nodes_unique(evs),
        dirs_unique(evs),
    ensures
        ({
            let (nodes, dirs) = apply_events(Map::empty(), Map::empty(), evs);
            holds_events(nodes, dirs, evs)
        }),
    decreases evs.len(),
{
    let (nodes, dirs) = apply_events(Map::empty(), Map::empty(), evs);
    if evs.len() == 0 {
        assert(nodes =~= Map::empty());
        assert(dirs =~= Map::empty());
    } else {
        let l = evs.len() as int;
        let pre = evs.drop_last();
        assert forall|i: int, j: int|
            0 <= i < j < pre.len() && (#[trigger] node_key(pre[i])) is Some implies node_key(pre[i])
                != #[trigger] node_key(pre[j]) by {
            assert(pre[i] == evs[i] && pre[j] == evs[j]);
        }
        assert forall|i: int, j: int|
            0 <= i < j < pre.len() && (#[trigger] listed_dir(pre[i])) is Some implies listed_dir(pre[i])
                != #[trigger] listed_dir(pre[j]) by {
            assert(pre[i] == evs[i] && pre[j] == evs[j]);
        }
        lemma_apply_exact(pre);
        let (np, dp) = apply_events(Map::empty(), Map::empty(), pre);
        let last = evs[l - 1];
        assert(evs.last() == last);
        assert forall|k: int| 0 <= k < l implies match #[trigger] evs[k] {
            PackEventView::Node(d, f, n) => nodes.dom().contains(d + f) && nodes[d + f] == n,
            PackEventView::Dir(d, fs) => dirs.dom().contains(d) && dirs[d] == fs,
        } by {
            if k < l - 1 {
                assert(evs[k] == pre[k]);
                assert(node_key(evs[k]) is Some ==> node_key(evs[k]) != node_key(evs[l - 1]));
                assert(listed_dir(evs[k]) is Some ==> listed_dir(evs[k]) != listed_dir(evs[l - 1]));
            }
        }
        assert forall|key: Seq<u8>| #[trigger] nodes.dom().contains(key) implies exists|k: int|
            0 <= k < evs.len() && #[trigger] node_key(evs[k]) == Some(key) by {
            if np.dom().contains(key) {
                let k = choose|k: int| 0 <= k < pre.len() && #[trigger] node_key(pre[k]) == Some(key);
                assert(node_key(evs[k]) == Some(key));
            } else {
                assert(node_key(evs[l - 1]) == Some(key));
            }
        }
        assert forall|d: Seq<u8>| #[trigger] dirs.dom().contains(d) implies dir_listed(evs, d) by {
            if dp.dom().contains(d) {
                let k = choose|k: int| 0 <= k < pre.len() && #[trigger] listed_dir(pre[k]) == Some(d);
                assert(listed_dir(evs[k]) == Some(d));
            } else {
                assert(listed_dir(evs[l - 1]) == Some(d));
            }
        }
    }
}

/// What `read_ref_to` reports of a package is what `read_to` puts into an empty index: each
/// resource under its URI once, each directory once, after its resources, with their file
/// names, and nothing else. This holds where the package lists each resource URI and each
/// directory once.
pub proof fn lemma_read_ref_is_index(data: Seq<u8>, pos: int)
    requires
        read_ends(data, pos),
        spec_read_events(data, pos) matches Some((evs, _)) && nodes_unique(evs) && dirs_unique(evs),
    ensures
        ({
            let (evs, _) = spec_read_events(data, pos).unwrap();
            let (nodes, dirs) = apply_events(Map::empty(), Map::empty(), evs);
            &&& dirs_after_nodes(evs)
            &&& holds_events(nodes, dirs, evs)
        }),
{
    lemma_events_in_blocks(data, pos);
    let (evs, _) = spec_read_events(data, pos).unwrap();
    lemma_apply_exact(evs);
}

/// What reading the package whose head is at byte `pos` of `data` reports when at most
/// `fuel` directory listings are read: as `spec_read_events`, or `None` also where more
/// listings would be needed.
pub open spec fn spec_read_events_within(data: Seq<u8>, pos: int, fuel: nat) -> Option<
    (Seq<PackEventView>, Result<(), ReadError>),
> {
    if !in_stream(data.len() as int, pos, 256) {
        Some((Seq::empty(), Err(ReadError::UnexpectedEof)))
    } else if u32_le(data, pos + 127) != 1 {
        None
    } else {
        match walk(data, root_stack(data, pos), Seq::empty(), fuel) {
            Some(Some(r)) => Some(r),
            _ => None,
        }
    }
}

/// A walk that ends with some fuel ends the same with more.
proof fn lemma_walk_fuel(
    data: Seq<u8>,
    stack: Seq<StackEntry>,
    evs: Seq<PackEventView>,
    f1: nat,
    f2: nat,
)
    requires
        walk(data, stack, evs, f1) is Some,
        f1 <= f2,
    ensures
        walk(data, stack, evs, f2) == walk(data, stack, evs, f1),
    decreases f1,
{
    if stack.len() > 0 {
        let d = stack.last();
        let rest = stack.drop_last();
        if in_stream(data.len() as int, d.1 as int, d.2 as int) {
            match dir_entries(data.subrange(d.1 as int, d.1 + d.2), 0, d.0, rest, Seq::empty(), evs) {
                None => {},
                Some((st, files, evs2)) => {
                    let next = if files.len() > 0 {
                        evs2.push(PackEventView::Dir(d.0, files))
                    } else {
                        evs2
                    };
                    lemma_walk_fuel(data, st, next, (f1 - 1) as nat, (f2 - 1) as nat);
                },
            }
        }
    }
}

/// Reading with a bound on the listings agrees with reading without one whenever it comes
/// to an end: the package's walk then ends, and reports the same.
pub proof fn lemma_read_within_agrees(data: Seq<u8>, pos: int, fuel: nat)
    requires
        spec_read_events_within(data, pos, fuel) is Some,
    ensures
        read_ends(data, pos),
        spec_read_events(data, pos) == spec_read_events_within(data, pos, fuel),
{
    if head_ok(data, pos) {
        let st = root_stack(data, pos);
        let e = Seq::<PackEventView>::empty();
        assert(walk(data, st, e, fuel) is Some);
        let f0 = choose|f: nat| #[trigger] walk(data, st, e, f) is Some;
        if f0 <= fuel {
            lemma_walk_fuel(data, st, e, f0, fuel);
        } else {
            lemma_walk_fuel(data, st, e, fuel, f0);
        }
    }
}

/// Reads the index of the package whose head is at the current position of `from`,
/// reporting resources and directories in order, with at most `max_dirs` directory
/// listings read; `None` where more would be needed (as in a package whose directories
/// refer to each other in a circle) or the reading cannot go on.
pub fn read_events_within(from: &mut ByteStream, max_dirs: u64) -> (r: Option<
    (Vec<PackEvent>, Result<(), ReadError>),
>)
    ensures
        final(from).spec_data() == old(from).spec_data(),
        match (r, spec_read_events_within(old(from).spec_data(), old(from).spec_pos(), max_dirs as nat)) {
            (Some((evs, res)), Some((sevs, sres))) => events_view(evs@) == sevs && res == sres,
            (None, None) => true,
            _ => false,
        },
{
    let ghost data = from.spec_data();
    let ghost pos = from.spec_pos();
    let temp = match from.read_exact(PACKAGE_HEAD_LEN) {
        Ok(t) => t,
        Err(e) => {
            let evs: Vec<PackEvent> = Vec::new();
            assert(events_view(evs@) =~= Seq::empty());
            return Some((evs, Err(e)));
        },
    };
    let head = Header::read(temp);
    let version = head.version();
    proof {
        assert(u32_le(head.version@, 0) == u32_le(temp@, 127));
        assert(u32_le(temp@, 127) == u32_le(data, pos + 127));
        assert(u32_le(temp@, 131) == u32_le(data, pos + 131));
        assert(u32_le(temp@, 135) == u32_le(data, pos + 135));
    }
    if version != 1 {
        return None;
    }
    let root_offset = read_u32_le(temp, 131);
    let root_size = read_u32_le(temp, 135);
    let ghost result = walk(data, root_stack(data, pos), Seq::empty(), max_dirs as nat);
    let mut fuel: u64 = max_dirs;
    let mut dirs: Vec<(Uri, u32, u32)> = Vec::new();
    dirs.push((Vec::new(), root_offset, root_size));
    let mut evs: Vec<PackEvent> = Vec::new();
    proof {
        assert(stack_view(dirs@) =~= root_stack(data, pos));
        assert(events_view(evs@) =~= Seq::empty());
    }
    while dirs.len() > 0
        invariant
            from.spec_data() == data,
            data == old(from).spec_data(),
            pos == old(from).spec_pos(),
            in_stream(data.len() as int, pos, 256),
            u32_le(data, pos + 127) == 1,
            result == walk(data, root_stack(data, pos), Seq::empty(), max_dirs as nat),
            walk(data, stack_view(dirs@), events_view(evs@), fuel as nat) == result,
        decreases fuel,
    {
        if fuel == 0 {
            return None;
        }
        let ghost st = dirs@;
        let dir = dirs.pop().unwrap();
        proof {
            assert(stack_view(dirs@) =~= stack_view(st).drop_last());
        }
        from.seek(dir.1 as u64);
        let buf = match from.read_exact(dir.2 as usize) {
            Ok(b) => b,
            Err(e) => return Some((evs, Err(e))),
        };
        let mut files: Vec<Uri> = Vec::new();
        assert(files_view(files@) =~= Seq::empty());
        if !read_entries(buf, &dir.0, &mut dirs, &mut files, &mut evs) {
            return None;
        }
        if files.len() > 0 {
            let ghost es = evs@;
            let ghost fs = files@;
            let key = dir.0;
            evs.push(PackEvent::Dir(key, files));
            proof {
                assert(events_view(evs@) =~= events_view(es).push(PackEventView::Dir(st.last().0@, files_view(fs))));
            }
        }
        fuel = fuel - 1;
    }
    Some((evs, Ok(())))
}

/// Reads the index of the package whose head is at the current position of `from` into
/// `to`, with at most `max_dirs` directory listings read; `None` where more would be
/// needed or the reading cannot go on. Up to a read error, what was read stays.
pub fn read_to_within(from: &mut ByteStream, to: &mut Index, max_dirs: u64) -> (r: Option<
    Result<(), ReadError>,
>)
    requires
        old(to).wf(),
    ensures
        final(from).spec_data() == old(from).spec_data(),
        final(to).wf(),
        match (r, spec_read_events_within(old(from).spec_data(), old(from).spec_pos(), max_dirs as nat)) {
            (Some(res), Some((sevs, sres))) => res == sres && (final(to).spec_nodes(), final(to).spec_dirs())
                == apply_events(old(to).spec_nodes(), old(to).spec_dirs(), sevs),
            (None, None) => *final(to) == *old(to),
            _ => false,
        },
{
    match read_events_within(from, max_dirs) {
        Some((evs, res)) => {
            apply_to(evs, to);
            Some(res)
        },
        None => None,
    }
}

/// The resources and directories that the events `evs` put into `nodes` and `dirs`,
/// in order: a resource under the URI of its directory followed by its file name.
pub open spec fn apply_events(
    nodes: Map<Seq<u8>, Node>,
    dirs: Map<Seq<u8>, Seq<Seq<u8>>>,
    evs: Seq<PackEventView>,
) -> (Map<Seq<u8>, Node>, Map<Seq<u8>, Seq<Seq<u8>>>)
    decreases evs.len(),
{
    if evs.len() == 0 {
        (nodes, dirs)
    } else {
        let (n, d) = apply_events(nodes, dirs, evs.drop_last());
        match evs.last() {
            PackEventView::Node(dir, file, node) => (n.insert(dir + file, node), d),
            PackEventView::Dir(uri, files) => (n, d.insert(uri, files)),
        }
    }
}

/// Puts the resources and directories that `evs` report into `index`.
fn apply_to(evs: Vec<PackEvent>, index: &mut Index)
    requires
        old(index).wf(),
    ensures
        final(index).wf(),
        (final(index).spec_nodes(), final(index).spec_dirs()) == apply_events(
            old(index).spec_nodes(),
            old(index).spec_dirs(),
            events_view(evs@),
        ),
{
    let ghost all = evs@;
    let ghost n0 = index.spec_nodes();
    let ghost d0 = index.spec_dirs();
    let mut rev: Vec<PackEvent> = Vec::new();
    let mut evs = evs;
    while evs.len() > 0
        invariant
            all == evs@ + rev@.reverse(),
        decreases evs@.len(),
    {
        let ghost before = evs@;
        let ghost rb = rev@;
        let e = evs.pop().unwrap();
        rev.push(e);
        assert(rev@.reverse() =~= seq![e] + rb.reverse());
        assert(before =~= evs@.push(e));
        assert(all =~= evs@ + rev@.reverse());
    }
    assert(all =~= rev@.reverse());
    let ghost k: int = 0;
    while rev.len() > 0
        invariant
            index.wf(),
            0 <= k <= all.len(),
            rev@.reverse() == all.skip(k),
            (index.spec_nodes(), index.spec_dirs()) == apply_events(n0, d0, events_view(all.take(k))),
        decreases rev@.len(),
    {
        let ghost rb = rev@;
        let e = rev.pop().unwrap();
        proof {
            assert(rb.reverse()[0] == e);
            assert(all.skip(k).len() == rb.len());
            assert(k < all.len());
            assert(all.skip(k)[0] == e);
            assert(all[k] == e);
            assert(all.take(k + 1).drop_last() =~= all.take(k));
            assert(all.take(k + 1).last() == e);
            assert(events_view(all.take(k + 1)).drop_last() =~= events_view(all.take(k)));
            assert(rev@ == rb.drop_last());
            assert(rb.reverse().drop_first() =~= rev@.reverse());
            assert(all.skip(k).drop_first() =~= all.skip(k + 1));
        }
        match e {
            PackEvent::Node(dir, file, node) => {
                let uri = concat3(dir.as_slice(), file.as_slice(), &[]);
                assert(uri@ =~= dir@ + file@);
                index.insert_node(uri, node);
            },
            PackEvent::Dir(uri, files) => {
                index.insert_dir(uri, files);
            },
        }
        proof {
            k = k + 1;
        }
    }
    assert(all.take(k) =~= all);
}

/// Reads the index of the package whose head is at the current position of `from`,
/// reporting resources and directories in order: each resource with the URI of its
/// directory and its file name, each directory that holds resources after them with
/// their file names (see `dirs_after_nodes`); the resources of size 0 are left out. The
/// events up to a read error are kept, with the error. `read_to` puts the same events into
/// an index (see `apply_events`).
pub fn read_ref_to(from: &mut ByteStream) -> (r: (Vec<PackEvent>, Result<(), ReadError>))
    requires
        read_ends(old(from).spec_data(), old(from).spec_pos()),
        spec_read_events(old(from).spec_data(), old(from).spec_pos()) is Some,
    ensures
        final(from).spec_data() == old(from).spec_data(),
        (events_view(r.0@), r.1) == spec_read_events(old(from).spec_data(), old(from).spec_pos()).unwrap(),
        dirs_after_nodes(events_view(r.0@)),
        forall|k: int| 0 <= k < r.0@.len() ==> event_sound(#[trigger] events_view(r.0@)[k]),
{
    proof {
        lemma_events_sound(from.spec_data(), from.spec_pos());
        lemma_events_in_blocks(from.spec_data(), from.spec_pos());
    }
    match read_events_checked(from) {
        Some(r) => r,
        None => (Vec::new(), Ok(())),
    }
}

/// Reads the index of the package whose head is at the current position of `from` into
/// `to`, or `None` where the reading cannot go on. Up to a read error, what was read stays.
pub fn read_to_checked(from: &mut ByteStream, to: &mut Index) -> (r: Option<Result<(), ReadError>>)
    requires
        read_ends(old(from).spec_data(), old(from).spec_pos()),
        old(to).wf(),
    ensures
        final(from).spec_data() == old(from).spec_data(),
        final(to).wf(),
        match (r, spec_read_events(old(from).spec_data(), old(from).spec_pos())) {
            (Some(res), Some((sevs, sres))) => res == sres && (final(to).spec_nodes(), final(to).spec_dirs())
                == apply_events(old(to).spec_nodes(), old(to).spec_dirs(), sevs),
            (None, None) => true,
            _ => false,
        },
{
    match read_events_checked(from) {
        Some((evs, res)) => {
            apply_to(evs, to);
            Some(res)
        },
        None => None,
    }
}

/// Reads the index of the package whose head is at the current position of `from` into
/// `to`. Up to a read error, what was read stays.
pub fn read_to(from: &mut ByteStream, to: &mut Index) -> (r: Result<(), ReadError>)
    requires
        read_ends(old(from).spec_data(), old(from).spec_pos()),
        spec_read_events(old(from).spec_data(), old(from).spec_pos()) is Some,
        old(to).wf(),
    ensures
        final(from).spec_data() == old(from).spec_data(),
        final(to).wf(),
        ({
            let (sevs, sres) = spec_read_events(old(from).spec_data(), old(from).spec_pos()).unwrap();
            r == sres && (final(to).spec_nodes(), final(to).spec_dirs()) == apply_events(
                old(to).spec_nodes(),
                old(to).spec_dirs(),
                sevs,
            )
        }),
{
    match read_to_checked(from, to) {
        Some(r) => r,
        None => Ok(()),
    }
}

/// Reads package indices.
pub struct PackReader {}

impl<'a> Reader<ByteStream<'a>, Index> for PackReader {
    type Error = ReadError;

    open spec fn spec_can_read(&self, from: ByteStream<'a>) -> bool {
        read_ends(from.spec_data(), from.spec_pos()) && spec_read_events(from.spec_data(), from.spec_pos()) is Some
    }

    open spec fn spec_read(&self, from: ByteStream<'a>, r: Result<Index, ReadError>) -> bool {
        let (sevs, sres) = spec_read_events(from.spec_data(), from.spec_pos()).unwrap();
        match r {
            Ok(index) => sres is Ok && index.wf() && (index.spec_nodes(), index.spec_dirs()) == apply_events(
                Map::empty(),
                Map::empty(),
                sevs,
            ),
            Err(e) => sres == Err::<(), ReadError>(e),
        }
    }

    fn read(&mut self, from: &mut ByteStream<'a>) -> (r: Result<Index, ReadError>) {
        let mut index = Index::new();
        match read_to(from, &mut index) {
            Ok(()) => Ok(index),
            Err(e) => Err(e),
        }
    }
}

impl<'a> ReaderTo<ByteStream<'a>, Index> for PackReader {
    type Error = ReadError;

    open spec fn spec_can_read_to(&self, from: ByteStream<'a>, to: Index) -> bool {
        read_ends(from.spec_data(), from.spec_pos()) && spec_read_events(from.spec_data(), from.spec_pos()) is Some
            && to.wf()
    }

    open spec fn spec_read_to(&self, from: ByteStream<'a>, to: Index, to_after: Index, r: Result<(), ReadError>) -> bool {
        let (sevs, sres) = spec_read_events(from.spec_data(), from.spec_pos()).unwrap();
        &&& r == sres
        &&& to_after.wf()
        &&& (to_after.spec_nodes(), to_after.spec_dirs()) == apply_events(to.spec_nodes(), to.spec_dirs(), sevs)
    }

    fn read_to(&mut self, from: &mut ByteStream<'a>, to: &mut Index) -> (r: Result<(), ReadError>) {
        read_to(from, to)
    }
}

} // verus!
