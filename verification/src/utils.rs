use vstd::prelude::*;
use core::str::Utf8Error;
use vstd::string::StringSliceAdditionalSpecFns;

verus! {

/// Size in bytes of a value of `T`.
pub fn size_of<T: Sized>() -> (size: usize)
    ensures
        size as nat == vstd::layout::size_of::<T>(),
{
    core::mem::size_of::<T>()
}

/// Read until zero and return the bytes before the first zero.
/// The input must hold a zero byte.
pub fn read_to_zero(input: &[u8]) -> (prefix: &[u8])
    requires
        input@.contains(0u8),
    ensures
        prefix@ == until_zero(input@),
        prefix@.len() < input@.len(),
{
    let mut i: usize = 0;
    while i < input.len()
        invariant
            i <= input@.len(),
            forall|j: int| 0 <= j < i ==> input@[j] != 0,
            input@.contains(0u8),
        decreases input@.len() - i,
    {
        if input[i] == 0 {
            proof { lemma_until_zero_at(input@, i as int); }
            return &input[0..i];
        }
        i = i + 1;
    }
    proof {
        let k = choose|k: int| 0 <= k < input@.len() && input@[k] == 0u8;
        assert(input@[k] != 0);
    }
    &input[0..0]
}

/// The bytes of `s` before its first zero byte (all of `s` when it has none).
pub open spec fn until_zero(s: Seq<u8>) -> Seq<u8>
    decreases s.len(),
{
    if s.len() == 0 {
        s
    } else if s[0] == 0 {
        Seq::empty()
    } else {
        seq![s[0]] + until_zero(s.drop_first())
    }
}

/// `until_zero` cuts at the first zero byte.
pub proof fn lemma_until_zero_at(s: Seq<u8>, i: int)
    requires
        0 <= i < s.len(),
        s[i] == 0,
        forall|j: int| 0 <= j < i ==> s[j] != 0,
    ensures
        until_zero(s) == s.take(i),
    decreases i,
{
    if i > 0 {
        lemma_until_zero_at(s.drop_first(), i - 1);
        assert(s.take(i) == seq![s[0]] + s.drop_first().take(i - 1));
    }
}

/// The whole of `s` when it holds no zero byte.
pub proof fn lemma_until_zero_none(s: Seq<u8>)
    requires
        forall|j: int| 0 <= j < s.len() ==> s[j] != 0,
    ensures
        until_zero(s) == s,
    decreases s.len(),
{
    if s.len() > 0 {
        lemma_until_zero_none(s.drop_first());
        assert(s == seq![s[0]] + s.drop_first());
    }
}

/// Unsigned 32-bit little-endian integer at byte `at` of `s`.
pub open spec fn u32_le(s: Seq<u8>, at: int) -> u32 {
    (s[at] as int + s[at + 1] as int * 0x100 + s[at + 2] as int * 0x1_0000 + s[at + 3] as int
        * 0x100_0000) as u32
}

/// Signed 32-bit little-endian integer at byte `at` of `s`.
pub open spec fn i32_le(s: Seq<u8>, at: int) -> i32 {
    u32_le(s, at) as i32
}

/// Unsigned 16-bit little-endian integer at byte `at` of `s`.
pub open spec fn u16_le(s: Seq<u8>, at: int) -> u16 {
    (s[at] as int + s[at + 1] as int * 0x100) as u16
}

/// Little-endian numbers are the numbers their bytes make, the first byte the least
/// significant: a 32-bit one of four bytes, a 16-bit one of two.
pub proof fn lemma_le_values(s: Seq<u8>, at: int)
    ensures
        u32_le(s, at) as int == s[at] as int + 0x100 * s[at + 1] as int + 0x1_0000 * s[at + 2] as int
            + 0x100_0000 * s[at + 3] as int,
        u16_le(s, at) as int == s[at] as int + 0x100 * s[at + 1] as int,
{
}

/// Decodes the unsigned 32-bit little-endian integer at byte `at` of `buf`.
pub fn read_u32_le(buf: &[u8], at: usize) -> (v: u32)
    requires
        at + 4 <= buf@.len(),
    ensures
        v == u32_le(buf@, at as int),
{
    buf[at] as u32 + buf[at + 1] as u32 * 0x100 + buf[at + 2] as u32 * 0x1_0000 + buf[at + 3] as u32
        * 0x100_0000
}

/// Decodes the signed 32-bit little-endian integer at byte `at` of `buf`.
pub fn read_i32_le(buf: &[u8], at: usize) -> (v: i32)
    requires
        at + 4 <= buf@.len(),
    ensures
        v == i32_le(buf@, at as int),
{
    let u = read_u32_le(buf, at);
    u as i32
}

/// Decodes the unsigned 16-bit little-endian integer at byte `at` of `buf`.
pub fn read_u16_le(buf: &[u8], at: usize) -> (v: u16)
    requires
        at + 2 <= buf@.len(),
    ensures
        v == u16_le(buf@, at as int),
{
    buf[at] as u16 + buf[at + 1] as u16 * 0x100
}

/// The error of a read that runs past the end of the data.
#[derive(Debug, Clone, Copy, PartialEq, Eq)]
pub enum ReadError {
    /// The data ended before the bytes asked for.
    UnexpectedEof,
    /// The data could not be decoded (compressed data, images).
    InvalidData,
}

/// Whether `len` bytes starting at `offset` lie within a stream of `data_len` bytes.
pub open spec fn in_stream(data_len: int, offset: int, len: int) -> bool {
    0 <= offset && 0 <= len && offset + len <= data_len
}

/// A readable, seekable stream over bytes held in memory.
pub struct ByteStream<'a> {
    data: &'a [u8],
    pos: u64,
}

impl<'a> ByteStream<'a> {
    /// The bytes of the stream.
    pub closed spec fn spec_data(&self) -> Seq<u8> {
        self.data@
    }

    /// The position of the next read.
    pub closed spec fn spec_pos(&self) -> int {
        self.pos as int
    }

    /// A stream positioned at the start of `data`.
    pub fn new(data: &'a [u8]) -> (s: Self)
        ensures
            s.spec_data() == data@,
            s.spec_pos() == 0,
    {
        ByteStream { data, pos: 0 }
    }

    /// Moves to byte `pos` from the start (which may lie past the end).
    pub fn seek(&mut self, pos: u64)
        ensures
            final(self).spec_data() == old(self).spec_data(),
            final(self).spec_pos() == pos,
    {
        self.pos = pos;
    }

    /// The position of the next read.
    pub fn position(&self) -> (pos: u64)
        ensures
            pos == self.spec_pos(),
    {
        self.pos
    }

    /// Reads exactly `len` bytes, or fails when the data end first.
    pub fn read_exact(&mut self, len: usize) -> (r: Result<&'a [u8], ReadError>)
        ensures
            final(self).spec_data() == old(self).spec_data(),
            match r {
                Ok(bytes) => {
                    &&& in_stream(old(self).spec_data().len() as int, old(self).spec_pos(), len as int)
                    &&& bytes@ == old(self).spec_data().subrange(
                        old(self).spec_pos(),
                        old(self).spec_pos() + len,
                    )
                    &&& final(self).spec_pos() == old(self).spec_pos() + len
                },
                Err(e) => {
                    &&& !in_stream(old(self).spec_data().len() as int, old(self).spec_pos(), len as int)
                    &&& e == ReadError::UnexpectedEof
                    &&& final(self).spec_pos() == old(self).spec_pos()
                },
            },
    {
        let n = self.data.len();
        if self.pos > n as u64 {
            return Err(ReadError::UnexpectedEof);
        }
        let start = self.pos as usize;
        if len > n - start {
            return Err(ReadError::UnexpectedEof);
        }
        let data: &'a [u8] = self.data;
        self.pos = (start + len) as u64;
        Ok(&data[start..start + len])
    }

    /// Reads up to `len` bytes: those of them that lie before the end of the data.
    pub fn read_up_to(&mut self, len: usize) -> (r: &'a [u8])
        ensures
            final(self).spec_data() == old(self).spec_data(),
            r@ == bytes_up_to(old(self).spec_data(), old(self).spec_pos(), len as int),
            final(self).spec_pos() == if old(self).spec_pos() < old(self).spec_data().len() {
                old(self).spec_pos() + r@.len()
            } else {
                old(self).spec_pos()
            },
    {
        let n = self.data.len();
        if self.pos >= n as u64 {
            return &self.data[n..n];
        }
        let start = self.pos as usize;
        let end = if len < n - start {
            start + len
        } else {
            n
        };
        let data: &'a [u8] = self.data;
        self.pos = end as u64;
        &data[start..end]
    }
}

/// The bytes of `d` from `pos` on, at most `len` of them.
pub open spec fn bytes_up_to(d: Seq<u8>, pos: int, len: int) -> Seq<u8> {
    let s = if pos < d.len() {
        pos
    } else {
        d.len() as int
    };
    let e = if pos + len < d.len() {
        pos + len
    } else {
        d.len() as int
    };
    d.subrange(s, e)
}

/// Whether all bits of `f` are set in `v`.
pub open spec fn flags_has(v: u32, f: u32) -> bool {
    v & f == f
}

#[verifier::external_type_specification]
#[verifier::external_body]
pub struct ExUtf8Error(Utf8Error);

/// `std::str::from_utf8`: succeeds exactly on valid UTF-8, with a string of the same bytes.
#[verifier::external_body]
pub(crate) fn str_from_utf8(v: &[u8]) -> (r: Result<&str, Utf8Error>)
    ensures
        r is Ok <==> vstd::utf8::valid_utf8(v@),
        r matches Ok(s) ==> s.spec_bytes() == v@,
{
    core::str::from_utf8(v)
}

/// Whether `c` is white space: a character of the Unicode property White_Space.
pub open spec fn white_space(c: char) -> bool {
    let v = c as u32;
    ||| 0x9 <= v <= 0xd
    ||| v == 0x20 || v == 0x85 || v == 0xa0 || v == 0x1680
    ||| 0x2000 <= v <= 0x200a
    ||| v == 0x2028 || v == 0x2029 || v == 0x202f || v == 0x205f || v == 0x3000
}

/// The text `s` without its leading white space.
pub open spec fn trim_start(s: Seq<char>) -> Seq<char>
    decreases s.len(),
{
    if s.len() > 0 && white_space(s[0]) {
        trim_start(s.drop_first())
    } else {
        s
    }
}

/// The text `s` without its trailing white space.
pub open spec fn trim_end(s: Seq<char>) -> Seq<char>
    decreases s.len(),
{
    if s.len() > 0 && white_space(s.last()) {
        trim_end(s.drop_last())
    } else {
        s
    }
}

/// The text `s` without leading and trailing white space.
pub open spec fn trimmed(s: Seq<char>) -> Seq<char> {
    trim_end(trim_start(s))
}

/// `str::trim`: the text without leading and trailing white space, as the Unicode
/// property White_Space defines it.
#[verifier::external_body]
pub(crate) fn str_trim(s: &str) -> (r: &str)
    ensures
        r@ == trimmed(s@),
{
    s.trim()
}

/// The characters of valid UTF-8 bytes are those of a string with those bytes.
pub proof fn lemma_str_chars(s: &str, v: Seq<u8>)
    requires
        s.spec_bytes() == v,
    ensures
        s@ == vstd::utf8::decode_utf8(v),
{
    vstd::utf8::encode_utf8_decode_utf8(s@);
}

/// The index of the first zero byte of `s[from..]`, if any.
pub fn find_zero(s: &[u8], from: usize) -> (r: Option<usize>)
    requires
        from <= s@.len(),
    ensures
        match r {
            Some(i) => from <= i < s@.len() && s@[i as int] == 0
                && (forall|j: int| from <= j < i ==> s@[j] != 0) && s@.subrange(from as int, s@.len() as int).contains(0u8)
                && until_zero(s@.subrange(from as int, s@.len() as int)) == s@.subrange(from as int, i as int),
            None => !s@.subrange(from as int, s@.len() as int).contains(0u8),
        },
{
    let mut i = from;
    while i < s.len()
        invariant
            from <= i <= s@.len(),
            forall|j: int| from <= j < i ==> s@[j] != 0,
        decreases s@.len() - i,
    {
        if s[i] == 0 {
            proof {
                let rest = s@.subrange(from as int, s@.len() as int);
                assert(rest[i - from] == 0);
                lemma_until_zero_at(rest, i - from);
                assert(rest.take(i - from) =~= s@.subrange(from as int, i as int));
            }
            return Some(i);
        }
        i = i + 1;
    }
    proof {
        let rest = s@.subrange(from as int, s@.len() as int);
        if rest.contains(0u8) {
            let k = choose|k: int| 0 <= k < rest.len() && rest[k] == 0u8;
            assert(s@[from + k] == 0);
        }
    }
    None
}

} // verus!
