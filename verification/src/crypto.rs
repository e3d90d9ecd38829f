//! Blowfish in the word order of "blowfish-compat" (libmcrypt), and the padding
//! of WAP32 encrypted text files.
use vstd::prelude::*;
use blowfish::Blowfish;
use blowfish::cipher::InvalidLength;
use blowfish::cipher::{BlockDecrypt, BlockEncrypt, KeyInit};
use blowfish::cipher::generic_array::GenericArray;
use crate::utils::{ByteStream, in_stream};

verus! {

#[verifier::external_type_specification]
#[verifier::external_body]
pub struct ExInvalidLength(InvalidLength);

/// The block that `decrypt_block` of the (big-endian) Blowfish cipher set up from `key`
/// makes of an 8-byte block.
pub uninterp spec fn blowfish_decrypt(key: Seq<u8>, block: Seq<u8>) -> Seq<u8>;

/// The block that `encrypt_block` of the (big-endian) Blowfish cipher set up from `key`
/// makes of an 8-byte block.
pub uninterp spec fn blowfish_encrypt(key: Seq<u8>, block: Seq<u8>) -> Seq<u8>;

/// Whether Blowfish takes `key`: from 4 to 56 bytes.
pub open spec fn blowfish_key_ok(key: Seq<u8>) -> bool {
    4 <= key.len() <= 56
}

/// `Blowfish::new_from_slice` (big-endian Blowfish), for its verdict on the key:
/// it fails exactly on keys shorter than 4 or longer than 56 bytes.
#[verifier::external_body]
fn blowfish_check_key(key: &[u8]) -> (r: Result<(), InvalidLength>)
    ensures
        r is Ok <==> blowfish_key_ok(key@),
{
    Blowfish::<byteorder::BigEndian>::new_from_slice(key).map(|_c| ())
}

/// `BlockDecrypt::decrypt_block` of the big-endian Blowfish cipher that
/// `Blowfish::new_from_slice` sets up from `key` (which it takes), on an 8-byte block:
/// the block becomes its decryption, a function of the key and the block alone, which
/// the encryption under the same key turns back into the block (the rounds of the one
/// are those of the other in reverse order).
#[verifier::external_body]
fn blowfish_decrypt_block(key: &[u8], block: &mut [u8])
    requires
        blowfish_key_ok(key@),
        old(block)@.len() == 8,
    ensures
        final(block)@.len() == 8,
        final(block)@ == blowfish_decrypt(key@, old(block)@),
        blowfish_encrypt(key@, final(block)@) == old(block)@,
{
    let cipher = Blowfish::<byteorder::BigEndian>::new_from_slice(key).unwrap();
    cipher.decrypt_block(GenericArray::from_mut_slice(block))
}

/// `BlockEncrypt::encrypt_block` of the big-endian Blowfish cipher that
/// `Blowfish::new_from_slice` sets up from `key` (which it takes), on an 8-byte block:
/// the block becomes its encryption, a function of the key and the block alone, which
/// the decryption under the same key turns back into the block.
#[verifier::external_body]
fn blowfish_encrypt_block(key: &[u8], block: &mut [u8])
    requires
        blowfish_key_ok(key@),
        old(block)@.len() == 8,
    ensures
        final(block)@.len() == 8,
        final(block)@ == blowfish_encrypt(key@, old(block)@),
        blowfish_decrypt(key@, final(block)@) == old(block)@,
{
    let cipher = Blowfish::<byteorder::BigEndian>::new_from_slice(key).unwrap();
    cipher.encrypt_block(GenericArray::from_mut_slice(block))
}

/// Size (length) of word
pub const WORD: usize = 4;

/// Size (length) of chunk/block
pub const BLOCK: usize = 8;

/// `s` with the bytes of each word of four (and of a shorter last one) in reverse order.
pub open spec fn words_reversed(s: Seq<u8>) -> Seq<u8>
    decreases s.len(),
{
    if s.len() <= 4 {
        s.reverse()
    } else {
        s.take(4).reverse() + words_reversed(s.skip(4))
    }
}

proof fn lemma_words_reversed_append(a: Seq<u8>, b: Seq<u8>)
    requires
        a.len() % 4 == 0,
        b.len() <= 4,
    ensures
        words_reversed(a + b) == words_reversed(a) + b.reverse(),
    decreases a.len(),
{
    if a.len() == 0 {
        assert(a + b =~= b);
        assert(words_reversed(a) =~= Seq::<u8>::empty());
        if b.len() == 0 {
            assert(b.reverse() =~= Seq::<u8>::empty());
        }
    } else {
        lemma_words_reversed_append(a.skip(4), b);
        assert((a + b).take(4) =~= a.take(4));
        assert((a + b).skip(4) =~= a.skip(4) + b);
        if a.len() == 4 {
            assert(a.skip(4) =~= Seq::<u8>::empty());
            assert(words_reversed(a.skip(4)) =~= Seq::<u8>::empty());
            if b.len() == 0 {
                assert(a + b =~= a);
                assert(b.reverse() =~= Seq::<u8>::empty());
                assert(a.take(4) =~= a);
            }
        }
        assert(words_reversed(a) + b.reverse() =~= a.take(4).reverse() + (words_reversed(a.skip(4))
            + b.reverse()));
    }
}

proof fn lemma_words_reversed_len(s: Seq<u8>)
    ensures
        words_reversed(s).len() == s.len(),
    decreases s.len(),
{
    if s.len() > 4 {
        lemma_words_reversed_len(s.skip(4));
    }
}

/// Reversing the bytes of each word twice gives back the data: `reverse_words` undoes
/// itself.
pub proof fn lemma_words_reversed_twice(s: Seq<u8>)
    ensures
        words_reversed(words_reversed(s)) == s,
    decreases s.len(),
{
    if s.len() <= 4 {
        assert(s.reverse().reverse() =~= s);
    } else {
        let w = words_reversed(s);
        let head = s.take(4).reverse();
        let tail = words_reversed(s.skip(4));
        lemma_words_reversed_len(s.skip(4));
        lemma_words_reversed_twice(s.skip(4));
        assert(w.take(4) =~= head);
        assert(w.skip(4) =~= tail);
        assert(head.reverse() =~= s.take(4));
        assert(w.len() > 4);
        assert(words_reversed(w) =~= s.take(4) + s.skip(4));
        assert(s.take(4) + s.skip(4) =~= s);
    }
}

/// Takes data and reverses byte order of each word in place, to fit the
/// blowfish-compat format.
pub fn reverse_words(buf: &mut [u8])
    ensures
        final(buf)@ == words_reversed(old(buf)@),
{
    let ghost orig = buf@;
    let n = buf.len();
    let mut c: usize = 0;
    while c < n
        invariant
            n == buf@.len(),
            n == orig.len(),
            c <= n,
            c % 4 == 0 || c == n,
            buf@ == words_reversed(orig.take(c as int)) + orig.skip(c as int),
        decreases n - c,
    {
        let end = if n - c < WORD { n } else { c + WORD };
        let k = end - c;
        let ghost before = buf@;
        let mut tmp: [u8; 4] = [0u8; 4];
        let mut j: usize = 0;
        while j < k
            invariant
                k <= 4,
                c + k <= n,
                n == buf@.len(),
                n == before.len(),
                buf@ == before,
                j <= k,
                forall|t: int| 0 <= t < j ==> tmp@[t] == before[c + t],
            decreases k - j,
        {
            tmp[j] = buf[c + j];
            j = j + 1;
        }
        let mut j: usize = 0;
        while j < k
            invariant
                k <= 4,
                c + k <= n,
                n == buf@.len(),
                n == before.len(),
                j <= k,
                forall|t: int| 0 <= t < k ==> tmp@[t] == before[c + t],
                forall|t: int| 0 <= t < n && !(c <= t < c + j) ==> buf@[t] == before[t],
                forall|t: int| c <= t < c + j ==> #[trigger] buf@[t] == before[2 * c + k - 1 - t],
            decreases k - j,
        {
            buf[c + j] = tmp[k - 1 - j];
            j = j + 1;
        }
        proof {
            assert(before == words_reversed(orig.take(c as int)) + orig.skip(c as int));
            lemma_words_reversed_len(orig.take(c as int));
            let chunk = orig.subrange(c as int, (c + k) as int);
            assert(orig.take((c + k) as int) =~= orig.take(c as int) + chunk);
            lemma_words_reversed_append(orig.take(c as int), chunk);
            let w = words_reversed(orig.take(c as int));
            let goal = w + chunk.reverse() + orig.skip((c + k) as int);
            assert(goal.len() == n);
            assert forall|t: int| 0 <= t < n implies buf@[t] == goal[t] by {
                if t < c {
                    assert(buf@[t] == before[t]);
                } else if t < c + k {
                    assert(buf@[t] == before[2 * c + k - 1 - t]);
                    assert(before[2 * c + k - 1 - t] == orig.skip(c as int)[c + k - 1 - t]);
                } else {
                    assert(buf@[t] == before[t]);
                    assert(before[t] == orig.skip(c as int)[t - c]);
                }
            }
            assert(buf@ =~= goal);
        }
        c = end;
        assert(k == 4 || c == n);
    }
    assert(orig.take(n as int) =~= orig);
    assert(orig.skip(n as int) =~= Seq::<u8>::empty());
    assert(buf@ =~= words_reversed(orig));
}

/// The blowfish-compat decryption of an 8-byte block under `key`: Blowfish on the block
/// with the bytes of each word reversed before and after.
pub open spec fn compat_decrypt(key: Seq<u8>, block: Seq<u8>) -> Seq<u8> {
    words_reversed(blowfish_decrypt(key, words_reversed(block)))
}

/// The blowfish-compat encryption of an 8-byte block under `key`.
pub open spec fn compat_encrypt(key: Seq<u8>, block: Seq<u8>) -> Seq<u8> {
    words_reversed(blowfish_encrypt(key, words_reversed(block)))
}

/// The blowfish-compat decryption of the whole 8-byte blocks of `s`, one after another;
/// bytes after the last whole block are dropped.
pub open spec fn decrypt_blocks(key: Seq<u8>, s: Seq<u8>) -> Seq<u8>
    decreases s.len(),
{
    if s.len() < 8 {
        Seq::empty()
    } else {
        compat_decrypt(key, s.take(8)) + decrypt_blocks(key, s.skip(8))
    }
}

proof fn lemma_decrypt_blocks_append(key: Seq<u8>, a: Seq<u8>, b: Seq<u8>)
    requires
        a.len() % 8 == 0,
        b.len() == 8,
    ensures
        decrypt_blocks(key, a + b) == decrypt_blocks(key, a) + compat_decrypt(key, b),
    decreases a.len(),
{
    if a.len() == 0 {
        assert(a + b =~= b);
        assert(b.skip(8) =~= Seq::<u8>::empty());
        assert(b.take(8) =~= b);
        assert(decrypt_blocks(key, a) =~= Seq::<u8>::empty());
        assert(decrypt_blocks(key, b.skip(8)) =~= Seq::<u8>::empty());
        assert(decrypt_blocks(key, b) =~= compat_decrypt(key, b));
    } else {
        lemma_decrypt_blocks_append(key, a.skip(8), b);
        assert((a + b).take(8) =~= a.take(8));
        assert((a + b).skip(8) =~= a.skip(8) + b);
    }
}

/// Blowfish in the word order of blowfish-compat.
pub struct BlowfishCompat {
    key: Vec<u8>,
}

impl Clone for BlowfishCompat {
    fn clone(&self) -> (r: Self)
        ensures
            r.spec_key() == self.spec_key(),
    {
        proof { use_type_invariant(self); }
        let key = self.key.clone();
        assert(key@ =~= self.key@);
        BlowfishCompat { key }
    }
}

impl BlowfishCompat {
    #[verifier::type_invariant]
    spec fn inv(&self) -> bool {
        blowfish_key_ok(self.key@)
    }

    /// The key.
    pub closed spec fn spec_key(&self) -> Seq<u8> {
        self.key@
    }

    /// The cipher of a 56-byte key.
    pub fn new(key: &[u8; 56]) -> (r: Self)
        ensures
            r.spec_key() == key@,
    {
        let mut k: Vec<u8> = Vec::new();
        let mut i: usize = 0;
        while i < 56
            invariant
                i <= 56,
                k@ == key@.take(i as int),
            decreases 56 - i,
        {
            k.push(key[i]);
            i = i + 1;
            assert(k@ =~= key@.take(i as int));
        }
        assert(key@.take(56) =~= key@);
        BlowfishCompat { key: k }
    }

    /// The cipher of a key of 4 to 56 bytes; any other key fails.
    pub fn new_varkey(key: &[u8]) -> (r: Result<Self, InvalidLength>)
        ensures
            r is Ok <==> blowfish_key_ok(key@),
            r matches Ok(c) ==> c.spec_key() == key@,
    {
        blowfish_check_key(key)?;
        let mut k: Vec<u8> = Vec::new();
        let mut i: usize = 0;
        while i < key.len()
            invariant
                i <= key@.len(),
                k@ == key@.take(i as int),
            decreases key@.len() - i,
        {
            k.push(key[i]);
            i = i + 1;
            assert(k@ =~= key@.take(i as int));
        }
        assert(key@.take(key@.len() as int) =~= key@);
        Ok(BlowfishCompat { key: k })
    }

    /// Encrypts an 8-byte block in place; decrypting the result gives the block back.
    pub fn encrypt_block(&self, block: &mut [u8])
        requires
            old(block)@.len() == 8,
        ensures
            final(block)@.len() == 8,
            final(block)@ == compat_encrypt(self.spec_key(), old(block)@),
            compat_decrypt(self.spec_key(), final(block)@) == old(block)@,
    {
        proof { use_type_invariant(self); }
        reverse_words(block);
        proof { lemma_words_reversed_len(old(block)@); }
        blowfish_encrypt_block(self.key.as_slice(), block);
        let ghost mid = block@;
        reverse_words(block);
        proof {
            lemma_words_reversed_len(mid);
            lemma_words_reversed_twice(mid);
            lemma_words_reversed_twice(old(block)@);
        }
    }

    /// Decrypts an 8-byte block in place; encrypting the result gives the block back.
    pub fn decrypt_block(&self, block: &mut [u8])
        requires
            old(block)@.len() == 8,
        ensures
            final(block)@.len() == 8,
            final(block)@ == compat_decrypt(self.spec_key(), old(block)@),
            compat_encrypt(self.spec_key(), final(block)@) == old(block)@,
    {
        proof { use_type_invariant(self); }
        reverse_words(block);
        proof { lemma_words_reversed_len(old(block)@); }
        blowfish_decrypt_block(self.key.as_slice(), block);
        let ghost mid = block@;
        reverse_words(block);
        proof {
            lemma_words_reversed_len(mid);
            lemma_words_reversed_twice(mid);
            lemma_words_reversed_twice(old(block)@);
        }
    }
}

/// Decrypts `buf`, whose length is a multiple of 8, block by block in place.
/// A key that Blowfish does not take fails and leaves `buf` as it was.
pub fn decrypt(buf: &mut [u8], key: &[u8]) -> (r: Result<(), InvalidLength>)
    requires
        old(buf)@.len() % 8 == 0,
    ensures
        r is Ok <==> blowfish_key_ok(key@),
        r is Ok ==> final(buf)@ == decrypt_blocks(key@, old(buf)@),
        r is Err ==> final(buf)@ == old(buf)@,
        final(buf)@.len() == old(buf)@.len(),
        r is Ok ==> forall|k: int|
            0 <= k < old(buf)@.len() / 8 ==> #[trigger] final(buf)@.subrange(8 * k, 8 * k + 8)
                == compat_decrypt(key@, old(buf)@.subrange(8 * k, 8 * k + 8)),
{
    let cypher = BlowfishCompat::new_varkey(key)?;
    let ghost orig = buf@;
    let n = buf.len();
    let mut tmp: Vec<u8> = vec![0u8; BLOCK];
    let mut i: usize = 0;
    assert(orig.take(0) =~= Seq::<u8>::empty());
    while i < n
        invariant
            n == buf@.len(),
            n == orig.len(),
            n % 8 == 0,
            i <= n,
            i % 8 == 0,
            tmp@.len() == 8,
            cypher.spec_key() == key@,
            buf@ == decrypt_blocks(key@, orig.take(i as int)) + orig.skip(i as int),
            decrypt_blocks(key@, orig.take(i as int)).len() == i,
            forall|k: int|
                0 <= k < i / 8 ==> #[trigger] buf@.subrange(8 * k, 8 * k + 8) == compat_decrypt(
                    key@,
                    orig.subrange(8 * k, 8 * k + 8),
                ),
        decreases n - i,
    {
        let ghost before = buf@;
        let mut j: usize = 0;
        while j < BLOCK
            invariant
                i + 8 <= n,
                n == buf@.len(),
                buf@ == before,
                tmp@.len() == 8,
                j <= 8,
                forall|t: int| 0 <= t < j ==> tmp@[t] == before[i + t],
            decreases 8 - j,
        {
            tmp.set(j, buf[i + j]);
            j = j + 1;
        }
        let ghost block = tmp@;
        assert(block =~= orig.subrange(i as int, i + 8));
        cypher.decrypt_block(tmp.as_mut_slice());
        let mut j: usize = 0;
        while j < BLOCK
            invariant
                i + 8 <= n,
                n == buf@.len(),
                tmp@.len() == 8,
                j <= 8,
                n == before.len(),
                forall|t: int| 0 <= t < n && !(i <= t < i + j) ==> buf@[t] == before[t],
                forall|t: int| i <= t < i + j ==> #[trigger] buf@[t] == tmp@[t - i],
            decreases 8 - j,
        {
            buf[i + j] = tmp[j];
            j = j + 1;
        }
        proof {
            assert(orig.take(i + 8) =~= orig.take(i as int) + block);
            lemma_decrypt_blocks_append(key@, orig.take(i as int), block);
            let d = decrypt_blocks(key@, orig.take(i as int));
            let goal = d + tmp@ + orig.skip(i + 8);
            assert(goal.len() == n);
            assert forall|t: int| 0 <= t < n implies buf@[t] == goal[t] by {
                if t < i {
                    assert(buf@[t] == before[t]);
                } else if t >= i + 8 {
                    assert(buf@[t] == before[t]);
                    assert(before[t] == orig.skip(i as int)[t - i]);
                }
            }
            assert(buf@ =~= goal);
            assert forall|k: int| 0 <= k < (i + 8) / 8 implies #[trigger] buf@.subrange(8 * k, 8 * k + 8)
                == compat_decrypt(key@, orig.subrange(8 * k, 8 * k + 8)) by {
                if k < i / 8 {
                    assert(buf@.subrange(8 * k, 8 * k + 8) =~= before.subrange(8 * k, 8 * k + 8));
                } else {
                    assert(k == i / 8);
                    assert(buf@.subrange(8 * k, 8 * k + 8) =~= tmp@);
                }
            }
        }
        i = i + BLOCK;
    }
    assert(orig.take(n as int) =~= orig);
    assert(orig.skip(n as int) =~= Seq::<u8>::empty());
    assert(buf@ =~= decrypt_blocks(key@, orig));
    Ok(())
}

/// The bytes of a stream from `pos` on.
pub open spec fn stream_rest(data: Seq<u8>, pos: int) -> Seq<u8> {
    if 0 <= pos <= data.len() {
        data.subrange(pos, data.len() as int)
    } else {
        Seq::empty()
    }
}

/// Decrypts what is left of `reader`, block by block, onto the end of `out`.
/// A last block shorter than 8 bytes is dropped. The key must be one that Blowfish takes.
pub fn decrypt_stream(reader: &mut ByteStream, key: &[u8], out: &mut Vec<u8>)
    requires
        blowfish_key_ok(key@),
    ensures
        final(reader).spec_data() == old(reader).spec_data(),
        final(out)@ == old(out)@ + decrypt_blocks(
            key@,
            stream_rest(old(reader).spec_data(), old(reader).spec_pos()),
        ),
{
    let cypher = match BlowfishCompat::new_varkey(key) {
        Ok(c) => c,
        Err(_) => return,
    };
    let ghost data = reader.spec_data();
    let ghost rest0 = stream_rest(data, reader.spec_pos());
    let mut buf: Vec<u8> = vec![0u8; BLOCK];
    loop
        invariant
            reader.spec_data() == data,
            data == old(reader).spec_data(),
            rest0 == stream_rest(old(reader).spec_data(), old(reader).spec_pos()),
            cypher.spec_key() == key@,
            buf@.len() == 8,
            out@ + decrypt_blocks(key@, stream_rest(data, reader.spec_pos())) == old(out)@
                + decrypt_blocks(key@, rest0),
        ensures
            reader.spec_data() == data,
            out@ == old(out)@ + decrypt_blocks(key@, rest0),
        decreases data.len() - reader.spec_pos(),
    {
        let ghost pos = reader.spec_pos();
        match reader.read_exact(BLOCK) {
            Ok(bytes) => {
                let mut j: usize = 0;
                while j < BLOCK
                    invariant
                        bytes@.len() == 8,
                        buf@.len() == 8,
                        j <= 8,
                        forall|t: int| 0 <= t < j ==> buf@[t] == bytes@[t],
                    decreases 8 - j,
                {
                    buf.set(j, bytes[j]);
                    j = j + 1;
                }
                assert(buf@ =~= bytes@);
                cypher.decrypt_block(buf.as_mut_slice());
                let ghost o = out@;
                let mut j: usize = 0;
                while j < BLOCK
                    invariant
                        buf@.len() == 8,
                        j <= 8,
                        out@ == o + buf@.take(j as int),
                    decreases 8 - j,
                {
                    out.push(buf[j]);
                    j = j + 1;
                    assert(out@ =~= o + buf@.take(j as int));
                }
                proof {
                    let r = stream_rest(data, pos);
                    assert(r.take(8) =~= bytes@);
                    assert(r.skip(8) =~= stream_rest(data, pos + 8));
                    assert(buf@.take(8) =~= buf@);
                    assert(out@ + decrypt_blocks(key@, stream_rest(data, pos + 8)) =~= o + decrypt_blocks(key@, r));
                }
            },
            Err(_err) => {
                proof {
                    let r = stream_rest(data, pos);
                    assert(r.len() < 8);
                    assert(decrypt_blocks(key@, r) =~= Seq::<u8>::empty());
                    assert(out@ + decrypt_blocks(key@, r) =~= out@);
                }
                break;
            },
        }
    }
}

/// A stream read from its start holds all its data, so decrypting it appends what
/// decrypting the same data in place leaves in the buffer.
pub proof fn lemma_stream_from_start(key: Seq<u8>, data: Seq<u8>)
    ensures
        stream_rest(data, 0) == data,
        decrypt_blocks(key, stream_rest(data, 0)) == decrypt_blocks(key, data),
{
    assert(data.subrange(0, data.len() as int) =~= data);
}

/// Pads `buf` with zeros to a multiple of the block size.
pub fn add_padding(buf: &mut Vec<u8>)
    ensures
        final(buf)@ == old(buf)@ + Seq::new(padding_len(old(buf)@.len()), |_i: int| 0u8),
        final(buf)@.len() % 8 == 0,
        final(buf)@.len() < old(buf)@.len() + 8,
{
    let diff = buf.len() % BLOCK;
    if diff > 0 {
        let ghost o = buf@;
        let k = BLOCK - diff;
        let mut j: usize = 0;
        while j < k
            invariant
                k == padding_len(o.len()),
                j <= k,
                buf@ == o + Seq::new(j as nat, |_i: int| 0u8),
            decreases k - j,
        {
            buf.push(0u8);
            j = j + 1;
            assert(buf@ =~= o + Seq::new(j as nat, |_i: int| 0u8));
        }
    } else {
        assert(buf@ =~= buf@ + Seq::new(0, |_i: int| 0u8));
    }
}

/// The number of zeros that pad `len` bytes to a multiple of 8.
pub open spec fn padding_len(len: nat) -> nat {
    if len % 8 > 0 {
        (8 - len % 8) as nat
    } else {
        0
    }
}

/// Drops the zero padding and the last byte of a decrypted file (the count of bytes of
/// the last block that belong to the text): the last 8 bytes go when the three bytes
/// before them are zeros.
pub fn drain_tail(buf: &mut Vec<u8>)
    requires
        old(buf)@.len() >= 11,
    ensures
        ({
            let s = old(buf)@;
            let n = s.len() as int;
            if s[n - 11] == 0 && s[n - 10] == 0 && s[n - 9] == 0 {
                final(buf)@ == s.take(n - 8)
            } else {
                final(buf)@ == s
            }
        }),
{
    let n = buf.len();
    if buf[n - 11] == 0 && buf[n - 10] == 0 && buf[n - 9] == 0 {
        buf.truncate(n - 8);
    }
}

} // verus!
