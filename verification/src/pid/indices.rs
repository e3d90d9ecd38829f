//! Decoding of the index data of PID images.
use vstd::prelude::*;

verus! {

/// `img` with the bytes `s` written from position `p` on.
pub open spec fn splice(img: Seq<u8>, p: int, s: Seq<u8>) -> Seq<u8> {
    img.take(p) + s + img.skip(p + s.len())
}

/// `img` with `k` copies of `v` written from position `p` on.
pub open spec fn fill(img: Seq<u8>, p: int, k: int, v: u8) -> Seq<u8> {
    splice(img, p, Seq::new(k as nat, |_i: int| v))
}

/// The smaller of `a` and `b`.
pub open spec fn min(a: int, b: int) -> int {
    if a <= b {
        a
    } else {
        b
    }
}

/// Decoding of run-length compressed indices, from byte `n` of `buf` and pixel `p`
/// of `total` on, into `img`. A byte above 128 skips that many pixels less 128;
/// any other byte is a count of literal indices that follow it.
/// `None` where the data ends before every pixel is decoded.
pub open spec fn decode_rle(buf: Seq<u8>, n: int, p: int, total: int, img: Seq<u8>) -> Option<
    Seq<u8>,
>
    decreases buf.len() - n,
{
    if p >= total {
        Some(img)
    } else if n < 0 || n >= buf.len() {
        None
    } else {
        let b = buf[n] as int;
        if b > 128 {
            decode_rle(buf, n + 1, min(p + (b - 128), total), total, img)
        } else {
            let k = min(b, total - p);
            if n + 1 + k > buf.len() {
                None
            } else {
                decode_rle(buf, n + 1 + k, p + k, total, splice(img, p, buf.subrange(n + 1, n + 1 + k)))
            }
        }
    }
}

/// Decoding of plain indices, from byte `n` of `buf` and pixel `p` of `total` on,
/// into `img`. A byte above 192 repeats the next byte that many times less 192;
/// any other byte is one index.
/// `None` where the data ends before every pixel is decoded.
pub open spec fn decode_plain(buf: Seq<u8>, n: int, p: int, total: int, img: Seq<u8>) -> Option<
    Seq<u8>,
>
    decreases buf.len() - n,
{
    if p >= total {
        Some(img)
    } else if n < 0 || n >= buf.len() {
        None
    } else {
        let b = buf[n] as int;
        if b > 192 {
            if n + 1 >= buf.len() {
                None
            } else {
                let k = min(b - 192, total - p);
                decode_plain(buf, n + 2, p + k, total, fill(img, p, k, buf[n + 1]))
            }
        } else {
            decode_plain(buf, n + 1, p + 1, total, img.update(p, b as u8))
        }
    }
}

/// The indices of an image of `width` by `height` pixels decoded from `buf` over `img`,
/// the indices the image starts with: the pixels that the data skip keep those.
/// `None` where the data end before the last row is reached.
pub open spec fn decode_indices(buf: Seq<u8>, width: u32, height: u32, rle: bool, img: Seq<u8>) -> Option<
    Seq<u8>,
> {
    let total = width as int * height as int;
    if width == 0 && height > 0 {
        None
    } else if rle {
        decode_rle(buf, 0, 0, total, img)
    } else {
        decode_plain(buf, 0, 0, total, img)
    }
}

/// Run-length decoding writes within the image: what it gives has the image's length.
pub proof fn lemma_decode_rle_len(buf: Seq<u8>, n: int, p: int, total: int, img: Seq<u8>)
    requires
        0 <= p,
        img.len() == total,
    ensures
        decode_rle(buf, n, p, total, img) matches Some(r) ==> r.len() == total,
    decreases buf.len() - n,
{
    if p < total && 0 <= n < buf.len() {
        let b = buf[n] as int;
        if b > 128 {
            lemma_decode_rle_len(buf, n + 1, min(p + (b - 128), total), total, img);
        } else {
            let k = min(b, total - p);
            if n + 1 + k <= buf.len() {
                let s = buf.subrange(n + 1, n + 1 + k);
                assert(splice(img, p, s).len() == total);
                lemma_decode_rle_len(buf, n + 1 + k, p + k, total, splice(img, p, s));
            }
        }
    }
}

/// Plain decoding writes within the image: what it gives has the image's length.
pub proof fn lemma_decode_plain_len(buf: Seq<u8>, n: int, p: int, total: int, img: Seq<u8>)
    requires
        0 <= p,
        img.len() == total,
    ensures
        decode_plain(buf, n, p, total, img) matches Some(r) ==> r.len() == total,
    decreases buf.len() - n,
{
    if p < total && 0 <= n < buf.len() {
        let b = buf[n] as int;
        if b > 192 {
            if n + 1 < buf.len() {
                let k = min(b - 192, total - p);
                assert(fill(img, p, k, buf[n + 1]).len() == total);
                lemma_decode_plain_len(buf, n + 2, p + k, total, fill(img, p, k, buf[n + 1]));
            }
        } else {
            lemma_decode_plain_len(buf, n + 1, p + 1, total, img.update(p, b as u8));
        }
    }
}

/// The decoded indices hold one byte per pixel.
pub proof fn lemma_decode_indices_len(buf: Seq<u8>, width: u32, height: u32, rle: bool, img: Seq<u8>)
    requires
        img.len() == width as int * height as int,
    ensures
        decode_indices(buf, width, height, rle, img) matches Some(r) ==> r.len() == width as int
            * height as int,
{
    let total = width as int * height as int;
    if rle {
        lemma_decode_rle_len(buf, 0, 0, total, img);
    } else {
        lemma_decode_plain_len(buf, 0, 0, total, img);
    }
}

/// Run-length decoding from byte `n` reads only the bytes from `n` on.
proof fn lemma_decode_rle_skip(buf: Seq<u8>, m: int, n: int, p: int, total: int, img: Seq<u8>)
    requires
        0 <= m <= n,
        m <= buf.len(),
    ensures
        decode_rle(buf, n, p, total, img) == decode_rle(buf.skip(m), n - m, p, total, img),
    decreases buf.len() - n,
{
    let t = buf.skip(m);
    if p < total && n < buf.len() {
        assert(t[n - m] == buf[n]);
        let b = buf[n] as int;
        if b > 128 {
            lemma_decode_rle_skip(buf, m, n + 1, min(p + (b - 128), total), total, img);
        } else {
            let k = min(b, total - p);
            if n + 1 + k <= buf.len() {
                assert(t.subrange(n - m + 1, n - m + 1 + k) =~= buf.subrange(n + 1, n + 1 + k));
                lemma_decode_rle_skip(buf, m, n + 1 + k, p + k, total, splice(img, p, buf.subrange(n + 1, n + 1 + k)));
            }
        }
    }
}

/// Plain decoding from byte `n` reads only the bytes from `n` on.
proof fn lemma_decode_plain_skip(buf: Seq<u8>, m: int, n: int, p: int, total: int, img: Seq<u8>)
    requires
        0 <= m <= n,
        m <= buf.len(),
    ensures
        decode_plain(buf, n, p, total, img) == decode_plain(buf.skip(m), n - m, p, total, img),
    decreases buf.len() - n,
{
    let t = buf.skip(m);
    if p < total && n < buf.len() {
        assert(t[n - m] == buf[n]);
        let b = buf[n] as int;
        if b > 192 {
            if n + 1 < buf.len() {
                assert(t[n - m + 1] == buf[n + 1]);
                let k = min(b - 192, total - p);
                lemma_decode_plain_skip(buf, m, n + 2, p + k, total, fill(img, p, k, buf[n + 1]));
            }
        } else {
            lemma_decode_plain_skip(buf, m, n + 1, p + 1, total, img.update(p, b as u8));
        }
    }
}

/// Run-length decoding goes run by run: once every pixel is decoded the image is done;
/// a count `k` of at most 128 followed by `k` indices writes them from the current pixel
/// and decoding goes on right after them; a byte `b` above 128 skips `b - 128` pixels
/// and decoding goes on at the next byte.
pub proof fn lemma_decode_rle_runs(rest: Seq<u8>, p: int, total: int, img: Seq<u8>)
    ensures
        p >= total ==> decode_rle(rest, 0, p, total, img) == Some(img),
        forall|k: u8, lits: Seq<u8>|
            k <= 128 && lits.len() == k && 0 <= p < total && p + k <= total ==> #[trigger] decode_rle(
                seq![k] + lits + rest,
                0,
                p,
                total,
                img,
            ) == decode_rle(rest, 0, p + k, total, splice(img, p, lits)),
        forall|b: u8|
            b > 128 && 0 <= p < total ==> #[trigger] decode_rle(seq![b] + rest, 0, p, total, img)
                == decode_rle(rest, 0, min(p + b - 128, total), total, img),
{
    assert forall|k: u8, lits: Seq<u8>|
        k <= 128 && lits.len() == k && 0 <= p < total && p + k <= total implies #[trigger] decode_rle(
            seq![k] + lits + rest,
            0,
            p,
            total,
            img,
        ) == decode_rle(rest, 0, p + k, total, splice(img, p, lits)) by {
        let buf = seq![k] + lits + rest;
        let n = 1 + k as int;
        lemma_decode_rle_skip(buf, n, n, p + k, total, splice(img, p, lits));
        assert(buf.skip(n) =~= rest);
        assert(buf.subrange(1, n) =~= lits);
        assert(buf[0] == k);
    }
    assert forall|b: u8| b > 128 && 0 <= p < total implies #[trigger] decode_rle(seq![b] + rest, 0, p, total, img)
        == decode_rle(rest, 0, min(p + b - 128, total), total, img) by {
        let buf = seq![b] + rest;
        assert(buf[0] == b);
        lemma_decode_rle_skip(buf, 1, 1, min(p + b - 128, total), total, img);
        assert(buf.skip(1) =~= rest);
    }
}

/// Plain decoding goes index by index: once every pixel is decoded the image is done; a
/// byte of at most 192 is the index of the current pixel and decoding goes on at the next
/// byte; a byte `b` above 192 repeats the byte after it over `b - 192` pixels and
/// decoding goes on after those two bytes.
pub proof fn lemma_decode_plain_runs(rest: Seq<u8>, p: int, total: int, img: Seq<u8>)
    ensures
        p >= total ==> decode_plain(rest, 0, p, total, img) == Some(img),
        forall|b: u8|
            b <= 192 && 0 <= p < total ==> #[trigger] decode_plain(seq![b] + rest, 0, p, total, img)
                == decode_plain(rest, 0, p + 1, total, img.update(p, b)),
        forall|b: u8, v: u8|
            b > 192 && 0 <= p < total && p + b - 192 <= total ==> #[trigger] decode_plain(
                seq![b].push(v) + rest,
                0,
                p,
                total,
                img,
            ) == decode_plain(rest, 0, p + b - 192, total, fill(img, p, b - 192, v)),
{
    assert forall|b: u8| b <= 192 && 0 <= p < total implies #[trigger] decode_plain(seq![b] + rest, 0, p, total, img)
        == decode_plain(rest, 0, p + 1, total, img.update(p, b)) by {
        let buf = seq![b] + rest;
        assert(buf[0] == b);
        lemma_decode_plain_skip(buf, 1, 1, p + 1, total, img.update(p, b));
        assert(buf.skip(1) =~= rest);
    }
    assert forall|b: u8, v: u8|
        b > 192 && 0 <= p < total && p + b - 192 <= total implies #[trigger] decode_plain(
            seq![b].push(v) + rest,
            0,
            p,
            total,
            img,
        ) == decode_plain(rest, 0, p + b - 192, total, fill(img, p, b - 192, v)) by {
        let buf = seq![b].push(v) + rest;
        assert(buf[0] == b && buf[1] == v);
        lemma_decode_plain_skip(buf, 2, 2, p + b - 192, total, fill(img, p, b - 192, v));
        assert(buf.skip(2) =~= rest);
    }
}

/// Decodes run-length compressed indices into `to`, which has one byte per pixel.
/// `false` where the data end before every pixel is decoded.
pub fn decode_rle_to(buf: &[u8], to: &mut Vec<u8>) -> (ok: bool)
    ensures
        final(to)@.len() == old(to)@.len(),
        ok == decode_rle(buf@, 0, 0, old(to)@.len() as int, old(to)@) is Some,
        ok ==> Some(final(to)@) == decode_rle(buf@, 0, 0, old(to)@.len() as int, old(to)@),
{
    let ghost result = decode_rle(buf@, 0, 0, to@.len() as int, to@);
    let total = to.len();
    let mut n: usize = 0;
    let mut p: usize = 0;
    while p < total
        invariant
            total == to@.len(),
            total == old(to)@.len(),
            result == decode_rle(buf@, 0, 0, old(to)@.len() as int, old(to)@),
            n <= buf@.len(),
            p <= total,
            decode_rle(buf@, n as int, p as int, total as int, to@) == result,
        decreases buf@.len() - n,
    {
        if n >= buf.len() {
            return false;
        }
        let b = buf[n];
        n = n + 1;
        if b > 128 {
            let skip = (b - 128) as usize;
            if skip < total - p {
                p = p + skip;
            } else {
                p = total;
            }
        } else {
            let ghost img0 = to@;
            let n0 = n;
            let p0 = p;
            assert(buf@.len() == buf.len());
            let k: usize = if (b as usize) < total - p { b as usize } else { total - p };
            if k > buf.len() - n0 {
                return false;
            }
            let mut j: usize = 0;
            while j < k
                invariant
                    total == to@.len(),
                    n0 + k <= buf@.len(),
                    buf@.len() <= usize::MAX,
                    p0 + k <= total,
                    img0.len() == total,
                    j <= k,
                    to@ == splice(img0, p0 as int, buf@.subrange(n0 as int, n0 + j)),
                decreases k - j,
            {
                to.set(p0 + j, buf[n0 + j]);
                j = j + 1;
                assert(to@ =~= splice(img0, p0 as int, buf@.subrange(n0 as int, n0 + j)));
            }
            n = n0 + k;
            p = p0 + k;
        }
    }
    true
}

/// Decodes plain indices into `to`, which has one byte per pixel.
/// `false` where the data end before every pixel is decoded.
pub fn decode_plain_to(buf: &[u8], to: &mut Vec<u8>) -> (ok: bool)
    ensures
        final(to)@.len() == old(to)@.len(),
        ok == decode_plain(buf@, 0, 0, old(to)@.len() as int, old(to)@) is Some,
        ok ==> Some(final(to)@) == decode_plain(buf@, 0, 0, old(to)@.len() as int, old(to)@),
{
    let ghost result = decode_plain(buf@, 0, 0, to@.len() as int, to@);
    let total = to.len();
    let mut n: usize = 0;
    let mut p: usize = 0;
    while p < total
        invariant
            total == to@.len(),
            total == old(to)@.len(),
            result == decode_plain(buf@, 0, 0, old(to)@.len() as int, old(to)@),
            n <= buf@.len(),
            p <= total,
            decode_plain(buf@, n as int, p as int, total as int, to@) == result,
        decreases buf@.len() - n,
    {
        if n >= buf.len() {
            return false;
        }
        let b = buf[n];
        n = n + 1;
        if b > 192 {
            if n >= buf.len() {
                return false;
            }
            let v = buf[n];
            n = n + 1;
            let ghost img0 = to@;
            let p0 = p;
            let count = (b - 192) as usize;
            let k: usize = if count < total - p { count } else { total - p };
            let mut j: usize = 0;
            while j < k
                invariant
                    total == to@.len(),
                    p0 + k <= total,
                    img0.len() == total,
                    j <= k,
                    to@ == fill(img0, p0 as int, j as int, v),
                decreases k - j,
            {
                to.set(p0 + j, v);
                j = j + 1;
                assert(to@ =~= fill(img0, p0 as int, j as int, v));
            }
            p = p0 + k;
        } else {
            to.set(p, b);
            p = p + 1;
        }
    }
    true
}

} // verus!
