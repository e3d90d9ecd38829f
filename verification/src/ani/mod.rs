//! ANI animations: the duration of each frame.
use vstd::prelude::*;
use crate::res::node::Node;
use crate::utils::{ByteStream, ReadError, in_stream, u32_le, u16_le, read_u16_le};
use self::ds::{Header, HEADER_SIZE};

pub mod ds;

verus! {

/// The duration of a frame when the animation gives none.
pub const DEFAULT_ANIMATION_DURATION: u16 = 40;

/// Durations for each frame of animation.
#[derive(Debug)]
pub struct AnimationDurations {
    /// times in ms for frame
    pub durations: Vec<u16>,
}

impl AnimationDurations {
    /// The number of frames.
    pub fn frames_num(&self) -> (n: usize)
        ensures
            n == self.durations@.len(),
    {
        self.durations.len()
    }

    /// `num` frames of the default duration.
    pub fn default_with_frames(num: usize) -> (r: Self)
        ensures
            r.durations@ == Seq::new(num as nat, |_i: int| DEFAULT_ANIMATION_DURATION),
    {
        let durations = vec![DEFAULT_ANIMATION_DURATION; num];
        assert(durations@ =~= Seq::new(num as nat, |_i: int| DEFAULT_ANIMATION_DURATION));
        AnimationDurations { durations }
    }
}

impl Default for AnimationDurations {
    fn default() -> (r: Self)
        ensures
            r.durations@ == Seq::<u16>::empty(),
    {
        let r = Self::default_with_frames(0);
        assert(r.durations@ =~= Seq::<u16>::empty());
        r
    }
}

/// The durations of `k` frames whose records start at byte `n` of `buf`. A record is
/// 20 bytes with the duration (little-endian) at byte 10; when bit 2 of its first byte
/// is set, a text ended by zero follows it. `None` where a record runs past the end.
pub open spec fn ani_frames(buf: Seq<u8>, n: int, k: nat) -> Option<Seq<u16>>
    decreases k,
{
    if k == 0 {
        Some(Seq::empty())
    } else if n < 0 || n + 11 >= buf.len() {
        None
    } else {
        let d = u16_le(buf, n + 10);
        if buf[n] & 2 == 2 {
            let rest = buf.subrange(n + 20, buf.len() as int);
            if n + 20 > buf.len() || !rest.contains(0u8) {
                None
            } else {
                let j = crate::utils::until_zero(rest).len() + 1;
                if n + 20 + j > usize::MAX {
                    None
                } else {
                    match ani_frames(buf, n + 20 + j, (k - 1) as nat) {
                        None => None,
                        Some(ds) => Some(seq![d] + ds),
                    }
                }
            }
        } else if n + 20 > usize::MAX {
            None
        } else {
            match ani_frames(buf, n + 20, (k - 1) as nat) {
                None => None,
                Some(ds) => Some(seq![d] + ds),
            }
        }
    }
}

/// What reading the animation of `node` from `data` gives: the durations, each frame
/// the default duration when any is zero, or a read error. `None` where the reading
/// cannot go on (a node shorter than the header, no frames, records past the end).
pub open spec fn spec_read_as_ani(node: Node, data: Seq<u8>) -> Option<Result<Seq<u16>, ReadError>> {
    let o = node.offset as int;
    if !in_stream(data.len() as int, o, node.size as int) {
        Some(Err(ReadError::UnexpectedEof))
    } else {
        let buf = data.subrange(o, o + node.size);
        if buf.len() < 32 {
            None
        } else {
            let fnum = u32_le(buf, 12);
            let start = u32_le(buf, 16) + 32;
            if fnum == 0 || start > usize::MAX {
                None
            } else {
                match ani_frames(buf, start, fnum as nat) {
                    None => None,
                    Some(ds) => Some(
                        Ok(
                            if ds.contains(0u16) {
                                Seq::new(fnum as nat, |_i: int| DEFAULT_ANIMATION_DURATION)
                            } else {
                                ds
                            },
                        ),
                    ),
                }
            }
        }
    }
}

/// The records of `k` frames give `k` durations.
proof fn lemma_ani_frames_len(buf: Seq<u8>, n: int, k: nat)
    ensures
        ani_frames(buf, n, k) matches Some(ds) ==> ds.len() == k,
    decreases k,
{
    if k > 0 && n >= 0 && n + 11 < buf.len() {
        if buf[n] & 2 == 2 {
            let rest = buf.subrange(n + 20, buf.len() as int);
            if n + 20 <= buf.len() && rest.contains(0u8) {
                let j = crate::utils::until_zero(rest).len() + 1;
                lemma_ani_frames_len(buf, n + 20 + j, (k - 1) as nat);
            }
        } else {
            lemma_ani_frames_len(buf, n + 20, (k - 1) as nat);
        }
    }
}

/// An animation that is read has one duration for each of the frames its header counts,
/// and none of them is zero.
pub proof fn lemma_ani_durations(node: Node, data: Seq<u8>)
    ensures
        spec_read_as_ani(node, data) matches Some(Ok(ds)) ==> {
            &&& ds.len() == u32_le(data.subrange(node.offset as int, node.offset + node.size), 12)
            &&& !ds.contains(0u16)
        },
{
    let o = node.offset as int;
    if in_stream(data.len() as int, o, node.size as int) {
        let buf = data.subrange(o, o + node.size);
        if buf.len() >= 32 {
            let fnum = u32_le(buf, 12);
            let start = u32_le(buf, 16) + 32;
            lemma_ani_frames_len(buf, start, fnum as nat);
        }
    }
}

/// The number that bytes `q` (low) and `q + 1` (high) of `buf` hold.
pub open spec fn le16_at(buf: Seq<u8>, q: int) -> int {
    buf[q] as int + 256 * buf[q + 1] as int
}

/// Where record `i` of the records that start at byte `n` of `buf` starts: each record
/// is 20 bytes, followed by a text ended by zero when bit 2 of its first byte is set.
pub open spec fn ani_record(buf: Seq<u8>, n: int, i: int) -> int
    decreases i,
{
    if i <= 0 {
        n
    } else {
        let q = ani_record(buf, n, i - 1);
        if buf[q] & 2 == 2 {
            q + 20 + crate::utils::until_zero(buf.subrange(q + 20, buf.len() as int)).len() + 1
        } else {
            q + 20
        }
    }
}

/// Records from the second one on start where they start after the first record.
proof fn lemma_ani_record_shift(buf: Seq<u8>, n: int, i: int)
    requires
        i >= 0,
    ensures
        ani_record(buf, n, i + 1) == ani_record(buf, ani_record(buf, n, 1), i),
    decreases i,
{
    if i > 0 {
        lemma_ani_record_shift(buf, n, i - 1);
    }
}

/// Each duration read is the little-endian 16-bit number at bytes 10 and 11 of its
/// frame's record (see `ani_record`): both bytes count.
pub proof fn lemma_ani_frames_durations(buf: Seq<u8>, n: int, k: nat)
    ensures
        ani_frames(buf, n, k) matches Some(ds) ==> ds.len() == k && forall|i: int|
            #![trigger ds[i]]
            #![trigger ani_record(buf, n, i)]
            0 <= i < k ==> 0 <= ani_record(buf, n, i) && ani_record(buf, n, i) + 11 < buf.len()
                && ds[i] as int == le16_at(buf, ani_record(buf, n, i) + 10),
    decreases k,
{
    lemma_ani_frames_len(buf, n, k);
    if k > 0 && n >= 0 && n + 11 < buf.len() && ani_frames(buf, n, k) is Some {
        let d = u16_le(buf, n + 10);
        assert(d as int == le16_at(buf, n + 10));
        assert(ani_record(buf, n, 0) == n);
        let next = ani_record(buf, n, 1);
        if buf[n] & 2 == 2 {
            let rest = buf.subrange(n + 20, buf.len() as int);
            assert(next == n + 20 + crate::utils::until_zero(rest).len() + 1);
        } else {
            assert(next == n + 20);
        }
        let ds = ani_frames(buf, n, k).unwrap();
        let ds2 = ani_frames(buf, next, (k - 1) as nat).unwrap();
        assert(ds == seq![d] + ds2);
        lemma_ani_frames_durations(buf, next, (k - 1) as nat);
        assert forall|i: int|
            #![trigger ds[i]]
            #![trigger ani_record(buf, n, i)]
            0 <= i < k implies 0 <= ani_record(buf, n, i) && ani_record(buf, n, i) + 11 < buf.len()
                && ds[i] as int == le16_at(buf, ani_record(buf, n, i) + 10) by {
            if i > 0 {
                lemma_ani_record_shift(buf, n, i - 1);
                assert(ds[i] == ds2[i - 1]);
            }
        }
        assert(ani_frames(buf, n, k) == Some(ds));
    } else if k == 0 {
        assert(ani_frames(buf, n, k) == Some(Seq::<u16>::empty()));
    }
}

/// The durations of an animation that is read: either each frame has the default
/// duration, or the duration of frame `i` is the little-endian 16-bit number at bytes 10
/// and 11 of its record, the records starting at the header's offset plus 32.
pub proof fn lemma_ani_read_durations(node: Node, data: Seq<u8>)
    ensures
        spec_read_as_ani(node, data) matches Some(Ok(ds)) ==> {
            let buf = data.subrange(node.offset as int, node.offset + node.size);
            let start = u32_le(buf, 16) + 32;
            ||| forall|i: int| 0 <= i < ds.len() ==> #[trigger] ds[i] == DEFAULT_ANIMATION_DURATION
            ||| forall|i: int|
                0 <= i < ds.len() ==> #[trigger] ds[i] as int == le16_at(buf, ani_record(buf, start, i) + 10)
        },
{
    let o = node.offset as int;
    if in_stream(data.len() as int, o, node.size as int) {
        let buf = data.subrange(o, o + node.size);
        if buf.len() >= 32 {
            let fnum = u32_le(buf, 12);
            let start = u32_le(buf, 16) + 32;
            lemma_ani_frames_durations(buf, start, fnum as nat);
        }
    }
}

/// Reads the durations of the frames of the animation of `node`,
/// or `None` where the reading cannot go on.
pub fn read_as_ani_checked(node: &Node, r: &mut ByteStream) -> (res: Option<Result<AnimationDurations, ReadError>>)
    ensures
        final(r).spec_data() == old(r).spec_data(),
        res matches Some(Ok(_)) ==> final(r).spec_pos() == node.offset + node.size,
        res matches Some(Err(_)) ==> final(r).spec_pos() == node.offset,
        match (res, spec_read_as_ani(*node, old(r).spec_data())) {
            (Some(Ok(a)), Some(Ok(s))) => a.durations@ == s,
            (Some(Err(e1)), Some(Err(e2))) => e1 == e2,
            (None, None) => true,
            _ => false,
        },
{
    let ghost data = r.spec_data();
    r.seek(node.offset as u64);
    let buf = match r.read_exact(node.size as usize) {
        Ok(b) => b,
        Err(e) => return Some(Err(e)),
    };
    if buf.len() < HEADER_SIZE {
        return None;
    }
    let head = Header::read(buf);
    if head.frames_num == 0 {
        return None;
    }
    if head.offset as usize > usize::MAX - HEADER_SIZE {
        return None;
    }
    let frames = head.frames_num as usize;
    let len = buf.len();
    let mut n: usize = head.offset as usize + HEADER_SIZE;
    let mut durations: Vec<u16> = Vec::new();
    let mut i: usize = 0;
    let ghost result = ani_frames(buf@, n as int, head.frames_num as nat);
    while i < frames
        invariant
            frames == head.frames_num,
            len == buf@.len(),
            i <= frames,
            durations@.len() == i,
            result == ani_frames(buf@, (head.offset + 32) as int, head.frames_num as nat),
            r.spec_data() == data,
            r.spec_pos() == node.offset + node.size,
            data == old(r).spec_data(),
            in_stream(data.len() as int, node.offset as int, node.size as int),
            buf@ == data.subrange(node.offset as int, node.offset + node.size),
            head.frames_num == u32_le(buf@, 12),
            head.offset == u32_le(buf@, 16),
            head.frames_num != 0,
            head.offset + 32 <= usize::MAX,
            match ani_frames(buf@, n as int, (frames - i) as nat) {
                None => result is None,
                Some(ds) => result == Some(durations@ + ds),
            },
        decreases frames - i,
    {
        if n >= len || len - n <= 11 {
            return None;
        }
        // read half:
        let d = read_u16_le(buf, n + 10);
        // Check for effect:
        let mut j: usize = 0;
        if buf[n] & 2 == 2 {
            if len - n < 20 {
                return None;
            }
            let z = match crate::utils::find_zero(buf, n + 20) {
                Some(z) => z,
                None => return None,
            };
            j = z - (n + 20) + 1;
        }
        let ghost ds_before = durations@;
        durations.push(d);
        proof {
            assert(durations@ == ds_before + seq![d]);
            match ani_frames(buf@, (n + 20 + j) as int, (frames - i - 1) as nat) {
                None => {},
                Some(ds) => {
                    assert(durations@ + ds =~= ds_before + (seq![d] + ds));
                },
            }
        }
        if n > usize::MAX - 20 - j {
            return None;
        }
        n = n + 20 + j;
        i = i + 1;
    }
    // the durations, or the default ones when any is zero:
    let mut has_zero = false;
    let mut k: usize = 0;
    while k < frames
        invariant
            frames == durations@.len(),
            k <= frames,
            has_zero == (exists|t: int| 0 <= t < k && durations@[t] == 0),
        decreases frames - k,
    {
        if durations[k] == 0 {
            has_zero = true;
        }
        k = k + 1;
    }
    proof {
        assert(ani_frames(buf@, n as int, 0) == Some(Seq::<u16>::empty()));
        assert(durations@ + Seq::<u16>::empty() =~= durations@);
        assert(buf@ =~= data.subrange(node.offset as int, node.offset + node.size));
    }
    let result = if has_zero {
        AnimationDurations::default_with_frames(frames)
    } else {
        AnimationDurations { durations }
    };
    Some(Ok(result))
}

/// Reads the durations of the frames of the animation of `node`.
pub fn read_as_ani(node: &Node, r: &mut ByteStream) -> (res: Result<AnimationDurations, ReadError>)
    requires
        spec_read_as_ani(*node, old(r).spec_data()) is Some,
    ensures
        final(r).spec_data() == old(r).spec_data(),
        final(r).spec_pos() == if res is Ok {
            node.offset + node.size
        } else {
            node.offset as int
        },
        match (res, spec_read_as_ani(*node, old(r).spec_data()).unwrap()) {
            (Ok(a), Ok(s)) => a.durations@ == s,
            (Err(e1), Err(e2)) => e1 == e2,
            _ => false,
        },
{
    match read_as_ani_checked(node, r) {
        Some(res) => res,
        None => Err(ReadError::UnexpectedEof),
    }
}

} // verus!
