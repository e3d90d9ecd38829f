//! Gruntz encrypted text files: the extra decoding of cheat codes, and parsing.
use vstd::prelude::*;
use ini::{Ini, ParseError};

verus! {

#[verifier::external_type_specification]
#[verifier::external_body]
pub struct ExIni(Ini);

#[verifier::external_type_specification]
#[verifier::external_body]
pub struct ExParseError(ParseError);

/// The quote that opens and closes a string (`"`).
pub const QUOTE: u8 = 34;

/// What is subtracted from the bytes of a cheat (0x3D for UPPERCASE).
pub const OFFSET: u8 = 0x1D;

/// The state (inside a string, inside a cheat) after the byte `b` when it was `st` before.
pub open spec fn cheatz_step(st: (bool, bool), b: u8) -> (bool, bool) {
    if b == QUOTE {
        let open = !st.0;
        (open, if !open { false } else { st.1 })
    } else {
        (st.0, st.1 || (st.0 && b >= 128 && b - OFFSET < 128))
    }
}

/// The state after the first `n` bytes of `s`.
pub open spec fn cheatz_state(s: Seq<u8>, n: int) -> (bool, bool)
    decreases n,
{
    if n <= 0 {
        (false, false)
    } else {
        cheatz_step(cheatz_state(s, n - 1), s[n - 1])
    }
}

/// Whether byte `i` of `s` is decoded: a byte other than a quote inside a cheat.
pub open spec fn cheatz_decoded(s: Seq<u8>, i: int) -> bool {
    s[i] != QUOTE && cheatz_state(s, i + 1).1
}

/// The decoding of `s`: inside a string, from the first byte that is not ASCII but is
/// once `OFFSET` is subtracted, to the closing quote, `OFFSET` is subtracted from each byte.
pub open spec fn decoded_cheatz(s: Seq<u8>) -> Seq<u8> {
    Seq::new(s.len(), |i: int| if cheatz_decoded(s, i) { (s[i] - OFFSET) as u8 } else { s[i] })
}

/// Only a string holds a cheat: after any bytes, inside a cheat means inside a string.
proof fn lemma_cheat_in_string(s: Seq<u8>, n: int)
    ensures
        cheatz_state(s, n).1 ==> cheatz_state(s, n).0,
    decreases n,
{
    if n > 0 {
        lemma_cheat_in_string(s, n - 1);
    }
}

/// Decoding cheats keeps the length, each quote and each byte outside strings.
pub proof fn lemma_decoded_cheatz_keeps(s: Seq<u8>)
    ensures
        decoded_cheatz(s).len() == s.len(),
        forall|i: int|
            0 <= i < s.len() && (s[i] == QUOTE || !(#[trigger] cheatz_state(s, i)).0) ==> decoded_cheatz(
                s,
            )[i] == s[i],
{
    assert forall|i: int|
        0 <= i < s.len() && (s[i] == QUOTE || !(#[trigger] cheatz_state(s, i)).0) implies decoded_cheatz(
            s,
        )[i] == s[i] by {
        lemma_cheat_in_string(s, i);
    }
}

/// The number of quotes (0x22) among the first `n` bytes of `s`.
pub open spec fn quotes_before(s: Seq<u8>, n: int) -> nat
    decreases n,
{
    if n <= 0 {
        0
    } else {
        quotes_before(s, n - 1) + if s[n - 1] == 0x22 { 1nat } else { 0nat }
    }
}

/// Whether byte `b` starts a cheat: it lies from 0x80 to 0x9C, not ASCII but ASCII once
/// `OFFSET` (0x1D) is subtracted.
pub open spec fn starts_cheat(b: u8) -> bool {
    0x80 <= b && b <= 0x9C
}

/// Whether byte `i` of `s` lies in a cheat: some byte `j` up to it starts a cheat, is
/// preceded by an odd number of quotes (it lies inside a string), and no quote lies from
/// `j` to `i`.
pub open spec fn in_cheat(s: Seq<u8>, i: int) -> bool {
    exists|j: int|
        0 <= j <= i && quotes_before(s, j) % 2 == 1 && starts_cheat(#[trigger] s[j]) && forall|k: int|
            j <= k <= i ==> s[k] != 0x22
}

/// After the first `n` bytes, the state of the decoding says whether an odd number of
/// quotes was seen and whether a cheat runs on.
proof fn lemma_cheatz_state(s: Seq<u8>, n: int)
    requires
        0 <= n <= s.len(),
    ensures
        cheatz_state(s, n).0 == (quotes_before(s, n) % 2 == 1),
        cheatz_state(s, n).1 == exists|j: int|
            0 <= j < n && quotes_before(s, j) % 2 == 1 && starts_cheat(#[trigger] s[j]) && forall|k: int|
                j <= k < n ==> s[k] != QUOTE,
    decreases n,
{
    if n > 0 {
        lemma_cheatz_state(s, n - 1);
        lemma_cheat_in_string(s, n - 1);
        let b = s[n - 1];
        if b == QUOTE {
            assert forall|j: int| 0 <= j < n implies !(quotes_before(s, j) % 2 == 1 && starts_cheat(
                #[trigger] s[j],
            ) && forall|k: int| j <= k < n ==> s[k] != QUOTE) by {
                assert(s[n - 1] == QUOTE);
            }
        } else {
            if cheatz_state(s, n).1 {
                if cheatz_state(s, n - 1).1 {
                    let j = choose|j: int|
                        0 <= j < n - 1 && quotes_before(s, j) % 2 == 1 && starts_cheat(#[trigger] s[j])
                            && forall|k: int| j <= k < n - 1 ==> s[k] != QUOTE;
                    assert(forall|k: int| j <= k < n ==> s[k] != QUOTE);
                } else {
                    assert(starts_cheat(s[n - 1]));
                    assert(forall|k: int| n - 1 <= k < n ==> s[k] != QUOTE);
                }
            } else {
                assert forall|j: int| 0 <= j < n implies !(quotes_before(s, j) % 2 == 1 && starts_cheat(
                    #[trigger] s[j],
                ) && forall|k: int| j <= k < n ==> s[k] != QUOTE) by {
                    if j < n - 1 && quotes_before(s, j) % 2 == 1 && starts_cheat(s[j]) && forall|k: int|
                        j <= k < n ==> s[k] != QUOTE {
                        assert(forall|k: int| j <= k < n - 1 ==> s[k] != QUOTE);
                    }
                }
            }
        }
    }
}

/// What the decoding of cheats does to each byte: a byte other than a quote that lies in
/// a cheat (see `in_cheat`) loses 0x1D (`OFFSET`); every other byte is kept. So a cheat starts
/// only at a byte from 0x80 to 0x9C inside a string, and runs to the closing quote.
pub proof fn lemma_decoded_cheatz(s: Seq<u8>)
    ensures
        decoded_cheatz(s).len() == s.len(),
        forall|i: int|
            0 <= i < s.len() ==> #[trigger] decoded_cheatz(s)[i] == if s[i] != 0x22 && in_cheat(s, i) {
                (s[i] - 0x1D) as u8
            } else {
                s[i]
            },
{
    assert forall|i: int| 0 <= i < s.len() implies #[trigger] decoded_cheatz(s)[i] == if s[i] != 0x22
        && in_cheat(s, i) {
        (s[i] - 0x1D) as u8
    } else {
        s[i]
    } by {
        lemma_cheatz_state(s, i + 1);
        if cheatz_state(s, i + 1).1 {
            let j = choose|j: int|
                0 <= j < i + 1 && quotes_before(s, j) % 2 == 1 && starts_cheat(#[trigger] s[j]) && forall|k: int|
                    j <= k < i + 1 ==> s[k] != QUOTE;
            assert(forall|k: int| j <= k <= i ==> s[k] != QUOTE);
        }
        if in_cheat(s, i) {
            let j = choose|j: int|
                0 <= j <= i && quotes_before(s, j) % 2 == 1 && starts_cheat(#[trigger] s[j]) && forall|k: int|
                    j <= k <= i ==> s[k] != QUOTE;
            assert(forall|k: int| j <= k < i + 1 ==> s[k] != QUOTE);
        }
    }
}

/// Extra decoding for Gruntz. Every byte to decode must be at least `OFFSET`.
pub fn decode_cheatz(buf: &mut [u8])
    requires
        forall|i: int| 0 <= i < old(buf)@.len() && cheatz_decoded(old(buf)@, i) ==> old(buf)@[i] >= OFFSET,
    ensures
        final(buf)@ == decoded_cheatz(old(buf)@),
{
    let ghost s = buf@;
    let mut is_open = false;
    let mut is_cheat = false;
    let n = buf.len();
    let mut i: usize = 0;
    while i < n
        invariant
            n == buf@.len(),
            n == s.len(),
            i <= n,
            (is_open, is_cheat) == cheatz_state(s, i as int),
            forall|j: int| 0 <= j < n && cheatz_decoded(s, j) ==> s[j] >= OFFSET,
            forall|j: int| 0 <= j < i ==> buf@[j] == decoded_cheatz(s)[j],
            forall|j: int| i <= j < n ==> buf@[j] == s[j],
        decreases n - i,
    {
        let b = buf[i];
        if b == QUOTE {
            is_open = !is_open;
            if !is_open {
                is_cheat = false;
            }
        } else {
            if is_open && b >= 128 && b - OFFSET < 128 {
                is_cheat = true;
            }
            if is_cheat {
                assert(cheatz_decoded(s, i as int));
                buf[i] = b - OFFSET;
            }
        }
        i = i + 1;
    }
    assert(buf@ =~= decoded_cheatz(s));
}

/// Whether `ini` parses the text `s` (`Ini::load_from_str` succeeds on it).
pub uninterp spec fn ini_parses(s: Seq<char>) -> bool;

/// `Ini::load_from_str`: whether it succeeds is a function of the text alone;
/// what it parses into is not stated.
#[verifier::external_body]
fn ini_load_from_str(s: &str) -> (r: Result<Ini, ParseError>)
    ensures
        r is Ok <==> ini_parses(s@),
{
    Ini::load_from_str(s)
}

/// Parses the text in `buf`, which must be UTF-8, as INI.
pub fn parse_ini(buf: &[u8]) -> (r: Result<Ini, ParseError>)
    requires
        vstd::utf8::valid_utf8(buf@),
    ensures
        r is Ok <==> ini_parses(vstd::utf8::decode_utf8(buf@)),
{
    match crate::utils::str_from_utf8(buf) {
        Ok(s) => {
            proof { crate::utils::lemma_str_chars(s, buf@); }
            ini_load_from_str(s)
        },
        Err(_) => {
            proof { assert(false); }
            ini_load_from_str("")
        },
    }
}

} // verus!
