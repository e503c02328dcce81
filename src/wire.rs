//! The compressed format as mathematical functions on byte sequences.
use vstd::prelude::*;

verus! {

/// Longest run of `0x00` bytes that one record holds.
pub const MAX_ZERO_RUN: usize = 128;

/// Longest run of `0xFF` bytes that one record holds.
pub const MAX_FF_RUN: usize = 32;

/// The byte that opens a run record in the logical stream.
pub const MARKER: u8 = 0x00;

/// Number of leading bytes of a compressed stream that are complemented.
pub const MASKED_PREFIX: usize = 4;

/// Why a compressed stream could not be decoded.
#[derive(Clone, Copy, Debug, PartialEq, Eq, Structural)]
pub enum Error {
    /// The stream ends right after a run marker: no control byte follows.
    RunMarkerWithoutControl,
    /// A control byte describes a run of `0xFF` longer than `MAX_FF_RUN`.
    InvalidRunLength { len: usize },
}

/// The physical stream of a logical one (and back): the bytes at positions
/// below `MASKED_PREFIX` are complemented, the others kept.
pub open spec fn masked(s: Seq<u8>) -> Seq<u8> {
    Seq::new(s.len(), |i: int| if i < MASKED_PREFIX { s[i] ^ 0xFF } else { s[i] })
}

/// Number of leading bytes of `s` equal to `b`, counting at most `max`.
pub open spec fn lead(s: Seq<u8>, b: u8, max: nat) -> nat
    decreases max,
{
    if max == 0 || s.len() == 0 || s[0] != b {
        0
    } else {
        1 + lead(s.drop_first(), b, (max - 1) as nat)
    }
}

/// The control byte of a run of `n` bytes, of `0xFF` when `is_fill`, else of `0x00`.
pub open spec fn control_of(is_fill: bool, n: nat) -> u8 {
    (((n - 1) as u8) & 0x7F) | (if is_fill { 0x80u8 } else { 0x00u8 })
}

/// The two bytes of a run record.
pub open spec fn record(is_fill: bool, n: nat) -> Seq<u8> {
    seq![MARKER, control_of(is_fill, n)]
}

/// Whether a control byte describes a run of `0xFF`.
pub open spec fn control_is_fill(c: u8) -> bool {
    c & 0x80 != 0
}

/// The run length that a control byte describes.
pub open spec fn control_len(c: u8) -> nat {
    ((c & 0x7F) as nat) + 1
}

/// The byte that a run repeats.
pub open spec fn fill_byte(is_fill: bool) -> u8 {
    if is_fill { 0xFF } else { 0x00 }
}

/// The logical (unmasked) encoding of `x`: runs are cut greedily from the left
/// into records of at most `MAX_ZERO_RUN` zeros or `MAX_FF_RUN` fill bytes; any
/// other byte is a literal.
pub open spec fn tokens(x: Seq<u8>) -> Seq<u8>
    decreases x.len(),
    via tokens_decreases
{
    if x.len() == 0 {
        Seq::empty()
    } else if x[0] == 0x00 {
        let n = lead(x, 0x00, MAX_ZERO_RUN as nat);
        record(false, n) + tokens(x.skip(n as int))
    } else if x[0] == 0xFF {
        let n = lead(x, 0xFF, MAX_FF_RUN as nat);
        record(true, n) + tokens(x.skip(n as int))
    } else {
        seq![x[0]] + tokens(x.drop_first())
    }
}

#[via_fn]
proof fn tokens_decreases(x: Seq<u8>) {
    if x.len() > 0 {
        lemma_lead_bounds(x, 0x00, MAX_ZERO_RUN as nat);
        lemma_lead_bounds(x, 0xFF, MAX_FF_RUN as nat);
    }
}

/// The compressed stream of `x`.
pub open spec fn compressed(x: Seq<u8>) -> Seq<u8> {
    masked(tokens(x))
}

/// Prepends `p` to a successful result; an error passes through.
pub open spec fn prepend(p: Seq<u8>, r: Result<Seq<u8>, Error>) -> Result<Seq<u8>, Error> {
    match r {
        Ok(v) => Ok(p + v),
        Err(e) => Err(e),
    }
}

/// Decoding of a logical (unmasked) stream: literals pass through, each record
/// expands to its run; the first malformed record decides the error.
pub open spec fn untokens(c: Seq<u8>) -> Result<Seq<u8>, Error>
    decreases c.len(),
{
    if c.len() == 0 {
        Ok(Seq::empty())
    } else if c[0] != MARKER {
        prepend(seq![c[0]], untokens(c.drop_first()))
    } else if c.len() == 1 {
        Err(Error::RunMarkerWithoutControl)
    } else {
        let is_fill = control_is_fill(c[1]);
        let len = control_len(c[1]);
        if is_fill && len > MAX_FF_RUN {
            Err(Error::InvalidRunLength { len: len as usize })
        } else {
            prepend(Seq::new(len, |_i: int| fill_byte(is_fill)), untokens(c.skip(2)))
        }
    }
}

/// The result of decompressing the physical stream `c`.
pub open spec fn decompressed(c: Seq<u8>) -> Result<Seq<u8>, Error> {
    untokens(masked(c))
}

pub proof fn lemma_lead_bounds(s: Seq<u8>, b: u8, max: nat)
    ensures
        lead(s, b, max) <= s.len(),
        lead(s, b, max) <= max,
        max > 0 && s.len() > 0 && s[0] == b ==> lead(s, b, max) >= 1,
        forall|k: int| 0 <= k < lead(s, b, max) ==> s[k] == b,
    decreases max,
{
    if max > 0 && s.len() > 0 && s[0] == b {
        let t = s.drop_first();
        lemma_lead_bounds(t, b, (max - 1) as nat);
        assert forall|k: int| 0 <= k < lead(s, b, max) implies s[k] == b by {
            if k > 0 {
                assert(s[k] == t[k - 1]);
            }
        }
    }
}

/// A run of exactly `n` bytes `b` at the front of `s` that stops at `max`, at
/// the end of `s`, or at another byte has `lead` equal to `n`.
pub proof fn lemma_lead_exact(s: Seq<u8>, b: u8, max: nat, n: nat)
    requires
        n <= max,
        n <= s.len(),
        forall|k: int| 0 <= k < n ==> s[k] == b,
        n == max || n == s.len() || s[n as int] != b,
    ensures
        lead(s, b, max) == n,
    decreases n,
{
    if n > 0 {
        lemma_lead_exact(s.drop_first(), b, (max - 1) as nat, (n - 1) as nat);
    }
}

} // verus!
