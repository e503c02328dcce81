//! The encoder: raw bytes to a compressed stream.
use vstd::prelude::*;

use crate::wire::{
    compressed, fill_byte, lemma_lead_exact, masked, record, tokens, MASKED_PREFIX, MARKER,
    MAX_FF_RUN, MAX_ZERO_RUN,
};

verus! {

/// Largest run that one record of the given kind holds.
pub open spec fn run_bound(is_fill: bool) -> nat {
    if is_fill { MAX_FF_RUN as nat } else { MAX_ZERO_RUN as nat }
}

/// The records for the runs still held in the two counters: the fill run first.
pub open spec fn pending(zero: nat, ff: nat) -> Seq<u8> {
    (if ff > 0 { record(true, ff) } else { Seq::empty() }) + (if zero > 0 {
        record(false, zero)
    } else {
        Seq::empty()
    })
}

/// A run of `n` bytes at the front of `s`, ended by the bound, the end of `s` or
/// another byte, is encoded as one record followed by the encoding of the rest.
proof fn lemma_tokens_run(s: Seq<u8>, is_fill: bool, n: nat)
    requires
        1 <= n <= run_bound(is_fill),
        n <= s.len(),
        forall|k: int| 0 <= k < n ==> s[k] == fill_byte(is_fill),
        n == run_bound(is_fill) || n == s.len() || s[n as int] != fill_byte(is_fill),
    ensures
        tokens(s) == record(is_fill, n) + tokens(s.skip(n as int)),
{
    lemma_lead_exact(s, fill_byte(is_fill), run_bound(is_fill), n);
}

/// A literal at the front of `s` is copied, followed by the encoding of the rest.
proof fn lemma_tokens_literal(s: Seq<u8>)
    requires
        s.len() > 0,
        s[0] != 0x00,
        s[0] != 0xFF,
    ensures
        tokens(s) == seq![s[0]] + tokens(s.drop_first()),
{
}

/// Appends the record of a run of `n` bytes.
fn emit_run(out: &mut Vec<u8>, is_fill: bool, n: usize)
    requires
        1 <= n <= run_bound(is_fill),
    ensures
        final(out)@ == old(out)@ + record(is_fill, n as nat),
{
    let len_field: u8 = ((n as u8) - 1) & 0x7F;
    let ctrl: u8 = if is_fill { len_field | 0x80 } else { len_field };
    proof {
        assert(len_field | 0x00u8 == len_field) by (bit_vector);
    }
    out.push(MARKER);
    out.push(ctrl);
    assert(final(out)@ =~= old(out)@ + record(is_fill, n as nat));
}

/// Appends the records of the pending runs and clears both counters.
fn flush(out: &mut Vec<u8>, zero: &mut usize, ff: &mut usize)
    requires
        *old(zero) <= MAX_ZERO_RUN,
        *old(ff) <= MAX_FF_RUN,
    ensures
        final(out)@ == old(out)@ + pending(*old(zero) as nat, *old(ff) as nat),
        *final(zero) == 0,
        *final(ff) == 0,
{
    let ghost start = out@;
    if *ff != 0 {
        emit_run(out, true, *ff);
        *ff = 0;
    }
    if *zero != 0 {
        emit_run(out, false, *zero);
        *zero = 0;
    }
    assert(out@ =~= start + pending(*old(zero) as nat, *old(ff) as nat));
}

/// Compresses `input`: runs of `0x00` (up to `MAX_ZERO_RUN`) and of `0xFF` (up
/// to `MAX_FF_RUN`) become two-byte records, other bytes are copied, and the
/// first four bytes of the result are complemented.
pub fn compress(input: &[u8]) -> (r: Vec<u8>)
    ensures
        r@ == compressed(input@),
{
    let ghost x = input@;
    let mut out: Vec<u8> = Vec::with_capacity(input.len());
    let mut zero: usize = 0;
    let mut ff: usize = 0;
    let mut i: usize = 0;
    proof {
        assert(x.skip(0) =~= x);
        assert(out@ + tokens(x) =~= tokens(x));
    }
    while i < input.len()
        invariant
            x == input@,
            zero < MAX_ZERO_RUN,
            ff < MAX_FF_RUN,
            zero == 0 || ff == 0,
            zero + ff <= i <= x.len(),
            forall|k: int|
                i - zero - ff <= k < i ==> x[k] == (if zero > 0 { 0x00u8 } else { 0xFFu8 }),
            tokens(x) == out@ + tokens(x.skip(i - zero - ff)),
        decreases x.len() - i,
    {
        let b = input[i];
        let ghost j = i - zero - ff;
        if b == 0x00 {
            if ff != 0 {
                proof {
                    lemma_tokens_run(x.skip(j), true, ff as nat);
                    assert(x.skip(j).skip(ff as int) =~= x.skip(i as int));
                }
                emit_run(&mut out, true, ff);
                ff = 0;
            }
            zero = zero + 1;
            if zero == MAX_ZERO_RUN {
                proof {
                    let j2 = i + 1 - zero;
                    lemma_tokens_run(x.skip(j2), false, zero as nat);
                    assert(x.skip(j2).skip(zero as int) =~= x.skip(i + 1));
                }
                emit_run(&mut out, false, MAX_ZERO_RUN);
                zero = 0;
            }
        } else if b == 0xFF {
            if zero != 0 {
                proof {
                    lemma_tokens_run(x.skip(j), false, zero as nat);
                    assert(x.skip(j).skip(zero as int) =~= x.skip(i as int));
                }
                emit_run(&mut out, false, zero);
                zero = 0;
            }
            ff = ff + 1;
            if ff == MAX_FF_RUN {
                proof {
                    let j2 = i + 1 - ff;
                    lemma_tokens_run(x.skip(j2), true, ff as nat);
                    assert(x.skip(j2).skip(ff as int) =~= x.skip(i + 1));
                }
                emit_run(&mut out, true, MAX_FF_RUN);
                ff = 0;
            }
        } else {
            proof {
                if zero > 0 {
                    lemma_tokens_run(x.skip(j), false, zero as nat);
                    assert(x.skip(j).skip(zero as int) =~= x.skip(i as int));
                } else if ff > 0 {
                    lemma_tokens_run(x.skip(j), true, ff as nat);
                    assert(x.skip(j).skip(ff as int) =~= x.skip(i as int));
                }
                assert(out@ + pending(zero as nat, ff as nat) + tokens(x.skip(i as int)) =~= out@
                    + tokens(x.skip(j)));
                lemma_tokens_literal(x.skip(i as int));
                assert(x.skip(i as int).drop_first() =~= x.skip(i + 1));
            }
            flush(&mut out, &mut zero, &mut ff);
            out.push(b);
            proof {
                assert(tokens(x) =~= out@ + tokens(x.skip(i + 1)));
            }
        }
        i = i + 1;
    }
    proof {
        let j = i - zero - ff;
        if zero > 0 {
            lemma_tokens_run(x.skip(j), false, zero as nat);
        } else if ff > 0 {
            lemma_tokens_run(x.skip(j), true, ff as nat);
        }
        assert(x.skip(i as int) =~= Seq::<u8>::empty());
        assert(x.skip(j).skip((zero + ff) as int) =~= x.skip(i as int));
    }
    flush(&mut out, &mut zero, &mut ff);
    let ghost t = out@;
    proof {
        assert(tokens(x) =~= t);
    }
    let lim: usize = if out.len() < MASKED_PREFIX { out.len() } else { MASKED_PREFIX };
    let mut k: usize = 0;
    while k < lim
        invariant
            lim <= MASKED_PREFIX,
            lim == t.len() || lim == MASKED_PREFIX,
            lim <= t.len(),
            k <= lim,
            out@.len() == t.len(),
            forall|p: int| 0 <= p < k ==> out@[p] == t[p] ^ 0xFF,
            forall|p: int| k <= p < t.len() ==> out@[p] == t[p],
        decreases lim - k,
    {
        let v = out[k] ^ 0xFF;
        out.set(k, v);
        k = k + 1;
    }
    assert(out@ =~= masked(t));
    out
}

} // verus!
