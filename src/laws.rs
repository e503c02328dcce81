//! Properties of the format that relate the encoder and the decoder.
use vstd::prelude::*;

use crate::wire::{
    compressed, control_is_fill, control_len, control_of, decompressed, fill_byte, lead,
    lemma_lead_bounds, masked, prepend, record, tokens, untokens, Error, MARKER, MAX_FF_RUN,
    MAX_ZERO_RUN,
};

verus! {

proof fn lemma_control_fields(v: u8)
    requires
        v < 128,
    ensures
        ((v & 0x7F) | 0x80) & 0x80 != 0,
        ((v & 0x7F) | 0x80) & 0x7F == v,
        ((v & 0x7F) | 0x00) & 0x80 == 0,
        ((v & 0x7F) | 0x00) & 0x7F == v,
{
    assert(((v & 0x7F) | 0x80) & 0x80 != 0 && ((v & 0x7F) | 0x80) & 0x7F == v && ((v & 0x7F)
        | 0x00) & 0x80 == 0 && ((v & 0x7F) | 0x00) & 0x7F == v) by (bit_vector)
        requires
            v < 128,
    ;
}

/// A control byte built for a run of `n` bytes decodes to that kind and length.
proof fn lemma_control_round_trip(is_fill: bool, n: nat)
    requires
        1 <= n <= 128,
    ensures
        control_is_fill(control_of(is_fill, n)) == is_fill,
        control_len(control_of(is_fill, n)) == n,
{
    lemma_control_fields((n - 1) as u8);
}

/// Complementing the prefix twice gives back the stream.
pub proof fn lemma_masked_twice(s: Seq<u8>)
    ensures
        masked(masked(s)) == s,
{
    assert forall|i: int| 0 <= i < s.len() implies masked(masked(s))[i] == s[i] by {
        let v = s[i];
        assert(v ^ 0xFF ^ 0xFF == v) by (bit_vector);
    }
    assert(masked(masked(s)) =~= s);
}

/// Decoding the logical encoding of `x` gives back `x`.
pub proof fn lemma_untokens_tokens(x: Seq<u8>)
    ensures
        untokens(tokens(x)) == Ok::<Seq<u8>, Error>(x),
    decreases x.len(),
{
    if x.len() == 0 {
        assert(x =~= Seq::<u8>::empty());
    } else if x[0] == 0x00 || x[0] == 0xFF {
        let is_fill = x[0] == 0xFF;
        let max: nat = if is_fill { MAX_FF_RUN as nat } else { MAX_ZERO_RUN as nat };
        let n = lead(x, fill_byte(is_fill), max);
        lemma_lead_bounds(x, fill_byte(is_fill), max);
        let rest = x.skip(n as int);
        let c = tokens(x);
        assert(c == record(is_fill, n) + tokens(rest));
        lemma_control_round_trip(is_fill, n);
        assert(c[0] == MARKER);
        assert(c[1] == control_of(is_fill, n));
        assert(c.skip(2) =~= tokens(rest));
        lemma_untokens_tokens(rest);
        let run = Seq::new(n, |_i: int| fill_byte(is_fill));
        assert(untokens(c) == prepend(run, untokens(tokens(rest))));
        assert(run + rest =~= x);
    } else {
        let rest = x.drop_first();
        let c = tokens(x);
        assert(c == seq![x[0]] + tokens(rest));
        assert(c.drop_first() =~= tokens(rest));
        lemma_untokens_tokens(rest);
        assert(seq![x[0]] + rest =~= x);
    }
}

/// Round trip: decompressing the compressed stream of any `x` succeeds with `x`.
pub proof fn lemma_round_trip(x: Seq<u8>)
    ensures
        decompressed(compressed(x)) == Ok::<Seq<u8>, Error>(x),
{
    lemma_masked_twice(tokens(x));
    lemma_untokens_tokens(x);
}

/// The complement touches the first four bytes of a compressed stream and no
/// other: from the fifth byte on it equals the logical encoding.
pub proof fn lemma_mask_scope(x: Seq<u8>)
    ensures
        compressed(x).len() == tokens(x).len(),
        forall|i: int| 0 <= i < 4 && i < tokens(x).len() ==> compressed(x)[i] == tokens(x)[i] ^ 0xFF,
        forall|i: int| 4 <= i < tokens(x).len() ==> compressed(x)[i] == tokens(x)[i],
{
}

} // verus!
