//! The decoder: a compressed stream back to raw bytes.
use vstd::prelude::*;

use crate::wire::{
    control_is_fill, control_len, decompressed, fill_byte, masked, prepend, untokens, Error,
    MASKED_PREFIX, MARKER, MAX_FF_RUN,
};

verus! {

/// The value of a decoding result, with the bytes seen as a sequence.
pub open spec fn result_view(r: Result<Vec<u8>, Error>) -> Result<Seq<u8>, Error> {
    match r {
        Ok(v) => Ok(v@),
        Err(e) => Err(e),
    }
}

/// Prepending in two steps is prepending the concatenation.
proof fn lemma_prepend_prepend(p: Seq<u8>, q: Seq<u8>, r: Result<Seq<u8>, Error>)
    ensures
        prepend(p, prepend(q, r)) == prepend(p + q, r),
{
    if let Ok(v) = r {
        assert(p + (q + v) =~= (p + q) + v);
    }
}

/// Reads the byte at `*i`, undoing the complement of the masked prefix, and
/// moves past it.
fn read_unmasked(comp: &[u8], i: &mut usize) -> (b: u8)
    requires
        *old(i) < comp@.len(),
    ensures
        b == masked(comp@)[*old(i) as int],
        *final(i) == *old(i) + 1,
{
    let raw = comp[*i];
    let b = if *i < MASKED_PREFIX { raw ^ 0xFF } else { raw };
    *i = *i + 1;
    b
}

/// Decompresses `comp`. Fails with `RunMarkerWithoutControl` when the stream
/// ends right after a run marker, and with `InvalidRunLength` when a record
/// describes a run of `0xFF` longer than `MAX_FF_RUN`; the first such record
/// decides.
pub fn decompress(comp: &[u8]) -> (r: Result<Vec<u8>, Error>)
    ensures
        result_view(r) == decompressed(comp@),
{
    let ghost m = masked(comp@);
    let mut out: Vec<u8> = Vec::with_capacity(comp.len());
    let mut i: usize = 0;
    proof {
        assert(m.skip(0) =~= m);
        if let Ok(v) = untokens(m) {
            assert(out@ + v =~= v);
        }
    }
    while i < comp.len()
        invariant
            m == masked(comp@),
            i <= comp@.len(),
            untokens(m) == prepend(out@, untokens(m.skip(i as int))),
        decreases comp@.len() - i,
    {
        let ghost i0 = i;
        let ghost out0 = out@;
        let b = read_unmasked(comp, &mut i);
        if b != MARKER {
            out.push(b);
            proof {
                assert(m.skip(i0 as int).drop_first() =~= m.skip(i as int));
                lemma_prepend_prepend(out0, seq![b], untokens(m.skip(i as int)));
                assert(out0 + seq![b] =~= out@);
            }
        } else {
            if i >= comp.len() {
                return Err(Error::RunMarkerWithoutControl);
            }
            let c = read_unmasked(comp, &mut i);
            let is_fill = (c & 0x80) != 0;
            let len = (c & 0x7F) as usize + 1;
            if is_fill && len > MAX_FF_RUN {
                return Err(Error::InvalidRunLength { len });
            }
            let fill: u8 = if is_fill { 0xFF } else { 0x00 };
            let mut k: usize = 0;
            while k < len
                invariant
                    k <= len,
                    out@ == out0 + Seq::new(k as nat, |_p: int| fill),
                decreases len - k,
            {
                out.push(fill);
                k = k + 1;
                proof {
                    assert(out@ =~= out0 + Seq::new(k as nat, |_p: int| fill));
                }
            }
            proof {
                assert(control_is_fill(c) == is_fill);
                assert(control_len(c) == len);
                assert(fill_byte(is_fill) == fill);
                assert(m.skip(i0 as int).skip(2) =~= m.skip(i as int));
                let run = Seq::new(control_len(c), |_p: int| fill_byte(control_is_fill(c)));
                assert(run =~= Seq::new(len as nat, |_p: int| fill));
                lemma_prepend_prepend(out0, run, untokens(m.skip(i as int)));
            }
        }
    }
    proof {
        assert(m.skip(i as int) =~= Seq::<u8>::empty());
        assert(out@ + Seq::<u8>::empty() =~= out@);
    }
    Ok(out)
}

} // verus!
