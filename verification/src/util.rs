//! Small reader utilities shared by the record codecs.

use crate::cursor::BitReader;
use crate::error::DecodeError;
use vstd::prelude::*;

verus! {

/// Read `n` big-endian 16-bit values.  Either all `n` fit before the end of
/// the buffer and are returned, or nothing is consumed.
pub fn read_u16s_be(r: &mut BitReader, n: usize) -> (res: Result<Vec<u16>, DecodeError>)
    requires
        old(r).wf(),
        old(r).pos % 8 == 0,
    ensures
        final(r).wf(),
        final(r).data == old(r).data,
        final(r).pos % 8 == 0,
        match res {
            Ok(v) => {
                &&& old(r).pos + 16 * n <= 8 * old(r).data@.len()
                &&& final(r).pos == old(r).pos + 16 * n
                &&& v@.len() == n
                &&& forall|i: int|
                    0 <= i < n ==> (#[trigger] v@[i]) as int == 256 * old(r).data@[old(
                        r,
                    ).pos as int / 8 + 2 * i] + old(r).data@[old(r).pos as int / 8 + 2 * i + 1]
            },
            Err(e) => {
                &&& e == DecodeError::OutOfData
                &&& old(r).pos + 16 * n > 8 * old(r).data@.len()
                &&& *final(r) == *old(r)
            },
        },
{
    let idx = r.pos / 8;
    if n > (r.data.len() - idx) / 2 {
        proof {
            vstd::arithmetic::div_mod::lemma_fundamental_div_mod(
                (r.data@.len() - idx as int),
                2,
            );
        }
        return Err(DecodeError::OutOfData);
    }
    let mut out: Vec<u16> = Vec::new();
    let mut k: usize = 0;
    while k < n
        invariant
            k <= n,
            r.wf(),
            r.data == old(r).data,
            r.pos == old(r).pos + 16 * k,
            r.pos % 8 == 0,
            old(r).pos % 8 == 0,
            old(r).pos + 16 * n <= 8 * old(r).data@.len(),
            out@.len() == k,
            forall|i: int|
                0 <= i < k ==> (#[trigger] out@[i]) as int == 256 * old(r).data@[old(
                    r,
                ).pos as int / 8 + 2 * i] + old(r).data@[old(r).pos as int / 8 + 2 * i + 1],
        decreases n - k,
    {
        proof {
            vstd::arithmetic::div_mod::lemma_fundamental_div_mod(old(r).pos as int, 8);
            vstd::arithmetic::div_mod::lemma_fundamental_div_mod_converse(
                old(r).pos as int + 16 * k,
                8,
                old(r).pos as int / 8 + 2 * k,
                0,
            );
        }
        let v = match r.read_u16() {
            Ok(v) => v,
            Err(e) => {
                proof {
                    assert(false);
                }
                return Err(e);
            },
        };
        out.push(v);
        k = k + 1;
    }
    Ok(out)
}

} // verus!
