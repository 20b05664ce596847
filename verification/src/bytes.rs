//! Big-endian byte encoding of the integers carried on the wire.

use vstd::prelude::*;
use vstd::slice::slice_index_get;

verus! {

pub open spec fn u16_be_bytes(x: u16) -> Seq<u8> {
    seq![(x >> 8u16) as u8, x as u8]
}

pub open spec fn u32_be_bytes(x: u32) -> Seq<u8> {
    seq![(x >> 24u32) as u8, (x >> 16u32) as u8, (x >> 8u32) as u8, x as u8]
}

pub open spec fn u16_from_be(b0: u8, b1: u8) -> u16 {
    ((b0 as u16) << 8u16) | (b1 as u16)
}

pub open spec fn u32_from_be(b0: u8, b1: u8, b2: u8, b3: u8) -> u32 {
    ((b0 as u32) << 24u32) | ((b1 as u32) << 16u32) | ((b2 as u32) << 8u32) | (b3 as u32)
}

/// Reading back the two bytes of a 16-bit value restores it.
pub proof fn lemma_u16_be_round_trip(x: u16)
    by (bit_vector)
    ensures
        u16_from_be((x >> 8u16) as u8, x as u8) == x,
{
}

/// Reading back the four bytes of a 32-bit value restores it.
pub proof fn lemma_u32_be_round_trip(x: u32)
    by (bit_vector)
    ensures
        u32_from_be((x >> 24u32) as u8, (x >> 16u32) as u8, (x >> 8u32) as u8, x as u8) == x,
{
}

/// Copy a byte slice into a fresh vector.
pub fn copy_bytes(v: &[u8]) -> (r: Vec<u8>)
    ensures
        r@ == v@,
{
    let mut out: Vec<u8> = Vec::new();
    let mut i: usize = 0;
    while i < v.len()
        invariant
            i <= v@.len(),
            out@ == v@.take(i as int),
        decreases v@.len() - i,
    {
        out.push(*slice_index_get(v, i));
        proof {
            assert(out@ =~= v@.take(i + 1));
        }
        i = i + 1;
    }
    proof {
        assert(v@.take(v@.len() as int) =~= v@);
    }
    out
}

pub fn push_u16_be(out: &mut Vec<u8>, x: u16)
    ensures
        final(out)@ == old(out)@ + u16_be_bytes(x),
{
    out.push(#[verifier::truncate] ((x >> 8u16) as u8));
    out.push(#[verifier::truncate] (x as u8));
    proof {
        assert(final(out)@ =~= old(out)@ + u16_be_bytes(x));
    }
}

pub fn push_u32_be(out: &mut Vec<u8>, x: u32)
    ensures
        final(out)@ == old(out)@ + u32_be_bytes(x),
{
    out.push(#[verifier::truncate] ((x >> 24u32) as u8));
    out.push(#[verifier::truncate] ((x >> 16u32) as u8));
    out.push(#[verifier::truncate] ((x >> 8u32) as u8));
    out.push(#[verifier::truncate] (x as u8));
    proof {
        assert(final(out)@ =~= old(out)@ + u32_be_bytes(x));
    }
}

pub fn read_u16_be(data: &[u8], i: usize) -> (r: u16)
    requires
        i + 2 <= data@.len(),
    ensures
        r == u16_from_be(data@[i as int], data@[i + 1]),
{
    let _n = data.len();
    let b0 = *slice_index_get(data, i);
    let b1 = *slice_index_get(data, i + 1);
    ((b0 as u16) << 8u16) | (b1 as u16)
}

pub fn read_u32_be(data: &[u8], i: usize) -> (r: u32)
    requires
        i + 4 <= data@.len(),
    ensures
        r == u32_from_be(data@[i as int], data@[i + 1], data@[i + 2], data@[i + 3]),
{
    let _n = data.len();
    let b0 = *slice_index_get(data, i);
    let b1 = *slice_index_get(data, i + 1);
    let b2 = *slice_index_get(data, i + 2);
    let b3 = *slice_index_get(data, i + 3);
    ((b0 as u32) << 24u32) | ((b1 as u32) << 16u32) | ((b2 as u32) << 8u32) | (b3 as u32)
}

} // verus!
