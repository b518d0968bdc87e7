//! Serializing integer vectors into little-endian bytes.

use vstd::bytes::{spec_u32_to_le_bytes, spec_u64_to_le_bytes, u32_to_le_bytes, u64_to_le_bytes};
use vstd::prelude::*;

verus! {

/// The little-endian bytes of a sequence of 32-bit words, in order.
pub open spec fn u32s_to_bytes(s: Seq<u32>) -> Seq<u8>
    decreases s.len(),
{
    if s.len() == 0 {
        Seq::empty()
    } else {
        u32s_to_bytes(s.drop_last()) + spec_u32_to_le_bytes(s.last())
    }
}

/// The little-endian bytes of a sequence of 64-bit words, in order.
pub open spec fn u64s_to_bytes(s: Seq<u64>) -> Seq<u8>
    decreases s.len(),
{
    if s.len() == 0 {
        Seq::empty()
    } else {
        u64s_to_bytes(s.drop_last()) + spec_u64_to_le_bytes(s.last())
    }
}

/// Turn a vector of [u32] into its little-endian byte representation.
pub fn vec_u32_to_bytes(v: &[u32]) -> (r: Vec<u8>)
    ensures
        r@ == u32s_to_bytes(v@),
        r@.len() == 4 * v@.len(),
{
    let mut out: Vec<u8> = Vec::new();
    let mut i: usize = 0;
    proof {
        assert(v@.take(0) =~= Seq::<u32>::empty());
        vstd::bytes::lemma_auto_spec_u32_to_from_le_bytes();
    }
    while i < v.len()
        invariant
            i <= v@.len(),
            out@ == u32s_to_bytes(v@.take(i as int)),
            out@.len() == 4 * i,
            forall|x: u32| #[trigger] spec_u32_to_le_bytes(x).len() == 4,
        decreases v@.len() - i,
    {
        let mut b = u32_to_le_bytes(v[i]);
        out.append(&mut b);
        proof {
            assert(v@.take(i + 1).drop_last() =~= v@.take(i as int));
            assert(v@.take(i + 1).last() == v@[i as int]);
        }
        i = i + 1;
    }
    proof {
        assert(v@.take(v@.len() as int) =~= v@);
    }
    out
}

/// Turn a vector of [u64] into its little-endian byte representation.
pub fn vec_u64_to_bytes(v: &[u64]) -> (r: Vec<u8>)
    ensures
        r@ == u64s_to_bytes(v@),
        r@.len() == 8 * v@.len(),
{
    let mut out: Vec<u8> = Vec::new();
    let mut i: usize = 0;
    proof {
        assert(v@.take(0) =~= Seq::<u64>::empty());
        vstd::bytes::lemma_auto_spec_u64_to_from_le_bytes();
    }
    while i < v.len()
        invariant
            i <= v@.len(),
            out@ == u64s_to_bytes(v@.take(i as int)),
            out@.len() == 8 * i,
            forall|x: u64| #[trigger] spec_u64_to_le_bytes(x).len() == 8,
        decreases v@.len() - i,
    {
        let mut b = u64_to_le_bytes(v[i]);
        out.append(&mut b);
        proof {
            assert(v@.take(i + 1).drop_last() =~= v@.take(i as int));
            assert(v@.take(i + 1).last() == v@[i as int]);
        }
        i = i + 1;
    }
    proof {
        assert(v@.take(v@.len() as int) =~= v@);
    }
    out
}

} // verus!
