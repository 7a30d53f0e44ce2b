//! The residual (delta) transform: each byte of the transformed block is
//! re-expressed as its difference from the preceding byte, biased into
//! unsigned range around `BIAS`.
//!
//! The first position uses itself as its own predecessor, so the first
//! residual always equals the bias point and carries no information of
//! its own; the inverse therefore takes the first transformed byte as an
//! explicit argument, and the container stores that byte in its header.

use vstd::prelude::*;
use vstd::arithmetic::div_mod::{lemma_mod_multiples_vanish, lemma_add_mod_noop, lemma_small_mod};

verus! {

/// The bias point: a zero delta is stored as this value.
pub const BIAS: u8 = 128;

/// Predecessor byte used at position `i` of the transform input.
pub open spec fn pred_at(t: Seq<u8>, i: int) -> u8 {
    if i == 0 {
        t[0]
    } else {
        t[i - 1]
    }
}

/// The residual value at position `i`.
pub open spec fn residual_at(t: Seq<u8>, i: int) -> u8 {
    (((t[i] as int) - (pred_at(t, i) as int) + 128) % 256) as u8
}

/// The whole residual stream of a transformed block.
pub open spec fn residual_seq(t: Seq<u8>) -> Seq<u8> {
    Seq::new(t.len(), |i: int| residual_at(t, i))
}

/// Value at position `i` of the inverse transform, given the first
/// transformed byte and the residual stream.
pub open spec fn decoded_at(first: u8, res: Seq<u8>, i: int) -> u8
    decreases i,
{
    if i <= 0 {
        first
    } else {
        (((res[i] as int) - 128 + (decoded_at(first, res, i - 1) as int)) % 256) as u8
    }
}

/// Compute the residual stream of a transformed block.
pub fn encode(t: &Vec<u8>) -> (r: Vec<u8>)
    ensures
        r@ == residual_seq(t@),
{
    let mut r: Vec<u8> = Vec::new();
    let mut i: usize = 0;
    proof {
        assert(r@ =~= residual_seq(t@).take(0));
    }
    while i < t.len()
        invariant
            i <= t@.len(),
            r@ == residual_seq(t@).take(i as int),
        decreases t@.len() - i,
    {
        let pred: u8 = if i == 0 { t[0] } else { t[i - 1] };
        let v: u8 = (((t[i] as u16) + 256 - (pred as u16) + 128) % 256) as u8;
        proof {
            let a = t@[i as int] as int;
            let p = pred as int;
            lemma_mod_multiples_vanish(1, a - p + 128, 256);
            assert(v == residual_at(t@, i as int));
        }
        r.push(v);
        proof {
            assert(r@ =~= residual_seq(t@).take(i + 1));
        }
        i = i + 1;
    }
    proof {
        assert(residual_seq(t@).take(t@.len() as int) =~= residual_seq(t@));
    }
    r
}

/// Invert the residual transform: rebuild the transformed block from its
/// first byte and the residual stream. The value stored at position 0 of
/// the residual stream is redundant (it is always the bias) and is not
/// consulted.
pub fn decode(first: u8, res: &Vec<u8>) -> (r: Vec<u8>)
    ensures
        r@.len() == res@.len(),
        forall|i: int| 0 <= i < res@.len() ==> r@[i] == decoded_at(first, res@, i),
{
    let mut r: Vec<u8> = Vec::new();
    let mut i: usize = 0;
    while i < res.len()
        invariant
            i <= res@.len(),
            r@.len() == i,
            forall|j: int| 0 <= j < i ==> r@[j] == decoded_at(first, res@, j),
        decreases res@.len() - i,
    {
        let v: u8 = if i == 0 {
            first
        } else {
            let prev: u8 = r[i - 1];
            let d: u8 = (((res[i] as u16) + 256 + (prev as u16) - 128) % 256) as u8;
            proof {
                let e = res@[i as int] as int;
                let p = prev as int;
                lemma_mod_multiples_vanish(1, e - 128 + p, 256);
                assert(d == decoded_at(first, res@, i as int));
            }
            d
        };
        r.push(v);
        i = i + 1;
    }
    r
}

/// Inverting the residual stream of a transformed block, seeded with the
/// block's first byte, reproduces the block exactly; and the first
/// residual is always exactly the bias constant.
pub proof fn lemma_residual_round_trip(t: Seq<u8>)
    requires
        t.len() > 0,
    ensures
        residual_seq(t)[0] == BIAS,
        forall|i: int| 0 <= i < t.len() ==> decoded_at(t[0], residual_seq(t), i) == t[i],
{
    let res = residual_seq(t);
    lemma_mod_multiples_vanish(0, 128, 256);
    assert(residual_at(t, 0) == 128) by {
        lemma_small_mod(128nat, 256nat);
    }
    assert forall|i: int| 0 <= i < t.len() implies decoded_at(t[0], res, i) == t[i] by {
        lemma_decoded_prefix(t, i);
    }
}

proof fn lemma_decoded_prefix(t: Seq<u8>, i: int)
    requires
        t.len() > 0,
        0 <= i < t.len(),
    ensures
        decoded_at(t[0], residual_seq(t), i) == t[i],
    decreases i,
{
    let res = residual_seq(t);
    if i > 0 {
        lemma_decoded_prefix(t, i - 1);
        let a = t[i] as int;
        let p = t[i - 1] as int;
        let e = res[i] as int;
        assert(e == (a - p + 128) % 256);
        lemma_add_mod_noop(a - p + 128, p - 128, 256);
        lemma_mod_multiples_vanish(1, p - 128, 256);
        lemma_small_mod(a as nat, 256nat);
        assert((e - 128 + p) % 256 == a);
    }
}

} // verus!
