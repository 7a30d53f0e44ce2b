//! The reversible block transform: a Burrows–Wheeler permutation of the
//! block plus the single index needed to invert it.
//!
//! The forward permutation is computed by the `libsais` crate behind a
//! trusted wrapper. The inverse is implemented and verified here as a
//! total function — it must run on untrusted container data, where
//! handing arbitrary bytes back to a suffix-array library would be
//! unsound — via the standard last-to-first column walk.

use vstd::prelude::*;
use crate::CodecError;

verus! {

/// The permuted block `libsais` computes for a text.
pub uninterp spec fn bwt_of(s: Seq<u8>) -> Seq<u8>;

/// The primary index `libsais` reports for a text: the row of the
/// original text among the sorted rotations, one-based because the
/// virtual sentinel row is dropped.
pub uninterp spec fn bwt_primary_of(s: Seq<u8>) -> int;

/// Relies on libsais's `BwtConstruction::run`: it fills a buffer of the
/// text's length with a permutation of the text — its Burrows–Wheeler
/// transform — and reports the primary index, which for a non-empty
/// text of length `n` lies in `[1, n]` (the C core returns the
/// sorted-suffix position of the whole text plus one, and `n` itself
/// for `n == 1`; the output holds the last byte and then each suffix
/// position's preceding byte exactly once). The transform depends on
/// the text alone.
#[verifier::external_body]
fn bwt_raw(data: &Vec<u8>) -> (r: Result<(Vec<u8>, usize), ()>)
    requires
        1 <= data@.len() <= 0x7FFF_FFFF,
    ensures
        r matches Ok(p) ==> p.0@ == bwt_of(data@) && p.0@.len() == data@.len()
            && p.0@.to_multiset() == data@.to_multiset()
            && p.1 as int == bwt_primary_of(data@) && 1 <= p.1 <= data@.len(),
{
    match libsais::BwtConstruction::for_text(data.as_slice())
        .with_owned_temporary_array_buffer32()
        .single_threaded()
        .run()
    {
        Ok(res) => {
            let idx = res.primary_index();
            Ok((res.into_vec(), idx))
        },
        Err(_) => Err(()),
    }
}

/// A transformed block with the index needed to invert it. For a
/// non-empty block the index is stored zero-based, so it always lies
/// strictly below the block length; an empty block carries index 0.
pub struct TransformResult {
    pub transformed: Vec<u8>,
    pub primary_index: usize,
}

impl TransformResult {
    pub open spec fn wf(self) -> bool {
        if self.transformed@.len() == 0 {
            self.primary_index == 0
        } else {
            self.primary_index < self.transformed@.len()
        }
    }
}

/// Apply the block transform. An empty block has the defined result of
/// an empty transform with index 0, returned without failure; a
/// non-empty block is permuted by `libsais`, whose one-based primary
/// index is stored zero-based.
pub fn transform(block: &Vec<u8>) -> (r: Result<TransformResult, CodecError>)
    requires
        block@.len() <= crate::MAX_INPUT_LEN,
    ensures
        block@.len() == 0 ==> r is Ok,
        r matches Ok(tr) ==> {
            &&& tr.wf()
            &&& tr.transformed@.len() == block@.len()
            &&& tr.transformed@.to_multiset() == block@.to_multiset()
            &&& block@.len() == 0 ==> tr.primary_index == 0
            &&& block@.len() > 0 ==> tr.transformed@ == bwt_of(block@)
                && tr.primary_index as int == bwt_primary_of(block@) - 1
        },
        r is Err ==> r == Err::<TransformResult, CodecError>(CodecError::TransformFailure),
{
    if block.len() == 0 {
        let r = TransformResult { transformed: Vec::new(), primary_index: 0 };
        proof {
            assert(r.transformed@.len() == 0);
            assert(r.transformed@ =~= block@);
        }
        Ok(r)
    } else {
        match bwt_raw(block) {
            Ok((b, idx)) => Ok(TransformResult { transformed: b, primary_index: idx - 1 }),
            Err(()) => Err(CodecError::TransformFailure),
        }
    }
}

/// Occurrences of byte `c` in `s`.
pub open spec fn count_char(s: Seq<u8>, c: u8) -> nat
    decreases s.len(),
{
    if s.len() == 0 {
        0
    } else {
        count_char(s.drop_last(), c) + if s.last() == c { 1nat } else { 0nat }
    }
}

/// Occurrences of bytes strictly below `c` in `s`.
pub open spec fn count_lt(s: Seq<u8>, c: u8) -> nat
    decreases s.len(),
{
    if s.len() == 0 {
        0
    } else {
        count_lt(s.drop_last(), c) + if s.last() < c { 1nat } else { 0nat }
    }
}

/// The last-to-first mapping of position `i` of the transformed block,
/// over the rotation matrix that includes the virtual sentinel row.
pub open spec fn lf_spec(s: Seq<u8>, i: int) -> int {
    1 + count_lt(s, s[i]) + count_char(s.take(i), s[i]) as int
}

/// Position in the transformed block visited after `k` steps of the
/// inverse walk, which emits the original block back to front starting
/// from its last byte at position 0.
pub open spec fn walk_idx(s: Seq<u8>, p: int, k: nat) -> int
    decreases k,
{
    if k == 0 {
        0
    } else {
        let r = lf_spec(s, walk_idx(s, p, (k - 1) as nat));
        if r < p {
            r
        } else {
            r - 1
        }
    }
}

proof fn lemma_count_char_take_step(s: Seq<u8>, c: u8, i: int)
    requires
        0 <= i < s.len(),
    ensures
        count_char(s.take(i + 1), c)
            == count_char(s.take(i), c) + if s[i] == c { 1nat } else { 0nat },
{
    assert(s.take(i + 1).drop_last() =~= s.take(i));
    assert(s.take(i + 1).last() == s[i]);
}

proof fn lemma_count_char_mono(s: Seq<u8>, c: u8, i: int)
    requires
        0 <= i <= s.len(),
    ensures
        count_char(s.take(i), c) <= count_char(s, c),
    decreases s.len() - i,
{
    if i == s.len() {
        assert(s.take(i) =~= s);
    } else {
        lemma_count_char_take_step(s, c, i);
        lemma_count_char_mono(s, c, i + 1);
    }
}

proof fn lemma_counts_bound(s: Seq<u8>, c: u8)
    ensures
        count_lt(s, c) + count_char(s, c) <= s.len(),
    decreases s.len(),
{
    if s.len() > 0 {
        lemma_counts_bound(s.drop_last(), c);
    }
}

proof fn lemma_count_lt_step(s: Seq<u8>, c: u8)
    requires
        c < 255,
    ensures
        count_lt(s, (c + 1) as u8) == count_lt(s, c) + count_char(s, c),
    decreases s.len(),
{
    if s.len() > 0 {
        lemma_count_lt_step(s.drop_last(), c);
    }
}

proof fn lemma_count_lt_zero(s: Seq<u8>)
    ensures
        count_lt(s, 0) == 0,
    decreases s.len(),
{
    if s.len() > 0 {
        lemma_count_lt_zero(s.drop_last());
    }
}

/// Invert the block transform: rebuild the block whose transform is
/// `transformed` with zero-based primary index `primary_index`. Total:
/// on a pair no transform produced it still returns a block of the same
/// length, so corrupt containers cannot make it fail or run away.
pub fn invert(transformed: &Vec<u8>, primary_index: usize) -> (r: Vec<u8>)
    requires
        transformed@.len() > 0 ==> primary_index < transformed@.len(),
        transformed@.len() <= crate::MAX_INPUT_LEN,
    ensures
        r@.len() == transformed@.len(),
        forall|k: int| 0 <= k < r@.len()
            ==> r@[k] == transformed@[walk_idx(
                transformed@,
                primary_index + 1,
                (r@.len() - 1 - k) as nat,
            )],
{
    let n = transformed.len();
    if n == 0 {
        return Vec::new();
    }
    let ghost s = transformed@;
    let p = primary_index + 1;

    // counts[c]: occurrences of byte c
    let mut counts: Vec<usize> = Vec::new();
    let mut ci: usize = 0;
    while ci < 256
        invariant
            ci <= 256,
            counts@.len() == ci,
            forall|c: int| 0 <= c < ci ==> counts@[c] == 0,
        decreases 256 - ci,
    {
        counts.push(0);
        ci = ci + 1;
    }
    proof {
        assert forall|c: u8| #![auto] count_char(s.take(0), c) == 0 by {
            assert(s.take(0) =~= Seq::<u8>::empty());
        }
    }
    let mut i: usize = 0;
    while i < n
        invariant
            i <= n,
            n == s.len() <= crate::MAX_INPUT_LEN,
            s == transformed@,
            counts@.len() == 256,
            forall|c: u8| #![auto] counts@[c as int] == count_char(s.take(i as int), c),
        decreases n - i,
    {
        let c = transformed[i];
        proof {
            lemma_count_char_mono(s, c, i as int);
            lemma_counts_bound(s, c);
            assert forall|c2: u8| #![auto] count_char(s.take(i as int + 1), c2)
                == count_char(s.take(i as int), c2) + if s[i as int] == c2 { 1nat } else { 0nat } by {
                lemma_count_char_take_step(s, c2, i as int);
            }
        }
        let cur = counts[c as usize];
        counts.set(c as usize, cur + 1);
        i = i + 1;
    }
    proof {
        assert(s.take(n as int) =~= s);
    }

    // starts[c]: 1 + occurrences of bytes below c
    let mut starts: Vec<usize> = Vec::new();
    let mut acc: usize = 1;
    let mut c2: usize = 0;
    proof {
        lemma_count_lt_zero(s);
    }
    while c2 < 256
        invariant
            c2 <= 256,
            starts@.len() == c2,
            n == s.len() <= crate::MAX_INPUT_LEN,
            s == transformed@,
            counts@.len() == 256,
            forall|c: u8| #![auto] counts@[c as int] == count_char(s, c),
            forall|c: u8| #![auto] (c as int) < c2 ==> starts@[c as int] == 1 + count_lt(s, c),
            c2 < 256 ==> acc == 1 + count_lt(s, c2 as u8),
            acc <= 1 + n,
        decreases 256 - c2,
    {
        starts.push(acc);
        proof {
            lemma_counts_bound(s, c2 as u8);
            if c2 < 255 {
                lemma_count_lt_step(s, c2 as u8);
            }
        }
        let cc = counts[c2];
        acc = acc + cc;
        c2 = c2 + 1;
    }

    // lf[i]: the last-to-first mapping, in [1, n]
    let mut seen: Vec<usize> = Vec::new();
    let mut ci2: usize = 0;
    while ci2 < 256
        invariant
            ci2 <= 256,
            seen@.len() == ci2,
            forall|c: int| 0 <= c < ci2 ==> seen@[c] == 0,
        decreases 256 - ci2,
    {
        seen.push(0);
        ci2 = ci2 + 1;
    }
    proof {
        assert forall|c: u8| #![auto] count_char(s.take(0), c) == 0 by {
            assert(s.take(0) =~= Seq::<u8>::empty());
        }
    }
    let mut lf: Vec<usize> = Vec::new();
    let mut i2: usize = 0;
    while i2 < n
        invariant
            i2 <= n,
            n == s.len() <= crate::MAX_INPUT_LEN,
            s == transformed@,
            starts@.len() == 256,
            seen@.len() == 256,
            lf@.len() == i2,
            forall|c: u8| #![auto] starts@[c as int] == 1 + count_lt(s, c),
            forall|c: u8| #![auto] seen@[c as int] == count_char(s.take(i2 as int), c),
            forall|x: int| 0 <= x < i2 ==> 1 <= #[trigger] lf@[x] <= n && lf@[x] == lf_spec(s, x),
        decreases n - i2,
    {
        let c = transformed[i2];
        let st = starts[c as usize];
        let sn = seen[c as usize];
        proof {
            lemma_count_char_take_step(s, c, i2 as int);
            lemma_count_char_mono(s, c, i2 as int + 1);
            lemma_counts_bound(s, c);
            assert(count_char(s.take(i2 as int), c) + 1 <= count_char(s, c));
            assert(st + sn <= n);
            assert forall|cx: u8| #![auto] count_char(s.take(i2 as int + 1), cx)
                == count_char(s.take(i2 as int), cx) + if s[i2 as int] == cx { 1nat } else { 0nat } by {
                lemma_count_char_take_step(s, cx, i2 as int);
            }
        }
        lf.push(st + sn);
        seen.set(c as usize, sn + 1);
        i2 = i2 + 1;
    }

    // the walk: emit the block back to front
    let mut out: Vec<u8> = Vec::new();
    let mut oi: usize = 0;
    while oi < n
        invariant
            oi <= n,
            out@.len() == oi,
            forall|x: int| 0 <= x < oi ==> out@[x] == 0,
        decreases n - oi,
    {
        out.push(0);
        oi = oi + 1;
    }
    out.set(n - 1, transformed[0]);
    let mut r: usize = lf[0];
    let mut k: usize = 1;
    proof {
        assert(walk_idx(s, p as int, 0) == 0);
        assert(r == lf_spec(s, walk_idx(s, p as int, 0)));
    }
    while k < n
        invariant
            1 <= k <= n,
            n == s.len() <= crate::MAX_INPUT_LEN,
            s == transformed@,
            p == primary_index + 1 <= n,
            out@.len() == n,
            lf@.len() == n,
            forall|x: int| 0 <= x < n ==> 1 <= #[trigger] lf@[x] <= n && lf@[x] == lf_spec(s, x),
            1 <= r <= n,
            r == lf_spec(s, walk_idx(s, p as int, (k - 1) as nat)),
            forall|j: int| 0 <= j < k ==> out@[n - 1 - j] == s[#[trigger] walk_idx(s, p as int, j as nat)],
        decreases n - k,
    {
        let ix: usize = if r < p { r } else { r - 1 };
        proof {
            assert(walk_idx(s, p as int, k as nat) == ix);
        }
        out.set(n - 1 - k, transformed[ix]);
        r = lf[ix];
        k = k + 1;
    }
    out
}

} // verus!
