//! MSB-first bit accumulation into byte buffers, and its inverse.
//!
//! A `BitPacker` collects single bits (most significant first within each
//! emitted byte) into a byte buffer, keeping fewer than eight pending bits
//! in a carry buffer. `finish` pads the trailing partial byte with zero
//! bits and reports how many of the final byte's bits are unused.
//! Reading is done positionally with `read_code`, which extracts a
//! fixed-width group of bits from a packed buffer.

use vstd::prelude::*;

verus! {

/// Bit `i` (0 = most significant) of byte `b`.
pub open spec fn bit_of(b: u8, i: int) -> bool {
    (b >> (7 - i) as u8) & 1 == 1
}

/// All bits of a byte buffer, MSB first within each byte.
pub open spec fn bytes_bits(s: Seq<u8>) -> Seq<bool> {
    Seq::new(s.len() * 8, |i: int| bit_of(s[i / 8], i % 8))
}

/// The `width` low bits of `code`, most significant of the group first.
pub open spec fn code_bits(code: u8, width: int) -> Seq<bool> {
    Seq::new(width as nat, |i: int| (code >> (width - 1 - i) as u8) & 1 == 1)
}

/// `n` zero bits.
pub open spec fn zero_bits(n: int) -> Seq<bool> {
    Seq::new(n as nat, |i: int| false)
}

/// The logical bit content of a packed buffer whose final `unused` bits
/// are padding: everything the matching `BitPacker` accumulated.
pub open spec fn unpacked_bits(s: Seq<u8>, unused: int) -> Seq<bool> {
    bytes_bits(s).take(s.len() * 8 - unused)
}

proof fn lemma_shift_in_bit(a: u8, c: u8, k: u8, k1: u8)
    by (bit_vector)
    requires
        c <= 1,
        k < 7,
        k1 == k + 1,
    ensures
        ((a << 1 | c) >> k1) & 1 == (a >> k) & 1,
        (a << 1 | c) & 1 == c,
{
}

proof fn lemma_shift_in_bit_low(a: u8, c: u8)
    by (bit_vector)
    requires
        c <= 1,
    ensures
        (a << 1 | c) & 1 == c,
{
}

proof fn lemma_pad_bits(a: u8, bc: u8, j: u8, u: u8, j7: u8)
    by (bit_vector)
    requires
        0 < bc < 8,
        a < (1u8 << bc),
        j < 8,
        u == 8 - bc,
        j7 == 7 - j,
    ensures
        j < bc ==> ((a << u) >> j7) & 1 == (a >> ((bc - 1 - j) as u8)) & 1,
        j >= bc ==> ((a << u) >> j7) & 1 == 0,
{
}

/// Accumulates bits MSB-first into whole bytes, carrying fewer than
/// eight pending bits between calls.
pub struct BitPacker {
    bytes: Vec<u8>,
    buffer: u8,
    bit_count: u8,
}

impl BitPacker {
    /// Internal consistency: fewer than eight pending bits, held in the
    /// low bits of the carry buffer.
    pub closed spec fn wf(self) -> bool {
        &&& self.bit_count < 8
        &&& (self.buffer as u16) < (1u16 << self.bit_count)
    }

    /// Every bit accumulated so far, in arrival order.
    pub closed spec fn view(self) -> Seq<bool> {
        bytes_bits(self.bytes@)
            + Seq::new(self.bit_count as nat,
                |i: int| (self.buffer >> (self.bit_count - 1 - i) as u8) & 1 == 1)
    }

    pub fn new() -> (r: BitPacker)
        ensures
            r.wf(),
            r.view() == Seq::<bool>::empty(),
    {
        let r = BitPacker { bytes: Vec::new(), buffer: 0, bit_count: 0 };
        proof {
            assert(0u16 < (1u16 << 0u8)) by (bit_vector);
            assert(r.view() =~= Seq::<bool>::empty());
        }
        r
    }

    /// Append one bit.
    pub fn push_bit(&mut self, b: bool)
        requires
            old(self).wf(),
            old(self).view().len() < usize::MAX,
        ensures
            final(self).wf(),
            final(self).view() == old(self).view().push(b),
    {
        let c: u8 = if b { 1 } else { 0 };
        let ghost prev = *self;
        proof {
            let bu = prev.buffer;
            let bc = prev.bit_count;
            assert(bu < 128u8) by (bit_vector)
                requires (bu as u16) < (1u16 << bc) && bc < 8;
        }
        let nb: u8 = (self.buffer << 1) | c;
        if self.bit_count == 7 {
            self.bytes.push(nb);
            self.buffer = 0;
            self.bit_count = 0;
            proof {
                assert(0u16 < (1u16 << 0u8)) by (bit_vector);
                let ghost s = prev.bytes@;
                let ghost nv = self.view();
                let ghost ov = prev.view().push(b);
                assert(nv.len() == ov.len());
                assert forall|i: int| 0 <= i < nv.len() implies nv[i] == ov[i] by {
                    if i < s.len() * 8 {
                        assert(0 <= i / 8 < s.len());
                        assert(self.bytes@[i / 8] == s[i / 8]);
                    } else {
                        let j = i - s.len() * 8;
                        assert(i / 8 == s.len());
                        assert(i % 8 == j);
                        assert(self.bytes@[i / 8] == nb);
                        if j < 7 {
                            lemma_shift_in_bit(prev.buffer, c, (6 - j) as u8, (7 - j) as u8);
                            assert((nb >> (7 - j) as u8) & 1 == (prev.buffer >> (6 - j) as u8) & 1);
                            assert(nv[i] == ov[i]);
                        } else {
                            lemma_shift_in_bit_low(prev.buffer, c);
                            assert((nb >> 0u8) & 1 == nb & 1) by (bit_vector);
                            assert(nv[i] == ov[i]);
                        }
                    }
                }
                assert(nv =~= ov);
            }
        } else {
            proof {
                let nbc: u8 = (prev.bit_count + 1) as u8;
                lemma_carry_bound_wide(prev.buffer, c, prev.bit_count, nbc);
            }
            self.buffer = nb;
            self.bit_count = self.bit_count + 1;
            proof {
                let ghost nv = self.view();
                let ghost ov = prev.view().push(b);
                assert(nv.len() == ov.len());
                assert forall|i: int| 0 <= i < nv.len() implies nv[i] == ov[i] by {
                    if i >= prev.bytes@.len() * 8 {
                        let j = i - prev.bytes@.len() * 8;
                        if j < prev.bit_count {
                            lemma_shift_in_bit(prev.buffer, c, (prev.bit_count - 1 - j) as u8, (prev.bit_count - j) as u8);
                            assert(nv[i] == ov[i]);
                        } else {
                            lemma_shift_in_bit_low(prev.buffer, c);
                            assert((nb >> 0u8) & 1 == nb & 1) by (bit_vector);
                            assert(nv[i] == ov[i]);
                        }
                    }
                }
                assert(nv =~= ov);
            }
        }
    }

    /// Append the `width` low bits of `code`, most significant first.
    pub fn pack(&mut self, code: u8, width: usize)
        requires
            old(self).wf(),
            1 <= width <= 8,
            (code as u16) < (1u16 << width),
            old(self).view().len() + width <= usize::MAX,
        ensures
            final(self).wf(),
            final(self).view() == old(self).view() + code_bits(code, width as int),
    {
        let ghost base = self.view();
        let mut j: usize = 0;
        while j < width
            invariant
                self.wf(),
                j <= width,
                1 <= width <= 8,
                base.len() + width <= usize::MAX,
                self.view() == base + code_bits(code, width as int).take(j as int),
            decreases width - j,
        {
            let bit: bool = (code >> ((width - 1 - j) as u8)) & 1 == 1;
            self.push_bit(bit);
            proof {
                assert(self.view() =~= base + code_bits(code, width as int).take(j as int + 1));
            }
            j = j + 1;
        }
        proof {
            assert(code_bits(code, width as int).take(width as int) =~= code_bits(code, width as int));
        }
    }

    /// Pad any pending bits into one final byte and report how many bits
    /// of that byte are padding. The packed bytes carry exactly the
    /// accumulated bits followed by `r.1` zero bits.
    pub fn finish(self) -> (r: (Vec<u8>, u8))
        requires
            self.wf(),
        ensures
            r.1 < 8,
            bytes_bits(r.0@) == self.view() + zero_bits(r.1 as int),
            r.0@.len() * 8 == self.view().len() + r.1,
    {
        let BitPacker { mut bytes, buffer, bit_count } = self;
        let ghost v = self.view();
        if bit_count == 0 {
            proof {
                assert(bytes_bits(bytes@) =~= v + zero_bits(0));
            }
            (bytes, 0)
        } else {
            let unused: u8 = 8 - bit_count;
            proof {
                assert(buffer < (1u8 << bit_count)) by (bit_vector)
                    requires (buffer as u16) < (1u16 << bit_count) && 0 < bit_count < 8;
            }
            let last: u8 = buffer << unused;
            let ghost s = bytes@;
            bytes.push(last);
            proof {
                let ghost nv = bytes_bits(bytes@);
                let ghost ov = v + zero_bits(unused as int);
                assert(nv.len() == ov.len());
                assert forall|i: int| 0 <= i < nv.len() implies nv[i] == ov[i] by {
                    if i < s.len() * 8 {
                        assert(bytes@[i / 8] == s[i / 8]);
                    } else {
                        let j = i - s.len() * 8;
                        assert(bytes@[i / 8] == last);
                        lemma_pad_bits(buffer, bit_count, j as u8, (8 - bit_count) as u8, (7 - j) as u8);
                    }
                }
                assert(nv =~= ov);
            }
            (bytes, unused)
        }
    }
}

/// Read `width` bits starting at bit position `start` from a packed
/// buffer, MSB first within each byte, into the low bits of a byte.
pub fn read_code(bytes: &Vec<u8>, start: usize, width: usize) -> (r: u8)
    requires
        width <= 8,
        start + width <= bytes@.len() * 8,
        start + width <= usize::MAX,
    ensures
        (r as u16) < (1u16 << (width as u8)),
        code_bits(r, width as int) == bytes_bits(bytes@).subrange(start as int, (start + width) as int),
{
    let mut v: u8 = 0;
    let mut j: usize = 0;
    proof {
        assert(0u16 < (1u16 << (0usize as u8))) by (bit_vector);
        assert(code_bits(0, 0) =~= bytes_bits(bytes@).subrange(start as int, start as int));
    }
    while j < width
        invariant
            j <= width <= 8,
            start + width <= bytes@.len() * 8,
            start + width <= usize::MAX,
            (v as u16) < (1u16 << (j as u8)),
            code_bits(v, j as int) == bytes_bits(bytes@).subrange(start as int, (start + j) as int),
        decreases width - j,
    {
        let pos = start + j;
        proof {
            assert(0 <= pos / 8 < bytes@.len());
        }
        let byte = bytes[pos / 8];
        let sh: u8 = (7 - pos % 8) as u8;
        let c: u8 = (byte >> sh) & 1;
        proof {
            assert((byte >> sh) & 1 <= 1) by (bit_vector);
        }
        let ghost pv = v;
        v = (v << 1) | c;
        proof {
            lemma_carry_bound_wide(pv, c, j as u8, (j + 1) as u8);
            let ghost ns = code_bits(v, j as int + 1);
            let ghost os = bytes_bits(bytes@).subrange(start as int, (start + j) as int + 1);
            assert(ns.len() == os.len());
            assert forall|i: int| 0 <= i < ns.len() implies ns[i] == os[i] by {
                if i < j {
                    lemma_shift_in_bit(pv, c, (j - 1 - i) as u8, (j - i) as u8);
                    assert(ns[i] == code_bits(pv, j as int)[i]);
                    assert(os[i] == code_bits(pv, j as int)[i]);
                } else {
                    lemma_shift_in_bit_low(pv, c);
                    assert((v >> 0u8) & 1 == v & 1) by (bit_vector);
                    assert(os[i] == bit_of(bytes@[(start + j) / 8], (start + j) % 8));
                    assert(byte == bytes@[(pos / 8) as int]);
                    assert((pos / 8) as int == (start + j) / 8);
                    assert((pos % 8) as int == (start + j) % 8);
                    assert(sh as int == 7 - (start + j) % 8);
                    assert(c == 1 <==> bit_of(bytes@[(start + j) / 8], (start + j) % 8));
                }
            }
            assert(ns =~= os);
        }
        j = j + 1;
    }
    v
}

proof fn lemma_carry_bound_wide(a: u8, c: u8, k: u8, k1: u8)
    by (bit_vector)
    requires
        c <= 1,
        k < 8,
        k1 == k + 1,
        (a as u16) < (1u16 << k),
    ensures
        ((a << 1 | c) as u16) < (1u16 << k1),
{
}

/// Unpacking a finished buffer with its recorded count of unused bits
/// yields exactly the accumulated bit sequence: no more, no fewer bits.
pub proof fn lemma_bit_round_trip(v: Seq<bool>, packed: Seq<u8>, unused: int)
    requires
        0 <= unused < 8,
        bytes_bits(packed) == v + zero_bits(unused),
        packed.len() * 8 == v.len() + unused,
    ensures
        unpacked_bits(packed, unused) == v,
{
    assert(unpacked_bits(packed, unused) =~= v);
}

proof fn lemma_byte_from_bits(a: u8, b: u8, b0: bool, b1: bool, b2: bool, b3: bool,
    b4: bool, b5: bool, b6: bool, b7: bool)
    by (bit_vector)
    requires
        ((a >> 7u8) & 1 == 1) == b0,
        ((a >> 6u8) & 1 == 1) == b1,
        ((a >> 5u8) & 1 == 1) == b2,
        ((a >> 4u8) & 1 == 1) == b3,
        ((a >> 3u8) & 1 == 1) == b4,
        ((a >> 2u8) & 1 == 1) == b5,
        ((a >> 1u8) & 1 == 1) == b6,
        ((a >> 0u8) & 1 == 1) == b7,
        ((b >> 7u8) & 1 == 1) == b0,
        ((b >> 6u8) & 1 == 1) == b1,
        ((b >> 5u8) & 1 == 1) == b2,
        ((b >> 4u8) & 1 == 1) == b3,
        ((b >> 3u8) & 1 == 1) == b4,
        ((b >> 2u8) & 1 == 1) == b5,
        ((b >> 1u8) & 1 == 1) == b6,
        ((b >> 0u8) & 1 == 1) == b7,
    ensures
        a == b,
{
}

/// A byte buffer is determined by its bit content: equal bits of equal
/// length come from equal bytes.
pub proof fn lemma_bytes_bits_inj(x: Seq<u8>, y: Seq<u8>)
    requires
        x.len() == y.len(),
        bytes_bits(x) == bytes_bits(y),
    ensures
        x == y,
{
    assert forall|k: int| 0 <= k < x.len() implies x[k] == y[k] by {
        assert forall|i: int| 0 <= i < 8 implies bit_of(x[k], i) == bit_of(y[k], i) by {
            assert(bytes_bits(x)[8 * k + i] == bit_of(x[k], i));
            assert(bytes_bits(y)[8 * k + i] == bit_of(y[k], i));
        }
        lemma_byte_from_bits(x[k], y[k],
            bit_of(x[k], 0), bit_of(x[k], 1), bit_of(x[k], 2), bit_of(x[k], 3),
            bit_of(x[k], 4), bit_of(x[k], 5), bit_of(x[k], 6), bit_of(x[k], 7));
    }
    assert(x =~= y);
}

} // verus!
