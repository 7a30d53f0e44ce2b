//! Encoding and decoding of symbol occurrences against a fixed set of
//! layer tables.
//!
//! Per occurrence, the encoder emits a `SELECTOR_BITS`-wide selector into
//! the main stream: `0` for "admitted to no layer" (the symbol's raw
//! bytes go to the overflow stream), or `rank` (1-based) for a symbol
//! admitted to that layer, whose `code - 1` goes into the layer's own
//! stream. The decoder consumes selectors, layer bits and overflow bytes
//! in lockstep, mirroring encode order exactly.

use vstd::prelude::*;
use crate::bits::{BitPacker, code_bits, bytes_bits, zero_bits, read_code};
use crate::layers::{Layer, lookup, first_idx, distinct_tables, lemma_lookup_member,
    lemma_lookup_absent, lemma_first_idx, lemma_first_idx_found, encode_onto_layer};
use crate::CodecError;

verus! {

/// The tables of a layer list, as mathematical sequences.
pub open spec fn dv(tables: Seq<Vec<u16>>) -> Seq<Seq<u16>> {
    Seq::new(tables.len(), |i: int| tables[i]@)
}

/// Well-formed tables: the fixed layer count, bounded capacity, global
/// distinctness.
pub open spec fn tables_wf(t: Seq<Seq<u16>>) -> bool {
    &&& t.len() == crate::LAYER_COUNT
    &&& forall|l: int| 0 <= l < t.len() ==> t[l].len() <= crate::LAYER_CAPACITY
    &&& distinct_tables(t)
}

/// The selector value emitted for one occurrence of `s`.
pub open spec fn selector_of(t: Seq<Seq<u16>>, s: u16) -> u8 {
    match lookup(t, s) {
        None => 0,
        Some((l, j)) => (l + 1) as u8,
    }
}

/// The main selector stream's bit content for a symbol sequence.
pub open spec fn sel_bits_of(t: Seq<Seq<u16>>, syms: Seq<u16>) -> Seq<bool>
    decreases syms.len(),
{
    if syms.len() == 0 {
        Seq::empty()
    } else {
        sel_bits_of(t, syms.drop_last())
            + code_bits(selector_of(t, syms.last()), crate::SELECTOR_BITS as int)
    }
}

/// The bit content of layer `l`'s stream for a symbol sequence.
pub open spec fn layer_bits_of(t: Seq<Seq<u16>>, syms: Seq<u16>, l: int) -> Seq<bool>
    decreases syms.len(),
{
    if syms.len() == 0 {
        Seq::empty()
    } else {
        layer_bits_of(t, syms.drop_last(), l) + match lookup(t, syms.last()) {
            Some((l2, j)) => if l2 == l {
                code_bits(j as u8, crate::CODE_BITS as int)
            } else {
                Seq::empty()
            },
            None => Seq::empty(),
        }
    }
}

/// The overflow stream's byte content for a symbol sequence: the raw
/// big-endian bytes of every occurrence admitted to no layer.
pub open spec fn overflow_bytes_of(t: Seq<Seq<u16>>, syms: Seq<u16>) -> Seq<u8>
    decreases syms.len(),
{
    if syms.len() == 0 {
        Seq::empty()
    } else {
        overflow_bytes_of(t, syms.drop_last()) + match lookup(t, syms.last()) {
            None => seq![
                ((syms.last() as int) / 256) as u8,
                ((syms.last() as int) % 256) as u8,
            ],
            Some(_) => Seq::empty(),
        }
    }
}

/// Occurrences of the prefix admitted to layer `l`.
pub open spec fn layer_count_of(t: Seq<Seq<u16>>, syms: Seq<u16>, l: int) -> int
    decreases syms.len(),
{
    if syms.len() == 0 {
        0
    } else {
        layer_count_of(t, syms.drop_last(), l) + match lookup(t, syms.last()) {
            Some((l2, j)) => if l2 == l { 1int } else { 0int },
            None => 0int,
        }
    }
}

/// Occurrences of the prefix admitted to no layer.
pub open spec fn overflow_count_of(t: Seq<Seq<u16>>, syms: Seq<u16>) -> int
    decreases syms.len(),
{
    if syms.len() == 0 {
        0
    } else {
        overflow_count_of(t, syms.drop_last()) + match lookup(t, syms.last()) {
            None => 1int,
            Some(_) => 0int,
        }
    }
}

/// A found lookup names a real table entry.
pub proof fn lemma_lookup_props(t: Seq<Seq<u16>>, s: u16)
    ensures
        match lookup(t, s) {
            None => true,
            Some((l, j)) => 0 <= l < t.len() && 0 <= j < t[l].len() && t[l][j] == s,
        },
    decreases t.len(),
{
    if t.len() > 0 {
        if t[0].contains(s) {
            lemma_first_idx(t[0], s);
        } else {
            lemma_lookup_props(t.skip(1), s);
            if lookup(t.skip(1), s) is Some {
                let (l, j) = lookup(t.skip(1), s)->0;
                assert(t.skip(1)[l] == t[l + 1]);
            }
        }
    }
}

/// Does this table hold the symbol?
pub fn table_holds(t: &Vec<u16>, s: u16) -> (r: bool)
    ensures
        r == t@.contains(s),
{
    let mut j: usize = 0;
    let n = t.len();
    while j < n
        invariant
            j <= n,
            n == t@.len(),
            forall|k: int| 0 <= k < j ==> t@[k] != s,
        decreases n - j,
    {
        if t[j] == s {
            proof {
                assert(t@.contains(s));
            }
            return true;
        }
        j = j + 1;
    }
    proof {
        if t@.contains(s) {
            let k = choose|k: int| 0 <= k < t@.len() && t@[k] == s;
        }
    }
    false
}

/// Find the layer and index a symbol was admitted at, scanning layers in
/// rank order.
fn find_symbol(tables: &Vec<Vec<u16>>, s: u16) -> (r: Option<(usize, usize)>)
    requires
        distinct_tables(dv(tables@)),
    ensures
        match r {
            None => lookup(dv(tables@), s) == None::<(int, int)>,
            Some((l, j)) => lookup(dv(tables@), s) == Some((l as int, j as int))
                && l < tables@.len() && j < tables@[l as int]@.len()
                && tables@[l as int]@[j as int] == s,
        },
{
    let ghost t = dv(tables@);
    let mut l: usize = 0;
    let n = tables.len();
    while l < n
        invariant
            l <= n,
            n == tables@.len(),
            t == dv(tables@),
            distinct_tables(t),
            forall|l2: int| #![auto] 0 <= l2 < l ==> !t[l2].contains(s),
        decreases n - l,
    {
        let tab = &tables[l];
        let mut j: usize = 0;
        let m = tab.len();
        while j < m
            invariant
                j <= m,
                m == tab@.len(),
                tab@ == t[l as int],
                l < n,
                n == tables@.len(),
                t == dv(tables@),
                distinct_tables(t),
                forall|k: int| 0 <= k < j ==> tab@[k] != s,
            decreases m - j,
        {
            if tab[j] == s {
                proof {
                    assert(t[l as int].contains(s));
                    lemma_lookup_member(t, s, l as int);
                    lemma_first_idx_found(t[l as int], s, j as int);
                }
                return Some((l, j));
            }
            j = j + 1;
        }
        proof {
            assert(!t[l as int].contains(s)) by {
                if t[l as int].contains(s) {
                    let k = choose|k: int| 0 <= k < t[l as int].len() && t[l as int][k] == s;
                }
            }
        }
        l = l + 1;
    }
    proof {
        lemma_lookup_absent(t, s);
    }
    None
}

/// All packed streams an encode produces for one symbol sequence.
pub struct EncodedStreams {
    /// Main selector stream bytes and its count of trailing unused bits.
    pub sel: Vec<u8>,
    pub sel_unused: u8,
    /// One packed stream (bytes, unused bits) per layer, in rank order.
    pub layer_streams: Vec<(Vec<u8>, u8)>,
    /// Raw bytes of the occurrences admitted to no layer.
    pub overflow: Vec<u8>,
}

/// A packed layer stream carries exactly layer `l`'s bit content.
pub open spec fn lstream_ok(ls: (Vec<u8>, u8), t: Seq<Seq<u16>>, syms: Seq<u16>, l: int) -> bool {
    &&& ls.1 < 8
    &&& bytes_bits(ls.0@) == layer_bits_of(t, syms, l) + zero_bits(ls.1 as int)
    &&& ls.0@.len() * 8 == layer_bits_of(t, syms, l).len() + ls.1
}

/// The streams hold exactly the spec-level content for `t` and `syms`.
pub open spec fn streams_match(r: EncodedStreams, t: Seq<Seq<u16>>, syms: Seq<u16>) -> bool {
    &&& r.sel_unused < 8
    &&& bytes_bits(r.sel@) == sel_bits_of(t, syms) + zero_bits(r.sel_unused as int)
    &&& r.sel@.len() * 8 == sel_bits_of(t, syms).len() + r.sel_unused
    &&& r.layer_streams@.len() == t.len()
    &&& forall|l: int| 0 <= l < t.len() ==> lstream_ok(#[trigger] r.layer_streams@[l], t, syms, l)
    &&& r.overflow@ == overflow_bytes_of(t, syms)
}

proof fn lemma_sel3_bound(v: u8)
    by (bit_vector)
    requires
        v < 8,
    ensures
        (v as u16) < (1u16 << 3usize),
{
}

/// Build the main selector stream, every layer's stream, and the
/// overflow stream for one symbol sequence.
pub fn encode_streams(tables: &Vec<Vec<u16>>, syms: &Vec<u16>) -> (r: EncodedStreams)
    requires
        tables_wf(dv(tables@)),
        syms@.len() <= 0x0FFF_FFFF,
    ensures
        streams_match(r, dv(tables@), syms@),
{
    let ghost t = dv(tables@);
    let n = syms.len();

    // main selector stream
    let mut selp = BitPacker::new();
    let mut k: usize = 0;
    proof {
        assert(syms@.take(0) =~= Seq::<u16>::empty());
    }
    while k < n
        invariant
            k <= n,
            n == syms@.len() <= 0x0FFF_FFFF,
            t == dv(tables@),
            tables_wf(t),
            selp.wf(),
            selp.view() == sel_bits_of(t, syms@.take(k as int)),
        decreases n - k,
    {
        let s = syms[k];
        let sel: u8 = match find_symbol(tables, s) {
            Some((l, _j)) => (l + 1) as u8,
            None => 0,
        };
        proof {
            lemma_sel3_bound(sel);
            lemma_sel_bits_len(t, syms@.take(k as int));
        }
        selp.pack(sel, crate::SELECTOR_BITS);
        proof {
            let pre = syms@.take(k as int);
            let cur = syms@.take(k as int + 1);
            assert(cur.drop_last() =~= pre);
            assert(cur.last() == syms@[k as int]);
            assert(selector_of(t, syms@[k as int]) == sel);
        }
        k = k + 1;
    }
    proof {
        assert(syms@.take(n as int) =~= syms@);
    }
    let selfin = selp.finish();
    let sel = selfin.0;
    let sel_unused = selfin.1;
    proof {
        assert(bytes_bits(sel@) == sel_bits_of(t, syms@) + zero_bits(sel_unused as int));
    }

    // one stream per layer
    let mut layer_streams: Vec<(Vec<u8>, u8)> = Vec::new();
    let mut l: usize = 0;
    while l < tables.len()
        invariant
            l <= tables@.len(),
            t == dv(tables@),
            tables_wf(t),
            n == syms@.len() <= 0x0FFF_FFFF,
            layer_streams@.len() == l,
            forall|l2: int| 0 <= l2 < l
                ==> lstream_ok(#[trigger] layer_streams@[l2], t, syms@, l2),
        decreases tables@.len() - l,
    {
        let mut table: Vec<u16> = Vec::new();
        let src = &tables[l];
        let mut c: usize = 0;
        while c < src.len()
            invariant
                c <= src@.len(),
                table@ == src@.take(c as int),
            decreases src@.len() - c,
        {
            let x = src[c];
            table.push(x);
            proof {
                assert(table@ =~= src@.take(c as int + 1));
            }
            c = c + 1;
        }
        proof {
            assert(src@.take(src@.len() as int) =~= src@);
        }
        let mut layer = Layer { symbols: table, packer: BitPacker::new() };
        let mut k2: usize = 0;
        proof {
            assert(syms@.take(0) =~= Seq::<u16>::empty());
        }
        while k2 < n
            invariant
                k2 <= n,
                n == syms@.len() <= 0x0FFF_FFFF,
                t == dv(tables@),
                tables_wf(t),
                l < tables@.len(),
                layer.symbols@ == t[l as int],
                layer.packer.wf(),
                layer.packer.view() == layer_bits_of(t, syms@.take(k2 as int), l as int),
            decreases n - k2,
        {
            let s = syms[k2];
            let ghost pre = syms@.take(k2 as int);
            let ghost cur = syms@.take(k2 as int + 1);
            proof {
                assert(cur.drop_last() =~= pre);
                assert(cur.last() == syms@[k2 as int]);
                lemma_layer_bits_len(t, pre, l as int);
                lemma_layer_count_bound(t, pre, l as int);
            }
            if table_holds(&layer.symbols, s) {
                proof {
                    lemma_lookup_member(t, s, l as int);
                }
                encode_onto_layer(&mut layer, &s);
            } else {
                proof {
                    lemma_lookup_props(t, s);
                    if lookup(t, s) is Some {
                        let (l2, j2) = lookup(t, s)->0;
                        if l2 == l as int {
                            assert(t[l2][j2] == s);
                            assert(t[l as int].contains(s));
                        }
                    }
                    assert(layer.packer.view() == layer_bits_of(t, cur, l as int));
                }
            }
            k2 = k2 + 1;
        }
        proof {
            assert(syms@.take(n as int) =~= syms@);
        }
        let Layer { symbols: _symbols, packer } = layer;
        let ghost pview = packer.view();
        let lfin = packer.finish();
        let ghost before = layer_streams@;
        proof {
            assert(lfin.1 < 8);
        }
        layer_streams.push(lfin);
        proof {
            assert(pview == layer_bits_of(t, syms@, l as int));
            assert(lstream_ok(lfin, t, syms@, l as int));
            assert forall|l2: int| 0 <= l2 < l + 1
                implies lstream_ok(#[trigger] layer_streams@[l2], t, syms@, l2) by {
                if l2 < l {
                    assert(layer_streams@[l2] == before[l2]);
                } else {
                    assert(layer_streams@[l2] == lfin);
                }
            }
        }
        l = l + 1;
    }

    // overflow stream
    let mut overflow: Vec<u8> = Vec::new();
    let mut k3: usize = 0;
    proof {
        assert(syms@.take(0) =~= Seq::<u16>::empty());
        assert(overflow@ =~= overflow_bytes_of(t, syms@.take(0)));
    }
    while k3 < n
        invariant
            k3 <= n,
            n == syms@.len() <= 0x0FFF_FFFF,
            t == dv(tables@),
            tables_wf(t),
            overflow@ == overflow_bytes_of(t, syms@.take(k3 as int)),
        decreases n - k3,
    {
        let s = syms[k3];
        let ghost pre = syms@.take(k3 as int);
        let ghost cur = syms@.take(k3 as int + 1);
        proof {
            assert(cur.drop_last() =~= pre);
            assert(cur.last() == syms@[k3 as int]);
        }
        match find_symbol(tables, s) {
            Some(_) => {
                proof {
                    assert(overflow@ =~= overflow_bytes_of(t, cur));
                }
            },
            None => {
                let hi: u8 = (s / 256) as u8;
                let lo: u8 = (s % 256) as u8;
                overflow.push(hi);
                overflow.push(lo);
                proof {
                    assert(overflow@ =~= overflow_bytes_of(t, cur));
                }
            },
        }
        k3 = k3 + 1;
    }
    proof {
        assert(syms@.take(n as int) =~= syms@);
    }

    EncodedStreams { sel, sel_unused, layer_streams, overflow }
}

/// The selector stream holds exactly `SELECTOR_BITS` bits per occurrence.
pub proof fn lemma_sel_bits_len(t: Seq<Seq<u16>>, syms: Seq<u16>)
    ensures
        sel_bits_of(t, syms).len() == crate::SELECTOR_BITS * syms.len(),
    decreases syms.len(),
{
    if syms.len() > 0 {
        lemma_sel_bits_len(t, syms.drop_last());
    }
}

/// A layer's stream holds exactly `CODE_BITS` bits per occurrence
/// admitted to it.
pub proof fn lemma_layer_bits_len(t: Seq<Seq<u16>>, syms: Seq<u16>, l: int)
    ensures
        layer_bits_of(t, syms, l).len() == crate::CODE_BITS * layer_count_of(t, syms, l),
    decreases syms.len(),
{
    if syms.len() > 0 {
        lemma_layer_bits_len(t, syms.drop_last(), l);
    }
}

/// The overflow stream holds exactly the raw bytes of the occurrences
/// admitted nowhere.
pub proof fn lemma_overflow_bytes_len(t: Seq<Seq<u16>>, syms: Seq<u16>)
    ensures
        overflow_bytes_of(t, syms).len() == 2 * overflow_count_of(t, syms),
    decreases syms.len(),
{
    if syms.len() > 0 {
        lemma_overflow_bytes_len(t, syms.drop_last());
    }
}

/// Per-layer and overflow occurrence counts are bounded by the number of
/// occurrences, and every occurrence is counted exactly once: the layer
/// counts and the overflow count together cover the sequence.
pub proof fn lemma_layer_count_bound(t: Seq<Seq<u16>>, syms: Seq<u16>, l: int)
    ensures
        0 <= layer_count_of(t, syms, l) <= syms.len(),
        0 <= overflow_count_of(t, syms) <= syms.len(),
    decreases syms.len(),
{
    if syms.len() > 0 {
        lemma_layer_count_bound(t, syms.drop_last(), l);
    }
}

/// Two 3-bit groups with the same bits are the same value.
proof fn lemma_code3_bits(a: u8, b: u8, b2: bool, b1: bool, b0: bool)
    by (bit_vector)
    requires
        a < 8,
        b < 8,
        ((a >> 2u8) & 1 == 1) == b2,
        ((a >> 1u8) & 1 == 1) == b1,
        ((a >> 0u8) & 1 == 1) == b0,
        ((b >> 2u8) & 1 == 1) == b2,
        ((b >> 1u8) & 1 == 1) == b1,
        ((b >> 0u8) & 1 == 1) == b0,
    ensures
        a == b,
{
}

/// Equal 3-bit chunks come from equal values.
pub proof fn lemma_code3_inj(a: u8, b: u8)
    requires
        a < 8,
        b < 8,
        code_bits(a, 3) == code_bits(b, 3),
    ensures
        a == b,
{
    assert(code_bits(a, 3)[0] == code_bits(b, 3)[0]);
    assert(code_bits(a, 3)[1] == code_bits(b, 3)[1]);
    assert(code_bits(a, 3)[2] == code_bits(b, 3)[2]);
    lemma_code3_bits(a, b, code_bits(a, 3)[0], code_bits(a, 3)[1], code_bits(a, 3)[2]);
}

/// A selector stream prefix is the stream of the symbol prefix.
pub proof fn lemma_sel_bits_take(t: Seq<Seq<u16>>, syms: Seq<u16>, k: int)
    requires
        0 <= k <= syms.len(),
    ensures
        sel_bits_of(t, syms.take(k)) == sel_bits_of(t, syms).take(3 * k),
    decreases syms.len(),
{
    lemma_sel_bits_len(t, syms);
    lemma_sel_bits_len(t, syms.take(k));
    if k == syms.len() {
        assert(syms.take(k) =~= syms);
        assert(sel_bits_of(t, syms).take(3 * k) =~= sel_bits_of(t, syms));
    } else {
        let d = syms.drop_last();
        assert(syms.take(k) =~= d.take(k));
        lemma_sel_bits_take(t, d, k);
        lemma_sel_bits_len(t, d);
        assert(sel_bits_of(t, syms).take(3 * k) =~= sel_bits_of(t, d).take(3 * k));
    }
}

/// The selector chunk of occurrence `k` sits at bit `3k` of the stream.
pub proof fn lemma_sel_bits_at(t: Seq<Seq<u16>>, syms: Seq<u16>, k: int)
    requires
        0 <= k < syms.len(),
    ensures
        sel_bits_of(t, syms).subrange(3 * k, 3 * k + 3)
            == code_bits(selector_of(t, syms[k]), 3),
{
    let pre = syms.take(k);
    let cur = syms.take(k + 1);
    assert(cur.drop_last() =~= pre);
    assert(cur.last() == syms[k]);
    lemma_sel_bits_take(t, syms, k);
    lemma_sel_bits_take(t, syms, k + 1);
    lemma_sel_bits_len(t, pre);
    lemma_sel_bits_len(t, cur);
    lemma_sel_bits_len(t, syms);
    assert(sel_bits_of(t, cur) == sel_bits_of(t, pre) + code_bits(selector_of(t, syms[k]), 3));
    assert(sel_bits_of(t, pre).len() == 3 * k);
    assert(sel_bits_of(t, cur) == sel_bits_of(t, syms).take(3 * k + 3));
    assert forall|i: int| 0 <= i < 3 implies
        sel_bits_of(t, syms).subrange(3 * k, 3 * k + 3)[i]
            == code_bits(selector_of(t, syms[k]), 3)[i] by {
        assert(sel_bits_of(t, syms)[3 * k + i] == sel_bits_of(t, syms).take(3 * k + 3)[3 * k + i]);
        assert(sel_bits_of(t, cur)[3 * k + i] == code_bits(selector_of(t, syms[k]), 3)[i]);
    }
    assert(sel_bits_of(t, syms).subrange(3 * k, 3 * k + 3)
        =~= code_bits(selector_of(t, syms[k]), 3));
}

/// A layer stream prefix is the stream of the symbol prefix.
pub proof fn lemma_layer_bits_take(t: Seq<Seq<u16>>, syms: Seq<u16>, k: int, l: int)
    requires
        0 <= k <= syms.len(),
    ensures
        layer_bits_of(t, syms.take(k), l)
            == layer_bits_of(t, syms, l).take(layer_bits_of(t, syms.take(k), l).len() as int),
        layer_bits_of(t, syms.take(k), l).len() <= layer_bits_of(t, syms, l).len(),
    decreases syms.len(),
{
    if k == syms.len() {
        assert(syms.take(k) =~= syms);
        assert(layer_bits_of(t, syms, l).take(layer_bits_of(t, syms, l).len() as int)
            =~= layer_bits_of(t, syms, l));
    } else {
        let d = syms.drop_last();
        assert(syms.take(k) =~= d.take(k));
        lemma_layer_bits_take(t, d, k, l);
        let plen = layer_bits_of(t, syms.take(k), l).len() as int;
        assert(layer_bits_of(t, syms, l).take(plen) =~= layer_bits_of(t, d, l).take(plen));
    }
}

/// The code chunk of an occurrence admitted to layer `l` sits right
/// after the chunks of the prefix's occurrences admitted to `l`.
pub proof fn lemma_layer_bits_at(t: Seq<Seq<u16>>, syms: Seq<u16>, k: int, l: int, j: int)
    requires
        0 <= k < syms.len(),
        lookup(t, syms[k]) == Some((l, j)),
    ensures
        layer_bits_of(t, syms, l).subrange(
            3 * layer_count_of(t, syms.take(k), l),
            3 * layer_count_of(t, syms.take(k), l) + 3,
        ) == code_bits(j as u8, 3),
        layer_count_of(t, syms.take(k + 1), l) == layer_count_of(t, syms.take(k), l) + 1,
{
    let pre = syms.take(k);
    let cur = syms.take(k + 1);
    assert(cur.drop_last() =~= pre);
    assert(cur.last() == syms[k]);
    lemma_layer_bits_take(t, syms, k, l);
    lemma_layer_bits_take(t, syms, k + 1, l);
    lemma_layer_bits_len(t, pre, l);
    lemma_layer_bits_len(t, cur, l);
    assert(layer_bits_of(t, cur, l) == layer_bits_of(t, pre, l) + code_bits(j as u8, 3));
    let p = 3 * layer_count_of(t, pre, l);
    assert(layer_bits_of(t, pre, l).len() == p);
    assert(layer_bits_of(t, cur, l).len() == p + 3);
    assert(layer_bits_of(t, cur, l) == layer_bits_of(t, syms, l).take(p + 3));
    let sub = layer_bits_of(t, syms, l).subrange(p, p + 3);
    let ch = code_bits(j as u8, 3);
    assert forall|i: int| 0 <= i < 3 implies sub[i] == ch[i] by {
        assert(layer_bits_of(t, syms, l)[p + i] == layer_bits_of(t, syms, l).take(p + 3)[p + i]);
        assert(layer_bits_of(t, cur, l)[p + i] == ch[i]);
    }
    assert(sub =~= ch);
}

/// An occurrence not admitted to layer `l` leaves the layer count alone.
pub proof fn lemma_layer_count_skip(t: Seq<Seq<u16>>, syms: Seq<u16>, k: int, l: int)
    requires
        0 <= k < syms.len(),
        !(lookup(t, syms[k]) matches Some((l2, _)) && l2 == l),
    ensures
        layer_count_of(t, syms.take(k + 1), l) == layer_count_of(t, syms.take(k), l),
{
    let pre = syms.take(k);
    let cur = syms.take(k + 1);
    assert(cur.drop_last() =~= pre);
    assert(cur.last() == syms[k]);
}

/// An overflow stream prefix is the stream of the symbol prefix.
pub proof fn lemma_overflow_take(t: Seq<Seq<u16>>, syms: Seq<u16>, k: int)
    requires
        0 <= k <= syms.len(),
    ensures
        overflow_bytes_of(t, syms.take(k))
            == overflow_bytes_of(t, syms).take(overflow_bytes_of(t, syms.take(k)).len() as int),
        overflow_bytes_of(t, syms.take(k)).len() <= overflow_bytes_of(t, syms).len(),
    decreases syms.len(),
{
    if k == syms.len() {
        assert(syms.take(k) =~= syms);
        assert(overflow_bytes_of(t, syms).take(overflow_bytes_of(t, syms).len() as int)
            =~= overflow_bytes_of(t, syms));
    } else {
        let d = syms.drop_last();
        assert(syms.take(k) =~= d.take(k));
        lemma_overflow_take(t, d, k);
        let plen = overflow_bytes_of(t, syms.take(k)).len() as int;
        assert(overflow_bytes_of(t, syms).take(plen) =~= overflow_bytes_of(t, d).take(plen));
    }
}

/// The raw bytes of an occurrence admitted nowhere sit right after the
/// bytes of the prefix's overflowed occurrences.
pub proof fn lemma_overflow_at(t: Seq<Seq<u16>>, syms: Seq<u16>, k: int)
    requires
        0 <= k < syms.len(),
        lookup(t, syms[k]) == None::<(int, int)>,
    ensures
        overflow_bytes_of(t, syms).subrange(
            2 * overflow_count_of(t, syms.take(k)),
            2 * overflow_count_of(t, syms.take(k)) + 2,
        ) == seq![((syms[k] as int) / 256) as u8, ((syms[k] as int) % 256) as u8],
        overflow_count_of(t, syms.take(k + 1)) == overflow_count_of(t, syms.take(k)) + 1,
{
    let pre = syms.take(k);
    let cur = syms.take(k + 1);
    assert(cur.drop_last() =~= pre);
    assert(cur.last() == syms[k]);
    lemma_overflow_take(t, syms, k);
    lemma_overflow_take(t, syms, k + 1);
    lemma_overflow_bytes_len(t, pre);
    lemma_overflow_bytes_len(t, cur);
    let q = 2 * overflow_count_of(t, pre);
    let chunk = seq![((syms[k] as int) / 256) as u8, ((syms[k] as int) % 256) as u8];
    assert(overflow_bytes_of(t, cur) == overflow_bytes_of(t, pre) + chunk);
    assert(overflow_bytes_of(t, pre).len() == q);
    assert(overflow_bytes_of(t, cur).len() == q + 2);
    assert(overflow_bytes_of(t, cur) == overflow_bytes_of(t, syms).take(q + 2));
    assert forall|i: int| 0 <= i < 2 implies
        overflow_bytes_of(t, syms).subrange(q, q + 2)[i] == chunk[i] by {
        assert(overflow_bytes_of(t, syms)[q + i] == overflow_bytes_of(t, syms).take(q + 2)[q + i]);
        assert(overflow_bytes_of(t, cur)[q + i] == chunk[i]);
    }
    assert(overflow_bytes_of(t, syms).subrange(q, q + 2) =~= chunk);
}

/// An admitted occurrence leaves the overflow count alone.
pub proof fn lemma_overflow_count_skip(t: Seq<Seq<u16>>, syms: Seq<u16>, k: int)
    requires
        0 <= k < syms.len(),
        lookup(t, syms[k]) is Some,
    ensures
        overflow_count_of(t, syms.take(k + 1)) == overflow_count_of(t, syms.take(k)),
{
    let pre = syms.take(k);
    let cur = syms.take(k + 1);
    assert(cur.drop_last() =~= pre);
    assert(cur.last() == syms[k]);
}

/// The stream set and occurrence count describe the encode of `orig`.
pub open spec fn honest_input(t: Seq<Seq<u16>>, nsym: int, streams: EncodedStreams, orig: Seq<u16>) -> bool {
    orig.len() == nsym && streams_match(streams, t, orig)
}

proof fn lemma_val3_small(v: u8)
    by (bit_vector)
    requires
        (v as u16) < (1u16 << 3usize),
    ensures
        v < 8,
{
}

/// Decode `nsym` symbol occurrences back out of the packed streams,
/// consuming selectors, layer bits and overflow bytes in lockstep. The
/// decoder is total: on streams that do not describe an encode it
/// reports the occurrence index at which they desynchronised.
pub fn decode_symbols(tables: &Vec<Vec<u16>>, nsym: usize, streams: &EncodedStreams)
    -> (r: Result<Vec<u16>, CodecError>)
    requires
        tables_wf(dv(tables@)),
        nsym <= 0x0FFF_FFFF,
        streams.sel@.len() <= 0x1FFF_FFFF,
        streams.layer_streams@.len() == crate::LAYER_COUNT,
        forall|l: int| 0 <= l < crate::LAYER_COUNT
            ==> (#[trigger] streams.layer_streams@[l]).0@.len() <= 0x1FFF_FFFF,
        streams.overflow@.len() <= 0x3FFF_FFFF,
    ensures
        r matches Ok(v) ==> v@.len() == nsym,
        forall|orig: Seq<u16>| honest_input(dv(tables@), nsym as int, *streams, orig)
            ==> (r matches Ok(v) && v@ == orig),
{
    let ghost t = dv(tables@);
    let sel_len = streams.sel.len();
    let sel_total: usize = 8 * sel_len;
    if (streams.sel_unused as usize) > sel_total {
        proof {
            assert forall|orig: Seq<u16>| honest_input(t, nsym as int, *streams, orig)
                implies false by {
                lemma_sel_bits_len(t, orig);
            }
        }
        return Err(CodecError::CorruptContainer(0));
    }
    let sel_avail: usize = sel_total - (streams.sel_unused as usize);

    let mut lpos: Vec<usize> = Vec::new();
    let mut li: usize = 0;
    while li < crate::LAYER_COUNT
        invariant
            li <= crate::LAYER_COUNT,
            lpos@.len() == li,
            forall|l: int| 0 <= l < li ==> lpos@[l] == 0,
        decreases crate::LAYER_COUNT - li,
    {
        lpos.push(0);
        li = li + 1;
    }
    let mut opos: usize = 0;
    let mut out: Vec<u16> = Vec::new();
    let mut k: usize = 0;
    let olen = streams.overflow.len();
    proof {
        assert forall|orig: Seq<u16>| honest_input(t, nsym as int, *streams, orig)
            implies out@ == orig.take(0)
                && (forall|l: int| 0 <= l < crate::LAYER_COUNT
                    ==> #[trigger] lpos@[l] == 3 * layer_count_of(t, orig.take(0), l))
                && opos == 2 * overflow_count_of(t, orig.take(0)) by {
            assert(orig.take(0) =~= Seq::<u16>::empty());
            assert(out@ =~= orig.take(0));
        }
    }
    while k < nsym
        invariant
            k <= nsym <= 0x0FFF_FFFF,
            t == dv(tables@),
            tables_wf(t),
            out@.len() == k,
            lpos@.len() == crate::LAYER_COUNT,
            opos <= olen == streams.overflow@.len() <= 0x3FFF_FFFF,
            sel_len == streams.sel@.len() <= 0x1FFF_FFFF,
            sel_avail + streams.sel_unused == 8 * sel_len,
            streams.layer_streams@.len() == crate::LAYER_COUNT,
            forall|l: int| 0 <= l < crate::LAYER_COUNT
                ==> (#[trigger] streams.layer_streams@[l]).0@.len() <= 0x1FFF_FFFF,
            forall|l: int| 0 <= l < crate::LAYER_COUNT
                ==> #[trigger] lpos@[l] <= 8 * streams.layer_streams@[l].0@.len(),
            forall|orig: Seq<u16>| #[trigger] honest_input(t, nsym as int, *streams, orig)
                ==> out@ == orig.take(k as int)
                    && (forall|l: int| 0 <= l < crate::LAYER_COUNT
                        ==> #[trigger] lpos@[l] == 3 * layer_count_of(t, orig.take(k as int), l))
                    && opos == 2 * overflow_count_of(t, orig.take(k as int)),
        decreases nsym - k,
    {
        let ghost lpos0 = lpos@;
        let ghost opos0 = opos as int;
        let ghost out0 = out@;
        if 3 * k + 3 > sel_avail {
            proof {
                assert forall|orig: Seq<u16>| honest_input(t, nsym as int, *streams, orig)
                    implies false by {
                    lemma_sel_bits_len(t, orig);
                }
            }
            return Err(CodecError::CorruptContainer(k));
        }
        let v = read_code(&streams.sel, 3 * k, 3);
        proof {
            lemma_val3_small(v);
            assert forall|orig: Seq<u16>| #[trigger] honest_input(t, nsym as int, *streams, orig)
                implies v == selector_of(t, orig[k as int]) by {
                lemma_sel_bits_len(t, orig);
                lemma_sel_bits_at(t, orig, k as int);
                let full = bytes_bits(streams.sel@);
                assert(full.subrange(3 * k as int, 3 * k as int + 3)
                    =~= sel_bits_of(t, orig).subrange(3 * k as int, 3 * k as int + 3));
                lemma_lookup_props(t, orig[k as int]);
                lemma_code3_inj(v, selector_of(t, orig[k as int]));
            }
        }
        let sym: u16;
        if v == 0 {
            if opos + 2 > olen {
                proof {
                    assert forall|orig: Seq<u16>| honest_input(t, nsym as int, *streams, orig)
                        implies false by {
                        assert(v == selector_of(t, orig[k as int]));
                        lemma_lookup_props(t, orig[k as int]);
                        if lookup(t, orig[k as int]) is Some {
                            let (l2, _j2) = lookup(t, orig[k as int])->0;
                            assert(0 <= l2 < 7);
                        }
                        lemma_overflow_at(t, orig, k as int);
                        lemma_overflow_take(t, orig, k as int + 1);
                        lemma_overflow_bytes_len(t, orig.take(k as int));
                        lemma_overflow_bytes_len(t, orig.take(k as int + 1));
                    }
                }
                return Err(CodecError::CorruptContainer(k));
            }
            let hi = streams.overflow[opos];
            let lo = streams.overflow[opos + 1];
            sym = (hi as u16) * 256 + (lo as u16);
            opos = opos + 2;
            proof {
                assert forall|orig: Seq<u16>| #[trigger] honest_input(t, nsym as int, *streams, orig)
                    implies out@.push(sym) == orig.take(k as int + 1)
                        && (forall|l: int| 0 <= l < crate::LAYER_COUNT
                            ==> #[trigger] lpos@[l] == 3 * layer_count_of(t, orig.take(k as int + 1), l))
                        && opos == 2 * overflow_count_of(t, orig.take(k as int + 1)) by {
                    assert(v == selector_of(t, orig[k as int]));
                    lemma_lookup_props(t, orig[k as int]);
                    if lookup(t, orig[k as int]) is Some {
                        let (l2, _j2) = lookup(t, orig[k as int])->0;
                        assert(0 <= l2 < 7);
                    }
                    assert(lookup(t, orig[k as int]) is None);
                    lemma_overflow_at(t, orig, k as int);
                    let x = orig[k as int] as int;
                    assert(hi as int == x / 256 && lo as int == x % 256);
                    vstd::arithmetic::div_mod::lemma_fundamental_div_mod(x, 256);
                    assert(x / 256 < 256) by (nonlinear_arith)
                        requires 0 <= x < 65536;
                    assert(sym == orig[k as int]);
                    assert(out@.push(sym) =~= orig.take(k as int + 1));
                    assert forall|l: int| 0 <= l < crate::LAYER_COUNT
                        implies #[trigger] lpos@[l]
                            == 3 * layer_count_of(t, orig.take(k as int + 1), l) by {
                        lemma_layer_count_skip(t, orig, k as int, l);
                    }
                }
            }
        } else {
            let l = (v - 1) as usize;
            proof {
                assert forall|orig: Seq<u16>| honest_input(t, nsym as int, *streams, orig)
                    implies lookup(t, orig[k as int]) == Some((l as int, first_idx(t[l as int], orig[k as int]))) by {
                    assert(v == selector_of(t, orig[k as int]));
                    lemma_lookup_props(t, orig[k as int]);
                    let (l2, j2) = lookup(t, orig[k as int])->0;
                    assert(0 <= l2 < 7);
                    assert((l2 + 1) as u8 == v);
                    assert(l2 == l as int);
                    assert(t[l2][j2] == orig[k as int]);
                    assert(t[l2].contains(orig[k as int]));
                    lemma_lookup_member(t, orig[k as int], l2);
                }
            }
            if l >= crate::LAYER_COUNT {
                proof {
                    assert forall|orig: Seq<u16>| honest_input(t, nsym as int, *streams, orig)
                        implies false by {
                        lemma_lookup_props(t, orig[k as int]);
                    }
                }
                return Err(CodecError::CorruptContainer(k));
            }
            let lstream = &streams.layer_streams[l];
            let ls_len = lstream.0.len();
            let ls_total = 8 * ls_len;
            let cur_lpos = lpos[l];
            if (lstream.1 as usize) > ls_total {
                proof {
                    assert forall|orig: Seq<u16>| honest_input(t, nsym as int, *streams, orig)
                        implies false by {
                        assert(lstream_ok(streams.layer_streams@[l as int], t, orig, l as int));
                    }
                }
                return Err(CodecError::CorruptContainer(k));
            }
            let lavail = ls_total - (lstream.1 as usize);
            if cur_lpos + 3 > lavail {
                proof {
                    assert forall|orig: Seq<u16>| honest_input(t, nsym as int, *streams, orig)
                        implies false by {
                        lemma_layer_bits_at(t, orig, k as int, l as int,
                            first_idx(t[l as int], orig[k as int]));
                        lemma_layer_bits_take(t, orig, k as int + 1, l as int);
                        lemma_layer_bits_len(t, orig.take(k as int), l as int);
                        lemma_layer_bits_len(t, orig.take(k as int + 1), l as int);
                        lemma_layer_bits_len(t, orig, l as int);
                    }
                }
                return Err(CodecError::CorruptContainer(k));
            }
            proof {
                assert(cur_lpos + 3 <= 8 * lstream.0@.len());
            }
            let j = read_code(&lstream.0, cur_lpos, 3);
            proof {
                lemma_val3_small(j);
                assert forall|orig: Seq<u16>| honest_input(t, nsym as int, *streams, orig)
                    implies j as int == first_idx(t[l as int], orig[k as int]) by {
                    let j2 = first_idx(t[l as int], orig[k as int]);
                    lemma_lookup_props(t, orig[k as int]);
                    lemma_layer_bits_at(t, orig, k as int, l as int, j2);
                    lemma_layer_bits_len(t, orig.take(k as int), l as int);
                    lemma_layer_bits_len(t, orig, l as int);
                    let lb = layer_bits_of(t, orig, l as int);
                    assert(bytes_bits(lstream.0@).subrange(cur_lpos as int, cur_lpos as int + 3)
                        =~= lb.subrange(cur_lpos as int, cur_lpos as int + 3));
                    assert(0 <= j2 < 8);
                    lemma_code3_inj(j, j2 as u8);
                }
            }
            let tab = &tables[l];
            if (j as usize) >= tab.len() {
                proof {
                    assert forall|orig: Seq<u16>| honest_input(t, nsym as int, *streams, orig)
                        implies false by {
                        lemma_lookup_props(t, orig[k as int]);
                    }
                }
                return Err(CodecError::CorruptContainer(k));
            }
            sym = tab[j as usize];
            lpos.set(l, cur_lpos + 3);
            proof {
                assert forall|orig: Seq<u16>| #[trigger] honest_input(t, nsym as int, *streams, orig)
                    implies out@.push(sym) == orig.take(k as int + 1)
                        && (forall|l2: int| 0 <= l2 < crate::LAYER_COUNT
                            ==> #[trigger] lpos@[l2] == 3 * layer_count_of(t, orig.take(k as int + 1), l2))
                        && opos == 2 * overflow_count_of(t, orig.take(k as int + 1)) by {
                    let j2 = first_idx(t[l as int], orig[k as int]);
                    lemma_lookup_props(t, orig[k as int]);
                    assert(t[l as int][j2] == orig[k as int]);
                    assert(sym == orig[k as int]);
                    assert(out@.push(sym) =~= orig.take(k as int + 1));
                    lemma_layer_bits_at(t, orig, k as int, l as int, j2);
                    assert forall|l2: int| 0 <= l2 < crate::LAYER_COUNT
                        implies #[trigger] lpos@[l2]
                            == 3 * layer_count_of(t, orig.take(k as int + 1), l2) by {
                        if l2 == l as int {
                            assert(lpos@[l2] == cur_lpos + 3);
                        } else {
                            lemma_layer_count_skip(t, orig, k as int, l2);
                            assert(lpos@[l2] == lpos0[l2]);
                        }
                    }
                    lemma_overflow_count_skip(t, orig, k as int);
                }
            }
        }
        out.push(sym);
        k = k + 1;
    }
    proof {
        assert forall|orig: Seq<u16>| #[trigger] honest_input(t, nsym as int, *streams, orig)
            implies out@ == orig by {
            assert(out@ == orig.take(nsym as int));
            assert(orig.take(nsym as int) =~= orig);
        }
    }
    Ok(out)
}

/// Every occurrence is accounted for exactly once: over any symbol
/// sequence, the seven layers' consumed-occurrence counts and the
/// overflow count partition the occurrences, matching the selector
/// stream one to one in count and order.
pub proof fn lemma_occurrence_partition(t: Seq<Seq<u16>>, syms: Seq<u16>)
    requires
        t.len() == crate::LAYER_COUNT,
    ensures
        layer_count_of(t, syms, 0) + layer_count_of(t, syms, 1) + layer_count_of(t, syms, 2)
            + layer_count_of(t, syms, 3) + layer_count_of(t, syms, 4)
            + layer_count_of(t, syms, 5) + layer_count_of(t, syms, 6)
            + overflow_count_of(t, syms) == syms.len(),
        sel_bits_of(t, syms).len() == crate::SELECTOR_BITS * syms.len(),
    decreases syms.len(),
{
    lemma_sel_bits_len(t, syms);
    if syms.len() > 0 {
        lemma_occurrence_partition(t, syms.drop_last());
        lemma_lookup_props(t, syms.last());
    }
}

} // verus!
