//! The layer allocator: a small fixed number of layers, each admitting a
//! fixed small capacity of the highest-frequency remaining symbols.
//!
//! A layer's code table is an ordered vector of symbols in pop order;
//! the intra-layer code of the entry at index `j` is `j + 1`, so codes
//! within a layer are distinct values in `[1, LAYER_CAPACITY]`, and a
//! layer stream stores `code - 1` in `CODE_BITS` bits.

use vstd::prelude::*;
use crate::bits::{BitPacker, code_bits};
use crate::symbols::SYMBOL_SPACE;

verus! {

/// One code layer: its admitted symbols in pop order, and its packed
/// bit-stream under construction.
pub struct Layer {
    pub symbols: Vec<u16>,
    pub packer: BitPacker,
}

/// Index of the first occurrence of `s` in `t` (meaningful only when
/// `t.contains(s)`).
pub open spec fn first_idx(t: Seq<u16>, s: u16) -> int
    decreases t.len(),
{
    if t.len() == 0 {
        0
    } else if t[0] == s {
        0
    } else {
        1 + first_idx(t.skip(1), s)
    }
}

pub proof fn lemma_first_idx(t: Seq<u16>, s: u16)
    requires
        t.contains(s),
    ensures
        0 <= first_idx(t, s) < t.len(),
        t[first_idx(t, s)] == s,
    decreases t.len(),
{
    if t.len() > 0 && t[0] != s {
        assert(t.skip(1).contains(s)) by {
            let i = choose|i: int| 0 <= i < t.len() && t[i] == s;
            assert(t.skip(1)[i - 1] == s);
        }
        lemma_first_idx(t.skip(1), s);
    }
}

/// No symbol appears twice, within one layer or across two layers.
pub open spec fn distinct_tables(tables: Seq<Seq<u16>>) -> bool {
    forall|l1: int, j1: int, l2: int, j2: int|
        0 <= l1 < tables.len() && 0 <= j1 < tables[l1].len()
            && 0 <= l2 < tables.len() && 0 <= j2 < tables[l2].len()
            && (l1 != l2 || j1 != j2)
            ==> tables[l1][j1] != tables[l2][j2]
}

/// The layer and intra-table index a symbol was admitted at: the first
/// layer whose table holds it, scanned in rank order.
pub open spec fn lookup(tables: Seq<Seq<u16>>, s: u16) -> Option<(int, int)>
    decreases tables.len(),
{
    if tables.len() == 0 {
        None
    } else if tables[0].contains(s) {
        Some((0, first_idx(tables[0], s)))
    } else {
        match lookup(tables.skip(1), s) {
            None => None,
            Some((l, j)) => Some((l + 1, j)),
        }
    }
}

/// With globally distinct tables, membership in table `l` decides the
/// lookup result.
pub proof fn lemma_lookup_member(tables: Seq<Seq<u16>>, s: u16, l: int)
    requires
        distinct_tables(tables),
        0 <= l < tables.len(),
        tables[l].contains(s),
    ensures
        lookup(tables, s) == Some((l, first_idx(tables[l], s))),
    decreases tables.len(),
{
    lemma_first_idx(tables[l], s);
    if l == 0 {
    } else {
        assert(!tables[0].contains(s)) by {
            if tables[0].contains(s) {
                lemma_first_idx(tables[0], s);
                assert(tables[0][first_idx(tables[0], s)] == tables[l][first_idx(tables[l], s)]);
            }
        }
        let sub = tables.skip(1);
        assert(distinct_tables(sub)) by {
            assert forall|l1: int, j1: int, l2: int, j2: int|
                0 <= l1 < sub.len() && 0 <= j1 < sub[l1].len()
                    && 0 <= l2 < sub.len() && 0 <= j2 < sub[l2].len()
                    && (l1 != l2 || j1 != j2)
                    implies sub[l1][j1] != sub[l2][j2] by {
                assert(sub[l1] == tables[l1 + 1] && sub[l2] == tables[l2 + 1]);
            }
        }
        assert(sub[l - 1] == tables[l]);
        lemma_lookup_member(sub, s, l - 1);
    }
}

/// A symbol in no table is admitted nowhere.
pub proof fn lemma_lookup_absent(tables: Seq<Seq<u16>>, s: u16)
    requires
        forall|l: int| 0 <= l < tables.len() ==> !tables[l].contains(s),
    ensures
        lookup(tables, s) == None::<(int, int)>,
    decreases tables.len(),
{
    if tables.len() > 0 {
        let sub = tables.skip(1);
        assert forall|l: int| 0 <= l < sub.len() implies !sub[l].contains(s) by {
            assert(sub[l] == tables[l + 1]);
        }
        lemma_lookup_absent(sub, s);
    }
}

impl Layer {
    pub fn new() -> (r: Layer)
        ensures
            r.symbols@ == Seq::<u16>::empty(),
            r.packer.wf(),
            r.packer.view() == Seq::<bool>::empty(),
    {
        let r = Layer { symbols: Vec::new(), packer: BitPacker::new() };
        proof {
            assert(r.symbols@ =~= Seq::<u16>::empty());
        }
        r
    }
}

/// Greedy ordering used by the allocator: strictly higher frequency
/// first, ties broken by ascending symbol value.
pub open spec fn ranks_before(freq: Seq<u64>, a: u16, b: u16) -> bool {
    freq[a as int] > freq[b as int] || (freq[a as int] == freq[b as int] && a < b)
}

/// The highest-frequency symbol still carrying a nonzero count, ties
/// broken by ascending symbol value.
fn find_max(freq: &Vec<u64>) -> (r: Option<u16>)
    requires
        freq@.len() == SYMBOL_SPACE,
    ensures
        match r {
            None => forall|v: u16| #![auto] freq@[v as int] == 0,
            Some(s) => freq@[s as int] >= 1
                && forall|v: u16| #![auto] v != s ==> !ranks_before(freq@, v, s),
        },
{
    let mut best_s: usize = 0;
    let mut best_f: u64 = 0;
    let mut i: usize = 0;
    while i < SYMBOL_SPACE
        invariant
            i <= SYMBOL_SPACE,
            freq@.len() == SYMBOL_SPACE,
            best_f == 0 ==> forall|j: int| 0 <= j < i ==> freq@[j] == 0,
            best_f >= 1 ==> best_s < i && freq@[best_s as int] == best_f
                && forall|j: int| #![auto] 0 <= j < i && j != best_s
                    ==> freq@[j] < best_f || (freq@[j] == best_f && best_s < j),
        decreases SYMBOL_SPACE - i,
    {
        if freq[i] > best_f {
            best_f = freq[i];
            best_s = i;
        }
        i = i + 1;
    }
    if best_f == 0 {
        None
    } else {
        Some(best_s as u16)
    }
}

/// Sum of the table's frequencies under a frequency table.
pub open spec fn picks_sum(freq: Seq<u64>, picks: Seq<u16>) -> int
    decreases picks.len(),
{
    if picks.len() == 0 {
        0
    } else {
        picks_sum(freq, picks.drop_last()) + freq[picks.last() as int]
    }
}

/// Pop the `LAYER_CAPACITY` highest-frequency remaining symbols (fewer
/// if the table is exhausted) into one layer, zeroing their counts, and
/// report the frequency mass the layer consumed.
pub fn fill_layer(layer: &mut Layer, freq: &mut Vec<u64>) -> (freq_sum: u64)
    requires
        old(layer).symbols@.len() == 0,
        old(freq)@.len() == SYMBOL_SPACE,
        forall|j: int| 0 <= j < SYMBOL_SPACE ==> old(freq)@[j] <= 0x7FFF_FFFF,
    ensures
        final(freq)@.len() == SYMBOL_SPACE,
        final(layer).packer == old(layer).packer,
        final(layer).symbols@.len() <= crate::LAYER_CAPACITY,
        // a symbol's count is zeroed exactly by admission
        forall|v: u16| #![auto] final(freq)@[v as int]
            == if final(layer).symbols@.contains(v) { 0u64 } else { old(freq)@[v as int] },
        // admitted symbols had a nonzero count, and are distinct
        forall|j: int| #![auto] 0 <= j < final(layer).symbols@.len()
            ==> old(freq)@[final(layer).symbols@[j] as int] >= 1,
        forall|j1: int, j2: int| 0 <= j1 < j2 < final(layer).symbols@.len()
            ==> final(layer).symbols@[j1] != final(layer).symbols@[j2],
        // pop order: strictly descending rank under the original counts
        forall|j1: int, j2: int| #![auto] 0 <= j1 < j2 < final(layer).symbols@.len()
            ==> ranks_before(old(freq)@, final(layer).symbols@[j1], final(layer).symbols@[j2]),
        // everything admitted outranks everything left behind
        forall|j: int, v: u16| #![auto] 0 <= j < final(layer).symbols@.len()
            && final(freq)@[v as int] >= 1
            ==> ranks_before(old(freq)@, final(layer).symbols@[j], v),
        // a partially filled layer means the table was exhausted
        final(layer).symbols@.len() < crate::LAYER_CAPACITY
            ==> forall|v: u16| #![auto] final(freq)@[v as int] == 0,
        freq_sum == picks_sum(old(freq)@, final(layer).symbols@),
        freq_sum <= crate::LAYER_CAPACITY * 0x7FFF_FFFF,
{
    let ghost orig = freq@;
    let mut freq_sum: u64 = 0;
    let mut i: usize = 0;
    while i < crate::LAYER_CAPACITY
        invariant
            i <= crate::LAYER_CAPACITY,
            freq@.len() == SYMBOL_SPACE,
            layer.packer == old(layer).packer,
            layer.symbols@.len() <= i,
            orig == old(freq)@,
            forall|j: int| 0 <= j < SYMBOL_SPACE ==> orig[j] <= 0x7FFF_FFFF,
            forall|v: u16| #![auto] freq@[v as int]
                == if layer.symbols@.contains(v) { 0u64 } else { orig[v as int] },
            forall|j: int| #![auto] 0 <= j < layer.symbols@.len()
                ==> orig[layer.symbols@[j] as int] >= 1,
            forall|j1: int, j2: int| 0 <= j1 < j2 < layer.symbols@.len()
                ==> layer.symbols@[j1] != layer.symbols@[j2],
            forall|j1: int, j2: int| #![auto] 0 <= j1 < j2 < layer.symbols@.len()
                ==> ranks_before(orig, layer.symbols@[j1], layer.symbols@[j2]),
            forall|j: int, v: u16| #![auto] 0 <= j < layer.symbols@.len()
                && freq@[v as int] >= 1
                ==> ranks_before(orig, layer.symbols@[j], v),
            layer.symbols@.len() < i ==> forall|v: u16| #![auto] freq@[v as int] == 0,
            freq_sum == picks_sum(orig, layer.symbols@),
            freq_sum <= i * 0x7FFF_FFFF,
        decreases crate::LAYER_CAPACITY - i,
    {
        let ghost fc = freq@;
        match find_max(freq) {
            None => {
                proof {
                    assert(layer.symbols@.len() <= i);
                }
            },
            Some(s) => {
                let ghost before = layer.symbols@;
                let f = freq[s as usize];
                proof {
                    assert(!before.contains(s));
                    assert(f == orig[s as int]);
                }
                layer.symbols.push(s);
                freq.set(s as usize, 0);
                freq_sum = freq_sum + f;
                proof {
                    let cur = layer.symbols@;
                    assert(cur.drop_last() =~= before);
                    assert(cur[cur.len() - 1] == s);
                    assert(cur.contains(s));
                    assert forall|v: u16| #![auto] freq@[v as int]
                        == if cur.contains(v) { 0u64 } else { orig[v as int] } by {
                        if v == s {
                        } else {
                            assert(cur.contains(v) <==> before.contains(v)) by {
                                if cur.contains(v) {
                                    let jx = choose|jx: int| 0 <= jx < cur.len() && cur[jx] == v;
                                    assert(jx < before.len() && before[jx] == v);
                                } else if before.contains(v) {
                                    let jx = choose|jx: int| 0 <= jx < before.len()
                                        && before[jx] == v;
                                    assert(cur[jx] == v);
                                }
                            }
                        }
                    }
                    assert forall|j: int, v: u16| #![auto] 0 <= j < cur.len()
                        && freq@[v as int] >= 1
                        implies ranks_before(orig, cur[j], v) by {
                        assert(!cur.contains(v));
                        assert(!before.contains(v)) by {
                            if before.contains(v) {
                                let jx = choose|jx: int| 0 <= jx < before.len()
                                    && before[jx] == v;
                                assert(cur[jx] == v);
                            }
                        }
                        assert(freq@[v as int] == orig[v as int]);
                        assert(fc[v as int] == orig[v as int]);
                        assert(fc[s as int] == orig[s as int]);
                        if j < before.len() {
                            assert(before[j] == cur[j]);
                        } else {
                            assert(cur[j] == s);
                            assert(v != s);
                            assert(!ranks_before(fc, v, s));
                        }
                    }
                    assert forall|j1: int, j2: int| #![auto]
                        0 <= j1 < j2 < cur.len()
                        implies ranks_before(orig, cur[j1], cur[j2]) by {
                        if j2 == cur.len() - 1 {
                            assert(before[j1] == cur[j1]);
                            assert(fc[cur[j2] as int] == orig[cur[j2] as int]);
                        }
                    }
                }
            },
        }
        i = i + 1;
    }
    freq_sum
}

/// Append the intra-layer code of an admitted symbol occurrence to the
/// layer's bit-stream: `code - 1`, in `CODE_BITS` bits.
pub fn encode_onto_layer(layer: &mut Layer, data: &u16)
    requires
        old(layer).packer.wf(),
        old(layer).symbols@.contains(*data),
        old(layer).symbols@.len() <= crate::LAYER_CAPACITY,
        old(layer).packer.view().len() + crate::CODE_BITS <= usize::MAX,
    ensures
        final(layer).symbols == old(layer).symbols,
        final(layer).packer.wf(),
        final(layer).packer.view() == old(layer).packer.view()
            + code_bits(first_idx(old(layer).symbols@, *data) as u8, crate::CODE_BITS as int),
{
    let s: u16 = *data;
    let mut j: usize = 0;
    let n = layer.symbols.len();
    proof {
        lemma_first_idx(layer.symbols@, s);
    }
    while j < n && layer.symbols[j] != s
        invariant
            n == layer.symbols@.len(),
            j <= n,
            layer.symbols@.contains(s),
            forall|k: int| 0 <= k < j ==> layer.symbols@[k] != s,
        decreases n - j,
    {
        j = j + 1;
    }
    proof {
        lemma_first_idx(layer.symbols@, s);
        assert(j < n);
        lemma_first_idx_found(layer.symbols@, s, j as int);
    }
    let c: u8 = j as u8;
    proof {
        assert((c as u16) < (1u16 << 3usize)) by (bit_vector)
            requires c < 8;
    }
    layer.packer.pack(c, crate::CODE_BITS);
}

/// A linear scan that stops at the first match finds `first_idx`.
pub proof fn lemma_first_idx_found(t: Seq<u16>, s: u16, j: int)
    requires
        0 <= j < t.len(),
        t[j] == s,
        forall|k: int| 0 <= k < j ==> t[k] != s,
    ensures
        first_idx(t, s) == j,
    decreases t.len(),
{
    if t[0] != s {
        assert(t.skip(1)[j - 1] == s);
        assert forall|k: int| 0 <= k < j - 1 implies t.skip(1)[k] != s by {
            assert(t.skip(1)[k] == t[k + 1]);
        }
        lemma_first_idx_found(t.skip(1), s, j - 1);
    }
}

/// The tables admit symbol `v` somewhere.
pub open spec fn admitted(tables: Seq<Seq<u16>>, v: u16) -> bool {
    exists|l: int, j: int| 0 <= l < tables.len() && 0 <= j < tables[l].len()
        && (#[trigger] tables[l][j]) == v
}

/// The tables are exactly the greedy rank-bucketed allocation for the
/// frequency table `freq`: seven layers of at most `LAYER_CAPACITY`
/// symbols each, popped in strictly descending `ranks_before` order
/// within and across layers, every admitted symbol occurring and
/// outranking every occurring symbol left out, and a layer short of its
/// capacity only when nothing occurring remained (so all later layers
/// are empty). Under the strict total order these clauses leave exactly
/// one table set for each frequency table.
pub open spec fn greedy_allocation(freq: Seq<u64>, tables: Seq<Seq<u16>>) -> bool {
    &&& tables.len() == crate::LAYER_COUNT
    &&& (forall|l: int| 0 <= l < tables.len() ==> (#[trigger] tables[l]).len() <= crate::LAYER_CAPACITY)
    &&& distinct_tables(tables)
    &&& (forall|l: int, j: int| 0 <= l < tables.len() && 0 <= j < tables[l].len()
        ==> freq[(#[trigger] tables[l][j]) as int] >= 1)
    &&& (forall|l: int, j1: int, j2: int| #![auto] 0 <= l < tables.len()
        && 0 <= j1 < j2 < tables[l].len()
        ==> ranks_before(freq, tables[l][j1], tables[l][j2]))
    &&& (forall|l1: int, j1: int, l2: int, j2: int| #![auto] 0 <= l1 < l2 < tables.len()
        && 0 <= j1 < tables[l1].len() && 0 <= j2 < tables[l2].len()
        ==> ranks_before(freq, tables[l1][j1], tables[l2][j2]))
    &&& (forall|l: int, j: int, v: u16| #![auto] 0 <= l < tables.len()
        && 0 <= j < tables[l].len() && freq[v as int] >= 1 && !admitted(tables, v)
        ==> ranks_before(freq, tables[l][j], v))
    &&& (forall|l: int| 0 <= l < tables.len()
        && (#[trigger] tables[l]).len() < crate::LAYER_CAPACITY
        ==> forall|v: u16| #![auto] freq[v as int] >= 1 ==> admitted(tables, v))
    &&& (forall|l1: int, l2: int| 0 <= l1 < l2 < tables.len()
        && (#[trigger] tables[l1]).len() < crate::LAYER_CAPACITY
        ==> (#[trigger] tables[l2]).len() == 0)
}

/// The two table sets agree at one position: it exists in one exactly
/// when it exists in the other, and the entries are equal.
pub open spec fn pos_agree(t1: Seq<Seq<u16>>, t2: Seq<Seq<u16>>, lp: int, jp: int) -> bool {
    &&& (jp < t1[lp].len() <==> jp < t2[lp].len())
    &&& (jp < t1[lp].len() ==> t1[lp][jp] == t2[lp][jp])
}

/// The two table sets agree at every position lexicographically before
/// `(l, j)`, positions scanned layer by layer in rank order.
pub open spec fn agree_upto(t1: Seq<Seq<u16>>, t2: Seq<Seq<u16>>, l: int, j: int) -> bool
    decreases l, j,
{
    if j > 0 {
        agree_upto(t1, t2, l, j - 1) && pos_agree(t1, t2, l, j - 1)
    } else if l > 0 {
        agree_upto(t1, t2, l - 1, crate::LAYER_CAPACITY as int)
    } else {
        true
    }
}

/// Extract one position's agreement from `agree_upto`.
proof fn lemma_agree_at(t1: Seq<Seq<u16>>, t2: Seq<Seq<u16>>, l: int, j: int, lp: int, jp: int)
    requires
        agree_upto(t1, t2, l, j),
        0 <= j,
        0 <= jp < crate::LAYER_CAPACITY,
        lp < l || (lp == l && jp < j),
        0 <= lp,
    ensures
        pos_agree(t1, t2, lp, jp),
    decreases l, j,
{
    if j > 0 {
        if lp == l && jp == j - 1 {
        } else {
            lemma_agree_at(t1, t2, l, j - 1, lp, jp);
        }
    } else {
        lemma_agree_at(t1, t2, l - 1, crate::LAYER_CAPACITY as int, lp, jp);
    }
}

proof fn lemma_agree_upto_sym(t1: Seq<Seq<u16>>, t2: Seq<Seq<u16>>, l: int, j: int)
    requires
        agree_upto(t1, t2, l, j),
        0 <= j,
    ensures
        agree_upto(t2, t1, l, j),
    decreases l, j,
{
    if j > 0 {
        lemma_agree_upto_sym(t1, t2, l, j - 1);
    } else if l > 0 {
        lemma_agree_upto_sym(t1, t2, l - 1, crate::LAYER_CAPACITY as int);
    }
}

/// One direction of the position step: if `a` holds an entry at
/// `(l, j)` then so does `b`, and the entries are equal.
proof fn lemma_greedy_step_dir(f: Seq<u64>, a: Seq<Seq<u16>>, b: Seq<Seq<u16>>, l: int, j: int)
    requires
        greedy_allocation(f, a),
        greedy_allocation(f, b),
        agree_upto(a, b, l, j),
        0 <= l < crate::LAYER_COUNT,
        0 <= j < crate::LAYER_CAPACITY,
        j < a[l].len(),
    ensures
        j < b[l].len(),
        a[l][j] == b[l][j],
{
    let s1 = a[l][j];
    assert(f[s1 as int] >= 1);
    // b holds the position: were its layer short, b would admit s1
    // somewhere, but every candidate position is ruled out
    if j >= b[l].len() {
        assert(admitted(b, s1));
        let (bl, bj) = choose|bl: int, bj: int| 0 <= bl < b.len() && 0 <= bj < b[bl].len()
            && (#[trigger] b[bl][bj]) == s1;
        if bl < l || (bl == l && bj < j) {
            lemma_agree_at(a, b, l, j, bl, bj);
            assert(a[bl][bj] == a[l][j]);
            assert(false);
        } else if bl == l {
            assert(bj >= j && bj < b[l].len());
            assert(false);
        } else {
            assert(b[l].len() < crate::LAYER_CAPACITY);
            assert(b[bl].len() == 0);
            assert(false);
        }
    }
    let s2 = b[l][j];
    if s1 != s2 {
        // locate s1 in b: it must be there, at a position after (l, j)
        assert(admitted(b, s1)) by {
            if !admitted(b, s1) {
                assert(ranks_before(f, s2, s1));
                // and s2 must then be in a, else both outrank each other
                assert(admitted(a, s2)) by {
                    if !admitted(a, s2) {
                        assert(f[s2 as int] >= 1);
                        assert(ranks_before(f, s1, s2));
                    }
                }
                let (al, aj) = choose|al: int, aj: int| 0 <= al < a.len()
                    && 0 <= aj < a[al].len() && (#[trigger] a[al][aj]) == s2;
                if al < l || (al == l && aj < j) {
                    lemma_agree_at(a, b, l, j, al, aj);
                    assert(b[al][aj] == b[l][j]);
                    assert(false);
                } else if al == l && aj == j {
                    assert(false);
                } else {
                    assert(ranks_before(f, s1, s2));
                    assert(false);
                }
            }
        }
        let (bl, bj) = choose|bl: int, bj: int| 0 <= bl < b.len() && 0 <= bj < b[bl].len()
            && (#[trigger] b[bl][bj]) == s1;
        if bl < l || (bl == l && bj < j) {
            lemma_agree_at(a, b, l, j, bl, bj);
            assert(a[bl][bj] == a[l][j]);
            assert(false);
        } else if bl == l && bj == j {
            assert(false);
        } else {
            // s1 sits after (l, j) in b, so s2 outranks it there
            assert(ranks_before(f, s2, s1));
            // and symmetrically s1 outranks s2 through a
            assert(admitted(a, s2)) by {
                if !admitted(a, s2) {
                    assert(f[s2 as int] >= 1);
                    assert(ranks_before(f, s1, s2));
                    assert(false);
                }
            }
            let (al, aj) = choose|al: int, aj: int| 0 <= al < a.len()
                && 0 <= aj < a[al].len() && (#[trigger] a[al][aj]) == s2;
            if al < l || (al == l && aj < j) {
                lemma_agree_at(a, b, l, j, al, aj);
                assert(b[al][aj] == b[l][j]);
                assert(false);
            } else if al == l && aj == j {
                assert(false);
            } else {
                assert(ranks_before(f, s1, s2));
                assert(false);
            }
        }
    }
}

/// Any two greedy allocations agree on every position up to `(l, j)`.
proof fn lemma_greedy_agree(f: Seq<u64>, t1: Seq<Seq<u16>>, t2: Seq<Seq<u16>>, l: int, j: int)
    requires
        greedy_allocation(f, t1),
        greedy_allocation(f, t2),
        0 <= l < crate::LAYER_COUNT,
        0 <= j < crate::LAYER_CAPACITY,
    ensures
        agree_upto(t1, t2, l, j + 1),
    decreases l, j,
{
    if j > 0 {
        lemma_greedy_agree(f, t1, t2, l, j - 1);
    } else if l > 0 {
        lemma_greedy_agree(f, t1, t2, l - 1, crate::LAYER_CAPACITY as int - 1);
        assert(agree_upto(t1, t2, l, 0));
    } else {
        assert(agree_upto(t1, t2, 0, 0));
    }
    if j < t1[l].len() {
        lemma_greedy_step_dir(f, t1, t2, l, j);
    } else if j < t2[l].len() {
        lemma_agree_upto_sym(t1, t2, l, j);
        lemma_greedy_step_dir(f, t2, t1, l, j);
    }
    assert(pos_agree(t1, t2, l, j));
    assert(agree_upto(t1, t2, l, j + 1));
}

/// The greedy allocation for a frequency table is unique: the clauses
/// of `greedy_allocation` admit exactly one table set, so the layer
/// assignment — and with it everything built over it — is a function
/// of the frequency table.
pub proof fn lemma_greedy_unique(f: Seq<u64>, t1: Seq<Seq<u16>>, t2: Seq<Seq<u16>>)
    requires
        greedy_allocation(f, t1),
        greedy_allocation(f, t2),
    ensures
        t1 =~~= t2,
{
    lemma_greedy_agree(f, t1, t2, crate::LAYER_COUNT as int - 1,
        crate::LAYER_CAPACITY as int - 1);
    assert forall|l: int| 0 <= l < t1.len() implies t1[l] =~= t2[l] by {
        assert(t1[l].len() == t2[l].len()) by {
            if t1[l].len() < t2[l].len() {
                lemma_agree_at(t1, t2, crate::LAYER_COUNT as int - 1,
                    crate::LAYER_CAPACITY as int, l, t1[l].len() as int);
                assert(pos_agree(t1, t2, l, t1[l].len() as int));
            } else if t2[l].len() < t1[l].len() {
                lemma_agree_at(t1, t2, crate::LAYER_COUNT as int - 1,
                    crate::LAYER_CAPACITY as int, l, t2[l].len() as int);
                assert(pos_agree(t1, t2, l, t2[l].len() as int));
            }
        }
        assert forall|jp: int| 0 <= jp < t1[l].len() implies t1[l][jp] == t2[l][jp] by {
            lemma_agree_at(t1, t2, crate::LAYER_COUNT as int - 1,
                crate::LAYER_CAPACITY as int, l, jp);
            assert(pos_agree(t1, t2, l, jp));
        }
    }
    assert(t1 =~~= t2);
}

} // verus!
