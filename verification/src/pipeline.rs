//! The whole encode and decode pipelines: block transform, residual
//! transform, symbol assembly, layer allocation, occurrence coding, and
//! the container around them.

use vstd::prelude::*;
use crate::bwt::{self, bwt_of, bwt_primary_of, walk_idx};
use crate::residual::{self, residual_seq, decoded_at};
use crate::symbols::{self, symbols_of, bytes_of_symbols, freq_seq};
use crate::layers::{Layer, fill_layer, distinct_tables, ranks_before, admitted, greedy_allocation,
    lemma_greedy_unique};
use crate::codec::{self, dv, tables_wf};
use crate::bits::{bytes_bits, zero_bits};
use crate::container::{self, Container, container_wf, image_of, same_container,
    header_bytes, layers_bytes, tail_bytes, container_bytes};
use crate::CodecError;

verus! {

/// Run the layer allocator over a frequency table: seven layers, filled
/// in rank order from the highest-frequency remaining symbols, leaving
/// exactly the greedy rank-bucketed allocation.
fn allocate_layers(freq: &mut Vec<u64>) -> (tables: Vec<Vec<u16>>)
    requires
        old(freq)@.len() == symbols::SYMBOL_SPACE,
        forall|j: int| 0 <= j < symbols::SYMBOL_SPACE ==> old(freq)@[j] <= 0x0FFF_FFFF,
    ensures
        tables_wf(dv(tables@)),
        forall|l: int| 0 <= l < crate::LAYER_COUNT
            ==> (#[trigger] tables@[l])@.len() <= crate::LAYER_CAPACITY,
        greedy_allocation(old(freq)@, dv(tables@)),
{
    let ghost orig = old(freq)@;
    let mut tables: Vec<Vec<u16>> = Vec::new();
    let mut l: usize = 0;
    while l < crate::LAYER_COUNT
        invariant
            l <= crate::LAYER_COUNT,
            tables@.len() == l,
            freq@.len() == symbols::SYMBOL_SPACE,
            orig == old(freq)@,
            forall|j: int| 0 <= j < symbols::SYMBOL_SPACE ==> freq@[j] <= 0x0FFF_FFFF,
            forall|l2: int| 0 <= l2 < l
                ==> (#[trigger] tables@[l2])@.len() <= crate::LAYER_CAPACITY,
            distinct_tables(dv(tables@)),
            // an admitted symbol occurred, and its count is zeroed
            forall|l2: int, j2: int| 0 <= l2 < l && 0 <= j2 < tables@[l2]@.len()
                ==> freq@[#[trigger] tables@[l2]@[j2] as int] == 0
                    && orig[tables@[l2]@[j2] as int] >= 1,
            // an un-admitted symbol's count is untouched
            forall|v: u16| #![auto] !admitted(dv(tables@), v)
                ==> freq@[v as int] == orig[v as int],
            // strictly descending rank within each layer
            forall|l2: int, j1: int, j2: int| #![auto] 0 <= l2 < l
                && 0 <= j1 < j2 < tables@[l2]@.len()
                ==> ranks_before(orig, tables@[l2]@[j1], tables@[l2]@[j2]),
            // and across layers in rank order
            forall|l1: int, j1: int, l2: int, j2: int| #![auto] 0 <= l1 < l2 < l
                && 0 <= j1 < tables@[l1]@.len() && 0 <= j2 < tables@[l2]@.len()
                ==> ranks_before(orig, tables@[l1]@[j1], tables@[l2]@[j2]),
            // every admitted symbol outranks everything still counted
            forall|l2: int, j2: int, v: u16| #![auto] 0 <= l2 < l
                && 0 <= j2 < tables@[l2]@.len() && freq@[v as int] >= 1
                ==> ranks_before(orig, tables@[l2]@[j2], v),
            // a short layer means the table was exhausted there
            forall|l2: int| 0 <= l2 < l && (#[trigger] tables@[l2])@.len() < crate::LAYER_CAPACITY
                ==> forall|v: u16| #![auto] freq@[v as int] == 0,
            // nothing follows a short layer
            forall|l1: int, l2: int| 0 <= l1 < l2 < l
                && (#[trigger] tables@[l1])@.len() < crate::LAYER_CAPACITY
                ==> (#[trigger] tables@[l2])@.len() == 0,
        decreases crate::LAYER_COUNT - l,
    {
        let ghost fq0 = freq@;
        let mut layer = Layer::new();
        let _consumed = fill_layer(&mut layer, freq);
        let Layer { symbols: tab, packer: _packer } = layer;
        let ghost tsnap = tables@;
        tables.push(tab);
        proof {
            let nt = dv(tables@);
            assert(nt =~= dv(tsnap).push(tables@[l as int]@));
            let newtab = tables@[l as int]@;

            // a symbol the new layer admits was not admitted before
            assert forall|j: int| 0 <= j < newtab.len()
                implies !admitted(dv(tsnap), newtab[j])
                    && fq0[newtab[j] as int] == orig[newtab[j] as int]
                    && orig[newtab[j] as int] >= 1 by {
                if admitted(dv(tsnap), newtab[j]) {
                    let (lx, jx) = choose|lx: int, jx: int| 0 <= lx < dv(tsnap).len()
                        && 0 <= jx < dv(tsnap)[lx].len()
                        && dv(tsnap)[lx][jx] == newtab[j];
                    assert(tsnap[lx]@[jx] == newtab[j]);
                    assert(fq0[newtab[j] as int] == 0);
                }
            }

            // distinctness extends to the new layer
            assert forall|l1: int, j1: int, l2: int, j2: int|
                0 <= l1 < nt.len() && 0 <= j1 < nt[l1].len()
                    && 0 <= l2 < nt.len() && 0 <= j2 < nt[l2].len()
                    && (l1 != l2 || j1 != j2)
                implies nt[l1][j1] != nt[l2][j2] by {
                if l1 < l && l2 < l {
                    assert(nt[l1] == tsnap[l1]@ && nt[l2] == tsnap[l2]@);
                } else if l1 == l && l2 == l {
                } else if l1 == l {
                    assert(nt[l2] == tsnap[l2]@);
                    assert(fq0[nt[l2][j2] as int] == 0);
                    assert(fq0[newtab[j1] as int] >= 1);
                } else {
                    assert(nt[l1] == tsnap[l1]@);
                    assert(fq0[nt[l1][j1] as int] == 0);
                    assert(fq0[newtab[j2] as int] >= 1);
                }
            }

            // membership in the extended tables, both ways
            assert forall|v: u16| #![auto] admitted(nt, v)
                implies admitted(dv(tsnap), v) || newtab.contains(v) by {
                let (lx, jx) = choose|lx: int, jx: int| 0 <= lx < nt.len()
                    && 0 <= jx < nt[lx].len() && nt[lx][jx] == v;
                if lx < l {
                    assert(dv(tsnap)[lx][jx] == v);
                } else {
                    assert(newtab[jx] == v);
                }
            }
            assert forall|v: u16| #![auto] !admitted(nt, v)
                implies !admitted(dv(tsnap), v) && !newtab.contains(v) by {
                if admitted(dv(tsnap), v) {
                    let (lx, jx) = choose|lx: int, jx: int| 0 <= lx < dv(tsnap).len()
                        && 0 <= jx < dv(tsnap)[lx].len() && dv(tsnap)[lx][jx] == v;
                    assert(nt[lx][jx] == v);
                }
                if newtab.contains(v) {
                    let jx = choose|jx: int| 0 <= jx < newtab.len() && newtab[jx] == v;
                    assert(nt[l as int][jx] == v);
                }
            }

            // counts: zeroed exactly on the admitted symbols
            assert forall|l2: int, j2: int| 0 <= l2 < l + 1 && 0 <= j2 < tables@[l2]@.len()
                implies freq@[#[trigger] tables@[l2]@[j2] as int] == 0
                    && orig[tables@[l2]@[j2] as int] >= 1 by {
                if l2 < l {
                    assert(tables@[l2]@ == tsnap[l2]@);
                    assert(fq0[tables@[l2]@[j2] as int] == 0);
                    assert(!newtab.contains(tables@[l2]@[j2])) by {
                        if newtab.contains(tables@[l2]@[j2]) {
                            let jx = choose|jx: int| 0 <= jx < newtab.len()
                                && newtab[jx] == tables@[l2]@[j2];
                            assert(fq0[newtab[jx] as int] >= 1);
                        }
                    }
                } else {
                    assert(newtab.contains(tables@[l2]@[j2]));
                }
            }
            assert forall|v: u16| #![auto] !admitted(nt, v)
                implies freq@[v as int] == orig[v as int] by {
                assert(!newtab.contains(v));
                assert(!admitted(dv(tsnap), v));
            }

            // rank order inside the new layer, under the original counts
            assert forall|l2: int, j1: int, j2: int| #![auto] 0 <= l2 < l + 1
                && 0 <= j1 < j2 < tables@[l2]@.len()
                implies ranks_before(orig, tables@[l2]@[j1], tables@[l2]@[j2]) by {
                if l2 < l {
                    assert(tables@[l2]@ == tsnap[l2]@);
                } else {
                    assert(ranks_before(fq0, newtab[j1], newtab[j2]));
                }
            }

            // cross-layer order: the new layer's symbols were still
            // counted when the earlier layers were filled
            assert forall|l1: int, j1: int, l2: int, j2: int| #![auto] 0 <= l1 < l2 < l + 1
                && 0 <= j1 < tables@[l1]@.len() && 0 <= j2 < tables@[l2]@.len()
                implies ranks_before(orig, tables@[l1]@[j1], tables@[l2]@[j2]) by {
                assert(tables@[l1]@ == tsnap[l1]@);
                if l2 < l {
                    assert(tables@[l2]@ == tsnap[l2]@);
                } else {
                    assert(fq0[newtab[j2] as int] >= 1);
                }
            }

            // everything admitted still outranks everything counted
            assert forall|l2: int, j2: int, v: u16| #![auto] 0 <= l2 < l + 1
                && 0 <= j2 < tables@[l2]@.len() && freq@[v as int] >= 1
                implies ranks_before(orig, tables@[l2]@[j2], v) by {
                assert(!newtab.contains(v)) by {
                    if newtab.contains(v) {
                        let jx = choose|jx: int| 0 <= jx < newtab.len() && newtab[jx] == v;
                    }
                }
                assert(freq@[v as int] == fq0[v as int]);
                if l2 < l {
                    assert(tables@[l2]@ == tsnap[l2]@);
                } else {
                    assert(ranks_before(fq0, newtab[j2], v));
                    assert(fq0[v as int] == orig[v as int]) by {
                        if admitted(dv(tsnap), v) {
                            let (lx, jx) = choose|lx: int, jx: int|
                                0 <= lx < dv(tsnap).len()
                                && 0 <= jx < dv(tsnap)[lx].len()
                                && dv(tsnap)[lx][jx] == v;
                            assert(tsnap[lx]@[jx] == v);
                            assert(fq0[v as int] == 0);
                        }
                        assert(!admitted(dv(tsnap), v));
                    }
                }
            }

            // a short layer anywhere means every count is now zero
            assert forall|l2: int| 0 <= l2 < l + 1
                && (#[trigger] tables@[l2])@.len() < crate::LAYER_CAPACITY
                implies forall|v: u16| #![auto] freq@[v as int] == 0 by {
                if l2 < l {
                    assert(tables@[l2]@ == tsnap[l2]@);
                    assert(tsnap[l2]@.len() < crate::LAYER_CAPACITY);
                    assert forall|v: u16| #![auto] freq@[v as int] == 0 by {
                        assert(fq0[v as int] == 0);
                    }
                }
            }
            assert forall|l1: int, l2: int| 0 <= l1 < l2 < l + 1
                && (#[trigger] tables@[l1])@.len() < crate::LAYER_CAPACITY
                implies (#[trigger] tables@[l2])@.len() == 0 by {
                assert(tables@[l1]@ == tsnap[l1]@);
                if l2 < l {
                    assert(tables@[l2]@ == tsnap[l2]@);
                } else if newtab.len() > 0 {
                    // the short earlier layer had left every count zero,
                    // yet a pick carries a nonzero count
                    assert(fq0[newtab[0] as int] == 0);
                    assert(fq0[newtab[0] as int] >= 1);
                }
            }
        }
        l = l + 1;
    }
    proof {
        let t = dv(tables@);
        assert forall|l2: int, j2: int| 0 <= l2 < t.len() && 0 <= j2 < t[l2].len()
            implies orig[(#[trigger] t[l2][j2]) as int] >= 1 by {
            assert(t[l2][j2] == tables@[l2]@[j2]);
        }
        assert forall|l2: int, j2: int, v: u16| #![auto] 0 <= l2 < t.len()
            && 0 <= j2 < t[l2].len() && orig[v as int] >= 1 && !admitted(t, v)
            implies ranks_before(orig, t[l2][j2], v) by {
            assert(freq@[v as int] == orig[v as int]);
        }
        assert forall|l2: int| 0 <= l2 < t.len()
            && (#[trigger] t[l2]).len() < crate::LAYER_CAPACITY
            implies forall|v: u16| #![auto] orig[v as int] >= 1 ==> admitted(t, v) by {
            assert(tables@[l2]@.len() < crate::LAYER_CAPACITY);
            assert forall|v: u16| #![auto] orig[v as int] >= 1 implies admitted(t, v) by {
                if !admitted(t, v) {
                    assert(freq@[v as int] == orig[v as int]);
                    assert(freq@[v as int] == 0);
                }
            }
        }
        assert forall|l1: int, l2: int| 0 <= l1 < l2 < t.len()
            && (#[trigger] t[l1]).len() < crate::LAYER_CAPACITY
            implies (#[trigger] t[l2]).len() == 0 by {
            assert(t[l1] == tables@[l1]@ && t[l2] == tables@[l2]@);
        }
        assert(greedy_allocation(orig, t));
    }
    tables
}

/// The container faithfully records an encode of `data`: the header
/// carries the block transform's results, and the streams carry exactly
/// the occurrence coding of the transformed block's residual symbols
/// against the container's own tables.
pub open spec fn describes_encode(c: Container, data: Seq<u8>) -> bool {
    &&& c.original_length == data.len()
    &&& data.len() > 0
    &&& c.primary_index == bwt_primary_of(data) - 1
    &&& bwt_of(data).len() == data.len()
    &&& c.base == bwt_of(data)[0]
    &&& c.trailing == if data.len() % 2 == 1 {
        Some(residual_seq(bwt_of(data))[data.len() - 1])
    } else {
        None::<u8>
    }
    &&& tables_wf(dv(c.tables@))
    // the layer tables are the one greedy allocation for the block's
    // symbol frequencies, so the whole container is a function of `data`
    &&& greedy_allocation(freq_seq(symbols_of(residual_seq(bwt_of(data)))), dv(c.tables@))
    &&& codec::streams_match(c.streams, dv(c.tables@), symbols_of(residual_seq(bwt_of(data))))
}


/// Two packed streams carrying the same bit content are identical,
/// padding included.
proof fn lemma_stream_determined(s1: Seq<u8>, u1: u8, s2: Seq<u8>, u2: u8, bits: Seq<bool>)
    requires
        u1 < 8,
        u2 < 8,
        bytes_bits(s1) == bits + zero_bits(u1 as int),
        s1.len() * 8 == bits.len() + u1,
        bytes_bits(s2) == bits + zero_bits(u2 as int),
        s2.len() * 8 == bits.len() + u2,
    ensures
        s1 == s2,
        u1 == u2,
{
    assert(u1 == u2 && s1.len() == s2.len());
    assert(bytes_bits(s1) =~= bytes_bits(s2));
    crate::bits::lemma_bytes_bits_inj(s1, s2);
}

/// Equal layer data gives equal layer records.
proof fn lemma_layers_bytes_congruent(c1: Container, c2: Container, k: int)
    requires
        0 <= k <= c1.tables@.len(),
        k <= c2.tables@.len(),
        k <= c1.streams.layer_streams@.len(),
        k <= c2.streams.layer_streams@.len(),
        forall|l: int| 0 <= l < k ==> (#[trigger] c1.tables@[l])@ == c2.tables@[l]@,
        forall|l: int| 0 <= l < k
            ==> (#[trigger] c1.streams.layer_streams@[l]).0@ == c2.streams.layer_streams@[l].0@
                && c1.streams.layer_streams@[l].1 == c2.streams.layer_streams@[l].1,
    ensures
        layers_bytes(c1, k) == layers_bytes(c2, k),
    decreases k,
{
    if k > 0 {
        lemma_layers_bytes_congruent(c1, c2, k - 1);
    }
}

/// Encoding is deterministic: any two well-formed containers that
/// record an encode of the same data have the same byte image, so the
/// container a successful encode writes is a function of the input
/// bytes alone.
pub proof fn lemma_encode_deterministic(c1: Container, c2: Container, data: Seq<u8>)
    requires
        container_wf(c1),
        container_wf(c2),
        describes_encode(c1, data),
        describes_encode(c2, data),
    ensures
        container_bytes(c1) == container_bytes(c2),
{
    let syms = symbols_of(residual_seq(bwt_of(data)));
    let fs = freq_seq(syms);
    lemma_greedy_unique(fs, dv(c1.tables@), dv(c2.tables@));
    let t = dv(c1.tables@);
    assert(dv(c2.tables@) == t);
    assert(c1.streams.sel@ == c2.streams.sel@
        && c1.streams.sel_unused == c2.streams.sel_unused) by {
        lemma_stream_determined(c1.streams.sel@, c1.streams.sel_unused,
            c2.streams.sel@, c2.streams.sel_unused, codec::sel_bits_of(t, syms));
    }
    assert forall|l: int| 0 <= l < crate::LAYER_COUNT
        implies (#[trigger] c1.streams.layer_streams@[l]).0@
                == c2.streams.layer_streams@[l].0@
            && c1.streams.layer_streams@[l].1 == c2.streams.layer_streams@[l].1 by {
        assert(codec::lstream_ok(c1.streams.layer_streams@[l], t, syms, l));
        assert(codec::lstream_ok(c2.streams.layer_streams@[l], dv(c2.tables@), syms, l));
        lemma_stream_determined(
            c1.streams.layer_streams@[l].0@, c1.streams.layer_streams@[l].1,
            c2.streams.layer_streams@[l].0@, c2.streams.layer_streams@[l].1,
            codec::layer_bits_of(t, syms, l));
    }
    assert(c1.streams.overflow@ == c2.streams.overflow@);
    assert(header_bytes(c1) =~= header_bytes(c2));
    assert forall|l: int| 0 <= l < crate::LAYER_COUNT
        implies (#[trigger] c1.tables@[l])@ == c2.tables@[l]@ by {
        assert(t[l] == dv(c2.tables@)[l]);
    }
    lemma_layers_bytes_congruent(c1, c2, crate::LAYER_COUNT as int);
    assert(tail_bytes(c1) =~= tail_bytes(c2));
    assert(container_bytes(c1) == container_bytes(c2));
}

/// Build the container for a byte buffer: block transform, residual
/// transform, symbol assembly, layer allocation, occurrence coding.
pub fn encode_container(data: &Vec<u8>) -> (r: Result<Container, CodecError>)
    requires
        0 < data@.len() <= crate::MAX_INPUT_LEN,
    ensures
        r matches Ok(c) ==> container_wf(c) && describes_encode(c, data@)
            && (forall|l: int| 0 <= l < crate::LAYER_COUNT
                ==> (#[trigger] c.tables@[l])@.len() <= crate::LAYER_CAPACITY),
        r is Err ==> r == Err::<Container, CodecError>(CodecError::TransformFailure),
{
    let tr = match bwt::transform(data) {
        Ok(tr) => tr,
        Err(_) => {
            return Err(CodecError::TransformFailure);
        },
    };
    let base = tr.transformed[0];
    let resid = residual::encode(&tr.transformed);
    let grouped = symbols::assemble(&resid);
    let syms = grouped.0;
    let trailing = grouped.1;
    let mut freq = symbols::frequency_table(&syms);
    proof {
        assert forall|j: int| 0 <= j < symbols::SYMBOL_SPACE implies freq@[j] <= 0x0FFF_FFFF by {
            symbols::lemma_count_le_len(syms@, j as u16);
            assert(freq@[(j as u16) as int] == symbols::count_of(syms@, j as u16));
        }
        assert(freq@ =~= freq_seq(syms@)) by {
            assert forall|j: int| 0 <= j < symbols::SYMBOL_SPACE
                implies freq@[j] == freq_seq(syms@)[j] by {
                assert(freq@[(j as u16) as int] == symbols::count_of(syms@, j as u16));
            }
        }
    }
    let ghost fsq = freq@;
    let tables = allocate_layers(&mut freq);
    proof {
        assert(greedy_allocation(fsq, dv(tables@)));
    }
    let streams = codec::encode_streams(&tables, &syms);
    proof {
        let t = dv(tables@);
        codec::lemma_sel_bits_len(t, syms@);
        codec::lemma_overflow_bytes_len(t, syms@);
        assert forall|l: int| 0 <= l < crate::LAYER_COUNT
            implies ((#[trigger] streams.layer_streams@[l]).0@.len() <= container::MAX_STREAM_LEN
                && streams.layer_streams@[l].1 < 8) by {
            codec::lemma_layer_bits_len(t, syms@, l);
            codec::lemma_layer_count_bound(t, syms@, l);
        }
        codec::lemma_layer_count_bound(t, syms@, 0);
    }
    let c = Container {
        original_length: data.len(),
        primary_index: tr.primary_index,
        base,
        trailing,
        tables,
        streams,
    };
    Ok(c)
}

/// What decoding reconstructs from a transformed block and its primary
/// index: the inverse walk, emitted back to front.
pub open spec fn recover_block(t: Seq<u8>, primary_index: int) -> Seq<u8> {
    Seq::new(t.len(), |k: int| t[walk_idx(t, primary_index + 1, (t.len() - 1 - k) as nat)])
}

/// Decode a parsed container: occurrence decoding, symbol reassembly,
/// residual inversion, block transform inversion. On any container that
/// records an encode, this recovers exactly the inverse walk of the
/// transformed block — the whole pipeline short of the transform's own
/// involution.
pub fn decode_container(c: &Container) -> (r: Result<Vec<u8>, CodecError>)
    requires
        container_wf(*c),
    ensures
        r matches Ok(b) ==> b@.len() == c.original_length,
        forall|data: Seq<u8>| #[trigger] describes_encode(*c, data)
            ==> (r matches Ok(b)
                && b@ == recover_block(bwt_of(data), c.primary_index as int)),
{
    let n = c.original_length;
    let nsym = n / 2;
    let ghost t = dv(c.tables@);
    proof {
        assert forall|data: Seq<u8>| #[trigger] describes_encode(*c, data)
            implies codec::honest_input(t, nsym as int, c.streams,
                symbols_of(residual_seq(bwt_of(data)))) by {
            assert(residual_seq(bwt_of(data)).len() == n);
            assert(symbols_of(residual_seq(bwt_of(data))).len() == n / 2);
        }
    }
    let syms = match codec::decode_symbols(&c.tables, nsym, &c.streams) {
        Ok(v) => v,
        Err(e) => {
            proof {
                assert forall|data: Seq<u8>| #[trigger] describes_encode(*c, data)
                    implies false by {
                    assert(codec::honest_input(t, nsym as int, c.streams,
                        symbols_of(residual_seq(bwt_of(data)))));
                }
            }
            return Err(e);
        },
    };
    let resid = symbols::disassemble(&syms, c.trailing);
    proof {
        assert(resid@.len() == 2 * (n / 2) + n % 2);
        assert(2 * (n / 2) + n % 2 == n);
    }
    let transformed = residual::decode(c.base, &resid);
    let block = bwt::invert(&transformed, c.primary_index);
    proof {
        assert forall|data: Seq<u8>| #[trigger] describes_encode(*c, data)
            implies block@ == recover_block(bwt_of(data), c.primary_index as int) by {
            let tb = bwt_of(data);
            let rs = residual_seq(tb);
            let orig = symbols_of(rs);
            assert(codec::honest_input(t, nsym as int, c.streams, orig));
            assert(syms@ == orig);
            symbols::lemma_assemble_round_trip(rs);
            if n % 2 == 1 {
                assert(c.trailing == Some(rs[n - 1]));
                assert(resid@ == bytes_of_symbols(orig).push(rs[n - 1]));
                assert(resid@ == rs);
            } else {
                assert(resid@ == bytes_of_symbols(orig));
                assert(resid@ == rs);
            }
            residual::lemma_residual_round_trip(tb);
            assert(c.base == tb[0]);
            assert forall|i: int| 0 <= i < n implies transformed@[i] == tb[i] by {
                assert(transformed@[i] == decoded_at(tb[0], rs, i));
            }
            assert(transformed@ =~= tb);
            assert(block@ =~= recover_block(tb, c.primary_index as int));
        }
    }
    Ok(block)
}

/// A container's data alone decides whether it records an encode.
proof fn lemma_describes_transfer(a: Container, b: Container, data: Seq<u8>)
    requires
        same_container(a, b),
        describes_encode(b, data),
    ensures
        describes_encode(a, data),
{
    assert(dv(a.tables@) =~= dv(b.tables@));
    assert(greedy_allocation(freq_seq(symbols_of(residual_seq(bwt_of(data)))), dv(a.tables@)));
    assert forall|l: int| 0 <= l < dv(a.tables@).len()
        implies codec::lstream_ok(#[trigger] a.streams.layer_streams@[l], dv(a.tables@),
            symbols_of(residual_seq(bwt_of(data))), l) by {
        assert(codec::lstream_ok(b.streams.layer_streams@[l], dv(b.tables@),
            symbols_of(residual_seq(bwt_of(data))), l));
        assert(a.streams.layer_streams@[l].0@ == b.streams.layer_streams@[l].0@);
        assert(a.streams.layer_streams@[l].1 == b.streams.layer_streams@[l].1);
    }
}

/// Encode a byte buffer into a container. An empty input is rejected;
/// the block transform reporting a failure is passed on; every other
/// input up to `MAX_INPUT_LEN` yields a container.
pub fn encode(data: &Vec<u8>) -> (r: Result<Vec<u8>, CodecError>)
    ensures
        data@.len() == 0 <==> r == Err::<Vec<u8>, CodecError>(CodecError::EmptyInput),
        data@.len() > crate::MAX_INPUT_LEN
            <==> r == Err::<Vec<u8>, CodecError>(CodecError::InputTooLong),
        0 < data@.len() <= crate::MAX_INPUT_LEN
            ==> (r matches Ok(out) && out@.len() >= 16)
                || r == Err::<Vec<u8>, CodecError>(CodecError::TransformFailure),
        // what a successful encode writes is the byte image of a
        // container that records this very input
        r matches Ok(out) ==> exists|c: Container|
            #[trigger] image_of(out@, c) && describes_encode(c, data@),
{
    if data.len() == 0 {
        return Err(CodecError::EmptyInput);
    }
    if data.len() > crate::MAX_INPUT_LEN {
        return Err(CodecError::InputTooLong);
    }
    let c = match encode_container(data) {
        Ok(c) => c,
        Err(_) => {
            return Err(CodecError::TransformFailure);
        },
    };
    let out = container::serialize(&c);
    proof {
        assert(image_of(out@, c) && describes_encode(c, data@));
    }
    Ok(out)
}

/// Decode a container back into the byte buffer it was built from. A
/// malformed container is rejected as corrupt with the offset (or, past
/// the header, the occurrence index) at which it desynchronised.
pub fn decode(buf: &Vec<u8>) -> (r: Result<Vec<u8>, CodecError>)
    ensures
        r matches Ok(b) ==> b@.len() <= crate::MAX_INPUT_LEN,
        // round trip: decoding the byte image of any container that
        // records an encode of `data` recovers exactly the inverse walk
        // of `data`'s block transform
        forall|data: Seq<u8>, c2: Container|
            image_of(buf@, c2) && #[trigger] describes_encode(c2, data)
            ==> (r matches Ok(b)
                && b@ == recover_block(bwt_of(data), c2.primary_index as int)),
        // rejection is complete: an error means the buffer is not the
        // image of any container recording an encode
        r is Err ==> !(exists|data: Seq<u8>, c2: Container|
            image_of(buf@, c2) && #[trigger] describes_encode(c2, data)),
{
    let c = match container::parse(buf) {
        Ok(c) => c,
        Err(e) => {
            return Err(e);
        },
    };
    let r = decode_container(&c);
    proof {
        assert forall|data: Seq<u8>, c2: Container|
            image_of(buf@, c2) && #[trigger] describes_encode(c2, data)
            implies (r matches Ok(b)
                && b@ == recover_block(bwt_of(data), c2.primary_index as int)) by {
            assert(same_container(c, c2));
            lemma_describes_transfer(c, c2, data);
        }
    }
    r
}

} // verus!
