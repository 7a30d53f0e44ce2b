//! The persisted container: a magic tag and version, the block header
//! (original length, primary index, the block's first byte, and the
//! trailing-byte padding info), every layer's code table and packed
//! stream, the main selector stream, and the overflow stream.
//!
//! Parsing reads the identical fixed order back, validates every count
//! against the remaining buffer, and re-establishes every invariant the
//! decoder relies on — table capacity, global distinctness, stream
//! bounds — rejecting anything else as corrupt with the byte offset at
//! which reading failed.

use vstd::prelude::*;
use crate::codec::{EncodedStreams, dv, tables_wf};
use crate::layers::distinct_tables;
use crate::CodecError;

verus! {

/// Cap on a single stored stream's byte length; keeps every bit
/// position computed during decoding inside a 32-bit usize.
pub const MAX_STREAM_LEN: usize = 0x1FFF_FFFF;

/// Cap on the overflow stream's byte length.
pub const MAX_OVERFLOW_LEN: usize = 0x3FFF_FFFF;

/// Everything the decoder needs, parsed fully before reconstruction
/// begins.
pub struct Container {
    /// Length in bytes of the original block.
    pub original_length: usize,
    /// Zero-based primary index of the block transform.
    pub primary_index: usize,
    /// First byte of the transformed block (the residual seed).
    pub base: u8,
    /// The trailing residual byte of an odd-length block.
    pub trailing: Option<u8>,
    /// The layers' code tables, in rank order.
    pub tables: Vec<Vec<u16>>,
    /// The packed selector, layer and overflow streams.
    pub streams: EncodedStreams,
}

/// The invariants a container must satisfy before decoding may start.
pub open spec fn container_wf(c: Container) -> bool {
    &&& c.original_length <= crate::MAX_INPUT_LEN
    &&& if c.original_length == 0 {
        c.primary_index == 0
    } else {
        c.primary_index < c.original_length
    }
    &&& (c.trailing is Some <==> c.original_length % 2 == 1)
    &&& tables_wf(dv(c.tables@))
    &&& c.streams.sel_unused < 8
    &&& c.streams.sel@.len() <= MAX_STREAM_LEN
    &&& c.streams.layer_streams@.len() == crate::LAYER_COUNT
    &&& forall|l: int| 0 <= l < crate::LAYER_COUNT ==> {
        &&& (#[trigger] c.streams.layer_streams@[l]).0@.len() <= MAX_STREAM_LEN
        &&& c.streams.layer_streams@[l].1 < 8
    }
    &&& c.streams.overflow@.len() <= MAX_OVERFLOW_LEN
}


/// The four big-endian bytes of a 32-bit value.
pub open spec fn u32_bytes(v: int) -> Seq<u8> {
    seq![
        ((v / 0x1000000) % 256) as u8,
        ((v / 0x10000) % 256) as u8,
        ((v / 0x100) % 256) as u8,
        (v % 256) as u8,
    ]
}

/// A code table's stored entries: symbol (big-endian) and code, which
/// is always the entry's index plus one.
pub open spec fn table_bytes(tab: Seq<u16>) -> Seq<u8> {
    Seq::new((3 * tab.len()) as nat, |i: int|
        if i % 3 == 0 {
            ((tab[i / 3] as int) / 256) as u8
        } else if i % 3 == 1 {
            ((tab[i / 3] as int) % 256) as u8
        } else {
            (i / 3 + 1) as u8
        })
}

/// One layer's stored record: entry count, entries, stream length,
/// unused bits, stream bytes.
pub open spec fn layer_chunk_bytes(tab: Seq<u16>, stream: Seq<u8>, unused: u8) -> Seq<u8> {
    seq![tab.len() as u8] + table_bytes(tab) + u32_bytes(stream.len() as int)
        + seq![unused] + stream
}

/// The records of the first `l` layers, in rank order.
pub open spec fn layers_bytes(c: Container, l: int) -> Seq<u8>
    decreases l,
{
    if l <= 0 {
        Seq::empty()
    } else {
        layers_bytes(c, l - 1) + layer_chunk_bytes(
            c.tables@[l - 1]@,
            c.streams.layer_streams@[l - 1].0@,
            c.streams.layer_streams@[l - 1].1,
        )
    }
}

/// The fixed sixteen-byte header: magic, version, original length,
/// primary index, base byte, trailing-byte padding info.
pub open spec fn header_bytes(c: Container) -> Seq<u8> {
    seq![0x4Cu8, 0x4Fu8, 0x4Cu8, 0x49u8, 0x01u8]
        + u32_bytes(c.original_length as int)
        + u32_bytes(c.primary_index as int)
        + seq![
            c.base,
            if c.trailing is Some { 1u8 } else { 0u8 },
            if c.trailing is Some { c.trailing->0 } else { 0u8 },
        ]
}

/// The stored selector and overflow streams, after the layers.
pub open spec fn tail_bytes(c: Container) -> Seq<u8> {
    u32_bytes(c.streams.sel@.len() as int) + seq![c.streams.sel_unused] + c.streams.sel@
        + u32_bytes(c.streams.overflow@.len() as int) + c.streams.overflow@
}

/// The whole persisted byte image of a container.
pub open spec fn container_bytes(c: Container) -> Seq<u8> {
    header_bytes(c) + layers_bytes(c, crate::LAYER_COUNT as int) + tail_bytes(c)
}

/// Recombining the four stored bytes of a 32-bit value yields the value.
proof fn lemma_u32_value(v: u32)
    by (bit_vector)
    ensures
        ((v / 0x1000000) % 256) * 0x1000000 + ((v / 0x10000) % 256) * 0x10000
            + ((v / 0x100) % 256) * 0x100 + (v % 256) == v,
{
}

/// Earlier layer records are a prefix of later ones.
proof fn lemma_layers_prefix(c: Container, l: int, m: int)
    requires
        0 <= l <= m,
    ensures
        layers_bytes(c, l).len() <= layers_bytes(c, m).len(),
        layers_bytes(c, m).take(layers_bytes(c, l).len() as int) == layers_bytes(c, l),
    decreases m - l,
{
    if l == m {
        assert(layers_bytes(c, m).take(layers_bytes(c, l).len() as int) =~= layers_bytes(c, l));
    } else {
        lemma_layers_prefix(c, l, m - 1);
        assert(layers_bytes(c, m).take(layers_bytes(c, l).len() as int)
            =~= layers_bytes(c, m - 1).take(layers_bytes(c, l).len() as int));
    }
}

/// The byte at position `i` of layer `l`'s record, within the image.
proof fn lemma_chunk_at(c: Container, l: int, i: int)
    requires
        0 <= l < crate::LAYER_COUNT,
        0 <= i < layer_chunk_bytes(c.tables@[l]@, c.streams.layer_streams@[l].0@,
            c.streams.layer_streams@[l].1).len(),
    ensures
        16 + layers_bytes(c, l).len() + i < container_bytes(c).len(),
        container_bytes(c)[16 + layers_bytes(c, l).len() + i]
            == layer_chunk_bytes(c.tables@[l]@, c.streams.layer_streams@[l].0@,
                c.streams.layer_streams@[l].1)[i],
{
    let p = layers_bytes(c, l).len() as int;
    let chunk = layer_chunk_bytes(c.tables@[l]@, c.streams.layer_streams@[l].0@,
        c.streams.layer_streams@[l].1);
    lemma_layers_prefix(c, l + 1, crate::LAYER_COUNT as int);
    lemma_layers_prefix(c, l, l + 1);
    assert(header_bytes(c).len() == 16);
    let lall = layers_bytes(c, crate::LAYER_COUNT as int);
    assert(layers_bytes(c, l + 1) == layers_bytes(c, l) + chunk);
    assert(lall[p + i] == lall.take(layers_bytes(c, l + 1).len() as int)[p + i]);
    assert(lall[p + i] == chunk[i]);
    assert(container_bytes(c)[16 + p + i] == lall[p + i]);
}

/// The byte at position `i` of the stored stream tail, within the image.
proof fn lemma_tail_at(c: Container, i: int)
    requires
        0 <= i < tail_bytes(c).len(),
    ensures
        16 + layers_bytes(c, crate::LAYER_COUNT as int).len() + i < container_bytes(c).len(),
        container_bytes(c)[16 + layers_bytes(c, crate::LAYER_COUNT as int).len() + i]
            == tail_bytes(c)[i],
{
    assert(header_bytes(c).len() == 16);
}

fn push_u32(out: &mut Vec<u8>, v: usize)
    requires
        v <= 0xFFFF_FFFF,
    ensures
        final(out)@.len() == old(out)@.len() + 4,
        final(out)@ == old(out)@ + u32_bytes(v as int),
{
    let ghost before = out@;
    out.push(((v / 0x1000000) % 256) as u8);
    out.push(((v / 0x10000) % 256) as u8);
    out.push(((v / 0x100) % 256) as u8);
    out.push((v % 256) as u8);
    proof {
        assert(out@ =~= before + u32_bytes(v as int));
    }
}

fn read_u32(buf: &Vec<u8>, off: usize) -> (r: usize)
    requires
        off + 4 <= buf@.len(),
    ensures
        r <= 0xFFFF_FFFF,
        r == (buf@[off as int] as int) * 0x1000000 + (buf@[off as int + 1] as int) * 0x10000
            + (buf@[off as int + 2] as int) * 0x100 + (buf@[off as int + 3] as int),
{
    let n = buf.len();
    let b0 = buf[off] as usize;
    let b1 = buf[off + 1] as usize;
    let b2 = buf[off + 2] as usize;
    let b3 = buf[off + 3] as usize;
    b0 * 0x1000000 + b1 * 0x10000 + b2 * 0x100 + b3
}

/// Copy `len` bytes starting at `off` into an owned buffer.
fn read_bytes(buf: &Vec<u8>, off: usize, len: usize) -> (r: Vec<u8>)
    requires
        off + len <= buf@.len(),
    ensures
        r@ == buf@.subrange(off as int, off as int + len as int),
{
    let n = buf.len();
    let mut r: Vec<u8> = Vec::new();
    let mut i: usize = 0;
    while i < len
        invariant
            i <= len,
            off + len <= n == buf@.len(),
            r@ == buf@.subrange(off as int, off as int + i as int),
        decreases len - i,
    {
        let b = buf[off + i];
        r.push(b);
        proof {
            assert(r@ =~= buf@.subrange(off as int, off as int + i as int + 1));
        }
        i = i + 1;
    }
    r
}

fn push_bytes(out: &mut Vec<u8>, src: &Vec<u8>)
    ensures
        final(out)@ == old(out)@ + src@,
{
    let ghost before = out@;
    let mut i: usize = 0;
    while i < src.len()
        invariant
            i <= src@.len(),
            out@ == before + src@.take(i as int),
        decreases src@.len() - i,
    {
        let b = src[i];
        out.push(b);
        proof {
            assert(out@ =~= before + src@.take(i as int + 1));
        }
        i = i + 1;
    }
    proof {
        assert(src@.take(src@.len() as int) =~= src@);
    }
}

/// Serialize a container in the fixed field order of the format: the
/// output is exactly the container's byte image.
pub fn serialize(c: &Container) -> (out: Vec<u8>)
    requires
        container_wf(*c),
        forall|l: int| 0 <= l < crate::LAYER_COUNT
            ==> (#[trigger] c.tables@[l])@.len() <= crate::LAYER_CAPACITY,
    ensures
        out@ == container_bytes(*c),
        out@.len() >= 16,
{
    let mut out: Vec<u8> = Vec::new();
    out.push(0x4C);  // 'L'
    out.push(0x4F);  // 'O'
    out.push(0x4C);  // 'L'
    out.push(0x49);  // 'I'
    out.push(0x01);  // version
    push_u32(&mut out, c.original_length);
    push_u32(&mut out, c.primary_index);
    out.push(c.base);
    match c.trailing {
        Some(b) => {
            out.push(1);
            out.push(b);
        },
        None => {
            out.push(0);
            out.push(0);
        },
    }
    proof {
        assert(out@ =~= header_bytes(*c));
        assert(layers_bytes(*c, 0) =~= Seq::<u8>::empty());
        assert(out@ =~= header_bytes(*c) + layers_bytes(*c, 0));
    }
    let mut l: usize = 0;
    while l < crate::LAYER_COUNT
        invariant
            l <= crate::LAYER_COUNT,
            container_wf(*c),
            c.tables@.len() == crate::LAYER_COUNT,
            forall|l2: int| 0 <= l2 < crate::LAYER_COUNT
                ==> (#[trigger] c.tables@[l2])@.len() <= crate::LAYER_CAPACITY,
            out@ == header_bytes(*c) + layers_bytes(*c, l as int),
        decreases crate::LAYER_COUNT - l,
    {
        let ghost pre = out@;
        let tab = &c.tables[l];
        out.push(tab.len() as u8);
        let mut j: usize = 0;
        proof {
            assert(out@ =~= pre + seq![tab@.len() as u8] + table_bytes(tab@).take(0));
        }
        while j < tab.len()
            invariant
                j <= tab@.len() <= crate::LAYER_CAPACITY,
                tab@ == c.tables@[l as int]@,
                out@ == pre + seq![tab@.len() as u8] + table_bytes(tab@).take(3 * j),
            decreases tab@.len() - j,
        {
            let sym = tab[j];
            out.push((sym / 256) as u8);
            out.push((sym % 256) as u8);
            out.push((j + 1) as u8);
            proof {
                assert(out@ =~= pre + seq![tab@.len() as u8]
                    + table_bytes(tab@).take(3 * (j + 1)));
            }
            j = j + 1;
        }
        proof {
            assert(table_bytes(tab@).take(3 * tab@.len() as int) =~= table_bytes(tab@));
        }
        let ls = &c.streams.layer_streams[l];
        push_u32(&mut out, ls.0.len());
        out.push(ls.1);
        push_bytes(&mut out, &ls.0);
        proof {
            assert(out@ =~= pre + layer_chunk_bytes(
                c.tables@[l as int]@,
                c.streams.layer_streams@[l as int].0@,
                c.streams.layer_streams@[l as int].1,
            ));
            assert(out@ =~= header_bytes(*c) + layers_bytes(*c, l as int + 1));
        }
        l = l + 1;
    }
    push_u32(&mut out, c.streams.sel.len());
    out.push(c.streams.sel_unused);
    push_bytes(&mut out, &c.streams.sel);
    push_u32(&mut out, c.streams.overflow.len());
    push_bytes(&mut out, &c.streams.overflow);
    proof {
        assert(out@ =~= container_bytes(*c));
        assert(header_bytes(*c).len() == 16);
        assert(out@.len() >= 16) by {
            assert(container_bytes(*c).len() >= header_bytes(*c).len());
        }
    }
    out
}


/// Does any of these tables hold the symbol?
fn any_table_holds(tables: &Vec<Vec<u16>>, sym: u16) -> (r: bool)
    ensures
        r == exists|l3: int, j3: int| 0 <= l3 < tables@.len()
            && 0 <= j3 < tables@[l3]@.len() && #[trigger] tables@[l3]@[j3] == sym,
{
    let mut l2: usize = 0;
    while l2 < tables.len()
        invariant
            l2 <= tables@.len(),
            forall|l3: int, j3: int| 0 <= l3 < l2 && 0 <= j3 < tables@[l3]@.len()
                ==> #[trigger] tables@[l3]@[j3] != sym,
        decreases tables@.len() - l2,
    {
        let ghost lsnap = l2 as int;
        if crate::codec::table_holds(&tables[l2], sym) {
            proof {
                let jx = choose|jx: int| 0 <= jx < tables@[lsnap]@.len()
                    && tables@[lsnap]@[jx] == sym;
            }
            return true;
        }
        proof {
            assert forall|j3: int| 0 <= j3 < tables@[lsnap]@.len()
                implies tables@[lsnap]@[j3] != sym by {
                if tables@[lsnap]@[j3] == sym {
                    assert(tables@[lsnap]@.contains(sym));
                }
            }
        }
        l2 = l2 + 1;
    }
    false
}

/// The buffer is exactly the byte image of this container.
pub open spec fn image_of(buf: Seq<u8>, c2: Container) -> bool {
    &&& container_wf(c2)
    &&& (forall|l: int| 0 <= l < crate::LAYER_COUNT
        ==> (#[trigger] c2.tables@[l])@.len() <= crate::LAYER_CAPACITY)
    &&& buf == container_bytes(c2)
}

/// Two containers carry the same data.
pub open spec fn same_container(a: Container, b: Container) -> bool {
    &&& a.original_length == b.original_length
    &&& a.primary_index == b.primary_index
    &&& a.base == b.base
    &&& a.trailing == b.trailing
    &&& a.tables@.len() == b.tables@.len()
    &&& (forall|l: int| 0 <= l < a.tables@.len()
        ==> (#[trigger] a.tables@[l])@ == b.tables@[l]@)
    &&& a.streams.sel@ == b.streams.sel@
    &&& a.streams.sel_unused == b.streams.sel_unused
    &&& a.streams.overflow@ == b.streams.overflow@
    &&& a.streams.layer_streams@.len() == b.streams.layer_streams@.len()
    &&& (forall|l: int| 0 <= l < a.streams.layer_streams@.len()
        ==> (#[trigger] a.streams.layer_streams@[l]).0@ == b.streams.layer_streams@[l].0@
            && a.streams.layer_streams@[l].1 == b.streams.layer_streams@[l].1)
}

/// Read and validate the fixed sixteen-byte header.
#[verifier::rlimit(100)]
fn parse_header(buf: &Vec<u8>) -> (r: Result<(usize, usize, u8, Option<u8>), CodecError>)
    ensures
        r matches Ok(h) ==> {
            &&& buf@.len() >= 16
            &&& h.0 <= crate::MAX_INPUT_LEN
            &&& (h.0 == 0 ==> h.1 == 0)
            &&& (h.0 > 0 ==> h.1 < h.0)
            &&& (h.3 is Some <==> h.0 % 2 == 1)
        },
        forall|c2: Container| #[trigger] image_of(buf@, c2)
            ==> (r matches Ok(h) && h.0 == c2.original_length && h.1 == c2.primary_index
                && h.2 == c2.base && h.3 == c2.trailing),
{
    let total = buf.len();
    proof {
        assert forall|c2: Container| #[trigger] image_of(buf@, c2)
            implies total == 16 + layers_bytes(c2, crate::LAYER_COUNT as int).len()
                + tail_bytes(c2).len()
                && (forall|i: int| 0 <= i < 16 ==> buf@[i] == header_bytes(c2)[i]) by {
            assert(header_bytes(c2).len() == 16);
        }
    }
    if total < 16 {
        return Err(CodecError::CorruptContainer(0));
    }
    if buf[0] != 0x4C || buf[1] != 0x4F || buf[2] != 0x4C || buf[3] != 0x49 {
        return Err(CodecError::CorruptContainer(0));
    }
    if buf[4] != 0x01 {
        return Err(CodecError::CorruptContainer(4));
    }
    let original_length = read_u32(buf, 5);
    let primary_index = read_u32(buf, 9);
    proof {
        assert forall|c2: Container| #[trigger] image_of(buf@, c2)
            implies original_length == c2.original_length
                && primary_index == c2.primary_index by {
            lemma_u32_value(c2.original_length as u32);
            lemma_u32_value(c2.primary_index as u32);
        }
    }
    if original_length > crate::MAX_INPUT_LEN {
        return Err(CodecError::CorruptContainer(5));
    }
    if original_length == 0 {
        if primary_index != 0 {
            return Err(CodecError::CorruptContainer(9));
        }
    } else {
        if primary_index >= original_length {
            return Err(CodecError::CorruptContainer(9));
        }
    }
    let base = buf[13];
    let trailing_len = buf[14];
    let trailing_byte = buf[15];
    if trailing_len as usize != original_length % 2 {
        return Err(CodecError::CorruptContainer(14));
    }
    let trailing: Option<u8> = if trailing_len == 1 {
        Some(trailing_byte)
    } else {
        None
    };
    proof {
        assert forall|c2: Container| #[trigger] image_of(buf@, c2)
            implies base == c2.base && trailing == c2.trailing by {
            if c2.trailing is Some {
                assert(trailing_len == 1);
            } else {
                assert(c2.original_length % 2 == 0);
                assert(trailing_len == 0);
            }
        }
    }

    Ok((original_length, primary_index, base, trailing))
}

/// The running premise while layer `tables.len()` is being parsed out
/// of a container image: the offset and all earlier tables agree.
pub open spec fn layer_premise(buf: Seq<u8>, tables: Seq<Vec<u16>>, off0: int, c2: Container) -> bool {
    &&& image_of(buf, c2)
    &&& off0 == 16 + layers_bytes(c2, tables.len() as int).len()
    &&& forall|l2: int| 0 <= l2 < tables.len()
        ==> (#[trigger] tables[l2])@ == c2.tables@[l2]@
}

/// Read one layer's record: entry count, entries (validated against
/// every table parsed so far), stream length, unused bits, stream.
#[verifier::rlimit(100)]
fn parse_one_layer(buf: &Vec<u8>, off: usize, tables: &Vec<Vec<u16>>)
    -> (r: Result<(Vec<u16>, Vec<u8>, u8, usize), CodecError>)
    requires
        off <= buf@.len(),
        tables@.len() < crate::LAYER_COUNT,
        distinct_tables(dv(tables@)),
    ensures
        r matches Ok(p) ==> {
            &&& p.0@.len() <= crate::LAYER_CAPACITY
            &&& p.1@.len() <= MAX_STREAM_LEN
            &&& p.2 < 8
            &&& off <= p.3 <= buf@.len()
            &&& distinct_tables(dv(tables@).push(p.0@))
        },
        forall|c2: Container| #[trigger] layer_premise(buf@, tables@, off as int, c2)
            ==> (r matches Ok(p)
                && p.0@ == c2.tables@[tables@.len() as int]@
                && p.1@ == c2.streams.layer_streams@[tables@.len() as int].0@
                && p.2 == c2.streams.layer_streams@[tables@.len() as int].1
                && p.3 == 16 + layers_bytes(c2, tables@.len() as int + 1).len()),
{
    let total = buf.len();
    let l = tables.len();
    let ghost off0 = off as int;
    let ghost pfx = dv(tables@);
    proof {
        assert forall|c2: Container| #[trigger] layer_premise(buf@, tables@, off0, c2)
            implies total - off >= layer_chunk_bytes(c2.tables@[l as int]@,
                c2.streams.layer_streams@[l as int].0@,
                c2.streams.layer_streams@[l as int].1).len()
                && buf@[off0] == (c2.tables@[l as int]@.len() as u8) by {
            assert(header_bytes(c2).len() == 16);
            lemma_layers_prefix(c2, l as int + 1, crate::LAYER_COUNT as int);
            lemma_chunk_at(c2, l as int, 0);
        }
    }
    if total - off < 1 {
        return Err(CodecError::CorruptContainer(off));
    }
    let entry_count = buf[off] as usize;
    if entry_count > crate::LAYER_CAPACITY {
        return Err(CodecError::CorruptContainer(off));
    }
    let mut pos = off + 1;
    let mut table: Vec<u16> = Vec::new();
    let mut j: usize = 0;
    proof {
        lemma_distinct_extend_empty(pfx, table@);
        assert forall|c2: Container| #[trigger] layer_premise(buf@, tables@, off0, c2)
            implies entry_count == c2.tables@[l as int]@.len()
                && table@ == c2.tables@[l as int]@.take(0) by {
            assert(table@ =~= c2.tables@[l as int]@.take(0));
        }
    }
    while j < entry_count
        invariant
            j <= entry_count <= crate::LAYER_CAPACITY,
            table@.len() == j,
            off0 == off as int,
            pos == off0 + 1 + 3 * j,
            pos <= total == buf@.len(),
            l == tables@.len() < crate::LAYER_COUNT,
            pfx == dv(tables@),
            distinct_tables(pfx.push(table@)),
            forall|c2: Container| #[trigger] layer_premise(buf@, tables@, off0, c2)
                ==> entry_count == c2.tables@[l as int]@.len()
                    && table@ == c2.tables@[l as int]@.take(j as int),
        decreases entry_count - j,
    {
        proof {
            assert forall|c2: Container| #[trigger] layer_premise(buf@, tables@, off0, c2)
                implies total - pos >= 3
                    && buf@[pos as int]
                        == (((c2.tables@[l as int]@[j as int] as int) / 256) as u8)
                    && buf@[pos as int + 1]
                        == (((c2.tables@[l as int]@[j as int] as int) % 256) as u8)
                    && buf@[pos as int + 2] == ((j + 1) as u8) by {
                assert(header_bytes(c2).len() == 16);
                lemma_layers_prefix(c2, l as int + 1, crate::LAYER_COUNT as int);
                lemma_chunk_at(c2, l as int, 1 + 3 * j as int);
                lemma_chunk_at(c2, l as int, 1 + 3 * j as int + 1);
                lemma_chunk_at(c2, l as int, 1 + 3 * j as int + 2);
            }
        }
        if total - pos < 3 {
            return Err(CodecError::CorruptContainer(pos));
        }
        let hi = buf[pos];
        let lo = buf[pos + 1];
        let code = buf[pos + 2];
        if code as usize != j + 1 {
            return Err(CodecError::CorruptContainer(pos + 2));
        }
        let sym: u16 = (hi as u16) * 256 + (lo as u16);
        proof {
            assert forall|c2: Container| #[trigger] layer_premise(buf@, tables@, off0, c2)
                implies sym == c2.tables@[l as int]@[j as int] by {
                let x = c2.tables@[l as int]@[j as int] as int;
                vstd::arithmetic::div_mod::lemma_fundamental_div_mod(x, 256);
                assert(x / 256 < 256) by (nonlinear_arith)
                    requires 0 <= x < 65536;
            }
        }
        // reject a symbol already admitted anywhere, this table
        // included: the decoder's lookup must be unambiguous
        if any_table_holds(tables, sym) {
            proof {
                let (lx, jx) = choose|lx: int, jx: int| 0 <= lx < tables@.len()
                    && 0 <= jx < tables@[lx]@.len() && #[trigger] tables@[lx]@[jx] == sym;
                assert forall|c2: Container| #[trigger] layer_premise(buf@, tables@, off0, c2)
                    implies false by {
                    assert(c2.tables@[lx]@[jx] == sym);
                    assert(dv(c2.tables@)[lx][jx] == dv(c2.tables@)[l as int][j as int]);
                }
            }
            return Err(CodecError::CorruptContainer(pos));
        }
        if crate::codec::table_holds(&table, sym) {
            proof {
                assert forall|c2: Container| #[trigger] layer_premise(buf@, tables@, off0, c2)
                    implies false by {
                    let t2 = c2.tables@[l as int]@;
                    let jx = choose|jx: int| 0 <= jx < table@.len() && table@[jx] == sym;
                    assert(table@[jx] == t2.take(j as int)[jx]);
                    assert(dv(c2.tables@)[l as int][jx] == dv(c2.tables@)[l as int][j as int]);
                }
            }
            return Err(CodecError::CorruptContainer(pos));
        }
        let ghost tbefore = table@;
        table.push(sym);
        pos = pos + 3;
        proof {
            assert forall|l3: int, j3: int| 0 <= l3 < tables@.len()
                && 0 <= j3 < tables@[l3]@.len()
                implies #[trigger] tables@[l3]@[j3] != sym by {
            }
            assert forall|l3: int, j3: int|
                0 <= l3 < pfx.len() && 0 <= j3 < pfx[l3].len()
                implies pfx[l3][j3] != sym by {
                assert(tables@[l3]@[j3] != sym);
            }
            lemma_distinct_push(pfx, tbefore, sym);
            assert(table@ == tbefore.push(sym));
            assert forall|c2: Container| #[trigger] layer_premise(buf@, tables@, off0, c2)
                implies table@ == c2.tables@[l as int]@.take(j as int + 1) by {
                assert(table@ =~= c2.tables@[l as int]@.take(j as int + 1));
            }
        }
        j = j + 1;
    }
    proof {
        assert forall|c2: Container| #[trigger] layer_premise(buf@, tables@, off0, c2)
            implies table@ == c2.tables@[l as int]@
                && total - pos >= 5 + c2.streams.layer_streams@[l as int].0@.len()
                && buf@[pos as int + 4] == c2.streams.layer_streams@[l as int].1
                && buf@[pos as int] == u32_bytes(
                    c2.streams.layer_streams@[l as int].0@.len() as int)[0]
                && buf@[pos as int + 1] == u32_bytes(
                    c2.streams.layer_streams@[l as int].0@.len() as int)[1]
                && buf@[pos as int + 2] == u32_bytes(
                    c2.streams.layer_streams@[l as int].0@.len() as int)[2]
                && buf@[pos as int + 3] == u32_bytes(
                    c2.streams.layer_streams@[l as int].0@.len() as int)[3] by {
            assert(c2.tables@[l as int]@.take(entry_count as int) =~= c2.tables@[l as int]@);
            assert(header_bytes(c2).len() == 16);
            lemma_layers_prefix(c2, l as int + 1, crate::LAYER_COUNT as int);
            lemma_chunk_at(c2, l as int, 1 + 3 * entry_count);
            lemma_chunk_at(c2, l as int, 1 + 3 * entry_count + 1);
            lemma_chunk_at(c2, l as int, 1 + 3 * entry_count + 2);
            lemma_chunk_at(c2, l as int, 1 + 3 * entry_count + 3);
            lemma_chunk_at(c2, l as int, 1 + 3 * entry_count + 4);
        }
    }
    if total - pos < 5 {
        return Err(CodecError::CorruptContainer(pos));
    }
    let stream_len = read_u32(buf, pos);
    let unused = buf[pos + 4];
    proof {
        assert forall|c2: Container| #[trigger] layer_premise(buf@, tables@, off0, c2)
            implies stream_len == c2.streams.layer_streams@[l as int].0@.len() by {
            lemma_u32_value(c2.streams.layer_streams@[l as int].0@.len() as u32);
        }
    }
    if stream_len > MAX_STREAM_LEN || unused >= 8 {
        return Err(CodecError::CorruptContainer(pos));
    }
    pos = pos + 5;
    if total - pos < stream_len {
        return Err(CodecError::CorruptContainer(pos));
    }
    let stream = read_bytes(buf, pos, stream_len);
    proof {
        assert forall|c2: Container| #[trigger] layer_premise(buf@, tables@, off0, c2)
            implies stream@ == c2.streams.layer_streams@[l as int].0@
                && pos + stream_len == 16 + layers_bytes(c2, l as int + 1).len() by {
            let s2 = c2.streams.layer_streams@[l as int].0@;
            assert(header_bytes(c2).len() == 16);
            assert forall|i: int| 0 <= i < s2.len()
                implies stream@[i] == s2[i] by {
                lemma_chunk_at(c2, l as int, 1 + 3 * entry_count + 5 + i);
            }
            assert(stream@ =~= s2);
        }
    }
    pos = pos + stream_len;
    Ok((table, stream, unused, pos))
}

/// Read the selector stream record.
#[verifier::rlimit(100)]
fn parse_sel(buf: &Vec<u8>, off: usize) -> (r: Result<(Vec<u8>, u8, usize), CodecError>)
    requires
        off <= buf@.len(),
    ensures
        r matches Ok(tl) ==> tl.0@.len() <= MAX_STREAM_LEN && tl.1 < 8
            && off <= tl.2 <= buf@.len(),
        forall|c2: Container| #[trigger] image_of(buf@, c2)
            && off == 16 + layers_bytes(c2, crate::LAYER_COUNT as int).len()
            ==> (r matches Ok(tl) && tl.0@ == c2.streams.sel@
                && tl.1 == c2.streams.sel_unused
                && tl.2 == off + 5 + c2.streams.sel@.len()),
{
    let total = buf.len();
    let ghost off0 = off as int;
    proof {
        assert forall|c2: Container| #[trigger] image_of(buf@, c2)
            && off == 16 + layers_bytes(c2, crate::LAYER_COUNT as int).len()
            implies total - off >= 5 + c2.streams.sel@.len()
                && buf@[off0 + 4] == c2.streams.sel_unused
                && buf@[off0] == u32_bytes(c2.streams.sel@.len() as int)[0]
                && buf@[off0 + 1] == u32_bytes(c2.streams.sel@.len() as int)[1]
                && buf@[off0 + 2] == u32_bytes(c2.streams.sel@.len() as int)[2]
                && buf@[off0 + 3] == u32_bytes(c2.streams.sel@.len() as int)[3] by {
            assert(header_bytes(c2).len() == 16);
            lemma_tail_at(c2, 0);
            lemma_tail_at(c2, 1);
            lemma_tail_at(c2, 2);
            lemma_tail_at(c2, 3);
            lemma_tail_at(c2, 4);
        }
    }
    if total - off < 5 {
        return Err(CodecError::CorruptContainer(off));
    }
    let sel_len = read_u32(buf, off);
    let sel_unused = buf[off + 4];
    proof {
        assert forall|c2: Container| #[trigger] image_of(buf@, c2)
            && off0 == 16 + layers_bytes(c2, crate::LAYER_COUNT as int).len()
            implies sel_len == c2.streams.sel@.len() by {
            lemma_u32_value(c2.streams.sel@.len() as u32);
        }
    }
    if sel_len > MAX_STREAM_LEN || sel_unused >= 8 {
        return Err(CodecError::CorruptContainer(off));
    }
    let off2 = off + 5;
    if total - off2 < sel_len {
        return Err(CodecError::CorruptContainer(off2));
    }
    let sel = read_bytes(buf, off2, sel_len);
    proof {
        assert forall|c2: Container| #[trigger] image_of(buf@, c2)
            && off0 == 16 + layers_bytes(c2, crate::LAYER_COUNT as int).len()
            implies sel@ == c2.streams.sel@ by {
            assert(header_bytes(c2).len() == 16);
            assert forall|i: int| 0 <= i < c2.streams.sel@.len()
                implies sel@[i] == c2.streams.sel@[i] by {
                lemma_tail_at(c2, 5 + i);
            }
            assert(sel@ =~= c2.streams.sel@);
        }
    }
    Ok((sel, sel_unused, off2 + sel_len))
}

/// Read the overflow stream record, which must end exactly at the
/// buffer's end.
#[verifier::rlimit(100)]
fn parse_overflow(buf: &Vec<u8>, off: usize) -> (r: Result<Vec<u8>, CodecError>)
    requires
        off <= buf@.len(),
    ensures
        r matches Ok(o) ==> o@.len() <= MAX_OVERFLOW_LEN,
        forall|c2: Container| #[trigger] image_of(buf@, c2)
            && off == 16 + layers_bytes(c2, crate::LAYER_COUNT as int).len()
                + 5 + c2.streams.sel@.len()
            ==> (r matches Ok(o) && o@ == c2.streams.overflow@),
{
    let total = buf.len();
    let ghost off0 = off as int;
    proof {
        assert forall|c2: Container| #[trigger] image_of(buf@, c2)
            && off == 16 + layers_bytes(c2, crate::LAYER_COUNT as int).len()
                + 5 + c2.streams.sel@.len()
            implies total - off == 4 + c2.streams.overflow@.len()
                && buf@[off0] == u32_bytes(c2.streams.overflow@.len() as int)[0]
                && buf@[off0 + 1] == u32_bytes(c2.streams.overflow@.len() as int)[1]
                && buf@[off0 + 2] == u32_bytes(c2.streams.overflow@.len() as int)[2]
                && buf@[off0 + 3] == u32_bytes(c2.streams.overflow@.len() as int)[3] by {
            assert(header_bytes(c2).len() == 16);
            let sl = c2.streams.sel@.len() as int;
            lemma_tail_at(c2, 5 + sl);
            lemma_tail_at(c2, 5 + sl + 1);
            lemma_tail_at(c2, 5 + sl + 2);
            lemma_tail_at(c2, 5 + sl + 3);
        }
    }
    if total - off < 4 {
        return Err(CodecError::CorruptContainer(off));
    }
    let overflow_len = read_u32(buf, off);
    proof {
        assert forall|c2: Container| #[trigger] image_of(buf@, c2)
            && off0 == 16 + layers_bytes(c2, crate::LAYER_COUNT as int).len()
                + 5 + c2.streams.sel@.len()
            implies overflow_len == c2.streams.overflow@.len() by {
            lemma_u32_value(c2.streams.overflow@.len() as u32);
        }
    }
    if overflow_len > MAX_OVERFLOW_LEN {
        return Err(CodecError::CorruptContainer(off));
    }
    let off2 = off + 4;
    if total - off2 < overflow_len {
        return Err(CodecError::CorruptContainer(off2));
    }
    let overflow = read_bytes(buf, off2, overflow_len);
    proof {
        assert forall|c2: Container| #[trigger] image_of(buf@, c2)
            && off0 == 16 + layers_bytes(c2, crate::LAYER_COUNT as int).len()
                + 5 + c2.streams.sel@.len()
            implies overflow@ == c2.streams.overflow@ by {
            assert(header_bytes(c2).len() == 16);
            let sl = c2.streams.sel@.len() as int;
            assert forall|i: int| 0 <= i < c2.streams.overflow@.len()
                implies overflow@[i] == c2.streams.overflow@[i] by {
                lemma_tail_at(c2, 5 + sl + 4 + i);
            }
            assert(overflow@ =~= c2.streams.overflow@);
        }
    }
    if off2 + overflow_len != total {
        return Err(CodecError::CorruptContainer(off2 + overflow_len));
    }
    Ok(overflow)
}

/// Parse a container, validating every field and every invariant the
/// decoder needs; a malformed buffer is rejected with the byte offset
/// at which parsing failed. Parsing the byte image of a container
/// recovers exactly that container's data.
#[verifier::rlimit(100)]
pub fn parse(buf: &Vec<u8>) -> (r: Result<Container, CodecError>)
    ensures
        r matches Ok(c) ==> container_wf(c),
        forall|c2: Container| #[trigger] image_of(buf@, c2)
            ==> (r matches Ok(c) && same_container(c, c2)),
        // rejection is complete: an error means no container has this
        // buffer as its byte image
        r is Err ==> !(exists|c2: Container| #[trigger] image_of(buf@, c2)),
{
    let h = match parse_header(buf) {
        Ok(h) => h,
        Err(e) => {
            return Err(e);
        },
    };
    let original_length = h.0;
    let primary_index = h.1;
    let base = h.2;
    let trailing = h.3;

    let mut off: usize = 16;
    let mut tables: Vec<Vec<u16>> = Vec::new();
    let mut layer_streams: Vec<(Vec<u8>, u8)> = Vec::new();
    let mut l: usize = 0;
    proof {
        assert forall|c2: Container| #[trigger] image_of(buf@, c2)
            implies off == 16 + layers_bytes(c2, 0).len() by {
        }
    }
    while l < crate::LAYER_COUNT
        invariant
            l <= crate::LAYER_COUNT,
            off <= buf@.len(),
            tables@.len() == l,
            layer_streams@.len() == l,
            forall|l2: int| 0 <= l2 < l
                ==> (#[trigger] tables@[l2])@.len() <= crate::LAYER_CAPACITY,
            distinct_tables(dv(tables@)),
            forall|l2: int| 0 <= l2 < l ==> {
                &&& (#[trigger] layer_streams@[l2]).0@.len() <= MAX_STREAM_LEN
                &&& layer_streams@[l2].1 < 8
            },
            forall|c2: Container| #[trigger] image_of(buf@, c2) ==> {
                &&& off == 16 + layers_bytes(c2, l as int).len()
                &&& forall|l2: int| 0 <= l2 < l
                    ==> (#[trigger] tables@[l2])@ == c2.tables@[l2]@
                        && layer_streams@[l2].0@ == c2.streams.layer_streams@[l2].0@
                        && layer_streams@[l2].1 == c2.streams.layer_streams@[l2].1
            },
        decreases crate::LAYER_COUNT - l,
    {
        let ghost off_before = off as int;
        proof {
            assert forall|c2: Container| #[trigger] image_of(buf@, c2)
                implies layer_premise(buf@, tables@, off_before, c2) by {
            }
        }
        let p = match parse_one_layer(buf, off, &tables) {
            Ok(p) => p,
            Err(e) => {
                proof {
                    assert forall|c2: Container| #[trigger] image_of(buf@, c2)
                        implies false by {
                        assert(layer_premise(buf@, tables@, off_before, c2));
                    }
                }
                return Err(e);
            },
        };
        let ghost tsnap = tables@;
        let ghost lssnap = layer_streams@;
        tables.push(p.0);
        layer_streams.push((p.1, p.2));
        off = p.3;
        proof {
            assert(dv(tables@) =~= dv(tsnap).push(tables@[l as int]@));
            assert forall|l2: int| 0 <= l2 < l + 1
                implies ((#[trigger] layer_streams@[l2]).0@.len() <= MAX_STREAM_LEN
                    && layer_streams@[l2].1 < 8) by {
            }
            assert forall|l2: int| 0 <= l2 < l + 1
                implies (#[trigger] tables@[l2])@.len() <= crate::LAYER_CAPACITY by {
            }
            assert forall|c2: Container| #[trigger] image_of(buf@, c2)
                implies off == 16 + layers_bytes(c2, l as int + 1).len() by {
                assert(layer_premise(buf@, tsnap, off_before, c2));
            }
            assert forall|c2: Container| #[trigger] image_of(buf@, c2)
                implies forall|l2: int| 0 <= l2 < l + 1
                    ==> (#[trigger] tables@[l2])@ == c2.tables@[l2]@ by {
                assert(layer_premise(buf@, tsnap, off_before, c2));
                assert forall|l2: int| 0 <= l2 < l + 1
                    implies (#[trigger] tables@[l2])@ == c2.tables@[l2]@ by {
                    if l2 < l {
                        assert(tables@[l2] == tsnap[l2]);
                    }
                }
            }
            assert forall|c2: Container| #[trigger] image_of(buf@, c2)
                implies forall|l2: int| 0 <= l2 < l + 1
                    ==> (#[trigger] layer_streams@[l2]).0@ == c2.streams.layer_streams@[l2].0@
                        && layer_streams@[l2].1 == c2.streams.layer_streams@[l2].1 by {
                assert(layer_premise(buf@, tsnap, off_before, c2));
                assert forall|l2: int| 0 <= l2 < l + 1
                    implies (#[trigger] layer_streams@[l2]).0@
                            == c2.streams.layer_streams@[l2].0@
                        && layer_streams@[l2].1 == c2.streams.layer_streams@[l2].1 by {
                    if l2 < l {
                        assert(tsnap[l2]@ == c2.tables@[l2]@);
                        assert(layer_streams@[l2] == lssnap[l2]);
                    } else {
                        assert(layer_streams@[l2] == (p.1, p.2));
                    }
                }
            }
        }
        l = l + 1;
    }

    let tl = match parse_sel(buf, off) {
        Ok(tl) => tl,
        Err(e) => {
            return Err(e);
        },
    };
    let sel = tl.0;
    let sel_unused = tl.1;
    let overflow = match parse_overflow(buf, tl.2) {
        Ok(o) => o,
        Err(e) => {
            return Err(e);
        },
    };
    let ghost tfin = tables@;
    let ghost lsfin = layer_streams@;
    let c = Container {
        original_length,
        primary_index,
        base,
        trailing,
        tables,
        streams: EncodedStreams { sel, sel_unused, layer_streams, overflow },
    };
    proof {
        assert forall|c2: Container| #[trigger] image_of(buf@, c2)
            implies same_container(c, c2) by {
            assert(c.original_length == c2.original_length);
            assert(c.primary_index == c2.primary_index);
            assert(c.base == c2.base);
            assert(c.trailing == c2.trailing);
            assert(c.streams.sel@ == c2.streams.sel@);
            assert(c.streams.sel_unused == c2.streams.sel_unused);
            assert(c.streams.overflow@ == c2.streams.overflow@);
            assert(c.tables@.len() == c2.tables@.len());
            assert(c.streams.layer_streams@.len() == c2.streams.layer_streams@.len());
            assert forall|l2: int| 0 <= l2 < c.tables@.len()
                implies (#[trigger] c.tables@[l2])@ == c2.tables@[l2]@ by {
                assert(c.tables@[l2] == tfin[l2]);
            }
            assert forall|l2: int| 0 <= l2 < c.streams.layer_streams@.len()
                implies (#[trigger] c.streams.layer_streams@[l2]).0@
                        == c2.streams.layer_streams@[l2].0@
                    && c.streams.layer_streams@[l2].1
                        == c2.streams.layer_streams@[l2].1 by {
                assert(tfin[l2]@ == c2.tables@[l2]@);
                assert(c.streams.layer_streams@[l2] == lsfin[l2]);
            }
        }
    }
    Ok(c)
}

/// A fresh empty table keeps the set distinct.
proof fn lemma_distinct_extend_empty(t: Seq<Seq<u16>>, tab: Seq<u16>)
    requires
        distinct_tables(t),
        tab.len() == 0,
    ensures
        distinct_tables(t.push(tab)),
{
    let after = t.push(tab);
    assert forall|l1: int, j1: int, l2: int, j2: int|
        0 <= l1 < after.len() && 0 <= j1 < after[l1].len()
            && 0 <= l2 < after.len() && 0 <= j2 < after[l2].len()
            && (l1 != l2 || j1 != j2)
        implies after[l1][j1] != after[l2][j2] by {
        assert(l1 < t.len() && l2 < t.len());
        assert(after[l1] == t[l1] && after[l2] == t[l2]);
    }
}

/// Pushing a fresh, nowhere-admitted symbol onto the newest table keeps
/// the whole table set distinct.
proof fn lemma_distinct_push(t: Seq<Seq<u16>>, tab: Seq<u16>, sym: u16)
    requires
        distinct_tables(t.push(tab)),
        forall|l3: int, j3: int| 0 <= l3 < t.len() && 0 <= j3 < t[l3].len()
            ==> t[l3][j3] != sym,
        !tab.contains(sym),
    ensures
        distinct_tables(t.push(tab.push(sym))),
{
    let after = t.push(tab.push(sym));
    let before = t.push(tab);
    assert forall|l1: int, j1: int, l2: int, j2: int|
        0 <= l1 < after.len() && 0 <= j1 < after[l1].len()
            && 0 <= l2 < after.len() && 0 <= j2 < after[l2].len()
            && (l1 != l2 || j1 != j2)
        implies after[l1][j1] != after[l2][j2] by {
        let n = t.len();
        if l1 < n && l2 < n {
            assert(after[l1] == before[l1] && after[l2] == before[l2]);
            assert(before[l1][j1] != before[l2][j2]);
        } else if l1 == n && l2 == n {
            if j1 < tab.len() && j2 < tab.len() {
                assert(before[l1][j1] != before[l2][j2]);
            } else if j1 == tab.len() && j2 < tab.len() {
                assert(after[l2][j2] == tab[j2]);
                assert(tab.contains(tab[j2]) && after[l1][j1] == sym);
            } else if j2 == tab.len() && j1 < tab.len() {
                assert(after[l1][j1] == tab[j1]);
                assert(tab.contains(tab[j1]) && after[l2][j2] == sym);
            }
        } else if l1 == n {
            assert(after[l2][j2] == t[l2][j2]);
            if j1 < tab.len() {
                assert(after[l1][j1] == before[l1][j1]);
                assert(before[l1][j1] != before[l2][j2]);
            } else {
                assert(after[l1][j1] == sym);
            }
        } else {
            assert(after[l1][j1] == t[l1][j1]);
            if j2 < tab.len() {
                assert(after[l2][j2] == before[l2][j2]);
                assert(before[l1][j1] != before[l2][j2]);
            } else {
                assert(after[l2][j2] == sym);
            }
        }
    }
}

} // verus!
