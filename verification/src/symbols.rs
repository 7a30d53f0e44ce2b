//! Grouping the residual stream into fixed-width 16-bit symbols and
//! counting symbol frequencies.
//!
//! Symbols are big-endian packs of two consecutive residual bytes with no
//! overlap. A stream of odd length leaves one trailing byte over, which
//! never participates in frequency counting or layering; the caller
//! appends it verbatim to the overflow stream.

use vstd::prelude::*;

verus! {

/// Number of distinct 16-bit symbol values.
pub const SYMBOL_SPACE: usize = 65536;

/// The 16-bit symbol assembled from bytes `2i` and `2i + 1`.
pub open spec fn sym_at(r: Seq<u8>, i: int) -> u16 {
    ((r[2 * i] as int) * 256 + (r[2 * i + 1] as int)) as u16
}

/// All whole symbols of a residual stream, in order.
pub open spec fn symbols_of(r: Seq<u8>) -> Seq<u16> {
    Seq::new((r.len() / 2) as nat, |i: int| sym_at(r, i))
}

/// The constituent bytes of a symbol sequence, big-endian per symbol.
pub open spec fn bytes_of_symbols(s: Seq<u16>) -> Seq<u8> {
    Seq::new((s.len() * 2) as nat,
        |i: int| if i % 2 == 0 { ((s[i / 2] as int) / 256) as u8 } else { ((s[i / 2] as int) % 256) as u8 })
}

/// Occurrence count of symbol `v` in `s`.
pub open spec fn count_of(s: Seq<u16>, v: u16) -> nat
    decreases s.len(),
{
    if s.len() == 0 {
        0
    } else {
        count_of(s.drop_last(), v) + if s.last() == v { 1nat } else { 0nat }
    }
}

pub proof fn lemma_count_le_len(s: Seq<u16>, v: u16)
    ensures
        count_of(s, v) <= s.len(),
    decreases s.len(),
{
    if s.len() > 0 {
        lemma_count_le_len(s.drop_last(), v);
    }
}

pub proof fn lemma_count_take_step(s: Seq<u16>, v: u16, i: int)
    requires
        0 <= i < s.len(),
    ensures
        count_of(s.take(i + 1), v) == count_of(s.take(i), v) + if s[i] == v { 1nat } else { 0nat },
{
    assert(s.take(i + 1).drop_last() =~= s.take(i));
    assert(s.take(i + 1).last() == s[i]);
}

/// Split a residual stream into whole 16-bit symbols plus the trailing
/// byte of an odd-length stream.
pub fn assemble(r: &Vec<u8>) -> (out: (Vec<u16>, Option<u8>))
    ensures
        out.0@ == symbols_of(r@),
        r@.len() % 2 == 0 ==> out.1 == None::<u8>,
        r@.len() % 2 == 1 ==> out.1 == Some(r@[r@.len() - 1]),
{
    let len = r.len();
    let n = len / 2;
    let mut syms: Vec<u16> = Vec::new();
    let mut i: usize = 0;
    while i < n
        invariant
            i <= n,
            len == r@.len(),
            n == r@.len() / 2,
            syms@.len() == i,
            forall|j: int| 0 <= j < i ==> syms@[j] == sym_at(r@, j),
        decreases n - i,
    {
        proof {
            assert(2 * (i as int) < 2 * n);
            assert(2 * n <= r@.len());
        }
        let hi = r[2 * i];
        let lo = r[2 * i + 1];
        let s: u16 = (hi as u16) * 256 + (lo as u16);
        syms.push(s);
        i = i + 1;
    }
    proof {
        assert(syms@ =~= symbols_of(r@));
    }
    let trailing: Option<u8> = if r.len() % 2 == 1 {
        Some(r[r.len() - 1])
    } else {
        None
    };
    (syms, trailing)
}

/// Rebuild a byte stream from whole symbols plus an optional trailing
/// byte; the inverse of `assemble`.
pub fn disassemble(syms: &Vec<u16>, trailing: Option<u8>) -> (r: Vec<u8>)
    requires
        syms@.len() * 2 + 1 <= usize::MAX,
    ensures
        trailing is None ==> r@ == bytes_of_symbols(syms@),
        trailing is Some ==> r@ == bytes_of_symbols(syms@).push(trailing->0),
{
    let mut r: Vec<u8> = Vec::new();
    let mut i: usize = 0;
    while i < syms.len()
        invariant
            i <= syms@.len(),
            syms@.len() * 2 + 1 <= usize::MAX,
            r@.len() == 2 * i,
            forall|j: int| 0 <= j < 2 * i ==> r@[j] == bytes_of_symbols(syms@)[j],
        decreases syms@.len() - i,
    {
        let s = syms[i];
        let hi: u8 = (s / 256) as u8;
        let lo: u8 = (s % 256) as u8;
        r.push(hi);
        r.push(lo);
        proof {
            assert((2 * i) % 2 == 0 && (2 * i) / 2 == i as int);
            assert((2 * i + 1) % 2 == 1 && (2 * i + 1) / 2 == i as int);
        }
        i = i + 1;
    }
    match trailing {
        None => {
            proof {
                assert(r@ =~= bytes_of_symbols(syms@));
            }
            r
        },
        Some(b) => {
            let ghost before = r@;
            r.push(b);
            proof {
                assert(before =~= bytes_of_symbols(syms@));
            }
            r
        },
    }
}

/// Reassembling the bytes of the assembled symbols, followed by the
/// trailing byte if any, reproduces the residual stream exactly.
pub proof fn lemma_assemble_round_trip(r: Seq<u8>)
    ensures
        r.len() % 2 == 0 ==> bytes_of_symbols(symbols_of(r)) == r,
        r.len() % 2 == 1 ==> bytes_of_symbols(symbols_of(r)).push(r[r.len() - 1]) == r,
{
    let s = symbols_of(r);
    let b = bytes_of_symbols(s);
    assert forall|i: int| 0 <= i < b.len() implies b[i] == r[i] by {
        let k = i / 2;
        assert(0 <= k < s.len());
        assert(s[k] == sym_at(r, k));
        let hi = r[2 * k] as int;
        let lo = r[2 * k + 1] as int;
        assert((hi * 256 + lo) / 256 == hi && (hi * 256 + lo) % 256 == lo) by (nonlinear_arith)
            requires 0 <= hi < 256 && 0 <= lo < 256;
        if i % 2 == 0 {
            assert(2 * k == i);
        } else {
            assert(2 * k + 1 == i);
        }
    }
    if r.len() % 2 == 0 {
        assert(b =~= r);
    } else {
        assert(b.push(r[r.len() - 1]) =~= r);
    }
}

/// Count the occurrences of every symbol value; the table is indexed by
/// symbol value.
pub fn frequency_table(syms: &Vec<u16>) -> (tbl: Vec<u64>)
    requires
        syms@.len() <= 0x7FFF_FFFF,
    ensures
        tbl@.len() == SYMBOL_SPACE,
        forall|v: u16| #![auto] tbl@[v as int] == count_of(syms@, v),
{
    let mut tbl: Vec<u64> = Vec::new();
    let mut i: usize = 0;
    while i < SYMBOL_SPACE
        invariant
            i <= SYMBOL_SPACE,
            tbl@.len() == i,
            forall|j: int| 0 <= j < i ==> tbl@[j] == 0,
        decreases SYMBOL_SPACE - i,
    {
        tbl.push(0);
        i = i + 1;
    }
    proof {
        assert forall|v: u16| #![auto] count_of(syms@.take(0), v) == 0 by {
            assert(syms@.take(0) =~= Seq::<u16>::empty());
        }
    }
    let mut k: usize = 0;
    while k < syms.len()
        invariant
            k <= syms@.len(),
            syms@.len() <= 0x7FFF_FFFF,
            tbl@.len() == SYMBOL_SPACE,
            forall|v: u16| #![auto] tbl@[v as int] == count_of(syms@.take(k as int), v),
        decreases syms@.len() - k,
    {
        let s = syms[k];
        proof {
            assert(tbl@[s as int] == count_of(syms@.take(k as int), s));
            lemma_count_le_len(syms@.take(k as int), s);
            assert forall|v: u16| #![auto] count_of(syms@.take(k as int + 1), v)
                == count_of(syms@.take(k as int), v) + if syms@[k as int] == v { 1nat } else { 0nat } by {
                lemma_count_take_step(syms@, v, k as int);
            }
        }
        let c = tbl[s as usize];
        tbl.set(s as usize, c + 1);
        k = k + 1;
    }
    proof {
        assert(syms@.take(syms@.len() as int) =~= syms@);
    }
    tbl
}

/// The whole frequency table of a symbol sequence, indexed by symbol
/// value.
pub open spec fn freq_seq(syms: Seq<u16>) -> Seq<u64> {
    Seq::new(SYMBOL_SPACE as nat, |v: int| count_of(syms, v as u16) as u64)
}

} // verus!
