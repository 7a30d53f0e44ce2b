use loli_codec::bits::{read_code, BitPacker};
use loli_codec::layers::{encode_onto_layer, fill_layer, Layer};
use loli_codec::residual;
use loli_codec::state::{update, Action, Apy, Message};
use loli_codec::symbols::{assemble, disassemble, frequency_table};

#[test]
fn bit_packer_packs_msb_first() {
    let mut p = BitPacker::new();
    p.pack(5, 3); // 101
    p.pack(1, 1); // 1
    p.pack(255, 8); // 11111111
    let (bytes, unused) = p.finish();
    assert_eq!(bytes, vec![0b1011_1111, 0b1111_0000]);
    assert_eq!(unused, 4);
}

#[test]
fn bit_packer_full_bytes_have_no_padding() {
    let mut p = BitPacker::new();
    p.pack(0b10110010, 8);
    let (bytes, unused) = p.finish();
    assert_eq!(bytes, vec![0b10110010]);
    assert_eq!(unused, 0);
}

#[test]
fn bit_packer_empty_has_no_bytes() {
    let p = BitPacker::new();
    let (bytes, unused) = p.finish();
    assert!(bytes.is_empty());
    assert_eq!(unused, 0);
}

#[test]
fn bit_round_trip_mixed_widths() {
    let pairs: Vec<(u8, usize)> = vec![(5, 3), (0, 1), (1, 1), (9, 5), (255, 8), (3, 2)];
    let mut p = BitPacker::new();
    for &(code, width) in &pairs {
        p.pack(code, width);
    }
    let (bytes, _unused) = p.finish();
    let mut pos = 0usize;
    for &(code, width) in &pairs {
        let got = read_code(&bytes, pos, width);
        assert_eq!(got, code, "width {} at bit {}", width, pos);
        pos += width;
    }
}

#[test]
fn residual_first_value_is_bias() {
    let t: Vec<u8> = vec![10, 20, 15];
    let r = residual::encode(&t);
    assert_eq!(r, vec![128, 138, 123]);
}

#[test]
fn residual_round_trip() {
    let t: Vec<u8> = vec![0, 255, 1, 254, 77, 77, 78];
    let r = residual::encode(&t);
    assert_eq!(r[0], 128);
    let back = residual::decode(t[0], &r);
    assert_eq!(back, t);
}

#[test]
fn residual_wraps_modulo_256() {
    let t: Vec<u8> = vec![200, 10];
    let r = residual::encode(&t);
    // 10 - 200 + 128 = -62, so 194 modulo 256
    assert_eq!(r, vec![128, 194]);
    assert_eq!(residual::decode(200, &r), t);
}

#[test]
fn assemble_pairs_big_endian_with_trailing() {
    let r: Vec<u8> = vec![1, 2, 3, 4, 5];
    let (syms, trailing) = assemble(&r);
    assert_eq!(syms, vec![0x0102, 0x0304]);
    assert_eq!(trailing, Some(5));
    let back = disassemble(&syms, trailing);
    assert_eq!(back, r);
}

#[test]
fn assemble_even_has_no_trailing() {
    let r: Vec<u8> = vec![0xAB, 0xCD];
    let (syms, trailing) = assemble(&r);
    assert_eq!(syms, vec![0xABCD]);
    assert_eq!(trailing, None);
    assert_eq!(disassemble(&syms, trailing), r);
}

#[test]
fn frequency_table_counts_occurrences() {
    let syms: Vec<u16> = vec![7, 7, 9, 7, 65535, 0];
    let tbl = frequency_table(&syms);
    assert_eq!(tbl.len(), 65536);
    assert_eq!(tbl[7], 3);
    assert_eq!(tbl[9], 1);
    assert_eq!(tbl[65535], 1);
    assert_eq!(tbl[0], 1);
    assert_eq!(tbl[8], 0);
}

#[test]
fn fill_layer_pops_by_frequency_then_symbol() {
    let mut freq: Vec<u64> = vec![0; 65536];
    freq[100] = 5;
    freq[200] = 9;
    freq[300] = 9;
    freq[50] = 1;
    let mut layer = Layer::new();
    let consumed = fill_layer(&mut layer, &mut freq);
    // ties break toward the smaller symbol value; exhaustion leaves the
    // layer short of its capacity
    assert_eq!(layer.symbols, vec![200, 300, 100, 50]);
    assert_eq!(consumed, 24);
    assert_eq!(freq[100], 0);
    assert_eq!(freq[200], 0);
    assert_eq!(freq[300], 0);
    assert_eq!(freq[50], 0);
}

#[test]
fn fill_layer_caps_at_capacity() {
    let mut freq: Vec<u64> = vec![0; 65536];
    for s in 0..10u16 {
        freq[s as usize] = 100 - s as u64;
    }
    let mut layer = Layer::new();
    let _ = fill_layer(&mut layer, &mut freq);
    assert_eq!(layer.symbols, vec![0, 1, 2, 3, 4, 5, 6, 7]);
    assert_eq!(freq[8], 92);
    assert_eq!(freq[9], 91);
}

#[test]
fn encode_onto_layer_packs_code_minus_one() {
    let mut layer = Layer::new();
    let mut freq: Vec<u64> = vec![0; 65536];
    freq[7] = 2;
    freq[9] = 1;
    let _ = fill_layer(&mut layer, &mut freq);
    assert_eq!(layer.symbols, vec![7, 9]);
    encode_onto_layer(&mut layer, &9);
    let Layer { symbols: _, packer } = layer;
    let (bytes, unused) = packer.finish();
    // symbol 9 holds code 2, stored as 0b001 in three bits
    assert_eq!(bytes, vec![0b0010_0000]);
    assert_eq!(unused, 5);
}

#[test]
fn update_stores_path_and_requests_encode() {
    let mut api = Apy::new();
    assert_eq!(api.file_path, "");
    let action = update(&mut api, Message::FileDropped(String::from("/tmp/input.bin")));
    assert_eq!(action, Action::EncodeFile);
    assert_eq!(api.file_path, "/tmp/input.bin");
}

#[test]
fn update_ignores_idle() {
    let mut api = Apy::new();
    let _ = update(&mut api, Message::FileDropped(String::from("kept")));
    let action = update(&mut api, Message::Idle);
    assert_eq!(action, Action::DoNothing);
    assert_eq!(api.file_path, "kept");
}
