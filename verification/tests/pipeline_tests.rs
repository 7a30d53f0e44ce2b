use loli_codec::pipeline::{decode, encode};
use loli_codec::CodecError;

#[test]
fn round_trip_small_block() {
    let data: Vec<u8> = vec![5, 5, 5, 5, 1, 2, 3];
    let container = encode(&data).expect("encode should succeed");
    let back = decode(&container).expect("decode should succeed");
    assert_eq!(back, data);
}

#[test]
fn round_trip_repeated_byte_shrinks() {
    let data: Vec<u8> = vec![0x41; 10_000];
    let container = encode(&data).expect("encode should succeed");
    let back = decode(&container).expect("decode should succeed");
    assert_eq!(back, data);
    assert!(
        container.len() * 2 < data.len(),
        "container of a constant input must be substantially smaller: {} vs {}",
        container.len(),
        data.len()
    );
}

#[test]
fn round_trip_many_distinct_symbols_uses_overflow() {
    // far more distinct symbol values than the seven layers' total
    // capacity of 56, so occurrences must route through overflow
    let mut data: Vec<u8> = Vec::new();
    let mut x: u32 = 1;
    for _ in 0..4000 {
        x = x.wrapping_mul(1664525).wrapping_add(1013904223);
        data.push((x >> 24) as u8);
    }
    let container = encode(&data).expect("encode should succeed");
    let parsed = loli_codec::container::parse(&container).expect("parse should succeed");
    assert!(
        !parsed.streams.overflow.is_empty(),
        "excess symbols must land in the overflow stream"
    );
    let back = decode(&container).expect("decode should succeed");
    assert_eq!(back, data);
}

#[test]
fn round_trip_single_byte() {
    let data: Vec<u8> = vec![42];
    let container = encode(&data).expect("encode should succeed");
    let back = decode(&container).expect("decode should succeed");
    assert_eq!(back, data);
}

#[test]
fn round_trip_two_bytes() {
    let data: Vec<u8> = vec![9, 7];
    let container = encode(&data).expect("encode should succeed");
    let back = decode(&container).expect("decode should succeed");
    assert_eq!(back, data);
}

#[test]
fn round_trip_text() {
    let data: Vec<u8> = b"abracadabra abracadabra banana".to_vec();
    let container = encode(&data).expect("encode should succeed");
    let back = decode(&container).expect("decode should succeed");
    assert_eq!(back, data);
}

#[test]
fn round_trip_all_byte_values() {
    let mut data: Vec<u8> = Vec::new();
    for round in 0..3u16 {
        for b in 0..=255u8 {
            data.push(b.wrapping_add(round as u8));
        }
    }
    let container = encode(&data).expect("encode should succeed");
    let back = decode(&container).expect("decode should succeed");
    assert_eq!(back, data);
}

#[test]
fn empty_input_is_rejected() {
    let data: Vec<u8> = Vec::new();
    assert_eq!(encode(&data), Err(CodecError::EmptyInput));
}

#[test]
fn empty_container_is_corrupt() {
    let buf: Vec<u8> = Vec::new();
    assert_eq!(decode(&buf), Err(CodecError::CorruptContainer(0)));
}

#[test]
fn bad_magic_is_corrupt() {
    let data: Vec<u8> = vec![1, 2, 3, 4, 5, 6];
    let mut container = encode(&data).expect("encode should succeed");
    container[0] ^= 0xFF;
    assert_eq!(decode(&container), Err(CodecError::CorruptContainer(0)));
}

#[test]
fn bad_version_is_corrupt() {
    let data: Vec<u8> = vec![1, 2, 3, 4, 5, 6];
    let mut container = encode(&data).expect("encode should succeed");
    container[4] = 0x7F;
    assert_eq!(decode(&container), Err(CodecError::CorruptContainer(4)));
}

#[test]
fn truncated_container_is_corrupt() {
    let data: Vec<u8> = vec![10, 20, 30, 40, 50, 60, 70, 80];
    let mut container = encode(&data).expect("encode should succeed");
    container.truncate(container.len() - 1);
    assert!(matches!(
        decode(&container),
        Err(CodecError::CorruptContainer(_))
    ));
}

#[test]
fn trailing_garbage_is_corrupt() {
    let data: Vec<u8> = vec![10, 20, 30, 40];
    let mut container = encode(&data).expect("encode should succeed");
    container.push(0);
    assert!(matches!(
        decode(&container),
        Err(CodecError::CorruptContainer(_))
    ));
}

#[test]
fn block_transform_differs_from_input() {
    // the forward transform must actually permute: a codec whose block
    // transform handed its input back unchanged would still round-trip,
    // but the inverse walk pins the libsais conventions down
    let data: Vec<u8> = b"banana".to_vec();
    let tr = loli_codec::bwt::transform(&data).expect("transform should succeed");
    assert_eq!(tr.transformed.len(), data.len());
    assert_ne!(tr.transformed, data, "the permutation of 'banana' is not the identity");
    assert!(tr.primary_index < data.len());
    let back = loli_codec::bwt::invert(&tr.transformed, tr.primary_index);
    assert_eq!(back, data);
}

#[test]
fn block_transform_inverts_exactly() {
    let data: Vec<u8> = b"mississippi river runs".to_vec();
    let tr = loli_codec::bwt::transform(&data).expect("transform should succeed");
    assert!(tr.primary_index < data.len());
    let back = loli_codec::bwt::invert(&tr.transformed, tr.primary_index);
    assert_eq!(back, data);
}

#[test]
fn most_frequent_symbol_leads_layer_one() {
    // the run of repeated bytes dominates the block's symbol counts, so
    // the top-frequency symbol must head the first layer's table, where
    // it holds code 1
    let data: Vec<u8> = vec![5, 5, 5, 5, 1, 2, 3, 5, 5, 5, 5, 1, 2, 3];
    let tr = loli_codec::bwt::transform(&data).expect("transform should succeed");
    let resid = loli_codec::residual::encode(&tr.transformed);
    let (syms, _trailing) = loli_codec::symbols::assemble(&resid);
    let freq = loli_codec::symbols::frequency_table(&syms);
    let top = (0..65536usize)
        .max_by_key(|&s| (freq[s], 65535 - s))
        .unwrap() as u16;
    assert!(freq[top as usize] >= 2);

    let container = encode(&data).expect("encode should succeed");
    let parsed = loli_codec::container::parse(&container).expect("parse should succeed");
    assert_eq!(parsed.tables[0][0], top);
    let back = decode(&container).expect("decode should succeed");
    assert_eq!(back, data);
}

#[test]
fn tampered_layer_code_is_corrupt() {
    let data: Vec<u8> = vec![5, 5, 5, 5, 1, 2, 3];
    let mut container = encode(&data).expect("encode should succeed");
    // the first layer's first table entry sits right after the header:
    // count byte at offset 16, symbol at 17..19, its code byte at 19
    assert_eq!(container[19], 1, "entry 0 of layer 1 holds code 1");
    container[19] = 9;
    assert_eq!(decode(&container), Err(CodecError::CorruptContainer(19)));
}

#[test]
fn oversized_input_is_rejected() {
    let data: Vec<u8> = vec![0u8; 0x1FFF_FFFF];
    assert_eq!(encode(&data), Err(CodecError::InputTooLong));
}

#[test]
fn encode_is_deterministic() {
    let data: Vec<u8> = b"the same bytes in, the same container out".to_vec();
    let first = encode(&data).expect("encode should succeed");
    let second = encode(&data).expect("encode should succeed");
    assert_eq!(first, second);
}
