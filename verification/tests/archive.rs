use e8_mask_codec::runtime::exact::{
    decode_prime_chunk, decode_varint, encode_prime_chunk, encode_varint, inspect_prime_chunk,
    render_archive_manifest, render_exact_index_line, ArchiveChunkMeta,
};
use e8_mask_codec::runtime::resume::{manifest_u64, read_last_prime_from_wheel_index, trim_range};
use e8_mask_codec::runtime::wheel210::{
    encode_wheel210_chunk, inspect_wheel210_chunk, parse_wheel210_index, read_wheel210_raw,
    render_wheel210_index_line, render_wheel210_manifest, wheel210_filter, wheel210_raw_bitset,
    wheel210_raw_contains, wheel210_raw_in_u64, wheel210_raw_next_prime, wheel210_tables,
    Wheel210ChunkMeta,
};
use e8_mask_codec::runtime::{ArchiveError, ArchiveMode};

#[test]
fn varints_read_back_what_was_written() {
    for value in [0_u64, 1, 127, 128, 300, 16_383, 16_384, u64::MAX] {
        let mut bytes = vec![0xaa];
        encode_varint(value, &mut bytes);
        let mut cursor = 1;
        assert_eq!(decode_varint(&bytes, &mut cursor), Ok(value));
        assert_eq!(cursor, bytes.len());
    }
    let mut bytes = Vec::new();
    encode_varint(300, &mut bytes);
    assert_eq!(bytes, vec![0xac, 0x02]);
    let mut cursor = 0;
    assert_eq!(decode_varint(&[0x80, 0x80], &mut cursor), Err(ArchiveError::VarintEof));
    let mut cursor = 0;
    assert_eq!(decode_varint(&[0xff; 11], &mut cursor), Err(ArchiveError::VarintTooLong));
}

#[test]
fn exact_chunks_read_back_their_primes() {
    let primes = vec![2, 3, 5, 7, 11, 13, 1_000_003, 1_000_033];
    let bytes = encode_prime_chunk(&primes);
    assert_eq!(&bytes[..6], b"E8PA1\0");
    assert_eq!(decode_prime_chunk(&bytes), Ok(primes.clone()));
    assert_eq!(
        inspect_prime_chunk(&bytes, 4),
        Ok(ArchiveChunkMeta { chunk_id: 4, prime_count: 8, first_prime: 2, last_prime: 1_000_033, bytes: bytes.len() as u64 })
    );
    assert_eq!(decode_prime_chunk(b"E8PA1"), Err(ArchiveError::ChunkHeader));
    let mut truncated = bytes.clone();
    truncated.truncate(23);
    assert_eq!(decode_prime_chunk(&truncated), Err(ArchiveError::VarintEof));
    assert_eq!(render_exact_index_line(ArchiveChunkMeta { chunk_id: 1, prime_count: 2, first_prime: 3, last_prime: 5, bytes: 30 }), b"1\t2\t3\t5\t30\n".to_vec());
}

#[test]
fn wheel_tables_hold_the_forty_eight_coprime_residues() {
    let tables = wheel210_tables();
    assert_eq!(tables.residues[0], 1);
    assert_eq!(tables.residues[1], 11);
    assert_eq!(tables.residues[47], 209);
    assert_eq!(tables.lookup[11], 1);
    assert_eq!(tables.lookup[2], -1);
    assert_eq!(tables.lookup.iter().filter(|&&b| b >= 0).count(), 48);
}

#[test]
fn wheel_chunks_read_back_the_numbers_they_keep() {
    let primes = vec![37, 2, 3, 5, 7, 11, 13, 13, 211, 223, 1_009];
    let (meta, bytes) = encode_wheel210_chunk(9, &primes).expect("encode").expect("kept");
    assert_eq!(meta.first_prime, 11);
    assert_eq!(meta.last_prime, 1_009);
    assert_eq!(meta.cycle_start, 0);
    assert_eq!(meta.cycles, 1_009 / 210 + 1);
    assert_eq!(meta.raw_bytes, meta.cycles * 6);
    assert_eq!(meta.compressed_bytes, bytes.len() as u64);
    let inspected = inspect_wheel210_chunk(&bytes, 9).expect("inspect");
    assert_eq!(inspected.compressed_bytes, meta.compressed_bytes - 55);
    assert_eq!(Wheel210ChunkMeta { compressed_bytes: meta.compressed_bytes, ..inspected }, meta);
    let raw = read_wheel210_raw(&bytes).expect("raw");
    assert_eq!(raw.len() as u64, meta.raw_bytes);
    for n in 0..1_100 {
        let kept = primes.contains(&n) && n >= 11;
        assert_eq!(wheel210_raw_contains(&raw, meta, n), kept, "n={n}");
    }
    assert!(wheel210_raw_in_u64(&raw, meta));
    assert_eq!(wheel210_raw_next_prime(&raw, meta, 38), Some(211));
    assert_eq!(wheel210_raw_next_prime(&raw, meta, 1_010), None);
    assert_eq!(encode_wheel210_chunk(1, &[2, 3, 5, 7]), Ok(None));
}

#[test]
fn wheel_chunks_do_not_depend_on_input_order_or_repeats() {
    let sorted = encode_wheel210_chunk(0, &[11, 13, 211, 1_009]);
    let shuffled = encode_wheel210_chunk(0, &[1_009, 13, 11, 211, 13, 1_009, 2, 11]);
    assert_eq!(sorted, shuffled);
    assert_eq!(encode_wheel210_chunk(0, &[13, 11, 13]), encode_wheel210_chunk(0, &[11, 13]));
}

#[test]
fn wheel_chunk_headers_are_checked() {
    assert_eq!(read_wheel210_raw(b"W210A1\0"), Err(ArchiveError::ChunkHeader));
    let (_, mut bytes) = encode_wheel210_chunk(0, &[11, 13]).expect("encode").expect("kept");
    bytes[39] = bytes[39].wrapping_add(1);
    match read_wheel210_raw(&bytes) {
        Err(ArchiveError::RawSize { got, expected }) => assert_eq!(got + 1, expected),
        other => panic!("unexpected {other:?}"),
    }
    bytes[0] = b'X';
    assert_eq!(inspect_wheel210_chunk(&bytes, 0), Err(ArchiveError::ChunkHeader));
    let mut garbage = bytes.clone();
    garbage.truncate(60);
    garbage[0] = b'W';
    garbage[39] = 6;
    for byte in &mut garbage[39..47] {
        *byte = 0;
    }
    garbage[39] = 6;
    assert_eq!(read_wheel210_raw(&garbage), Err(ArchiveError::Decompress));
}

#[test]
fn the_filter_keeps_sorted_distinct_wheel_numbers() {
    assert_eq!(wheel210_filter(&[97, 2, 11, 97, 49, 15, 1]), vec![11, 97]);
    let (raw, cycle_start, cycles) = wheel210_raw_bitset(&[211, 421]);
    assert_eq!((cycle_start, cycles), (1, 2));
    assert_eq!(raw.len(), 12);
    assert_eq!(raw[0], 1);
    assert_eq!(raw[6], 1);
}

#[test]
fn index_lines_read_back_their_entries() {
    let meta = Wheel210ChunkMeta { chunk_id: 3, first_prime: 11, last_prime: 37, cycle_start: 0, cycles: 1, raw_bytes: 6, compressed_bytes: 70 };
    let mut text = b"chunk_id\tfirst_prime\tlast_prime\tcycle_start\tcycles\traw_bytes\tcompressed_bytes\n".to_vec();
    text.extend_from_slice(&render_wheel210_index_line(meta));
    text.extend_from_slice(b"short\tline\n");
    assert_eq!(parse_wheel210_index(&text), Ok(vec![meta]));
    text.extend_from_slice(b"1\t2\t3\t4\t5\t6\tx\n");
    assert_eq!(parse_wheel210_index(&text), Err(ArchiveError::IndexField));
    assert_eq!(parse_wheel210_index(b""), Ok(vec![]));
    assert_eq!(read_last_prime_from_wheel_index(b"header\n1\t2\t37\n"), Ok(37));
    assert_eq!(read_last_prime_from_wheel_index(b"header\n1\t2\n"), Ok(0));
    assert_eq!(read_last_prime_from_wheel_index(b"header\n1\t2\tx\n"), Err(ArchiveError::IndexField));
}

#[test]
fn manifests_record_their_counts() {
    let wheel = render_wheel210_manifest(8, 2);
    assert_eq!(manifest_u64(&wheel, b"committed_primes"), 8);
    assert_eq!(manifest_u64(&wheel, b"committed_chunks"), 2);
    assert!(String::from_utf8(wheel).unwrap().starts_with("format=e8-wheel210-v1\n"));
    let both = render_archive_manifest(ArchiveMode::Both, 10, 1);
    assert_eq!(manifest_u64(&both, b"committed_primes"), 10);
    let only = render_archive_manifest(ArchiveMode::Wheel210, 10, 1);
    assert!(String::from_utf8(only).unwrap().contains("chunk_dir=wheel210\n"));
    assert_eq!(manifest_u64(b" committed_primes = 12 \ncommitted_primes=x\n", b"committed_primes"), 0);
    assert_eq!(manifest_u64(" committed_primes =\t12\u{a0}\n".as_bytes(), b"committed_primes"), 12);
    assert_eq!(manifest_u64(b"other=1\n", b"committed_primes"), 0);
}

#[test]
fn trimming_drops_unicode_white_space() {
    let text = " \u{3000}a b\u{2009}\t".as_bytes();
    let (a, b) = trim_range(text, 0, text.len());
    assert_eq!(&text[a..b], b"a b");
}
