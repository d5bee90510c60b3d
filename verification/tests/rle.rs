use rust_compressor::rle::{compress, decompress};

fn round_trip(data: &[u8]) -> Vec<u8> {
    let mut compressed = Vec::new();
    compress(data, &mut compressed);
    let mut decompressed = Vec::new();
    decompress(&compressed, &mut decompressed);
    decompressed
}

#[test]
fn test_rle_roundtrip() {
    let input = b"AAABBBCCCCCDDDDE";
    let mut compressed = Vec::new();
    compress(input, &mut compressed);

    let mut decompressed = Vec::new();
    decompress(&compressed, &mut decompressed);

    assert_eq!(input, decompressed.as_slice());
}

#[test]
fn rle_test_empty_input() {
    let input = b"";
    let mut compressed = Vec::new();
    compress(input, &mut compressed);

    let mut decompressed = Vec::new();
    decompress(&compressed, &mut decompressed);

    assert_eq!(input, decompressed.as_slice());
}

#[test]
fn rle_test_single_byte() {
    let input = b"A";
    let mut compressed = Vec::new();
    compress(input, &mut compressed);

    let mut decompressed = Vec::new();
    decompress(&compressed, &mut decompressed);

    assert_eq!(input, decompressed.as_slice());
}

#[test]
fn test_max_run_length() {
    let input = vec![b'A'; 255];
    let mut compressed = Vec::new();
    compress(&input, &mut compressed);

    let mut decompressed = Vec::new();
    decompress(&compressed, &mut decompressed);

    assert_eq!(input, decompressed);
}

#[test]
fn rle_encodes_each_run_as_a_pair() {
    let mut compressed = Vec::new();
    compress(b"AAABBBCCCCCDDDDE", &mut compressed);
    assert_eq!(
        compressed,
        vec![3, b'A', 3, b'B', 5, b'C', 4, b'D', 1, b'E']
    );
}

#[test]
fn rle_empty_input_gives_empty_stream() {
    let mut compressed = Vec::new();
    compress(b"", &mut compressed);
    assert!(compressed.is_empty());

    let mut decompressed = Vec::new();
    decompress(b"", &mut decompressed);
    assert!(decompressed.is_empty());
}

#[test]
fn rle_single_byte_is_one_pair() {
    for byte in 0..=255u8 {
        let mut compressed = Vec::new();
        compress(&[byte], &mut compressed);
        assert_eq!(compressed, vec![1, byte]);
        assert_eq!(round_trip(&[byte]), vec![byte]);
    }
}

#[test]
fn rle_run_at_the_cap_is_one_pair() {
    let input = vec![b'A'; 255];
    let mut compressed = Vec::new();
    compress(&input, &mut compressed);
    assert_eq!(compressed, vec![255, b'A']);
}

#[test]
fn rle_run_past_the_cap_is_split() {
    let input = vec![b'A'; 256];
    let mut compressed = Vec::new();
    compress(&input, &mut compressed);
    assert_eq!(compressed, vec![255, b'A', 1, b'A']);
    assert_eq!(round_trip(&input), input);

    let long = vec![0u8; 600];
    let mut compressed = Vec::new();
    compress(&long, &mut compressed);
    assert_eq!(compressed, vec![255, 0, 255, 0, 90, 0]);
    assert_eq!(round_trip(&long), long);
}

#[test]
fn rle_non_repeating_data_doubles_in_size() {
    let input = b"ABCDEFGHIJKLMNOPQRSTUVWXYZ";
    let mut compressed = Vec::new();
    compress(input, &mut compressed);
    assert_eq!(compressed.len(), 52);
    assert_eq!(&compressed[..6], &[1, b'A', 1, b'B', 1, b'C']);
    assert_eq!(round_trip(input), input.to_vec());
}

#[test]
fn rle_compress_appends_to_the_sink() {
    let mut sink = vec![9, 8, 7];
    compress(b"AAB", &mut sink);
    assert_eq!(sink, vec![9, 8, 7, 2, b'A', 1, b'B']);
}

#[test]
fn rle_decompress_expands_pairs() {
    let mut decompressed = Vec::new();
    decompress(&[3, b'A', 1, b'B', 2, b'C'], &mut decompressed);
    assert_eq!(decompressed, b"AAABCC".to_vec());
}

#[test]
fn rle_decompress_appends_to_the_sink() {
    let mut sink = vec![b'Z'];
    decompress(&[2, b'A'], &mut sink);
    assert_eq!(sink, b"ZAA".to_vec());
}

#[test]
fn rle_trailing_odd_byte_is_ignored() {
    let mut decompressed = Vec::new();
    decompress(&[2, b'A', 5], &mut decompressed);
    assert_eq!(decompressed, b"AA".to_vec());

    let mut decompressed = Vec::new();
    decompress(&[7], &mut decompressed);
    assert!(decompressed.is_empty());
}

#[test]
fn rle_count_zero_expands_to_nothing() {
    let mut decompressed = Vec::new();
    decompress(&[0, b'A', 2, b'B'], &mut decompressed);
    assert_eq!(decompressed, b"BB".to_vec());
}

#[test]
fn rle_full_count_expands_to_the_cap() {
    let mut decompressed = Vec::new();
    decompress(&[255, 0x42], &mut decompressed);
    assert_eq!(decompressed, vec![0x42; 255]);
}

#[test]
fn rle_round_trips_binary_data() {
    let mut input = Vec::new();
    for i in 0..3000u32 {
        input.push(((i / 37) % 4) as u8);
    }
    assert_eq!(round_trip(&input), input);

    let mut runs = Vec::new();
    for length in [1usize, 2, 254, 255, 256, 257, 510, 511] {
        runs.extend(std::iter::repeat(length as u8).take(length));
    }
    assert_eq!(round_trip(&runs), runs);
}
