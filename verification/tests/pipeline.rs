use beeziptoo::rle2::Symbol;
use beeziptoo::{burrows_wheeler, compress, decompress, move_to_front, rle1, rle2};
use beeziptoo::{CompressError, DecompressError};

/// The transform of a classic sample: sorted rotations of "banana" put the
/// original third, and the last column reads "nnbaaa".
#[test]
fn bwt_banana() {
    let data = b"banana".to_vec();

    let (primary, transformed) = burrows_wheeler::encode(&data);

    assert_eq!(primary, 3);
    assert_eq!(transformed, b"nnbaaa".to_vec());
}

/// Inverting the transform of "banana" restores it.
#[test]
fn bwt_banana_round_trip() {
    let data = b"banana".to_vec();

    let (primary, transformed) = burrows_wheeler::encode(&data);
    let restored = burrows_wheeler::decode(primary, &transformed).expect("index is in range");

    assert_eq!(restored, data);
}

/// The primary index of a nonempty buffer lies below the buffer length.
#[test]
fn bwt_primary_in_range() {
    let data = b"abracadabra".to_vec();

    let (primary, transformed) = burrows_wheeler::encode(&data);

    assert!(primary < data.len());
    let restored = burrows_wheeler::decode(primary, &transformed).expect("index is in range");
    assert_eq!(restored, data);
}

/// Every index at or above the buffer length is rejected.
#[test]
fn bwt_decode_out_of_range() {
    let data = b"nnbaaa".to_vec();

    match burrows_wheeler::decode(6, &data) {
        Ok(_) => panic!("an out-of-range index should be rejected"),
        Err(err) => match err {
            burrows_wheeler::DecodeError::PrimaryIndexOutOfRange => {},
        },
    }
    assert!(burrows_wheeler::decode(usize::MAX, &data).is_err());
}

/// An empty buffer inverts only under index 0.
#[test]
fn bwt_decode_empty() {
    let empty: Vec<u8> = Vec::new();

    assert_eq!(burrows_wheeler::decode(0, &empty).expect("index 0 is valid"), empty);
    assert!(burrows_wheeler::decode(1, &empty).is_err());
}

/// Move-to-front against the ascending list: 5 is at position 5, stays in
/// front for the repeat, 3 then sits at position 4, and 5 has moved back
/// to position 1.
#[test]
fn mtf_determinism() {
    let data = vec![5, 5, 3, 5];

    let encoded = move_to_front::encode(&data);

    assert_eq!(encoded, vec![5, 0, 4, 1]);
}

/// Decoding mirrors the same list and move rule.
#[test]
fn mtf_round_trip() {
    let data = b"move to the front, then move again".to_vec();

    let encoded = move_to_front::encode(&data);
    let decoded = move_to_front::decode(&encoded);

    assert_eq!(decoded, data);
}

/// A run of exactly 4 identical bytes encodes to 5 bytes, a run of 3 to
/// its 3 literal bytes.
#[test]
fn rle1_boundary() {
    assert_eq!(rle1::encode(&vec![7u8; 4]), vec![7, 7, 7, 7, 0]);
    assert_eq!(rle1::encode(&vec![7u8; 3]), vec![7, 7, 7]);
}

/// The longest single run unit carries length byte 255 and decodes to 259
/// bytes.
#[test]
fn rle1_longest_unit() {
    let data = b"eeee\xff".to_vec();

    let decoded = rle1::decode(&data).expect("data should decode");

    assert_eq!(decoded, vec![b'e'; 259]);
}

/// The numeral of a 1-byte zero run is a single low digit.
#[test]
fn rle2_numeral_one() {
    assert_eq!(rle2::encode_run(1), vec![Symbol::RunA]);
    assert_eq!(rle2::decode_run(&vec![Symbol::RunA]), vec![0u8]);
}

/// A run of 15 zeros is the numeral with four low digits, and reading it
/// back recovers 15.
#[test]
fn rle2_numeral_fifteen() {
    let word = rle2::encode_run(15);

    assert_eq!(word, vec![Symbol::RunA, Symbol::RunA, Symbol::RunA, Symbol::RunA]);
    assert_eq!(rle2::decode_run(&word), vec![0u8; 15]);
}

/// Reading back the numeral recovers the count for a spread of lengths.
#[test]
fn rle2_numeral_round_trip() {
    let mut length: usize = 1;
    while length < 700 {
        let word = rle2::encode_run(length);
        assert_eq!(rle2::decode_run(&word).len(), length);
        length += 1;
    }
}

/// The whole pipeline inverts: decompressing a compressed block restores
/// it, threading the primary index through.
#[test]
fn pipeline_round_trip() {
    let data = b"the quick brown fox jumps over the lazy dog  aaaaaaaaaaaaaaaaaaaaaa done"
        .to_vec();

    let (primary, symbols) = compress(&data);
    let restored = decompress(primary, &symbols).expect("a compressed block decompresses");

    assert_eq!(restored, data);
}

/// An empty block compresses to no symbols and index 0, and inverts.
#[test]
fn pipeline_empty() {
    let data: Vec<u8> = Vec::new();

    let (primary, symbols) = compress(&data);

    assert_eq!(primary, 0);
    assert!(symbols.is_empty());
    assert_eq!(decompress(primary, &symbols).expect("empty inverts"), data);
}

/// A primary index past the block rejects with the Burrows-Wheeler error.
#[test]
fn pipeline_bad_primary() {
    let data = b"some block of data".to_vec();

    let (_, symbols) = compress(&data);

    match decompress(usize::MAX, &symbols) {
        Ok(_) => panic!("an out-of-range index should be rejected"),
        Err(err) => assert!(matches!(err, DecompressError::BurrowsWheelerDecode)),
    }
}

/// A symbol stream whose inverse transform ends in a truncated run marker
/// rejects with the run-length error.
#[test]
fn pipeline_truncated_run() {
    // Inverts to the bytes "cccc": a run of 4 with no length byte after it.
    let symbols = vec![Symbol::Byte(99), Symbol::RunA, Symbol::RunA];

    match decompress(0, &symbols) {
        Ok(_) => panic!("a truncated run marker should be rejected"),
        Err(err) => assert!(matches!(err, DecompressError::RunLengthDecode)),
    }
}

/// Read failures wrap into the I/O error variants.
#[test]
fn io_error_wrapping() {
    let read_failure = std::io::Error::new(std::io::ErrorKind::UnexpectedEof, "short read");
    assert!(matches!(CompressError::from(read_failure), CompressError::IOError(_)));

    let read_failure = std::io::Error::new(std::io::ErrorKind::UnexpectedEof, "short read");
    assert!(matches!(DecompressError::from(read_failure), DecompressError::IOError(_)));
}
