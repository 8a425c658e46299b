use beeziptoo::rle1::{decode, encode, encode_run, Error};

/// Encoding an empty buffer gives an empty buffer.
#[test]
fn empty() {
    let data: Vec<u8> = b"".to_vec();

    let encoded = encode(&data);

    assert_eq!(encoded, data);
}

/// Encoding with no repeats 4 or longer copies the input.
#[test]
fn no_four() {
    let data = b"abbccc".to_vec();

    let encoded = encode(&data);

    assert_eq!(encoded, data);
}

/// Encoding a run longer than 255 splits it at the flush boundary.
#[test]
fn big_bytes_four_too_many() {
    let data = vec![b'e'; 259];

    let encoded = encode(&data);

    let expected = b"eeee\xfbeeee\0".to_vec();
    assert_eq!(encoded, expected);
}

/// Encoding a run of 256 splits into a 255-run and a single literal.
#[test]
fn big_bytes_one_too_many() {
    let data = vec![b'e'; 256];

    let encoded = encode(&data);

    let expected = b"eeee\xfbe".to_vec();
    assert_eq!(encoded, expected);
}

/// A run of 255 bytes is one encoded unit.
#[test]
fn big_bytes() {
    let data = vec![b'e'; 255];
    let mut output = Vec::new();

    encode_run(&data, &mut output);

    let expected = b"eeee\xfb".to_vec();
    assert_eq!(output, expected);
}

/// A run of 5 bytes is 4 literals and a length byte of 1.
#[test]
fn five_bytes() {
    let data = b"ddddd".to_vec();
    let mut output = Vec::new();

    encode_run(&data, &mut output);

    let expected = b"dddd\x01".to_vec();
    assert_eq!(output, expected);
}

/// A run of 4 bytes is 4 literals and a length byte of 0.
#[test]
fn four_bytes() {
    let data = b"dddd".to_vec();
    let mut output = Vec::new();

    encode_run(&data, &mut output);

    let expected = b"dddd\0".to_vec();
    assert_eq!(output, expected);
}

/// A run of 3 bytes is emitted literally.
#[test]
fn three_bytes() {
    let data = b"ccc".to_vec();
    let mut output = Vec::new();

    encode_run(&data, &mut output);

    assert_eq!(output, data);
}

/// A run of 2 bytes is emitted literally.
#[test]
fn two_bytes() {
    let data = b"bb".to_vec();
    let mut output = Vec::new();

    encode_run(&data, &mut output);

    assert_eq!(output, data);
}

/// Decoding a split run longer than 255 restores it.
#[test]
fn rle_big_bytes_four_too_many() {
    let data = b"eeee\xfbeeee\0".to_vec();

    let encoded = decode(&data).expect("data should decode");

    let expected = vec![b'e'; 259];
    assert_eq!(encoded, expected);
}

/// Decoding a 255-run and a literal restores the run of 256.
#[test]
fn rle_big_bytes_one_too_many() {
    let data = b"eeee\xfbe".to_vec();

    let encoded = decode(&data).expect("data should decode");

    let expected = vec![b'e'; 256];
    assert_eq!(encoded, expected);
}

/// Decoding an empty buffer gives an empty buffer.
#[test]
fn rle_empty() {
    let data: Vec<u8> = b"".to_vec();

    let encoded = decode(&data).expect("data should decode");

    assert_eq!(encoded, data);
}

/// A run of 4 with no length byte after it is rejected.
#[test]
fn invalid_input() {
    // You cannot have a run of 4 with no length after it.
    let data = b"abbcccc".to_vec();

    match decode(&data) {
        Ok(_) => panic!("This should have resulted in an error"),
        Err(err) => match err {
            Error::RunLengthTruncated => {},
        },
    }
}

/// Decoding with no repeats 4 or longer copies the input.
#[test]
fn rle_no_four() {
    let data = b"abbccc".to_vec();

    let encoded = decode(&data).expect("data should decode");

    assert_eq!(encoded, data);
}

/// A small encoded run at the beginning decodes in place.
#[test]
fn small_run_beginning() {
    let data = b"eeee\x01a".to_vec();

    let encoded = decode(&data).expect("data should decode");

    let expected = b"eeeeea".to_vec();
    assert_eq!(encoded, expected);
}

/// A small encoded run at the end decodes in place.
#[test]
fn small_run_end() {
    let data = b"aeeee\x01".to_vec();

    let encoded = decode(&data).expect("data should decode");

    let expected = b"aeeeee".to_vec();
    assert_eq!(encoded, expected);
}

/// A small encoded run in the middle decodes in place.
#[test]
fn small_run_middle() {
    let data = b"aeeee\x01bb".to_vec();

    let encoded = decode(&data).expect("data should decode");

    let expected = b"aeeeeebb".to_vec();
    assert_eq!(encoded, expected);
}
