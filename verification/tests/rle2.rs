use beeziptoo::rle2::{decode, encode, get_bytes, get_symbols, Symbol};

/// The leading group of `[0, 0, 0, 1]` is the numeral of the three zeros;
/// the nonzero tail is left unconsumed.
#[test]
fn get_symbols_zero_run() {
    let data = vec![0, 0, 0, 1];

    let (symbols, next) = get_symbols(&data, 0);

    assert_eq!(symbols, vec![Symbol::RunA, Symbol::RunA]);
    assert_eq!(next, 3);

    let (symbols, next) = get_symbols(&data, 3);

    assert_eq!(symbols, vec![Symbol::Byte(1)]);
    assert_eq!(next, 4);
}

/// The leading group of `[RunA, RunA, Byte(1)]` is the three zeros of the
/// run word; the literal is left unconsumed.
#[test]
fn get_bytes_run_word() {
    let data = vec![Symbol::RunA, Symbol::RunA, Symbol::Byte(1)];

    let (bytes, next) = get_bytes(&data, 0);

    assert_eq!(bytes, vec![0, 0, 0]);
    assert_eq!(next, 2);

    let (bytes, next) = get_bytes(&data, 2);

    assert_eq!(bytes, vec![1]);
    assert_eq!(next, 3);
}

/// Encoding then decoding a mixed buffer restores it.
#[test]
fn roundtrip() {
    let data = vec![
        208, 27, 126, 113, 87, 4, 183, 227, 251, 11, 144, 165, 58, 129, 250, 46, 112, 3, 120, 89,
        221, 7, 172, 28, 129, 77, 68, 210, 134, 71, 179, 226, 70, 169, 167, 209, 78, 20, 133, 177,
        120, 141, 35, 198, 16, 248, 16, 34, 140, 73, 2, 122, 49, 145, 174, 44, 152, 159, 166, 205,
        137, 234, 238, 105, 230, 201, 15, 89, 5, 102, 107, 128, 109, 20, 209, 1, 30, 38, 82, 87,
        234, 168, 192, 235, 58, 161, 20, 88, 1, 4, 65, 195, 29, 158, 161, 218, 138, 0, 174, 30,
    ];

    let encoded = encode(&data);
    let decoded = decode(&encoded);

    assert_eq!(data, decoded);
}

/// A run of 16 zeros is the numeral with digits 2, 1, 1, 1.
#[test]
fn all_zeros() {
    let data = vec![0, 0, 0, 0, 0, 0, 0, 0, 0, 0, 0, 0, 0, 0, 0, 0];

    let encoded = encode(&data);

    let expected = vec![Symbol::RunB, Symbol::RunA, Symbol::RunA, Symbol::RunA];
    assert_eq!(encoded, expected);
}

/// Zero runs become numerals and nonzero bytes pass through.
#[test]
fn simple() {
    let data = vec![0, 0, 0, 0, 0, 1, 0, 0, 2, 0, 0, 0, 0];

    let encoded = encode(&data);

    let expected = vec![
        Symbol::RunA,
        Symbol::RunB,
        Symbol::Byte(1),
        Symbol::RunB,
        Symbol::Byte(2),
        Symbol::RunB,
        Symbol::RunA,
    ];
    assert_eq!(encoded, expected);
}

/// Numerals become zero runs and literal symbols pass through.
#[test]
fn rle2_simple() {
    let data = vec![
        Symbol::RunA,
        Symbol::RunB,
        Symbol::Byte(1),
        Symbol::RunB,
        Symbol::Byte(2),
        Symbol::RunB,
        Symbol::RunA,
    ];

    let decoded = decode(&data);

    let expected = vec![0, 0, 0, 0, 0, 1, 0, 0, 2, 0, 0, 0, 0];
    assert_eq!(decoded, expected);
}
