//! A block-sorting compression pipeline in the bzip2 family.
//!
//! Four reversible byte-level transforms are run in sequence: a first
//! run-length stage that collapses long runs, the Burrows-Wheeler transform,
//! move-to-front recoding, and a second run-length stage that replaces runs
//! of zero bytes with a two-symbol bijective base-2 numeral. Compression
//! returns the symbol stream paired with the transform's primary index;
//! decompression runs the exact inverse order and fails fast on the first
//! stage that rejects its input. Each stage and the composed pipeline carry
//! contracts that pin their output down exactly.
use vstd::prelude::*;

pub mod burrows_wheeler;
pub mod move_to_front;
pub mod rle1;
pub mod rle2;

verus! {

use crate::rle2::Symbol;

/// Carrier for the error of a failed read, handed in by the caller that
/// does the reading. Relies on std::io::Error only as an opaque value; no
/// contract looks inside it.
#[verifier::external_type_specification]
#[verifier::external_body]
pub struct ExIoError(std::io::Error);

/// The possible errors during compression.
#[derive(Debug)]
pub enum CompressError {
    /// An I/O error occurred while reading the input.
    IOError(std::io::Error),
}

/// The possible errors during decompression.
#[derive(Debug)]
pub enum DecompressError {
    /// An I/O error occurred while reading the input.
    IOError(std::io::Error),
    /// The run-length decoder rejected its input.
    RunLengthDecode,
    /// The Burrows-Wheeler decoder rejected its input.
    BurrowsWheelerDecode,
}

impl From<std::io::Error> for CompressError {
    fn from(value: std::io::Error) -> (r: Self) {
        CompressError::IOError(value)
    }
}

impl vstd::std_specs::convert::FromSpecImpl<std::io::Error> for CompressError {
    open spec fn obeys_from_spec() -> bool {
        true
    }

    open spec fn from_spec(v: std::io::Error) -> Self {
        CompressError::IOError(v)
    }
}

impl From<std::io::Error> for DecompressError {
    fn from(value: std::io::Error) -> (r: Self) {
        DecompressError::IOError(value)
    }
}

impl vstd::std_specs::convert::FromSpecImpl<std::io::Error> for DecompressError {
    open spec fn obeys_from_spec() -> bool {
        true
    }

    open spec fn from_spec(v: std::io::Error) -> Self {
        DecompressError::IOError(v)
    }
}

impl From<rle1::Error> for DecompressError {
    fn from(value: rle1::Error) -> (r: Self) {
        match value {
            rle1::Error::RunLengthTruncated => DecompressError::RunLengthDecode,
        }
    }
}

impl vstd::std_specs::convert::FromSpecImpl<rle1::Error> for DecompressError {
    open spec fn obeys_from_spec() -> bool {
        true
    }

    open spec fn from_spec(v: rle1::Error) -> Self {
        DecompressError::RunLengthDecode
    }
}

impl From<burrows_wheeler::DecodeError> for DecompressError {
    fn from(value: burrows_wheeler::DecodeError) -> (r: Self) {
        DecompressError::BurrowsWheelerDecode
    }
}

impl vstd::std_specs::convert::FromSpecImpl<burrows_wheeler::DecodeError> for DecompressError {
    open spec fn obeys_from_spec() -> bool {
        true
    }

    open spec fn from_spec(v: burrows_wheeler::DecodeError) -> Self {
        DecompressError::BurrowsWheelerDecode
    }
}

/// The intermediate buffer the inverse pipeline hands to the
/// Burrows-Wheeler step: the symbol stream through the two inverse
/// recodings.
pub open spec fn inverse_bwt_input(syms: Seq<Symbol>) -> Seq<u8> {
    move_to_front::decode_spec(move_to_front::init_list(), rle2::decode_spec(syms))
}

/// Whether a primary index names a rotation of a buffer of this length:
/// below the length for a nonempty buffer, 0 for an empty one.
pub open spec fn primary_in_range(primary: int, len: nat) -> bool {
    if len == 0 {
        primary == 0
    } else {
        0 <= primary < len
    }
}

/// The two recoding stages invert across the composed pipeline: the buffer
/// decompression hands to the Burrows-Wheeler step is exactly the last
/// column that compression transformed, for every buffer.
pub proof fn lemma_recodings_invert(bytes: Seq<u8>)
    ensures
        inverse_bwt_input(
            rle2::encode_spec(move_to_front::encode_spec(move_to_front::init_list(), bytes)),
        ) == bytes,
{
    rle2::lemma_round_trip(move_to_front::encode_spec(move_to_front::init_list(), bytes));
    move_to_front::lemma_round_trip(bytes);
}

/// Compress a fully buffered block: run-length collapse, Burrows-Wheeler
/// transform, move-to-front, then zero-run coding. Returns the primary
/// index paired with the symbol stream; both are needed to invert.
pub fn compress(data: &Vec<u8>) -> (r: (usize, Vec<Symbol>))
    ensures
        ({
            let s1 = rle1::encode_spec(data@);
            &&& r.1@ == rle2::encode_spec(
                move_to_front::encode_spec(
                    move_to_front::init_list(),
                    burrows_wheeler::last_col(s1),
                ),
            )
            &&& s1.len() > 0 ==> r.0 < s1.len() && burrows_wheeler::bwt_offsets(s1)[r.0 as int]
                == 0
            &&& s1.len() == 0 ==> r.0 == 0
        }),
{
    let rle_data = rle1::encode(data);
    let (primary, bw_data) = burrows_wheeler::encode(&rle_data);
    let mtf_data = move_to_front::encode(&bw_data);
    let symbols = rle2::encode(&mtf_data);
    (primary, symbols)
}

/// Decompress a fully buffered block: invert the zero-run coding, the
/// move-to-front recoding, the Burrows-Wheeler transform and the
/// run-length collapse, failing fast on the first stage that rejects its
/// input. The decoded zero runs must fit in memory; that is the only bound
/// asked of the caller.
pub fn decompress(primary: usize, data: &Vec<Symbol>) -> (r: Result<Vec<u8>, DecompressError>)
    requires
        rle2::decode_spec(data@).len() <= usize::MAX,
    ensures
        ({
            let s2 = inverse_bwt_input(data@);
            let valid = primary_in_range(primary as int, s2.len());
            match r {
                Ok(v) => valid && rle1::decode_spec(
                    burrows_wheeler::inverse_spec(s2, primary as int),
                ) == Some(v@),
                Err(e) => {
                    &&& !(e is IOError)
                    &&& (e is BurrowsWheelerDecode <==> !valid)
                    &&& (e is RunLengthDecode <==> valid && rle1::decode_spec(
                        burrows_wheeler::inverse_spec(s2, primary as int),
                    ) is None)
                },
            }
        }),
{
    let un_rle2 = rle2::decode(data);
    let un_mtf = move_to_front::decode(&un_rle2);
    let un_bw = match burrows_wheeler::decode(primary, &un_mtf) {
        Ok(v) => v,
        Err(e) => {
            return Err(DecompressError::from(e));
        },
    };
    proof {
        if un_mtf@.len() == 0 {
            assert(un_bw@ =~= burrows_wheeler::inverse_spec(un_mtf@, primary as int));
        }
    }
    match rle1::decode(&un_bw) {
        Ok(v) => Ok(v),
        Err(e) => Err(DecompressError::from(e)),
    }
}

} // verus!
