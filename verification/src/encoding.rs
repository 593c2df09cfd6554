//! Byte encodings shared by the serial protocol: COBS framing (through the
//! `cobs` crate) and lower case hexadecimal (through the `base16` crate).
use vstd::prelude::*;

verus! {

/// The bytes that `cobs::CobsEncoder` writes for `data` (the frame without its
/// terminating zero byte).
pub uninterp spec fn cobs_encoding(data: Seq<u8>) -> Seq<u8>;

/// What `cobs::decode_in_place_with_sentinel(buf, 0)` returns for a buffer
/// holding `buf`, paired with the contents the buffer holds afterwards.
pub uninterp spec fn cobs_in_place_decoding(buf: Seq<u8>) -> (Result<usize, ()>, Seq<u8>);

/// `cobs::max_encoding_length`, as the crate computes it.
pub open spec fn cobs_max_encoding_length(n: int) -> int {
    n + n / 254 + if n % 254 > 0 { 1int } else { 0int }
}

/// Longest COBS encoding of `n` bytes: one code byte, the data, and one extra
/// code byte per full run of 254 non-zero bytes.
pub open spec fn cobs_encoding_bound(n: int) -> int {
    n + 1 + n / 254
}

/// `cobs::max_encoding_length(source_len)` computes
/// `source_len + source_len / 254 + (1 if source_len % 254 > 0)`.
pub assume_specification[ cobs::max_encoding_length ](source_len: usize) -> (r: usize)
    requires
        source_len + source_len / 254 + 1 <= usize::MAX,
    ensures
        r == cobs_max_encoding_length(source_len as int),
;

/// What holds of the COBS encoding of `data`: it is at least as long as
/// `data` and at most [`cobs_encoding_bound`] long, not empty unless `data`
/// is, holds no zero byte, and decoding it in place gives `data` back at the
/// front of a buffer of the same length.
pub open spec fn cobs_encoded_facts(data: Seq<u8>) -> bool {
    let enc = cobs_encoding(data);
    &&& data.len() <= enc.len() <= cobs_encoding_bound(data.len() as int)
    &&& data.len() > 0 ==> enc.len() > 0
    &&& cobs_in_place_decoding(enc).1.len() == enc.len()
    &&& forall|i: int| 0 <= i < enc.len() ==> #[trigger] enc[i] != 0u8
    &&& cobs_in_place_decoding(enc).0 == Ok::<usize, ()>(data.len() as usize)
    &&& cobs_in_place_decoding(enc).1.take(data.len() as int) == data
}

/// Number of non-zero bytes at the end of `data`.
pub open spec fn cobs_trailing_run(data: Seq<u8>) -> nat
    decreases data.len(),
{
    if data.len() == 0 || data.last() == 0 {
        0
    } else {
        1 + cobs_trailing_run(data.drop_last())
    }
}

/// The COBS encoding of `data` ends with an empty block: `data` ends with a
/// zero byte or with a run of non-zero bytes whose length is a multiple of
/// 254. Its last code byte is then written by `finalize`, which skips it
/// when it falls past the end of the output.
pub open spec fn cobs_ends_with_empty_block(data: Seq<u8>) -> bool {
    data.len() > 0 && cobs_trailing_run(data) % 254 == 0
}

/// Runs `cobs::CobsEncoder` (`new`, `push`, `finalize`) over `out`.
///
/// Claimed of the crate: the encoder reports the length of the encoding of
/// `data` whenever it succeeds, and then [`cobs_encoded_facts`] hold; it
/// succeeds and writes exactly that encoding at the front of `out` (leaving
/// the rest untouched) whenever `out` can hold it, in particular when `out`
/// has [`cobs_encoding_bound`] bytes. It fails exactly when `out` is too
/// short for the encoding, except where only the last code byte of an
/// encoding that ends with an empty block ([`cobs_ends_with_empty_block`])
/// falls past the end: `finalize` skips that byte and reports success. What
/// `out` holds after a failure, or after that success, is not stated.
#[verifier::external_body]
pub(crate) fn cobs_encode_into(data: &[u8], out: &mut [u8]) -> (r: Result<usize, ()>)
    ensures
        final(out)@.len() == old(out)@.len(),
        r matches Ok(n) ==> n == cobs_encoding(data@).len() && cobs_encoded_facts(data@),
        r is Err <==> (old(out)@.len() < cobs_encoding(data@).len() && !(cobs_encoding(data@).len()
            == old(out)@.len() + 1 && cobs_ends_with_empty_block(data@))),
        cobs_encoding(data@).len() <= old(out)@.len() ==> {
            &&& r is Ok
            &&& final(out)@ == cobs_encoding(data@) + old(out)@.skip(cobs_encoding(data@).len() as int)
        },
        cobs_encoding_bound(data@.len() as int) <= old(out)@.len() ==> r is Ok,
{
    let mut encoder = cobs::CobsEncoder::new(out);
    encoder.push(data)?;
    encoder.finalize()
}

/// `cobs::decode_in_place_with_sentinel(buf, 0)`, decoding the frame held in
/// `buf` in place.
///
/// Claimed of the crate: the result and the new contents of `buf` are a
/// function of the old contents (named `cobs_in_place_decoding`); the buffer
/// keeps its length and a decoded length never exceeds it.
#[verifier::external_body]
pub(crate) fn cobs_decode_in_place(buf: &mut [u8]) -> (r: Result<usize, ()>)
    ensures
        (r, final(buf)@) == cobs_in_place_decoding(old(buf)@),
        final(buf)@.len() == old(buf)@.len(),
        r matches Ok(n) ==> n <= old(buf)@.len(),
{
    cobs::decode_in_place_with_sentinel(buf, 0)
}

/// Lower case hexadecimal digit for a nibble.
pub open spec fn hex_digit_lower(v: int) -> u8 {
    if v < 10 {
        (48 + v) as u8
    } else {
        (87 + v) as u8
    }
}

/// Lower case hexadecimal text of `data`: two digits per byte, high nibble first.
pub open spec fn hex_lower(data: Seq<u8>) -> Seq<u8> {
    Seq::new(
        2 * data.len(),
        |i: int|
            if i % 2 == 0 {
                hex_digit_lower((data[i / 2] / 16) as int)
            } else {
                hex_digit_lower((data[i / 2] % 16) as int)
            },
    )
}

/// Each byte of the data becomes two lower case hexadecimal digits, the high
/// nibble first: `0` to `9` (0x30 to 0x39) for 0 to 9, `a` to `f` (0x61 to
/// 0x66) for 10 to 15.
pub proof fn lemma_hex_lower_digits(data: Seq<u8>)
    ensures
        hex_lower(data).len() == 2 * data.len(),
        forall|i: int|
            0 <= i < data.len() ==> {
                &&& #[trigger] hex_lower(data)[2 * i] == if data[i] / 16 < 10 {
                    0x30 + data[i] / 16
                } else {
                    0x57 + data[i] / 16
                }
                &&& hex_lower(data)[2 * i + 1] == if data[i] % 16 < 10 {
                    0x30 + data[i] % 16
                } else {
                    0x57 + data[i] % 16
                }
            },
{
    assert forall|i: int| 0 <= i < data.len() implies {
        &&& #[trigger] hex_lower(data)[2 * i] == if data[i] / 16 < 10 {
            0x30 + data[i] / 16
        } else {
            0x57 + data[i] / 16
        }
        &&& hex_lower(data)[2 * i + 1] == if data[i] % 16 < 10 {
            0x30 + data[i] % 16
        } else {
            0x57 + data[i] % 16
        }
    } by {
        assert((2 * i) / 2 == i && (2 * i) % 2 == 0);
        assert((2 * i + 1) / 2 == i && (2 * i + 1) % 2 == 1);
    }
}

/// Value of a hexadecimal digit (`0-9`, `a-f`, `A-F`), if `c` is one.
pub open spec fn hex_value(c: u8) -> Option<u8> {
    if 48 <= c <= 57 {
        Some((c - 48) as u8)
    } else if 97 <= c <= 102 {
        Some((c - 87) as u8)
    } else if 65 <= c <= 70 {
        Some((c - 55) as u8)
    } else {
        None
    }
}

pub open spec fn is_hex_digit(c: u8) -> bool {
    hex_value(c) is Some
}

pub open spec fn all_hex_digits(s: Seq<u8>) -> bool {
    forall|i: int| 0 <= i < s.len() ==> #[trigger] is_hex_digit(s[i])
}

/// Bytes whose hexadecimal text is `s` (of even length, all digits).
pub open spec fn hex_decoded(s: Seq<u8>) -> Seq<u8> {
    Seq::new(
        s.len() / 2,
        |i: int| (hex_value(s[2 * i]).unwrap() * 16 + hex_value(s[2 * i + 1]).unwrap()) as u8,
    )
}

/// Index of the first byte of `s` that is not a hexadecimal digit (or `s.len()`).
pub open spec fn first_non_hex(s: Seq<u8>) -> int
    decreases s.len(),
{
    if s.len() == 0 {
        0
    } else if !is_hex_digit(s[0]) {
        0
    } else {
        1 + first_non_hex(s.drop_first())
    }
}

/// Why hexadecimal text could not be decoded.
#[derive(Clone, Copy, Debug, PartialEq, Eq)]
pub enum HexDecodeError {
    /// A byte that is not a hexadecimal digit, and where it stands.
    InvalidByte { index: usize, byte: u8 },
    /// The text has an odd length.
    InvalidLength { length: usize },
}

/// Decoding of hexadecimal text as `base16::decode_slice` does it: an odd
/// length is refused first, then the first byte that is not a digit.
pub open spec fn hex_decode(s: Seq<u8>) -> Result<Seq<u8>, HexDecodeError> {
    if s.len() % 2 == 1 {
        Err(HexDecodeError::InvalidLength { length: s.len() as usize })
    } else if !all_hex_digits(s) {
        Err(
            HexDecodeError::InvalidByte {
                index: first_non_hex(s) as usize,
                byte: s[first_non_hex(s)],
            },
        )
    } else {
        Ok(hex_decoded(s))
    }
}

/// `base16::encode_config_slice(input, base16::EncodeLower, out)`.
///
/// Claimed of the crate: it writes the lower case hexadecimal text of
/// `input` at the front of `out`, leaves the rest of `out` as it was, and
/// returns the text's length. It panics when `out` is too short, which the
/// `requires` rules out.
#[verifier::external_body]
pub(crate) fn hex_encode_lower_into(input: &[u8], out: &mut [u8]) -> (r: usize)
    requires
        2 * input@.len() <= old(out)@.len(),
    ensures
        r == 2 * input@.len(),
        final(out)@ == hex_lower(input@) + old(out)@.skip(2 * input@.len() as int),
{
    base16::encode_config_slice(input, base16::EncodeLower, out)
}

/// `base16::decode_slice(input, out)`, with its error turned into
/// [`HexDecodeError`] field by field.
///
/// Claimed of the crate: the result is [`hex_decode`] of `input`; on success
/// the decoded bytes are written at the front of `out` and the rest of `out`
/// is left as it was. It panics when `input` has an even length and `out`
/// cannot hold the decoded bytes, which the `requires` rules out. What `out`
/// holds after an error is not stated.
#[verifier::external_body]
pub(crate) fn hex_decode_into(input: &[u8], out: &mut [u8]) -> (r: Result<usize, HexDecodeError>)
    requires
        input@.len() % 2 == 1 || input@.len() / 2 <= old(out)@.len(),
    ensures
        final(out)@.len() == old(out)@.len(),
        match hex_decode(input@) {
            Ok(d) => r == Ok::<usize, HexDecodeError>(d.len() as usize) && final(out)@ == d + old(
                out,
            )@.skip(d.len() as int),
            Err(e) => r == Err::<usize, HexDecodeError>(e),
        },
{
    match base16::decode_slice(input, out) {
        Ok(n) => Ok(n),
        Err(base16::DecodeError::InvalidByte { index, byte }) => Err(
            HexDecodeError::InvalidByte { index, byte },
        ),
        Err(base16::DecodeError::InvalidLength { length }) => Err(
            HexDecodeError::InvalidLength { length },
        ),
    }
}

/// Every nibble is read back from its digit.
proof fn lemma_hex_digit_value(v: int)
    requires
        0 <= v < 16,
    ensures
        hex_value(hex_digit_lower(v)) == Some(v as u8),
{
}

/// Decoding the lower case hexadecimal text of `data` gives `data`.
pub proof fn lemma_hex_roundtrip(data: Seq<u8>)
    ensures
        hex_decode(hex_lower(data)) == Ok::<Seq<u8>, HexDecodeError>(data),
{
    let s = hex_lower(data);
    assert forall|i: int| 0 <= i < s.len() implies #[trigger] is_hex_digit(s[i]) by {
        let b = data[i / 2];
        if i % 2 == 0 {
            lemma_hex_digit_value((b / 16) as int);
        } else {
            lemma_hex_digit_value((b % 16) as int);
        }
    }
    assert(s.len() % 2 == 0);
    assert forall|i: int| 0 <= i < data.len() implies #[trigger] hex_decoded(s)[i] == data[i] by {
        let b = data[i];
        assert(s[2 * i] == hex_digit_lower((b / 16) as int));
        assert(s[2 * i + 1] == hex_digit_lower((b % 16) as int));
        lemma_hex_digit_value((b / 16) as int);
        lemma_hex_digit_value((b % 16) as int);
    }
    assert(hex_decoded(s) =~= data);
}

} // verus!
