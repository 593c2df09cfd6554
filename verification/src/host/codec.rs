//! Wire codecs of the serial hardware a node can be attached to: how encoded
//! messages are cut into frames the hardware carries, and how an incoming
//! frame is turned back into bytes.
use vstd::prelude::*;
use crate::encoding::{HexDecodeError, hex_decode, hex_lower, hex_encode_lower_into, hex_decode_into};
use crate::buffers::{append_bytes, copy_range, zeros};

verus! {

/// Longest frame the RN4870 BLE module processes.
pub const MAX_BLE_FRAME_LENGTH: usize = 128;

/// Longest frame a USB serial line processes.
pub const MAX_USB_FRAME_LENGTH: usize = 256;

pub const MAX_USB_FRAMES_COUNT: usize = super::MAX_MESSAGE_LENGTH / MAX_USB_FRAME_LENGTH + 1;

/// An encoded message as hexadecimal text: two characters per byte.
pub const MAX_MESSAGE_LENGTH_HEX_ENCODED: usize = 2 * super::MAX_MESSAGE_LENGTH;

pub const MAX_BLE_FRAMES_COUNT: usize = MAX_MESSAGE_LENGTH_HEX_ENCODED / MAX_BLE_FRAME_LENGTH + 1;

pub const MAX_BGX13_MESSAGE_LENGTH: usize = 32;

pub const MAX_BGX13_FRAMES_COUNT: usize = 9;

pub const MAX_BT4502_MESSAGE_LENGTH: usize = 240;

pub const MAX_BT4502_FRAMES_COUNT: usize = 3;

/// Longest frame an incoming RN4870 frame decodes to.
pub const MAX_BLE_DECODED_LENGTH: usize = 64;

/// The delimiter the RN4870 module puts around every frame.
pub const RN4870_DELIMITER: u8 = 0x25u8;

/// Errors of the wire codecs.
#[derive(PartialEq, Eq, Debug, Clone, Copy)]
pub enum CodecError {
    FrameCreateError,
    DecodeError,
    MalformedHex(HexDecodeError),
}

impl From<HexDecodeError> for CodecError {
    fn from(e: HexDecodeError) -> (r: CodecError)
        ensures
            r == CodecError::MalformedHex(e),
    {
        CodecError::MalformedHex(e)
    }
}

impl vstd::std_specs::convert::FromSpecImpl<HexDecodeError> for CodecError {
    open spec fn obeys_from_spec() -> bool {
        true
    }

    open spec fn from_spec(e: HexDecodeError) -> CodecError {
        CodecError::MalformedHex(e)
    }
}

/// The byte sequences held by a vector of frames.
pub open spec fn frames_view(v: Vec<Vec<u8>>) -> Seq<Seq<u8>> {
    v@.map_values(|f: Vec<u8>| f@)
}

/// `s` cut into consecutive pieces of `k` bytes; the last piece may be shorter.
pub open spec fn chunks(s: Seq<u8>, k: nat) -> Seq<Seq<u8>>
    decreases s.len(),
{
    if s.len() == 0 || k == 0 {
        Seq::empty()
    } else if s.len() <= k {
        seq![s]
    } else {
        seq![s.take(k as int)] + chunks(s.skip(k as int), k)
    }
}

/// Putting the pieces of `s` back together gives `s`, and each piece holds
/// between one and `k` bytes.
pub proof fn lemma_chunks_flatten(s: Seq<u8>, k: nat)
    requires
        k > 0,
    ensures
        chunks(s, k).flatten() == s,
        forall|j: int| 0 <= j < chunks(s, k).len() ==> 1 <= #[trigger] chunks(s, k)[j].len() <= k,
    decreases s.len(),
{
    if s.len() == 0 {
        assert(chunks(s, k).flatten() =~= s);
    } else if s.len() <= k {
        let c = chunks(s, k);
        assert(c == seq![s]);
        c.lemma_flatten_one_element();
    } else {
        let t = s.skip(k as int);
        lemma_chunks_flatten(t, k);
        let c = chunks(s, k);
        assert(c.drop_first() =~= chunks(t, k));
        assert(s.take(k as int) + t =~= s);
        assert forall|j: int| 0 <= j < c.len() implies 1 <= #[trigger] c[j].len() <= k by {
            if j > 0 {
                assert(c[j] == chunks(t, k)[j - 1]);
            }
        }
    }
}

/// The hexadecimal text of `d` cut into pieces of `2 * k` digits is the text
/// of `d` cut into pieces of `k` bytes.
pub(crate) proof fn lemma_hex_chunks(d: Seq<u8>, k: nat)
    requires
        k > 0,
    ensures
        chunks(hex_lower(d), 2 * k) == chunks(d, k).map_values(|c: Seq<u8>| hex_lower(c)),
    decreases d.len(),
{
    let h = hex_lower(d);
    let f = |c: Seq<u8>| hex_lower(c);
    if d.len() == 0 {
        assert(chunks(d, k).map_values(f) =~= Seq::<Seq<u8>>::empty());
    } else if d.len() <= k {
        assert(chunks(d, k).map_values(f) =~= seq![h]);
    } else {
        let t = d.skip(k as int);
        lemma_hex_chunks(t, k);
        assert(h.take(2 * k as int) =~= hex_lower(d.take(k as int))) by {
            assert forall|i: int| 0 <= i < 2 * k implies h.take(2 * k as int)[i] == hex_lower(
                d.take(k as int),
            )[i] by {
                assert(d.take(k as int)[i / 2] == d[i / 2]);
            }
        }
        assert(h.skip(2 * k as int) =~= hex_lower(t)) by {
            assert forall|i: int| 0 <= i < h.len() - 2 * k implies h.skip(2 * k as int)[i] == hex_lower(
                t,
            )[i] by {
                assert((2 * k + i) / 2 == k + i / 2);
                assert((2 * k + i) % 2 == i % 2);
                assert(t[i / 2] == d[k + i / 2]);
            }
        }
        assert(chunks(d, k).map_values(f) =~= seq![hex_lower(d.take(k as int))] + chunks(
            t,
            k,
        ).map_values(f));
    }
}

/// How a serial line splits outgoing bytes into frames and reads incoming ones.
pub trait WireCodec {
    /// Character put around every outgoing frame, if any.
    spec fn delimiter() -> Option<char>;

    /// The character put around every outgoing frame, if any
    /// ([`WireCodec::delimiter`]).
    fn message_delimiter() -> (r: Option<char>)
        ensures
            r == Self::delimiter(),
    ;

    /// The frames that carry `data`, or why they cannot be made.
    spec fn frames_of(data: Seq<u8>) -> Result<Seq<Seq<u8>>, CodecError>;

    /// `data` can be framed without indexing past the end of a frame.
    spec fn can_frame(data: Seq<u8>) -> bool;

    /// The bytes that an incoming frame carries, or why it cannot be read.
    spec fn decoded_frame(data: Seq<u8>) -> Result<Seq<u8>, CodecError>;

    /// `data` can be read without overflowing the decoding buffer.
    spec fn can_decode(data: Seq<u8>) -> bool;

    /// Splits `data` into frames ([`WireCodec::frames_of`]).
    fn get_frames(data: &mut [u8]) -> (r: Result<Vec<Vec<u8>>, CodecError>)
        requires
            Self::can_frame(old(data)@),
        ensures
            final(data)@ == old(data)@,
            match Self::frames_of(old(data)@) {
                Ok(f) => r matches Ok(v) && frames_view(v) == f,
                Err(e) => r == Err::<Vec<Vec<u8>>, CodecError>(e),
            },
    ;

    /// Tells whether [`WireCodec::get_frames`] may be called on `data`.
    fn can_get_frames(data: &[u8]) -> (b: bool)
        ensures
            b == Self::can_frame(data@),
    ;

    /// Reads an incoming frame: its bytes and their number
    /// ([`WireCodec::decoded_frame`]).
    fn decode_frame(data: &[u8]) -> (r: Result<(Vec<u8>, usize), CodecError>)
        requires
            Self::can_decode(data@),
        ensures
            match Self::decoded_frame(data@) {
                Ok(d) => r matches Ok((v, n)) && v@ == d && n == d.len(),
                Err(e) => r == Err::<(Vec<u8>, usize), CodecError>(e),
            },
    ;

    /// Tells whether [`WireCodec::decode_frame`] may be called on `data`.
    fn can_decode_frame(data: &[u8]) -> (b: bool)
        ensures
            b == Self::can_decode(data@),
    ;
}

/// One step of [`chunks`] from position `i`.
proof fn lemma_chunks_step(s: Seq<u8>, k: nat, i: int)
    requires
        0 <= i < s.len(),
        k > 0,
    ensures
        chunks(s.skip(i), k) == seq![s.subrange(i, if i + k <= s.len() { i + k } else { s.len() as int })]
            + chunks(s.skip(if i + k <= s.len() { i + k } else { s.len() as int }), k),
{
    let t = s.skip(i);
    if i + k >= s.len() {
        assert(t == s.subrange(i, s.len() as int));
        assert(s.skip(s.len() as int).len() == 0);
        if i + k == s.len() {
            assert(t.len() == k);
        }
    } else {
        assert(t.take(k as int) == s.subrange(i, i + k));
        assert(t.skip(k as int) == s.skip(i + k));
    }
}

/// Cuts `data` into frames of `frame_len` bytes, refusing more than
/// `max_frames` of them.
pub(crate) fn split_frames(data: &[u8], frame_len: usize, max_frames: usize) -> (r: Result<
    Vec<Vec<u8>>,
    CodecError,
>)
    requires
        frame_len > 0,
    ensures
        chunks(data@, frame_len as nat).len() <= max_frames ==> (r matches Ok(v) && frames_view(v)
            == chunks(data@, frame_len as nat)),
        chunks(data@, frame_len as nat).len() > max_frames ==> r == Err::<
            Vec<Vec<u8>>,
            CodecError,
        >(CodecError::FrameCreateError),
{
    let mut frames: Vec<Vec<u8>> = Vec::new();
    let mut i: usize = 0;
    assert(data@.skip(0) == data@);
    while i < data.len()
        invariant
            i <= data@.len(),
            frames@.len() <= max_frames,
            frame_len > 0,
            chunks(data@, frame_len as nat) == frames_view(frames) + chunks(
                data@.skip(i as int),
                frame_len as nat,
            ),
        decreases data@.len() - i,
    {
        let end: usize = if frame_len <= data.len() - i {
            i + frame_len
        } else {
            data.len()
        };
        proof {
            lemma_chunks_step(data@, frame_len as nat, i as int);
        }
        if frames.len() == max_frames {
            return Err(CodecError::FrameCreateError);
        }
        let frame = copy_range(data, i, end);
        let ghost old_frames = frames_view(frames);
        frames.push(frame);
        assert(frames_view(frames) == old_frames.push(frame@));
        i = end;
    }
    assert(data@.skip(i as int).len() == 0);
    assert(frames_view(frames) + Seq::<Seq<u8>>::empty() == frames_view(frames));
    Ok(frames)
}

/// Codec of the RN4870 BLE module, which only passes ASCII: frames carry the
/// bytes as lower case hexadecimal text between two `%` delimiters.
pub struct Rn4870Codec {}

/// Outgoing RN4870 frames for `data`.
pub open spec fn rn4870_frames(data: Seq<u8>) -> Result<Seq<Seq<u8>>, CodecError> {
    if 2 * data.len() > MAX_MESSAGE_LENGTH_HEX_ENCODED {
        Err(CodecError::FrameCreateError)
    } else {
        Ok(
            chunks(hex_lower(data), (MAX_BLE_FRAME_LENGTH - 2) as nat).map_values(
                |c: Seq<u8>| seq![RN4870_DELIMITER] + c + seq![RN4870_DELIMITER],
            ),
        )
    }
}

/// `s` is cut into exactly `n` pieces of `k` bytes when it is longer than
/// `n - 1` of them and no longer than `n`.
pub(crate) proof fn lemma_chunks_count(s: Seq<u8>, k: nat, n: nat)
    requires
        k > 0,
        n >= 1,
        (n - 1) * k < s.len() <= n * k,
    ensures
        chunks(s, k).len() == n,
    decreases n,
{
    if n == 1 {
        assert(0 < s.len() <= k) by (nonlinear_arith)
            requires
                (n - 1) * k < s.len() <= n * k,
                n == 1,
        ;
    } else {
        assert(s.len() > k) by (nonlinear_arith)
            requires
                (n - 1) * k < s.len(),
                n >= 2,
                k > 0,
        ;
        let t = s.skip(k as int);
        assert(((n - 1) as nat - 1) * k < t.len() <= ((n - 1) as nat) * k) by (nonlinear_arith)
            requires
                t.len() == s.len() - k,
                (n - 1) * k < s.len() <= n * k,
                n >= 2,
        ;
        lemma_chunks_count(t, k, (n - 1) as nat);
    }
}

/// Every piece of `s` but the last holds exactly `k` bytes.
pub(crate) proof fn lemma_chunks_full(s: Seq<u8>, k: nat)
    requires
        k > 0,
    ensures
        forall|j: int| 0 <= j < chunks(s, k).len() - 1 ==> (#[trigger] chunks(s, k)[j]).len() == k,
    decreases s.len(),
{
    if s.len() > k {
        let t = s.skip(k as int);
        lemma_chunks_full(t, k);
        assert forall|j: int| 0 <= j < chunks(s, k).len() - 1 implies (#[trigger] chunks(
            s,
            k,
        )[j]).len() == k by {
            if j > 0 {
                assert(chunks(s, k)[j] == chunks(t, k)[j - 1]);
            }
        }
    }
}

/// Every RN4870 frame is at most 128 bytes long, as much as the module
/// passes: a `%`, between one and 126 lower case hexadecimal digits, and a
/// `%`. The digits of the frames, one after the other, are the hexadecimal
/// text of the data. Data of more than 2060 bytes is refused.
pub proof fn lemma_rn4870_frames_fit(data: Seq<u8>)
    ensures
        (rn4870_frames(data) is Ok) == (data.len() <= 2060),
        rn4870_frames(data) matches Ok(f) ==> (forall|i: int|
            0 <= i < f.len() ==> 3 <= (#[trigger] f[i]).len() <= 128 && f[i][0] == 0x25 && f[i][f[i].len()
                - 1] == 0x25 && (i < f.len() - 1 ==> f[i].len() == 128)),
        rn4870_frames(data) matches Ok(f) ==> f.map_values(
            |x: Seq<u8>| x.subrange(1, x.len() - 1),
        ).flatten() == hex_lower(data),
{
    if data.len() <= 2060 {
        let h = hex_lower(data);
        let hexes = chunks(h, 126);
        lemma_chunks_flatten(h, 126);
        lemma_chunks_full(h, 126);
        let wrap = |c: Seq<u8>| seq![RN4870_DELIMITER] + c + seq![RN4870_DELIMITER];
        let f = rn4870_frames(data).unwrap();
        assert(f == hexes.map_values(wrap));
        assert forall|i: int| 0 <= i < f.len() implies 3 <= (#[trigger] f[i]).len() <= 128 && f[i][0]
            == 0x25 && f[i][f[i].len() - 1] == 0x25 && (i < f.len() - 1 ==> f[i].len() == 128) by {
            assert(f[i] == wrap(hexes[i]));
        }
        let inner = f.map_values(|x: Seq<u8>| x.subrange(1, x.len() - 1));
        assert forall|i: int| 0 <= i < inner.len() implies #[trigger] inner[i] == hexes[i] by {
            assert(f[i] == wrap(hexes[i]));
            assert(wrap(hexes[i]).subrange(1, wrap(hexes[i]).len() - 1) =~= hexes[i]);
        }
        assert(inner =~= hexes);
    }
}

/// Every USB frame holds between one and 256 bytes, as much as the line
/// passes, all but the last exactly 256, and the frames, one after the
/// other, are the data.
pub proof fn lemma_usb_frames_fit(data: Seq<u8>)
    ensures
        UsbCodec::frames_of(data) matches Ok(f) ==> (forall|i: int|
            0 <= i < f.len() ==> 1 <= (#[trigger] f[i]).len() <= 256 && (i < f.len() - 1 ==> f[i].len()
                == 256)) && f.flatten() == data,
{
    lemma_chunks_flatten(data, 256);
    lemma_chunks_full(data, 256);
}

/// Every BGX13 frame holds between one and 32 bytes, as much as the module
/// passes, all but the last exactly 32, and the frames, one after the other,
/// are the data.
pub proof fn lemma_bgx13_frames_fit(data: Seq<u8>)
    ensures
        Bgx13Codec::frames_of(data) matches Ok(f) ==> (forall|i: int|
            0 <= i < f.len() ==> 1 <= (#[trigger] f[i]).len() <= 32 && (i < f.len() - 1 ==> f[i].len()
                == 32)) && f.flatten() == data,
{
    lemma_chunks_flatten(data, 32);
    lemma_chunks_full(data, 32);
}

/// Number of pieces of `n` bytes cut in pieces of `k`.
pub(crate) proof fn lemma_chunks_len(s: Seq<u8>, k: nat, bound: nat)
    requires
        k > 0,
        s.len() <= k * bound,
    ensures
        chunks(s, k).len() <= bound,
    decreases s.len(),
{
    if s.len() > k {
        assert(bound >= 1) by (nonlinear_arith)
            requires
                s.len() <= k * bound,
                s.len() > k,
        ;
        assert(k * ((bound - 1) as nat) == k * bound - k) by (nonlinear_arith)
            requires
                bound >= 1,
        ;
        lemma_chunks_len(s.skip(k as int), k, (bound - 1) as nat);
    } else if s.len() > 0 {
        assert(bound >= 1) by (nonlinear_arith)
            requires
                s.len() <= k * bound,
                s.len() > 0,
        ;
    }
}

impl WireCodec for Rn4870Codec {
    open spec fn delimiter() -> Option<char> {
        Some('%')
    }

    fn message_delimiter() -> (r: Option<char>) {
        Some('%')
    }

    open spec fn frames_of(data: Seq<u8>) -> Result<Seq<Seq<u8>>, CodecError> {
        rn4870_frames(data)
    }

    open spec fn can_frame(data: Seq<u8>) -> bool {
        true
    }

    open spec fn decoded_frame(data: Seq<u8>) -> Result<Seq<u8>, CodecError> {
        match hex_decode(data) {
            Ok(d) => Ok(d),
            Err(e) => Err(CodecError::MalformedHex(e)),
        }
    }

    open spec fn can_decode(data: Seq<u8>) -> bool {
        data.len() % 2 == 1 || data.len() / 2 <= MAX_BLE_DECODED_LENGTH
    }

    fn get_frames(data: &mut [u8]) -> (r: Result<Vec<Vec<u8>>, CodecError>) {
        if data.len() > MAX_MESSAGE_LENGTH_HEX_ENCODED / 2 {
            return Err(CodecError::FrameCreateError);
        }
        let mut hex_result = zeros(2 * data.len());
        let written = hex_encode_lower_into(data, hex_result.as_mut_slice());
        assert(hex_result@ == hex_lower(data@));
        proof {
            lemma_chunks_len(hex_result@, (MAX_BLE_FRAME_LENGTH - 2) as nat, MAX_BLE_FRAMES_COUNT as nat);
        }
        let chunked = split_frames(hex_result.as_slice(), MAX_BLE_FRAME_LENGTH - 2, MAX_BLE_FRAMES_COUNT);
        let chunked = match chunked {
            Ok(c) => c,
            Err(e) => return Err(e),
        };
        let mut frames: Vec<Vec<u8>> = Vec::new();
        let mut i: usize = 0;
        while i < chunked.len()
            invariant
                i <= chunked@.len(),
                frames_view(chunked) == chunks(hex_lower(data@), (MAX_BLE_FRAME_LENGTH - 2) as nat),
                frames_view(frames) == frames_view(chunked).take(i as int).map_values(
                    |c: Seq<u8>| seq![RN4870_DELIMITER] + c + seq![RN4870_DELIMITER],
                ),
            decreases chunked@.len() - i,
        {
            let mut frame: Vec<u8> = Vec::new();
            frame.push(RN4870_DELIMITER);
            let chunk = &chunked[i];
            append_bytes(&mut frame, chunk.as_slice());
            frame.push(RN4870_DELIMITER);
            let ghost old_frames = frames_view(frames);
            frames.push(frame);
            assert(frames_view(frames) == old_frames.push(frame@));
            proof {
                let wrap = |c: Seq<u8>| seq![RN4870_DELIMITER] + c + seq![RN4870_DELIMITER];
                assert(frames_view(chunked)[i as int] == chunk@);
                assert(frame@ == wrap(chunk@));
                assert(frames_view(chunked).take(i + 1).map_values(wrap) =~= frames_view(
                    chunked,
                ).take(i as int).map_values(wrap).push(wrap(chunk@)));
            }
            i = i + 1;
        }
        assert(frames_view(chunked).take(i as int) == frames_view(chunked));
        Ok(frames)
    }

    fn can_get_frames(data: &[u8]) -> (b: bool) {
        true
    }

    fn decode_frame(data: &[u8]) -> (r: Result<(Vec<u8>, usize), CodecError>) {
        let mut decoded = zeros(MAX_BLE_DECODED_LENGTH);
        match hex_decode_into(data, decoded.as_mut_slice()) {
            Ok(decoded_len) => {
                let result = copy_range(decoded.as_slice(), 0, decoded_len);
                Ok((result, decoded_len))
            },
            Err(e) => Err(CodecError::MalformedHex(e)),
        }
    }

    fn can_decode_frame(data: &[u8]) -> (b: bool) {
        data.len() % 2 == 1 || data.len() / 2 <= MAX_BLE_DECODED_LENGTH
    }
}

/// Codec of a USB serial line: frames of at most [`MAX_USB_FRAME_LENGTH`] bytes.
pub struct UsbCodec {}

impl WireCodec for UsbCodec {
    open spec fn delimiter() -> Option<char> {
        None
    }

    fn message_delimiter() -> (r: Option<char>) {
        None
    }

    open spec fn frames_of(data: Seq<u8>) -> Result<Seq<Seq<u8>>, CodecError> {
        if chunks(data, MAX_USB_FRAME_LENGTH as nat).len() > MAX_USB_FRAMES_COUNT {
            Err(CodecError::FrameCreateError)
        } else {
            Ok(chunks(data, MAX_USB_FRAME_LENGTH as nat))
        }
    }

    open spec fn can_frame(data: Seq<u8>) -> bool {
        true
    }

    open spec fn decoded_frame(data: Seq<u8>) -> Result<Seq<u8>, CodecError> {
        if data.len() > MAX_USB_FRAME_LENGTH {
            Err(CodecError::DecodeError)
        } else {
            Ok(data)
        }
    }

    open spec fn can_decode(data: Seq<u8>) -> bool {
        true
    }

    fn get_frames(data: &mut [u8]) -> (r: Result<Vec<Vec<u8>>, CodecError>) {
        split_frames(data, MAX_USB_FRAME_LENGTH, MAX_USB_FRAMES_COUNT)
    }

    fn can_get_frames(data: &[u8]) -> (b: bool) {
        true
    }

    fn decode_frame(data: &[u8]) -> (r: Result<(Vec<u8>, usize), CodecError>) {
        if data.len() > MAX_USB_FRAME_LENGTH {
            return Err(CodecError::DecodeError);
        }
        Ok((copy_range(data, 0, data.len()), data.len()))
    }

    fn can_decode_frame(data: &[u8]) -> (b: bool) {
        true
    }
}

/// Codec of the BGX13 BLE module: frames of at most 32 bytes.
pub struct Bgx13Codec {}

impl WireCodec for Bgx13Codec {
    open spec fn delimiter() -> Option<char> {
        None
    }

    fn message_delimiter() -> (r: Option<char>) {
        None
    }

    open spec fn frames_of(data: Seq<u8>) -> Result<Seq<Seq<u8>>, CodecError> {
        if chunks(data, MAX_BGX13_MESSAGE_LENGTH as nat).len() > MAX_BGX13_FRAMES_COUNT {
            Err(CodecError::FrameCreateError)
        } else {
            Ok(chunks(data, MAX_BGX13_MESSAGE_LENGTH as nat))
        }
    }

    open spec fn can_frame(data: Seq<u8>) -> bool {
        true
    }

    open spec fn decoded_frame(data: Seq<u8>) -> Result<Seq<u8>, CodecError> {
        if data.len() > MAX_BGX13_MESSAGE_LENGTH {
            Err(CodecError::DecodeError)
        } else {
            Ok(data)
        }
    }

    open spec fn can_decode(data: Seq<u8>) -> bool {
        true
    }

    fn get_frames(data: &mut [u8]) -> (r: Result<Vec<Vec<u8>>, CodecError>) {
        split_frames(data, MAX_BGX13_MESSAGE_LENGTH, MAX_BGX13_FRAMES_COUNT)
    }

    fn can_get_frames(data: &[u8]) -> (b: bool) {
        true
    }

    fn decode_frame(data: &[u8]) -> (r: Result<(Vec<u8>, usize), CodecError>) {
        if data.len() > MAX_BGX13_MESSAGE_LENGTH {
            return Err(CodecError::DecodeError);
        }
        Ok((copy_range(data, 0, data.len()), data.len()))
    }

    fn can_decode_frame(data: &[u8]) -> (b: bool) {
        true
    }
}

/// Codec of the BT4502 BLE module: frames of at most 240 bytes, where a frame
/// starting with `TTM:` is sent as its first two bytes and the rest, so that
/// the module does not read it as one of its own commands.
pub struct Bt4502Codec {}

/// `TTM:`, the prefix of the BT4502 module's own commands.
pub open spec fn ttm_prefix() -> Seq<u8> {
    seq![0x54u8, 0x54u8, 0x4du8, 0x3au8]
}

/// The frames a BT4502 chunk is sent as.
pub open spec fn bt4502_split(c: Seq<u8>) -> Seq<Seq<u8>> {
    if c.take(4) == ttm_prefix() {
        seq![c.take(2), c.skip(2)]
    } else {
        seq![c]
    }
}

/// The frames for all chunks `cs`, in order.
pub open spec fn bt4502_pieces(cs: Seq<Seq<u8>>) -> Seq<Seq<u8>>
    decreases cs.len(),
{
    if cs.len() == 0 {
        Seq::empty()
    } else {
        bt4502_split(cs[0]) + bt4502_pieces(cs.drop_first())
    }
}

proof fn lemma_bt4502_pieces_step(cs: Seq<Seq<u8>>, i: int)
    requires
        0 <= i < cs.len(),
    ensures
        bt4502_pieces(cs.skip(i)) == bt4502_split(cs[i]) + bt4502_pieces(cs.skip(i + 1)),
{
    assert(cs.skip(i).drop_first() == cs.skip(i + 1));
}

/// When the length of `s` leaves no remainder of one to three bytes, every
/// chunk of `s` has at least four bytes.
proof fn lemma_chunks_at_least_four(s: Seq<u8>)
    requires
        s.len() % 240 == 0 || s.len() % 240 >= 4,
    ensures
        forall|j: int|
            0 <= j < chunks(s, 240).len() ==> #[trigger] chunks(s, 240)[j].len() >= 4,
    decreases s.len(),
{
    if s.len() > 240 {
        let t = s.skip(240);
        assert(t.len() % 240 == s.len() % 240) by (nonlinear_arith)
            requires
                t.len() == s.len() - 240,
                s.len() > 240,
        ;
        lemma_chunks_at_least_four(t);
        assert forall|j: int| 0 <= j < chunks(s, 240).len() implies #[trigger] chunks(
            s,
            240,
        )[j].len() >= 4 by {
            if j > 0 {
                assert(chunks(s, 240)[j] == chunks(t, 240)[j - 1]);
            }
        }
    } else if s.len() > 0 {
        assert(s.len() >= 4) by (nonlinear_arith)
            requires
                s.len() % 240 == 0 || s.len() % 240 >= 4,
                0 < s.len() <= 240,
        ;
    }
}

/// Whether `c` starts with `TTM:` (it has at least four bytes).
fn starts_with_ttm(c: &[u8]) -> (b: bool)
    requires
        c@.len() >= 4,
    ensures
        b == (c@.take(4) == ttm_prefix()),
{
    let b = c[0] == 0x54u8 && c[1] == 0x54u8 && c[2] == 0x4du8 && c[3] == 0x3au8;
    if b {
        assert(c@.take(4) =~= ttm_prefix());
    } else {
        proof {
            if c@.take(4) == ttm_prefix() {
                assert(c@.take(4)[0] == c@[0] && c@.take(4)[1] == c@[1]);
                assert(c@.take(4)[2] == c@[2] && c@.take(4)[3] == c@[3]);
            }
        }
    }
    b
}

impl WireCodec for Bt4502Codec {
    open spec fn delimiter() -> Option<char> {
        None
    }

    fn message_delimiter() -> (r: Option<char>) {
        None
    }

    open spec fn frames_of(data: Seq<u8>) -> Result<Seq<Seq<u8>>, CodecError> {
        let pieces = bt4502_pieces(chunks(data, MAX_BT4502_MESSAGE_LENGTH as nat));
        if pieces.len() > MAX_BT4502_FRAMES_COUNT {
            Err(CodecError::FrameCreateError)
        } else {
            Ok(pieces)
        }
    }

    open spec fn can_frame(data: Seq<u8>) -> bool {
        data.len() % 240 == 0 || data.len() % 240 >= 4
    }

    open spec fn decoded_frame(data: Seq<u8>) -> Result<Seq<u8>, CodecError> {
        if data.len() > MAX_BT4502_MESSAGE_LENGTH {
            Err(CodecError::DecodeError)
        } else {
            Ok(data)
        }
    }

    open spec fn can_decode(data: Seq<u8>) -> bool {
        true
    }

    fn get_frames(data: &mut [u8]) -> (r: Result<Vec<Vec<u8>>, CodecError>) {
        proof {
            lemma_chunks_at_least_four(data@);
            lemma_chunks_len(data@, 240, data@.len());
        }
        let chunked = match split_frames(data, MAX_BT4502_MESSAGE_LENGTH, data.len()) {
            Ok(c) => c,
            Err(e) => return Err(e),
        };
        let ghost cs = frames_view(chunked);
        let mut frames: Vec<Vec<u8>> = Vec::new();
        let mut i: usize = 0;
        assert(cs.skip(0) == cs);
        while i < chunked.len()
            invariant
                i <= chunked@.len(),
                cs == frames_view(chunked),
                cs == chunks(data@, 240),
                forall|j: int| 0 <= j < cs.len() ==> #[trigger] cs[j].len() >= 4,
                frames@.len() <= MAX_BT4502_FRAMES_COUNT,
                bt4502_pieces(cs) == frames_view(frames) + bt4502_pieces(cs.skip(i as int)),
            decreases chunked@.len() - i,
        {
            let chunk = &chunked[i];
            proof {
                lemma_bt4502_pieces_step(cs, i as int);
                assert(cs[i as int] == chunk@);
                assert(chunk@.len() >= 4);
            }
            if starts_with_ttm(chunk.as_slice()) {
                if frames.len() == MAX_BT4502_FRAMES_COUNT {
                    return Err(CodecError::FrameCreateError);
                }
                let ghost f0 = frames_view(frames);
                frames.push(copy_range(chunk.as_slice(), 0, 2));
                if frames.len() == MAX_BT4502_FRAMES_COUNT {
                    return Err(CodecError::FrameCreateError);
                }
                let ghost f1 = frames_view(frames);
                frames.push(copy_range(chunk.as_slice(), 2, chunk.len()));
                assert(chunk@.subrange(0, 2) =~= chunk@.take(2));
                assert(chunk@.subrange(2, chunk@.len() as int) =~= chunk@.skip(2));
                assert(f1 =~= f0.push(chunk@.take(2)));
                assert(frames_view(frames) =~= f1.push(chunk@.skip(2)));
                assert(frames_view(frames) =~= f0 + bt4502_split(chunk@));
            } else {
                if frames.len() == MAX_BT4502_FRAMES_COUNT {
                    return Err(CodecError::FrameCreateError);
                }
                let ghost f0 = frames_view(frames);
                frames.push(copy_range(chunk.as_slice(), 0, chunk.len()));
                assert(chunk@.subrange(0, chunk@.len() as int) =~= chunk@);
                assert(frames_view(frames) =~= f0 + bt4502_split(chunk@));
            }
            i = i + 1;
        }
        assert(cs.skip(i as int).len() == 0);
        assert(frames_view(frames) + Seq::<Seq<u8>>::empty() == frames_view(frames));
        Ok(frames)
    }

    fn can_get_frames(data: &[u8]) -> (b: bool) {
        data.len() % 240 == 0 || data.len() % 240 >= 4
    }

    fn decode_frame(data: &[u8]) -> (r: Result<(Vec<u8>, usize), CodecError>) {
        if data.len() > MAX_BT4502_MESSAGE_LENGTH {
            return Err(CodecError::DecodeError);
        }
        Ok((copy_range(data, 0, data.len()), data.len()))
    }

    fn can_decode_frame(data: &[u8]) -> (b: bool) {
        true
    }
}

} // verus!
