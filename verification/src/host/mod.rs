//! Host protocol: messages exchanged between a host (computer, phone) and a
//! node over a USB or BLE serial line.
//!
//! A message is turned into bytes ([`Message::as_bytes`]), COBS encoded and
//! terminated by a zero byte ([`Message::encode`]), and split into frames that
//! the serial hardware can carry ([`Message::as_frames`]). On the receiving
//! side a [`MessageReader`] collects incoming bytes and hands back every
//! message whose frame is complete.
use vstd::prelude::*;
use vstd::string::StringSliceAdditionalSpecFns;
use crate::encoding::{cobs_encoded_facts, cobs_encoding, cobs_encoding_bound, cobs_encode_into, cobs_decode_in_place, cobs_ends_with_empty_block, cobs_in_place_decoding, cobs_max_encoding_length, cobs_trailing_run};

pub mod codec;

use self::codec::CodecError;
use self::codec::WireCodec;
use crate::buffers::{append_bytes, copy_range, zeros};
use crate::encoding::{HexDecodeError, hex_decode, hex_decode_into, hex_lower, lemma_hex_roundtrip};
use crate::text::{
    after, bytes_equal, decimal_text, find_byte, first_index, is_first, lemma_decimal_text,
    lemma_first_index_absent, lemma_first_index_at, lemma_parse_decimal_text, parse_number,
    parse_unsigned, piece_after, up_to,
};

verus! {

/// Byte that terminates every COBS frame.
pub const COBS_SENTINEL: u8 = 0u8;

pub const DEFAULT_MAX_MESSAGE_QUEUE_LENGTH: usize = 3;

/// Number of raw IQ bytes a node reports.
pub const RAWIQ_DATA_LENGTH: usize = 2048;

/// Sampling frequency of the raw IQ data, in hertz.
pub const RAWIQ_SAMPLING_FREQ: u32 = 65000;

/// Longest encoded host message: [`calculate_cobs_overhead`] of
/// [`RAWIQ_DATA_LENGTH`] (see [`lemma_max_message_length`]).
pub const MAX_MESSAGE_LENGTH: usize = 2060;

/// Room needed for an encoded message of `n` bytes after its type byte: the
/// type byte and the bytes (`1 + n`), the worst COBS overhead of those,
/// `1 + ceil((1 + n) / 254)`, and the terminating zero byte.
pub open spec fn cobs_overhead(n: int) -> int {
    n + 3 + (n + 254) / 254
}

/// Computes [`cobs_overhead`] of `unecoded_message_size`.
pub fn calculate_cobs_overhead(unecoded_message_size: usize) -> (r: usize)
    requires
        cobs_overhead(unecoded_message_size as int) <= usize::MAX,
    ensures
        r == cobs_overhead(unecoded_message_size as int),
{
    let cobs_overhead_maximum: usize = 254;
    let with_type = 1 + unecoded_message_size;
    with_type + 1 + (with_type + cobs_overhead_maximum - 1) / cobs_overhead_maximum + 1
}

/// The room for a message of `n` bytes after its type byte is those bytes,
/// the type byte, the terminating zero byte, one more code byte, and one code
/// byte per started block of 254 of the `n + 1` bytes: the number `c` of the
/// latter is the least with `254 c >= n + 1`.
pub proof fn lemma_cobs_overhead_blocks(n: nat)
    ensures
        ({
            let c = cobs_overhead(n as int) - n - 3;
            &&& 1 <= c
            &&& (c - 1) * 254 < n + 1 <= c * 254
        }),
{
    let c = cobs_overhead(n as int) - n - 3;
    assert(c == (n + 254) / 254);
    assert((c - 1) * 254 < n + 1 <= c * 254) by (nonlinear_arith)
        requires
            c == (n + 254) / 254,
            n >= 0,
    ;
}

/// [`MAX_MESSAGE_LENGTH`] is the room a message with a full raw IQ payload needs.
pub proof fn lemma_max_message_length()
    ensures
        MAX_MESSAGE_LENGTH == cobs_overhead(RAWIQ_DATA_LENGTH as int),
{
}

/// Errors of the host protocol.
#[derive(PartialEq, Eq, Debug, Clone, Copy)]
pub enum Error {
    BufferFull,
    BufferLengthNotSufficient,
    MalformedMessage,
    MessageQueueFull,
    CannotAppendCommand,
    CodecError(CodecError),
    CobsEncodeError,
}

impl From<CodecError> for Error {
    fn from(e: CodecError) -> (r: Error)
        ensures
            r == Error::CodecError(e),
    {
        Error::CodecError(e)
    }
}

impl vstd::std_specs::convert::FromSpecImpl<CodecError> for Error {
    open spec fn obeys_from_spec() -> bool {
        true
    }

    open spec fn from_spec(e: CodecError) -> Error {
        Error::CodecError(e)
    }
}

/// Status reported by a node.
#[derive(Clone, Copy, PartialEq, Eq, Debug)]
pub enum StatusCode {
    FrameReceived,
    CommandReceived,
    ErrUnknownCommmandReceived,
    ErrBusyLoraTransmitting,
    ErrMessageQueueFull,
    RadioNotConfigured,
}

/// Wire value of a status code. A received frame is reported with 2 (the
/// frame `03 c5 02 00` reads as `Status { code: FrameReceived }`), a
/// received command with 1.
pub open spec fn status_code_value(code: StatusCode) -> u8 {
    match code {
        StatusCode::FrameReceived => 2,
        StatusCode::CommandReceived => 1,
        StatusCode::ErrUnknownCommmandReceived => 3,
        StatusCode::ErrBusyLoraTransmitting => 4,
        StatusCode::ErrMessageQueueFull => 5,
        StatusCode::RadioNotConfigured => 6,
    }
}

/// Status code with wire value `value`, if there is one.
pub open spec fn status_code_of(value: u8) -> Option<StatusCode> {
    match value {
        1 => Some(StatusCode::CommandReceived),
        2 => Some(StatusCode::FrameReceived),
        3 => Some(StatusCode::ErrUnknownCommmandReceived),
        4 => Some(StatusCode::ErrBusyLoraTransmitting),
        5 => Some(StatusCode::ErrMessageQueueFull),
        6 => Some(StatusCode::RadioNotConfigured),
        _ => None,
    }
}

impl StatusCode {
    /// The status code with wire value `value`.
    pub fn try_from(value: u8) -> (r: Result<StatusCode, &'static str>)
        ensures
            match status_code_of(value) {
                Some(c) => r == Ok::<StatusCode, &'static str>(c),
                None => r is Err,
            },
    {
        match value {
            1 => Ok(StatusCode::CommandReceived),
            2 => Ok(StatusCode::FrameReceived),
            3 => Ok(StatusCode::ErrUnknownCommmandReceived),
            4 => Ok(StatusCode::ErrBusyLoraTransmitting),
            5 => Ok(StatusCode::ErrMessageQueueFull),
            6 => Ok(StatusCode::RadioNotConfigured),
            _ => Err("Unknown StatusCode"),
        }
    }

    /// The text that describes this status code to a person.
    pub fn description(&self) -> (r: &'static str)
        ensures
            r@ == match *self {
                StatusCode::FrameReceived => "Single serial frame was successfuly received"@,
                StatusCode::CommandReceived => "Command was successfully received"@,
                StatusCode::ErrUnknownCommmandReceived => "Error: unknown command type"@,
                StatusCode::ErrBusyLoraTransmitting => "Error: cannot execute sent command - radio is currently busy transmitting"@,
                StatusCode::ErrMessageQueueFull => "Transmit queue is full, try sending SendData later again"@,
                StatusCode::RadioNotConfigured => "Error: radio is not configured"@,
            },
    {
        match self {
            StatusCode::FrameReceived => "Single serial frame was successfuly received",
            StatusCode::CommandReceived => "Command was successfully received",
            StatusCode::ErrUnknownCommmandReceived => "Error: unknown command type",
            StatusCode::ErrBusyLoraTransmitting => "Error: cannot execute sent command - radio is currently busy transmitting",
            StatusCode::ErrMessageQueueFull => "Transmit queue is full, try sending SendData later again",
            StatusCode::RadioNotConfigured => "Error: radio is not configured",
        }
    }

    /// The wire value of this status code.
    pub fn value(&self) -> (r: u8)
        ensures
            r == status_code_value(*self),
    {
        match self {
            StatusCode::FrameReceived => 2,
            StatusCode::CommandReceived => 1,
            StatusCode::ErrUnknownCommmandReceived => 3,
            StatusCode::ErrBusyLoraTransmitting => 4,
            StatusCode::ErrMessageQueueFull => 5,
            StatusCode::RadioNotConfigured => 6,
        }
    }
}

/// Every status code is read back from its wire value.
pub proof fn lemma_status_code_roundtrip(code: StatusCode)
    ensures
        status_code_of(status_code_value(code)) == Some(code),
{
}

/// Possible commands sent over the host protocol, in both directions.
#[derive(PartialEq, Eq, Debug)]
pub enum Message {
    /// Host sending data to node instructing it to broadcast it to the wireless network
    SendData { data: Vec<u8> },
    /// Node sending data to host
    ReceiveData { data: Vec<u8> },
    /// Host is reconfiguring the node
    Configure { region: u8, spreading_factor: u8 },
    /// Host requesting the node status
    ReportRequest,
    /// Node reporting information to host
    Report {
        /// BE encoded
        sn: u32,
        /// BE encoded
        version_data: Vec<u8>,
        region: u8,
        spreading_factor: u8,
        receive_queue_size: u8,
        transmit_queue_size: u8,
    },
    /// Node reporting some error state to host
    Status { code: StatusCode },
    /// Firmware upgrade will follow
    UpgradeFirmwareRequest,
    /// Set current time
    SetTimestamp { timestamp: u64 },
    /// Get raw IQ data
    GetRawIq,
    /// Node returns raw IQ data to host
    RawIq { data: Vec<u8> },
}

/// A [`Message`] as a mathematical value.
pub enum MessageModel {
    SendData { data: Seq<u8> },
    ReceiveData { data: Seq<u8> },
    Configure { region: u8, spreading_factor: u8 },
    ReportRequest,
    Report {
        sn: u32,
        version_data: Seq<u8>,
        region: u8,
        spreading_factor: u8,
        receive_queue_size: u8,
        transmit_queue_size: u8,
    },
    Status { code: StatusCode },
    UpgradeFirmwareRequest,
    SetTimestamp { timestamp: u64 },
    GetRawIq,
    RawIq { data: Seq<u8> },
}

impl View for Message {
    type V = MessageModel;

    open spec fn view(&self) -> MessageModel {
        match self {
            Message::SendData { data } => MessageModel::SendData { data: data@ },
            Message::ReceiveData { data } => MessageModel::ReceiveData { data: data@ },
            Message::Configure { region, spreading_factor } => MessageModel::Configure {
                region: *region,
                spreading_factor: *spreading_factor,
            },
            Message::ReportRequest => MessageModel::ReportRequest,
            Message::Report {
                sn,
                version_data,
                region,
                spreading_factor,
                receive_queue_size,
                transmit_queue_size,
            } => MessageModel::Report {
                sn: *sn,
                version_data: version_data@,
                region: *region,
                spreading_factor: *spreading_factor,
                receive_queue_size: *receive_queue_size,
                transmit_queue_size: *transmit_queue_size,
            },
            Message::Status { code } => MessageModel::Status { code: *code },
            Message::UpgradeFirmwareRequest => MessageModel::UpgradeFirmwareRequest,
            Message::SetTimestamp { timestamp } => MessageModel::SetTimestamp {
                timestamp: *timestamp,
            },
            Message::GetRawIq => MessageModel::GetRawIq,
            Message::RawIq { data } => MessageModel::RawIq { data: data@ },
        }
    }
}

/// The views of a sequence of messages.
pub open spec fn messages_view(v: Seq<Message>) -> Seq<MessageModel> {
    v.map_values(|m: Message| m@)
}

/// Payloads fit the buffers of the protocol: at most
/// [`MAX_LORA_PAYLOAD_LENGTH`](crate::MAX_LORA_PAYLOAD_LENGTH) bytes of data,
/// nine bytes of version data, [`RAWIQ_DATA_LENGTH`] bytes of raw IQ data.
pub open spec fn message_wf(m: MessageModel) -> bool {
    match m {
        MessageModel::SendData { data } => data.len() <= crate::MAX_LORA_PAYLOAD_LENGTH,
        MessageModel::ReceiveData { data } => data.len() <= crate::MAX_LORA_PAYLOAD_LENGTH,
        MessageModel::Report { version_data, .. } => version_data.len() <= 9,
        MessageModel::RawIq { data } => data.len() <= RAWIQ_DATA_LENGTH,
        _ => true,
    }
}

/// Big endian bytes of a `u32`.
pub open spec fn be_u32_bytes(v: u32) -> Seq<u8> {
    seq![(v >> 24u32) as u8, (v >> 16u32) as u8, (v >> 8u32) as u8, v as u8]
}

/// `u32` with big endian bytes `b[0..4]`.
pub open spec fn be_u32_value(b: Seq<u8>) -> u32 {
    ((b[0] as u32) << 24u32) | ((b[1] as u32) << 16u32) | ((b[2] as u32) << 8u32) | (b[3] as u32)
}

/// Big endian bytes of a `u64`.
pub open spec fn be_u64_bytes(v: u64) -> Seq<u8> {
    seq![
        (v >> 56u64) as u8,
        (v >> 48u64) as u8,
        (v >> 40u64) as u8,
        (v >> 32u64) as u8,
        (v >> 24u64) as u8,
        (v >> 16u64) as u8,
        (v >> 8u64) as u8,
        v as u8,
    ]
}

/// `u64` with big endian bytes `b[0..8]`.
pub open spec fn be_u64_value(b: Seq<u8>) -> u64 {
    ((b[0] as u64) << 56u64) | ((b[1] as u64) << 48u64) | ((b[2] as u64) << 40u64) | ((
    b[3] as u64) << 32u64) | ((b[4] as u64) << 24u64) | ((b[5] as u64) << 16u64) | ((
    b[6] as u64) << 8u64) | (b[7] as u64)
}

/// Length of a message on the wire: its type byte and its fields, a report
/// counted with nine bytes of version data.
pub open spec fn message_len(m: MessageModel) -> nat {
    1 + match m {
        MessageModel::SendData { data } => data.len(),
        MessageModel::ReceiveData { data } => data.len(),
        MessageModel::Configure { .. } => 2,
        MessageModel::ReportRequest => 0,
        MessageModel::Report { .. } => 17,
        MessageModel::Status { .. } => 1,
        MessageModel::UpgradeFirmwareRequest => 0,
        MessageModel::SetTimestamp { .. } => 8,
        MessageModel::GetRawIq => 0,
        MessageModel::RawIq { data } => data.len(),
    }
}

/// The bytes of a message: a type byte followed by its fields.
pub open spec fn message_bytes(m: MessageModel) -> Seq<u8> {
    match m {
        MessageModel::SendData { data } => seq![0xc0u8] + data,
        MessageModel::ReceiveData { data } => seq![0xc1u8] + data,
        MessageModel::Configure { region, spreading_factor } => seq![
            0xc2u8,
            region,
            spreading_factor,
        ],
        MessageModel::ReportRequest => seq![0xc3u8],
        MessageModel::Report {
            sn,
            version_data,
            region,
            spreading_factor,
            receive_queue_size,
            transmit_queue_size,
        } => seq![0xc4u8] + be_u32_bytes(sn) + version_data + seq![
            region,
            spreading_factor,
            receive_queue_size,
            transmit_queue_size,
        ],
        MessageModel::Status { code } => seq![0xc5u8, status_code_value(code)],
        MessageModel::UpgradeFirmwareRequest => seq![0xc6u8],
        MessageModel::SetTimestamp { timestamp } => seq![0xc7u8] + be_u64_bytes(timestamp),
        MessageModel::GetRawIq => seq![0xc8u8],
        MessageModel::RawIq { data } => seq![0xc9u8] + data,
    }
}

/// `b` is long enough for the fields its type byte announces (reading a
/// shorter buffer indexes past its end).
pub open spec fn message_parsable(b: Seq<u8>) -> bool {
    &&& b.len() >= 1
    &&& b[0] == 0xc2 ==> b.len() >= 3
    &&& b[0] == 0xc4 ==> b.len() >= 18
    &&& b[0] == 0xc5 ==> b.len() >= 2
    &&& b[0] == 0xc7 ==> b.len() >= 9
}

/// The message that the bytes `b` hold. Bytes after the fields of a message of
/// fixed length are ignored.
pub open spec fn parse_message(b: Seq<u8>) -> Result<MessageModel, Error> {
    if b[0] == 0xc0 {
        if b.len() - 1 <= crate::MAX_LORA_PAYLOAD_LENGTH {
            Ok(MessageModel::SendData { data: b.skip(1) })
        } else {
            Err(Error::BufferLengthNotSufficient)
        }
    } else if b[0] == 0xc1 {
        if b.len() - 1 <= crate::MAX_LORA_PAYLOAD_LENGTH {
            Ok(MessageModel::ReceiveData { data: b.skip(1) })
        } else {
            Err(Error::BufferLengthNotSufficient)
        }
    } else if b[0] == 0xc2 {
        Ok(MessageModel::Configure { region: b[1], spreading_factor: b[2] })
    } else if b[0] == 0xc3 {
        Ok(MessageModel::ReportRequest)
    } else if b[0] == 0xc4 {
        Ok(
            MessageModel::Report {
                sn: be_u32_value(b.subrange(1, 5)),
                version_data: b.subrange(5, 14),
                region: b[14],
                spreading_factor: b[15],
                receive_queue_size: b[16],
                transmit_queue_size: b[17],
            },
        )
    } else if b[0] == 0xc5 {
        match status_code_of(b[1]) {
            Some(code) => Ok(MessageModel::Status { code }),
            None => Err(Error::MalformedMessage),
        }
    } else if b[0] == 0xc6 {
        Ok(MessageModel::UpgradeFirmwareRequest)
    } else if b[0] == 0xc7 {
        Ok(MessageModel::SetTimestamp { timestamp: be_u64_value(b.subrange(1, 9)) })
    } else if b[0] == 0xc8 {
        Ok(MessageModel::GetRawIq)
    } else if b[0] == 0xc9 {
        if b.len() - 1 <= RAWIQ_DATA_LENGTH {
            Ok(MessageModel::RawIq { data: b.skip(1) })
        } else {
            Err(Error::BufferLengthNotSufficient)
        }
    } else {
        Err(Error::MalformedMessage)
    }
}

impl Message {
    /// The payloads of this message fit the protocol's buffers.
    pub open spec fn wf(&self) -> bool {
        message_wf(self@)
    }

    /// Length of this message on the wire ([`message_len`]): the number of
    /// bytes of [`Message::as_bytes`] for a report with nine bytes of version
    /// data and for every other message.
    pub fn len(&self) -> (r: usize)
        requires
            self.wf(),
        ensures
            r == message_len(self@),
            message_bytes(self@).len() <= r,
    {
        let variable_part_length: usize = match self {
            Message::SendData { data } => data.len(),
            Message::ReceiveData { data } => data.len(),
            Message::Configure { .. } => 2,
            Message::ReportRequest => 0,
            Message::Report { .. } => 17,
            Message::Status { .. } => 1,
            Message::UpgradeFirmwareRequest => 0,
            Message::SetTimestamp { .. } => 8,
            Message::GetRawIq => 0,
            Message::RawIq { data } => data.len(),
        };
        1 + variable_part_length
    }
}


/// Reading the big endian bytes of a `u32` gives it back.
pub proof fn lemma_be_u32_roundtrip(v: u32)
    ensures
        be_u32_value(be_u32_bytes(v)) == v,
{
    let b = be_u32_bytes(v);
    let (b0, b1, b2, b3) = (b[0], b[1], b[2], b[3]);
    assert(((b0 as u32) << 24u32) | ((b1 as u32) << 16u32) | ((b2 as u32) << 8u32) | (b3 as u32)
        == v) by (bit_vector)
        requires
            b0 == (v >> 24u32) as u8,
            b1 == (v >> 16u32) as u8,
            b2 == (v >> 8u32) as u8,
            b3 == v as u8,
    ;
}

/// Reading the big endian bytes of a `u64` gives it back.
pub proof fn lemma_be_u64_roundtrip(v: u64)
    ensures
        be_u64_value(be_u64_bytes(v)) == v,
{
    let b = be_u64_bytes(v);
    let (b0, b1, b2, b3, b4, b5, b6, b7) = (b[0], b[1], b[2], b[3], b[4], b[5], b[6], b[7]);
    assert(((b0 as u64) << 56u64) | ((b1 as u64) << 48u64) | ((b2 as u64) << 40u64) | ((
    b3 as u64) << 32u64) | ((b4 as u64) << 24u64) | ((b5 as u64) << 16u64) | ((b6 as u64)
        << 8u64) | (b7 as u64) == v) by (bit_vector)
        requires
            b0 == (v >> 56u64) as u8,
            b1 == (v >> 48u64) as u8,
            b2 == (v >> 40u64) as u8,
            b3 == (v >> 32u64) as u8,
            b4 == (v >> 24u64) as u8,
            b5 == (v >> 16u64) as u8,
            b6 == (v >> 8u64) as u8,
            b7 == v as u8,
    ;
}

/// The wire value of every status code: 1 a received command, 2 a received
/// frame, 3 an unknown command, 4 a radio busy transmitting, 5 a full message
/// queue, 6 a radio not configured; no other byte is a status code.
pub proof fn lemma_status_code_table()
    ensures
        status_code_value(StatusCode::CommandReceived) == 1,
        status_code_value(StatusCode::FrameReceived) == 2,
        status_code_value(StatusCode::ErrUnknownCommmandReceived) == 3,
        status_code_value(StatusCode::ErrBusyLoraTransmitting) == 4,
        status_code_value(StatusCode::ErrMessageQueueFull) == 5,
        status_code_value(StatusCode::RadioNotConfigured) == 6,
        status_code_of(1) == Some(StatusCode::CommandReceived),
        status_code_of(2) == Some(StatusCode::FrameReceived),
        status_code_of(3) == Some(StatusCode::ErrUnknownCommmandReceived),
        status_code_of(4) == Some(StatusCode::ErrBusyLoraTransmitting),
        status_code_of(5) == Some(StatusCode::ErrMessageQueueFull),
        status_code_of(6) == Some(StatusCode::RadioNotConfigured),
        forall|v: u8| (v == 0 || v > 6) ==> #[trigger] status_code_of(v) is None,
{
}

/// Byte `k` (from 0) of the big endian bytes of `v` is `v / 256^(3 - k) % 256`,
/// and those bytes are read back as the number they spell.
pub(crate) proof fn lemma_be_u32_digits(v: u32, b0: u8, b1: u8, b2: u8, b3: u8)
    ensures
        be_u32_bytes(v)[0] == v / 0x1000000,
        be_u32_bytes(v)[1] == v / 0x10000 % 0x100,
        be_u32_bytes(v)[2] == v / 0x100 % 0x100,
        be_u32_bytes(v)[3] == v % 0x100,
        be_u32_value(seq![b0, b1, b2, b3]) == b0 * 0x1000000 + b1 * 0x10000 + b2 * 0x100 + b3,
{
    assert(((v >> 24u32) as u8) == v / 0x1000000 && ((v >> 16u32) as u8) == v / 0x10000 % 0x100
        && ((v >> 8u32) as u8) == v / 0x100 % 0x100 && (v as u8) == v % 0x100) by (bit_vector);
    let b = seq![b0, b1, b2, b3];
    assert(b[0] == b0 && b[1] == b1 && b[2] == b2 && b[3] == b3);
    assert((((b0 as u32) << 24u32) | ((b1 as u32) << 16u32) | ((b2 as u32) << 8u32) | (b3 as u32))
        == b0 * 0x1000000 + b1 * 0x10000 + b2 * 0x100 + b3) by (bit_vector);
}

/// Byte `k` (from 0) of the big endian bytes of `v` is `v / 256^(7 - k) % 256`,
/// and those bytes are read back as the number they spell.
proof fn lemma_be_u64_digits(v: u64, b: Seq<u8>)
    requires
        b.len() == 8,
    ensures
        be_u64_bytes(v)[0] == v / 0x100000000000000,
        be_u64_bytes(v)[1] == v / 0x1000000000000 % 0x100,
        be_u64_bytes(v)[2] == v / 0x10000000000 % 0x100,
        be_u64_bytes(v)[3] == v / 0x100000000 % 0x100,
        be_u64_bytes(v)[4] == v / 0x1000000 % 0x100,
        be_u64_bytes(v)[5] == v / 0x10000 % 0x100,
        be_u64_bytes(v)[6] == v / 0x100 % 0x100,
        be_u64_bytes(v)[7] == v % 0x100,
        be_u64_value(b) == b[0] * 0x100000000000000 + b[1] * 0x1000000000000 + b[2] * 0x10000000000
            + b[3] * 0x100000000 + b[4] * 0x1000000 + b[5] * 0x10000 + b[6] * 0x100 + b[7],
{
    assert(((v >> 56u64) as u8) == v / 0x100000000000000 && ((v >> 48u64) as u8) == v
        / 0x1000000000000 % 0x100 && ((v >> 40u64) as u8) == v / 0x10000000000 % 0x100 && ((v
        >> 32u64) as u8) == v / 0x100000000 % 0x100) by (bit_vector);
    assert(((v >> 24u64) as u8) == v / 0x1000000 % 0x100 && ((v >> 16u64) as u8) == v / 0x10000
        % 0x100 && ((v >> 8u64) as u8) == v / 0x100 % 0x100 && (v as u8) == v % 0x100)
        by (bit_vector);
    let (b0, b1, b2, b3, b4, b5, b6, b7) = (b[0], b[1], b[2], b[3], b[4], b[5], b[6], b[7]);
    assert((((b0 as u64) << 56u64) | ((b1 as u64) << 48u64) | ((b2 as u64) << 40u64) | ((
    b3 as u64) << 32u64) | ((b4 as u64) << 24u64) | ((b5 as u64) << 16u64) | ((b6 as u64)
        << 8u64) | (b7 as u64)) == b0 * 0x100000000000000 + b1 * 0x1000000000000 + b2
        * 0x10000000000 + b3 * 0x100000000 + b4 * 0x1000000 + b5 * 0x10000 + b6 * 0x100 + b7)
        by (bit_vector);
}

/// How each message is laid out on the wire: a type byte (0xc0 send data,
/// 0xc1 received data, 0xc2 configure, 0xc3 report request, 0xc4 report,
/// 0xc5 status, 0xc6 firmware upgrade, 0xc7 timestamp, 0xc8 raw IQ request,
/// 0xc9 raw IQ data), then its fields in order: a configuration's region
/// then spreading factor; a report's serial number big endian in four bytes,
/// its version data, then region, spreading factor, receive and transmit
/// queue sizes; a status's wire value; a timestamp big endian in eight bytes;
/// the data of a data message.
pub proof fn lemma_message_layout(m: MessageModel)
    ensures
        ({
            let b = message_bytes(m);
            match m {
                MessageModel::SendData { data } => b == seq![0xc0u8] + data,
                MessageModel::ReceiveData { data } => b == seq![0xc1u8] + data,
                MessageModel::Configure { region, spreading_factor } => b.len() == 3 && b[0]
                    == 0xc2 && b[1] == region && b[2] == spreading_factor,
                MessageModel::ReportRequest => b == seq![0xc3u8],
                MessageModel::Report {
                    sn,
                    version_data,
                    region,
                    spreading_factor,
                    receive_queue_size,
                    transmit_queue_size,
                } => {
                    &&& b.len() == 9 + version_data.len()
                    &&& b[0] == 0xc4
                    &&& b[1] == sn / 0x1000000
                    &&& b[2] == sn / 0x10000 % 0x100
                    &&& b[3] == sn / 0x100 % 0x100
                    &&& b[4] == sn % 0x100
                    &&& b.subrange(5, 5 + version_data.len() as int) == version_data
                    &&& b[5 + version_data.len() as int] == region
                    &&& b[6 + version_data.len() as int] == spreading_factor
                    &&& b[7 + version_data.len() as int] == receive_queue_size
                    &&& b[8 + version_data.len() as int] == transmit_queue_size
                },
                MessageModel::Status { code } => b.len() == 2 && b[0] == 0xc5 && b[1]
                    == status_code_value(code),
                MessageModel::UpgradeFirmwareRequest => b == seq![0xc6u8],
                MessageModel::SetTimestamp { timestamp } => {
                    &&& b.len() == 9
                    &&& b[0] == 0xc7
                    &&& b[1] == timestamp / 0x100000000000000
                    &&& b[2] == timestamp / 0x1000000000000 % 0x100
                    &&& b[3] == timestamp / 0x10000000000 % 0x100
                    &&& b[4] == timestamp / 0x100000000 % 0x100
                    &&& b[5] == timestamp / 0x1000000 % 0x100
                    &&& b[6] == timestamp / 0x10000 % 0x100
                    &&& b[7] == timestamp / 0x100 % 0x100
                    &&& b[8] == timestamp % 0x100
                },
                MessageModel::GetRawIq => b == seq![0xc8u8],
                MessageModel::RawIq { data } => b == seq![0xc9u8] + data,
            }
        }),
{
    let b = message_bytes(m);
    match m {
        MessageModel::Report { sn, version_data, .. } => {
            lemma_be_u32_digits(sn, 0, 0, 0, 0);
            assert(b.subrange(5, 5 + version_data.len() as int) =~= version_data);
        },
        MessageModel::SetTimestamp { timestamp } => {
            lemma_be_u64_digits(timestamp, be_u64_bytes(timestamp));
        },
        _ => {},
    }
}

/// The length of a message is the number of its bytes on the wire, a report
/// counted with nine bytes of version data.
pub proof fn lemma_message_len(m: MessageModel)
    requires
        m matches MessageModel::Report { version_data, .. } ==> version_data.len() == 9,
    ensures
        message_len(m) == message_bytes(m).len(),
{
}

/// What bytes read as, by their type byte: a configuration takes its region
/// from byte 1 and its spreading factor from byte 2; a report its serial
/// number from bytes 1 to 4 (big endian), its version data from bytes 5 to
/// 13, its region from byte 14, its spreading factor from byte 15 and its
/// queue sizes from bytes 16 and 17; a status its code from byte 1; a
/// timestamp the big endian number in bytes 1 to 8; a data message the bytes
/// after the type byte.
pub proof fn lemma_message_fields_read(b: Seq<u8>)
    requires
        message_parsable(b),
    ensures
        b[0] == 0xc0 && b.len() <= 256 ==> parse_message(b) == Ok::<MessageModel, Error>(
            MessageModel::SendData { data: b.subrange(1, b.len() as int) },
        ),
        b[0] == 0xc1 && b.len() <= 256 ==> parse_message(b) == Ok::<MessageModel, Error>(
            MessageModel::ReceiveData { data: b.subrange(1, b.len() as int) },
        ),
        b[0] == 0xc2 ==> parse_message(b) == Ok::<MessageModel, Error>(
            MessageModel::Configure { region: b[1], spreading_factor: b[2] },
        ),
        b[0] == 0xc4 ==> (parse_message(b) matches Ok(MessageModel::Report {
            sn,
            version_data,
            region,
            spreading_factor,
            receive_queue_size,
            transmit_queue_size,
        }) && sn == b[1] * 0x1000000 + b[2] * 0x10000 + b[3] * 0x100 + b[4] && version_data
            == b.subrange(5, 14) && region == b[14] && spreading_factor == b[15]
            && receive_queue_size == b[16] && transmit_queue_size == b[17]),
        b[0] == 0xc5 ==> parse_message(b) == match status_code_of(b[1]) {
            Some(code) => Ok::<MessageModel, Error>(MessageModel::Status { code }),
            None => Err(Error::MalformedMessage),
        },
        b[0] == 0xc7 ==> (parse_message(b) matches Ok(MessageModel::SetTimestamp { timestamp })
            && timestamp == b[1] * 0x100000000000000 + b[2] * 0x1000000000000 + b[3]
            * 0x10000000000 + b[4] * 0x100000000 + b[5] * 0x1000000 + b[6] * 0x10000 + b[7]
            * 0x100 + b[8]),
{
    if b[0] == 0xc0 || b[0] == 0xc1 {
        assert(b.skip(1) =~= b.subrange(1, b.len() as int));
    }
    if b[0] == 0xc4 {
        let s = b.subrange(1, 5);
        assert(s =~= seq![b[1], b[2], b[3], b[4]]);
        lemma_be_u32_digits(0, b[1], b[2], b[3], b[4]);
    }
    if b[0] == 0xc7 {
        let s = b.subrange(1, 9);
        lemma_be_u64_digits(0, s);
    }
}

/// Reading the bytes of a message gives the message back. The one exception
/// is a report whose version data is shorter than nine bytes: its bytes are
/// too short to be read.
pub proof fn lemma_message_bytes_roundtrip(m: MessageModel)
    requires
        message_wf(m),
        m matches MessageModel::Report { version_data, .. } ==> version_data.len() == 9,
    ensures
        message_parsable(message_bytes(m)),
        parse_message(message_bytes(m)) == Ok::<MessageModel, Error>(m),
{
    let b = message_bytes(m);
    match m {
        MessageModel::SendData { data } => {
            assert(b.skip(1) == data);
        },
        MessageModel::ReceiveData { data } => {
            assert(b.skip(1) == data);
        },
        MessageModel::Report { sn, version_data, .. } => {
            lemma_be_u32_roundtrip(sn);
            assert(b.subrange(1, 5) == be_u32_bytes(sn));
            assert(b.subrange(5, 14) == version_data);
        },
        MessageModel::Status { code } => {
            lemma_status_code_roundtrip(code);
        },
        MessageModel::SetTimestamp { timestamp } => {
            lemma_be_u64_roundtrip(timestamp);
            assert(b.subrange(1, 9) == be_u64_bytes(timestamp));
        },
        MessageModel::RawIq { data } => {
            assert(b.skip(1) == data);
        },
        _ => {},
    }
}

impl Message {
    /// The bytes of this message ([`message_bytes`]).
    pub fn as_bytes(&self) -> (r: Result<Vec<u8>, Error>)
        requires
            self.wf(),
        ensures
            r matches Ok(v) && v@ == message_bytes(self@),
    {
        let mut res: Vec<u8> = Vec::new();
        match self {
            Message::SendData { data } => {
                res.push(0xc0);
                append_bytes(&mut res, data.as_slice());
            },
            Message::ReceiveData { data } => {
                res.push(0xc1);
                append_bytes(&mut res, data.as_slice());
            },
            Message::Configure { region, spreading_factor } => {
                res.push(0xc2);
                res.push(*region);
                res.push(*spreading_factor);
            },
            Message::ReportRequest => {
                res.push(0xc3);
            },
            Message::Report {
                sn,
                version_data,
                region,
                spreading_factor,
                receive_queue_size,
                transmit_queue_size,
            } => {
                let sn = *sn;
                res.push(0xc4);
                res.push((sn >> 24u32) as u8);
                res.push((sn >> 16u32) as u8);
                res.push((sn >> 8u32) as u8);
                res.push(sn as u8);
                append_bytes(&mut res, version_data.as_slice());
                res.push(*region);
                res.push(*spreading_factor);
                res.push(*receive_queue_size);
                res.push(*transmit_queue_size);
            },
            Message::Status { code } => {
                res.push(0xc5);
                res.push(code.value());
            },
            Message::UpgradeFirmwareRequest => {
                res.push(0xc6);
            },
            Message::SetTimestamp { timestamp } => {
                let t = *timestamp;
                res.push(0xc7);
                res.push((t >> 56u64) as u8);
                res.push((t >> 48u64) as u8);
                res.push((t >> 40u64) as u8);
                res.push((t >> 32u64) as u8);
                res.push((t >> 24u64) as u8);
                res.push((t >> 16u64) as u8);
                res.push((t >> 8u64) as u8);
                res.push(t as u8);
            },
            Message::GetRawIq => {
                res.push(0xc8);
            },
            Message::RawIq { data } => {
                res.push(0xc9);
                append_bytes(&mut res, data.as_slice());
            },
        }
        assert(res@ == message_bytes(self@));
        Ok(res)
    }

    /// Reads a message from its bytes ([`parse_message`]).
    pub fn try_from(buf: &[u8]) -> (r: Result<Message, Error>)
        requires
            message_parsable(buf@),
        ensures
            match parse_message(buf@) {
                Ok(m) => r matches Ok(v) && v@ == m,
                Err(e) => r == Err::<Message, Error>(e),
            },
    {
        let tag = buf[0];
        if tag == 0xc0 {
            if buf.len() - 1 <= crate::MAX_LORA_PAYLOAD_LENGTH {
                Ok(Message::SendData { data: copy_range(buf, 1, buf.len()) })
            } else {
                Err(Error::BufferLengthNotSufficient)
            }
        } else if tag == 0xc1 {
            if buf.len() - 1 <= crate::MAX_LORA_PAYLOAD_LENGTH {
                Ok(Message::ReceiveData { data: copy_range(buf, 1, buf.len()) })
            } else {
                Err(Error::BufferLengthNotSufficient)
            }
        } else if tag == 0xc2 {
            Ok(Message::Configure { region: buf[1], spreading_factor: buf[2] })
        } else if tag == 0xc3 {
            Ok(Message::ReportRequest)
        } else if tag == 0xc4 {
            let sn: u32 = ((buf[1] as u32) << 24u32) | ((buf[2] as u32) << 16u32) | ((
            buf[3] as u32) << 8u32) | (buf[4] as u32);
            proof {
                let b = buf@.subrange(1, 5);
                assert(b[0] == buf@[1] && b[1] == buf@[2] && b[2] == buf@[3] && b[3] == buf@[4]);
            }
            Ok(
                Message::Report {
                    sn,
                    version_data: copy_range(buf, 5, 14),
                    region: buf[14],
                    spreading_factor: buf[15],
                    receive_queue_size: buf[16],
                    transmit_queue_size: buf[17],
                },
            )
        } else if tag == 0xc5 {
            match StatusCode::try_from(buf[1]) {
                Ok(code) => Ok(Message::Status { code }),
                Err(_) => Err(Error::MalformedMessage),
            }
        } else if tag == 0xc6 {
            Ok(Message::UpgradeFirmwareRequest)
        } else if tag == 0xc7 {
            let timestamp: u64 = ((buf[1] as u64) << 56u64) | ((buf[2] as u64) << 48u64) | ((
            buf[3] as u64) << 40u64) | ((buf[4] as u64) << 32u64) | ((buf[5] as u64) << 24u64)
                | ((buf[6] as u64) << 16u64) | ((buf[7] as u64) << 8u64) | (buf[8] as u64);
            proof {
                let b = buf@.subrange(1, 9);
                assert(b[0] == buf@[1] && b[1] == buf@[2] && b[2] == buf@[3] && b[3] == buf@[4]);
                assert(b[4] == buf@[5] && b[5] == buf@[6] && b[6] == buf@[7] && b[7] == buf@[8]);
            }
            Ok(Message::SetTimestamp { timestamp })
        } else if tag == 0xc8 {
            Ok(Message::GetRawIq)
        } else if tag == 0xc9 {
            if buf.len() - 1 <= RAWIQ_DATA_LENGTH {
                Ok(Message::RawIq { data: copy_range(buf, 1, buf.len()) })
            } else {
                Err(Error::BufferLengthNotSufficient)
            }
        } else {
            Err(Error::MalformedMessage)
        }
    }
}

/// The encoded frame of a message: the COBS encoding of its bytes followed by
/// the terminating zero byte.
pub open spec fn encoded_message(m: MessageModel) -> Seq<u8> {
    cobs_encoding(message_bytes(m)).push(COBS_SENTINEL)
}

/// The bytes of a well formed message are at most 2049 long.
proof fn lemma_message_bytes_len(m: MessageModel)
    requires
        message_wf(m),
    ensures
        1 <= message_bytes(m).len() <= RAWIQ_DATA_LENGTH + 1,
{
}

/// What [`Message::try_from_cobs`] reads from a frame, or `None` where the
/// decoded bytes are too short for the fields their type byte announces.
pub open spec fn decode_cobs_message(frame: Seq<u8>) -> Option<Result<MessageModel, Error>> {
    if frame.len() == 0 {
        Some(Err(Error::MalformedMessage))
    } else {
        match cobs_in_place_decoding(frame).0 {
            Err(_) => Some(Err(Error::MalformedMessage)),
            Ok(n) => {
                let decoded = cobs_in_place_decoding(frame).1.take(n as int);
                if message_parsable(decoded) {
                    Some(parse_message(decoded))
                } else {
                    None
                }
            },
        }
    }
}

/// What a frame holds after [`Message::try_from_cobs`] ran on it.
pub open spec fn frame_after_decoding(frame: Seq<u8>) -> Seq<u8> {
    if frame.len() == 0 {
        frame
    } else {
        cobs_in_place_decoding(frame).1
    }
}

/// The view of a parse result.
pub open spec fn result_view(r: Result<Message, Error>) -> Result<MessageModel, Error> {
    match r {
        Ok(m) => Ok(m@),
        Err(e) => Err(e),
    }
}

impl Message {
    /// COBS encodes the bytes of this message and terminates them with a zero
    /// byte ([`encoded_message`]).
    pub fn encode(&self) -> (r: Result<Vec<u8>, Error>)
        requires
            self.wf(),
        ensures
            r matches Ok(v) && v@ == encoded_message(self@),
            cobs_encoded_facts(message_bytes(self@)),
    {
        proof {
            lemma_message_bytes_len(self@);
        }
        let bytes = match self.as_bytes() {
            Ok(b) => b,
            Err(e) => return Err(e),
        };
        let encoded_len = cobs::max_encoding_length(self.len() + 1);
        if encoded_len > MAX_MESSAGE_LENGTH {
            return Err(Error::BufferLengthNotSufficient);
        }
        let mut result = zeros(encoded_len);
        let n = match cobs_encode_into(bytes.as_slice(), result.as_mut_slice()) {
            Ok(n) => n,
            Err(_) => return Err(Error::CobsEncodeError),
        };
        if result.len() >= MAX_MESSAGE_LENGTH {
            return Err(Error::BufferLengthNotSufficient);
        }
        let ghost before_push = result@;
        result.push(COBS_SENTINEL);
        result.truncate(n + 1);
        proof {
            let enc = cobs_encoding(message_bytes(self@));
            assert(before_push == enc + Seq::new(encoded_len as nat, |i: int| 0u8).skip(
                enc.len() as int,
            ));
            assert(result@ =~= enc.push(COBS_SENTINEL));
        }
        Ok(result)
    }

    /// Encodes this message into `buf` ([`encoded_message`]) and returns the
    /// number of bytes written; refused with `CobsEncodeError` when `buf` is
    /// too short for the COBS encoding. The lengths of [`encode_to_slice_panics`],
    /// where the terminating zero byte would go past the end of `buf`, are
    /// left out.
    /// [`Message::try_encode_to_slice`] checks that first.
    pub fn encode_to_slice(&self, buf: &mut [u8]) -> (r: Result<usize, Error>)
        requires
            self.wf(),
            !encode_to_slice_panics(self@, old(buf)@.len()),
        ensures
            final(buf)@.len() == old(buf)@.len(),
            cobs_encoding(message_bytes(self@)).len() < old(buf)@.len() ==> {
                &&& r == Ok::<usize, Error>(encoded_message(self@).len() as usize)
                &&& final(buf)@ == encoded_message(self@) + old(buf)@.skip(
                    encoded_message(self@).len() as int,
                )
            },
            cobs_encoding(message_bytes(self@)).len() > old(buf)@.len() ==> r == Err::<
                usize,
                Error,
            >(Error::CobsEncodeError),
    {
        let bytes = match self.as_bytes() {
            Ok(b) => b,
            Err(e) => return Err(e),
        };
        let encoded_len = match cobs_encode_into(bytes.as_slice(), buf) {
            Ok(n) => n,
            Err(_) => return Err(Error::CobsEncodeError),
        };
        buf[encoded_len] = COBS_SENTINEL;
        proof {
            let enc = cobs_encoding(message_bytes(self@));
            assert(buf@ =~= enc.push(COBS_SENTINEL) + old(buf)@.skip(enc.len() + 1int));
        }
        Ok(encoded_len + 1)
    }

    /// [`Message::encode_to_slice`] where writing into `buf` stays within it,
    /// `None` (and `buf` untouched) where it would not
    /// ([`encode_to_slice_panics`]).
    pub fn try_encode_to_slice(&self, buf: &mut [u8]) -> (r: Option<Result<usize, Error>>)
        requires
            self.wf(),
        ensures
            encode_to_slice_panics(self@, old(buf)@.len()) ==> r is None && final(buf)@ == old(
                buf,
            )@,
            !encode_to_slice_panics(self@, old(buf)@.len()) ==> r is Some,
            cobs_encoding(message_bytes(self@)).len() < old(buf)@.len() ==> {
                &&& r == Some(Ok::<usize, Error>(encoded_message(self@).len() as usize))
                &&& final(buf)@ == encoded_message(self@) + old(buf)@.skip(
                    encoded_message(self@).len() as int,
                )
            },
            cobs_encoding(message_bytes(self@)).len() > old(buf)@.len() && !encode_to_slice_panics(
                self@,
                old(buf)@.len(),
            ) ==> r == Some(Err::<usize, Error>(Error::CobsEncodeError)),
    {
        let encoded = match self.encode() {
            Ok(e) => e,
            Err(e) => return Some(Err(e)),
        };
        let bytes = match self.as_bytes() {
            Ok(b) => b,
            Err(e) => return Some(Err(e)),
        };
        let enc_len = encoded.len() - 1;
        if enc_len == buf.len() || (enc_len > buf.len() && enc_len - buf.len() == 1
            && ends_with_empty_block(
            bytes.as_slice(),
        )) {
            None
        } else {
            Some(self.encode_to_slice(buf))
        }
    }

    /// Decodes the COBS frame in `buf` in place and reads the message it holds
    /// ([`decode_cobs_message`]). Decoded bytes too short for their type would
    /// be read past their end; [`Message::try_from_cobs_checked`] checks that
    /// first.
    pub fn try_from_cobs(buf: &mut [u8]) -> (r: Result<Message, Error>)
        requires
            decode_cobs_message(old(buf)@) is Some,
        ensures
            result_view(r) == decode_cobs_message(old(buf)@).unwrap(),
            final(buf)@ == frame_after_decoding(old(buf)@),
            final(buf)@.len() == old(buf)@.len(),
    {
        if buf.len() == 0 {
            return Err(Error::MalformedMessage);
        }
        let decoded_len = match cobs_decode_in_place(buf) {
            Ok(len) => len,
            Err(_) => return Err(Error::MalformedMessage),
        };
        let r = Message::try_from(&buf[0..decoded_len]);
        proof {
            assert(buf@.subrange(0, decoded_len as int) == buf@.take(decoded_len as int));
        }
        r
    }

    /// [`Message::try_from_cobs`] where the decoded bytes can be read, `None`
    /// (and `buf` untouched) where they cannot.
    pub fn try_from_cobs_checked(buf: &mut [u8]) -> (r: Option<Result<Message, Error>>)
        ensures
            match decode_cobs_message(old(buf)@) {
                Some(res) => r matches Some(x) && result_view(x) == res && final(buf)@
                    == frame_after_decoding(old(buf)@),
                None => r is None && final(buf)@ == old(buf)@,
            },
            final(buf)@.len() == old(buf)@.len(),
    {
        if buf.len() == 0 {
            return Some(Message::try_from_cobs(buf));
        }
        let mut copy = copy_range(buf, 0, buf.len());
        assert(copy@ == buf@.subrange(0, buf@.len() as int));
        assert(copy@ =~= buf@);
        match cobs_decode_in_place(copy.as_mut_slice()) {
            Ok(n) => {
                if !parsable(&copy.as_slice()[0..n]) {
                    assert(copy@.subrange(0, n as int) == copy@.take(n as int));
                    return None;
                }
                assert(copy@.subrange(0, n as int) == copy@.take(n as int));
            },
            Err(_) => {},
        }
        Some(Message::try_from_cobs(buf))
    }

    /// Splits the encoded frame of this message for the serial line `C`
    /// ([`WireCodec::frames_of`] of [`encoded_message`]).
    /// [`Message::try_as_frames`] checks first that `C` can frame it.
    pub fn as_frames<C: WireCodec>(&self) -> (r: Result<Vec<Vec<u8>>, Error>)
        requires
            self.wf(),
            C::can_frame(encoded_message(self@)),
        ensures
            match C::frames_of(encoded_message(self@)) {
                Ok(f) => r matches Ok(v) && codec::frames_view(v) == f,
                Err(e) => r == Err::<Vec<Vec<u8>>, Error>(Error::CodecError(e)),
            },
    {
        let mut result = match self.encode() {
            Ok(r) => r,
            Err(e) => return Err(e),
        };
        match C::get_frames(result.as_mut_slice()) {
            Ok(frames) => Ok(frames),
            Err(e) => Err(Error::CodecError(e)),
        }
    }

    /// [`Message::as_frames`] where `C` can frame the encoded message, `None`
    /// where it cannot.
    pub fn try_as_frames<C: WireCodec>(&self) -> (r: Option<Result<Vec<Vec<u8>>, Error>>)
        requires
            self.wf(),
        ensures
            C::can_frame(encoded_message(self@)) ==> match C::frames_of(encoded_message(self@)) {
                Ok(f) => r matches Some(Ok(v)) && codec::frames_view(v) == f,
                Err(e) => r == Some(Err::<Vec<Vec<u8>>, Error>(Error::CodecError(e))),
            },
            !C::can_frame(encoded_message(self@)) ==> r is None,
    {
        let encoded = match self.encode() {
            Ok(e) => e,
            Err(e) => return Some(Err(e)),
        };
        if C::can_get_frames(encoded.as_slice()) {
            Some(self.as_frames::<C>())
        } else {
            None
        }
    }
}

/// Writing the encoded frame of `m` into a buffer of `len` bytes goes past
/// its end: the COBS encoding fills the buffer, or it is one byte longer and
/// ends with an empty block, so that the encoder reports success without
/// room for the terminating zero byte.
pub open spec fn encode_to_slice_panics(m: MessageModel, len: nat) -> bool {
    let enc = cobs_encoding(message_bytes(m));
    ||| enc.len() == len
    ||| (enc.len() == len + 1 && cobs_ends_with_empty_block(message_bytes(m)))
}

/// Whether the COBS encoding of `data` ends with an empty block
/// ([`cobs_ends_with_empty_block`]).
fn ends_with_empty_block(data: &[u8]) -> (r: bool)
    ensures
        r == cobs_ends_with_empty_block(data@),
{
    if data.len() == 0 {
        return false;
    }
    let mut run: usize = 0;
    let mut i: usize = data.len();
    assert(data@.take(i as int) =~= data@);
    while i > 0 && data[i - 1] != 0
        invariant
            i <= data@.len(),
            run + i == data@.len(),
            cobs_trailing_run(data@) == run + cobs_trailing_run(data@.take(i as int)),
        decreases i,
    {
        proof {
            assert(data@.take(i as int).drop_last() == data@.take(i - 1));
        }
        run = run + 1;
        i = i - 1;
    }
    proof {
        if i > 0 {
            assert(data@.take(i as int).last() == data@[i - 1]);
        }
    }
    run % 254 == 0
}

/// Whether `b` is long enough for the fields its type byte announces
/// ([`message_parsable`]).
fn parsable(b: &[u8]) -> (r: bool)
    ensures
        r == message_parsable(b@),
{
    if b.len() < 1 {
        return false;
    }
    let tag = b[0];
    !((tag == 0xc2 && b.len() < 3) || (tag == 0xc4 && b.len() < 18) || (tag == 0xc5 && b.len()
        < 2) || (tag == 0xc7 && b.len() < 9))
}

/// `i` is the position of the first zero byte of `s`.
pub open spec fn is_first_zero(s: Seq<u8>, i: int) -> bool {
    &&& 0 <= i < s.len()
    &&& s[i] == COBS_SENTINEL
    &&& forall|j: int| 0 <= j < i ==> s[j] != COBS_SENTINEL
}

pub(crate) proof fn lemma_first_zero_unique(s: Seq<u8>, i: int, j: int)
    requires
        is_first_zero(s, i),
        is_first_zero(s, j),
    ensures
        i == j,
{
}

/// What a reader does with the bytes `buf` it holds, having read the
/// messages `out` already and keeping at most `ql` of them: the result and
/// the bytes it keeps. Each frame up to the first zero byte is decoded
/// ([`decode_cobs_message`]); a message ends the frame and its zero byte; an
/// unreadable frame stops with `MalformedMessage`, leaving the frame as the
/// decoding left it; a message beyond `ql` stops with `MessageQueueFull`
/// after its frame was dropped. Bytes after the last zero byte are kept for
/// later. `None` where decoded bytes are too short to be read.
pub open spec fn read_frames(buf: Seq<u8>, out: Seq<MessageModel>, ql: nat) -> Option<
    (Result<Seq<MessageModel>, Error>, Seq<u8>),
>
    decreases buf.len(),
{
    if exists|i: int| is_first_zero(buf, i) {
        let i = choose|i: int| is_first_zero(buf, i);
        let frame = buf.take(i);
        match decode_cobs_message(frame) {
            None => None,
            Some(Err(_)) => Some(
                (Err(Error::MalformedMessage), frame_after_decoding(frame) + buf.skip(i)),
            ),
            Some(Ok(m)) => if out.len() < ql {
                read_frames(buf.skip(i + 1), out.push(m), ql)
            } else {
                Some((Err(Error::MessageQueueFull), buf.skip(i + 1)))
            },
        }
    } else {
        Some((Ok(out), buf))
    }
}

/// What [`MessageReader::process_bytes`] does for a reader holding `buf`, of
/// capacity `bufl` and queue length `ql`, fed with `input` over the serial
/// line `C`: the incoming frame is read ([`WireCodec::decoded_frame`]), its
/// bytes are appended when they fit, and the frames are read
/// ([`read_frames`]).
pub open spec fn process_bytes_spec<C: WireCodec>(
    buf: Seq<u8>,
    input: Seq<u8>,
    bufl: nat,
    ql: nat,
) -> Option<(Result<Seq<MessageModel>, Error>, Seq<u8>)> {
    match C::decoded_frame(input) {
        Err(e) => Some((Err(Error::CodecError(e)), buf)),
        Ok(d) => if buf.len() + d.len() > bufl {
            Some((Err(Error::BufferFull), buf))
        } else {
            read_frames(buf + d, Seq::empty(), ql)
        },
    }
}

/// The views of the messages a reader returns.
pub open spec fn messages_result_view(r: Result<Vec<Message>, Error>) -> Result<
    Seq<MessageModel>,
    Error,
> {
    match r {
        Ok(v) => Ok(messages_view(v@)),
        Err(e) => Err(e),
    }
}

/// Reads the frames held in `buf` ([`read_frames`]).
fn read_frames_exec(buf: &mut Vec<u8>, ql: usize) -> (r: Option<Result<Vec<Message>, Error>>)
    ensures
        final(buf)@.len() <= old(buf)@.len(),
        match read_frames(old(buf)@, Seq::empty(), ql as nat) {
            Some((res, b)) => r matches Some(x) && messages_result_view(x) == res && final(buf)@
                == b,
            None => r is None,
        },
{
    let mut output: Vec<Message> = Vec::new();
    assert(messages_view(output@) =~= Seq::<MessageModel>::empty());
    loop
        invariant
            read_frames(old(buf)@, Seq::empty(), ql as nat) == read_frames(
                buf@,
                messages_view(output@),
                ql as nat,
            ),
            output@.len() <= ql,
            buf@.len() <= old(buf)@.len(),
        decreases buf@.len(),
    {
        let mut i: usize = 0;
        while i < buf.len() && buf[i] != COBS_SENTINEL
            invariant
                i <= buf@.len(),
                forall|j: int| 0 <= j < i ==> buf@[j] != COBS_SENTINEL,
            decreases buf@.len() - i,
        {
            i = i + 1;
        }
        if i == buf.len() {
            return Some(Ok(output));
        }
        proof {
            assert(is_first_zero(buf@, i as int));
            let k = choose|k: int| is_first_zero(buf@, k);
            lemma_first_zero_unique(buf@, i as int, k);
        }
        let ghost whole = buf@;
        let mut rest = buf.split_off(i);
        assert(buf@ == whole.take(i as int));
        let decoded = Message::try_from_cobs_checked(buf.as_mut_slice());
        match decoded {
            None => {
                return None;
            },
            Some(Err(_)) => {
                buf.append(&mut rest);
                return Some(Err(Error::MalformedMessage));
            },
            Some(Ok(m)) => {
                let tail = rest.split_off(1);
                assert(tail@ == whole.skip(i + 1));
                *buf = tail;
                if output.len() < ql {
                    let ghost before = messages_view(output@);
                    output.push(m);
                    assert(messages_view(output@) == before.push(m@));
                } else {
                    return Some(Err(Error::MessageQueueFull));
                }
            },
        }
    }
}

/// Collects incoming bytes and reads the messages whose frames are complete.
/// Holds at most `BUFL` bytes and returns at most `QL` messages at a time.
pub struct MessageReader<const BUFL: usize, const QL: usize> {
    buf: Vec<u8>,
}

impl<const BUFL: usize, const QL: usize> View for MessageReader<BUFL, QL> {
    type V = Seq<u8>;

    /// The bytes the reader holds.
    closed spec fn view(&self) -> Seq<u8> {
        self.buf@
    }
}

impl<const BUFL: usize, const QL: usize> MessageReader<BUFL, QL> {
    #[verifier::type_invariant]
    closed spec fn inv(self) -> bool {
        self.buf@.len() <= BUFL
    }

    /// An empty reader.
    pub fn new() -> (r: Self)
        ensures
            r@ == Seq::<u8>::empty(),
    {
        MessageReader { buf: Vec::new() }
    }

    /// Feeds the reader with `bytes` received over the serial line `C` and
    /// returns the messages whose frames are now complete
    /// ([`process_bytes_spec`]). Where a decoded frame is too short for its
    /// type it would be read past its end; [`MessageReader::try_process_bytes`]
    /// checks that first.
    pub fn process_bytes<C: WireCodec>(&mut self, bytes: &[u8]) -> (r: Result<Vec<Message>, Error>)
        requires
            C::can_decode(bytes@),
            process_bytes_spec::<C>(old(self)@, bytes@, BUFL as nat, QL as nat) is Some,
        ensures
            (messages_result_view(r), final(self)@) == process_bytes_spec::<C>(
                old(self)@,
                bytes@,
                BUFL as nat,
                QL as nat,
            ).unwrap(),
    {
        proof {
            use_type_invariant(&*self);
        }
        let (decoded, decoded_len) = match C::decode_frame(bytes) {
            Ok(x) => x,
            Err(e) => return Err(Error::CodecError(e)),
        };
        if decoded_len > BUFL - self.buf.len() {
            return Err(Error::BufferFull);
        }
        let mut held: Vec<u8> = Vec::new();
        std::mem::swap(&mut held, &mut self.buf);
        append_bytes(&mut held, decoded.as_slice());
        let r = read_frames_exec(&mut held, QL);
        self.buf = held;
        match r {
            Some(r) => r,
            None => {
                proof {
                    assert(false);
                }
                Err(Error::MalformedMessage)
            },
        }
    }

    /// [`MessageReader::process_bytes`] where `bytes` can be decoded and every
    /// frame read can be; `None` (and the reader untouched) where not.
    pub fn try_process_bytes<C: WireCodec>(&mut self, bytes: &[u8]) -> (r: Option<
        Result<Vec<Message>, Error>,
    >)
        ensures
            !C::can_decode(bytes@) ==> r is None && final(self)@ == old(self)@,
            C::can_decode(bytes@) ==> match process_bytes_spec::<C>(
                old(self)@,
                bytes@,
                BUFL as nat,
                QL as nat,
            ) {
                Some((res, b)) => r matches Some(x) && messages_result_view(x) == res
                    && final(self)@ == b,
                None => r is None && final(self)@ == old(self)@,
            },
    {
        proof {
            use_type_invariant(&*self);
        }
        if !C::can_decode_frame(bytes) {
            return None;
        }
        let (decoded, decoded_len) = match C::decode_frame(bytes) {
            Ok(x) => x,
            Err(e) => return Some(self.process_bytes::<C>(bytes)),
        };
        if decoded_len > BUFL - self.buf.len() {
            return Some(self.process_bytes::<C>(bytes));
        }
        let mut trial = copy_range(self.buf.as_slice(), 0, self.buf.len());
        assert(trial@ =~= self.buf@);
        append_bytes(&mut trial, decoded.as_slice());
        match read_frames_exec(&mut trial, QL) {
            Some(_) => Some(self.process_bytes::<C>(bytes)),
            None => None,
        }
    }

    /// Drops the first `length` bytes the reader holds; refused with
    /// `BufferLengthNotSufficient` (and nothing dropped) when it holds fewer.
    pub fn ltrim(&mut self, length: usize) -> (r: Result<(), Error>)
        ensures
            old(self)@.len() < length ==> r == Err::<(), Error>(Error::BufferLengthNotSufficient)
                && final(self)@ == old(self)@,
            old(self)@.len() >= length ==> r == Ok::<(), Error>(()) && final(self)@ == old(
                self,
            )@.skip(length as int),
    {
        proof {
            use_type_invariant(&*self);
        }
        if self.buf.len() < length {
            return Err(Error::BufferLengthNotSufficient);
        }
        let mut held: Vec<u8> = Vec::new();
        std::mem::swap(&mut held, &mut self.buf);
        let rest = held.split_off(length);
        self.buf = rest;
        Ok(())
    }

    /// Drops every byte the reader holds.
    pub fn reset(&mut self)
        ensures
            final(self)@ == Seq::<u8>::empty(),
    {
        self.buf = Vec::new();
    }

    /// Whether the reader holds no byte.
    pub fn is_empty(&self) -> (r: bool)
        ensures
            r == (self@.len() == 0),
    {
        self.buf.len() == 0
    }
}

impl<const BUFL: usize, const QL: usize> Default for MessageReader<BUFL, QL> {
    fn default() -> (r: Self)
        ensures
            r@ == Seq::<u8>::empty(),
    {
        Self::new()
    }
}

/// The encoded frames of `ms`, one after the other.
pub open spec fn encoded_messages(ms: Seq<MessageModel>) -> Seq<u8>
    decreases ms.len(),
{
    if ms.len() == 0 {
        Seq::empty()
    } else {
        encoded_message(ms[0]) + encoded_messages(ms.drop_first())
    }
}

/// `m` is sent and read back by the protocol: its payloads fit, a report
/// carries nine bytes of version data, and its COBS encoding has the
/// properties [`Message::encode`] reports.
pub open spec fn message_round_trips(m: MessageModel) -> bool {
    &&& message_wf(m)
    &&& m matches MessageModel::Report { version_data, .. } ==> version_data.len() == 9
    &&& cobs_encoded_facts(message_bytes(m))
}

/// A reader holding the encoded frames of messages, one after the other,
/// reads back exactly those messages, in order, and keeps no byte, as long as
/// its queue has room for them.
pub proof fn lemma_encoded_messages_read_back(
    ms: Seq<MessageModel>,
    out: Seq<MessageModel>,
    ql: nat,
)
    requires
        forall|i: int| 0 <= i < ms.len() ==> message_round_trips(#[trigger] ms[i]),
        out.len() + ms.len() <= ql,
    ensures
        read_frames(encoded_messages(ms), out, ql) == Some(
            (Ok::<Seq<MessageModel>, Error>(out + ms), Seq::<u8>::empty()),
        ),
    decreases ms.len(),
{
    let buf = encoded_messages(ms);
    if ms.len() == 0 {
        assert(out + ms =~= out);
        assert(!exists|i: int| is_first_zero(buf, i));
    } else {
        let m = ms[0];
        assert(message_round_trips(ms[0]));
        let bytes = message_bytes(m);
        let enc = cobs_encoding(bytes);
        let rest = encoded_messages(ms.drop_first());
        lemma_message_bytes_len(m);
        lemma_message_bytes_roundtrip(m);
        assert(buf == enc.push(COBS_SENTINEL) + rest);
        let i = enc.len() as int;
        assert(buf[i] == COBS_SENTINEL);
        assert forall|j: int| 0 <= j < i implies buf[j] != COBS_SENTINEL by {
            assert(buf[j] == enc[j]);
        }
        assert(is_first_zero(buf, i));
        let k = choose|k: int| is_first_zero(buf, k);
        lemma_first_zero_unique(buf, i, k);
        assert(buf.take(i) == enc);
        assert(buf.skip(i + 1) == rest);
        assert(decode_cobs_message(enc) == Some(Ok::<MessageModel, Error>(m)));
        assert forall|j: int| 0 <= j < ms.drop_first().len() implies message_round_trips(
            #[trigger] ms.drop_first()[j],
        ) by {
            assert(ms.drop_first()[j] == ms[j + 1]);
        }
        lemma_encoded_messages_read_back(ms.drop_first(), out.push(m), ql);
        assert(out.push(m) + ms.drop_first() =~= out + ms);
    }
}

/// A reader that holds no byte, fed over the serial line `C` with bytes that
/// `C` reads as the encoded frames of messages (for a USB line: those frames
/// themselves, 256 bytes at most), returns exactly those messages and keeps
/// no byte, as long as its buffer and queue have room for them.
pub proof fn lemma_reader_reads_back<C: WireCodec>(
    input: Seq<u8>,
    ms: Seq<MessageModel>,
    bufl: nat,
    ql: nat,
)
    requires
        C::decoded_frame(input) == Ok::<Seq<u8>, CodecError>(encoded_messages(ms)),
        encoded_messages(ms).len() <= bufl,
        ms.len() <= ql,
        forall|i: int| 0 <= i < ms.len() ==> message_round_trips(#[trigger] ms[i]),
    ensures
        process_bytes_spec::<C>(Seq::empty(), input, bufl, ql) == Some(
            (Ok::<Seq<MessageModel>, Error>(ms), Seq::<u8>::empty()),
        ),
{
    lemma_encoded_messages_read_back(ms, Seq::empty(), ql);
    assert(Seq::<u8>::empty() + encoded_messages(ms) =~= encoded_messages(ms));
    assert(Seq::<MessageModel>::empty() + ms =~= ms);
}

/// What a reader holding `buf`, of capacity `bufl` and queue length `ql`,
/// answers when fed `inputs` over the serial line `C`, one after the other
/// ([`process_bytes_spec`]), and the bytes it holds at the end; `None` where
/// a step cannot be taken.
pub open spec fn feed_all<C: WireCodec>(
    buf: Seq<u8>,
    inputs: Seq<Seq<u8>>,
    bufl: nat,
    ql: nat,
) -> Option<(Seq<Result<Seq<MessageModel>, Error>>, Seq<u8>)>
    decreases inputs.len(),
{
    if inputs.len() == 0 {
        Some((Seq::empty(), buf))
    } else {
        match process_bytes_spec::<C>(buf, inputs[0], bufl, ql) {
            None => None,
            Some((r, b)) => match feed_all::<C>(b, inputs.drop_first(), bufl, ql) {
                None => None,
                Some((rs, b2)) => Some((seq![r] + rs, b2)),
            },
        }
    }
}

/// The answers to the `n` inputs that carry one message `m`: no message
/// until the last input, which gives `m`.
pub open spec fn one_message_answers(n: nat, m: MessageModel) -> Seq<Result<Seq<MessageModel>, Error>> {
    Seq::new(n, |i: int| if i == n - 1 { Ok(seq![m]) } else { Ok(Seq::empty()) })
}

proof fn lemma_feed_pieces<C: WireCodec>(
    inputs: Seq<Seq<u8>>,
    pieces: Seq<Seq<u8>>,
    k: int,
    m: MessageModel,
    bufl: nat,
    ql: nat,
)
    requires
        inputs.len() == pieces.len(),
        0 <= k < pieces.len(),
        forall|i: int| 0 <= i < inputs.len() ==> C::decoded_frame(#[trigger] inputs[i]) == Ok::<
            Seq<u8>,
            CodecError,
        >(pieces[i]),
        pieces.flatten() == encoded_message(m),
        pieces.last().len() > 0,
        message_round_trips(m),
        encoded_message(m).len() <= bufl,
        ql >= 1,
    ensures
        feed_all::<C>(pieces.take(k).flatten(), inputs.skip(k), bufl, ql) == Some(
            (one_message_answers(pieces.len(), m).skip(k), Seq::<u8>::empty()),
        ),
    decreases pieces.len() - k,
{
    let n = pieces.len() as int;
    let e = encoded_message(m);
    let enc = cobs_encoding(message_bytes(m));
    let buf = pieces.take(k).flatten();
    let d = pieces[k];
    let a = pieces.take(k + 1).flatten();
    assert(pieces.take(k + 1) == pieces.take(k).push(d));
    pieces.take(k).lemma_flatten_push(d);
    assert(a == buf + d);
    // `a` is the front of the encoded message
    assert(pieces.take(k + 1) + pieces.skip(k + 1) == pieces);
    vstd::seq_lib::lemma_flatten_concat(pieces.take(k + 1), pieces.skip(k + 1));
    assert(e == a + pieces.skip(k + 1).flatten());
    assert(inputs.skip(k)[0] == inputs[k]);
    assert(C::decoded_frame(inputs[k]) == Ok::<Seq<u8>, CodecError>(d));
    assert(buf.len() + d.len() <= bufl);
    let answers = one_message_answers(pieces.len(), m);
    if k == n - 1 {
        assert(pieces.take(k + 1) == pieces);
        assert(a == e);
        assert(encoded_messages(seq![m]) == e) by {
            let s1 = seq![m];
            assert(s1.drop_first() =~= Seq::<MessageModel>::empty());
            assert(encoded_messages(s1.drop_first()) == Seq::<u8>::empty());
            assert(s1[0] == m);
            assert(encoded_messages(s1) == encoded_message(m) + Seq::<u8>::empty());
            assert(e + Seq::<u8>::empty() =~= e);
        }
        assert(message_round_trips(seq![m][0]));
        lemma_encoded_messages_read_back(seq![m], Seq::empty(), ql);
        assert(Seq::<MessageModel>::empty() + seq![m] =~= seq![m]);
        assert(process_bytes_spec::<C>(buf, inputs[k], bufl, ql) == Some(
            (Ok::<Seq<MessageModel>, Error>(seq![m]), Seq::<u8>::empty()),
        ));
        assert(inputs.skip(k).drop_first().len() == 0);
        assert(feed_all::<C>(Seq::<u8>::empty(), inputs.skip(k).drop_first(), bufl, ql) == Some(
            (Seq::<Result<Seq<MessageModel>, Error>>::empty(), Seq::<u8>::empty()),
        ));
        assert(answers.skip(k) =~= seq![Ok::<Seq<MessageModel>, Error>(seq![m])]);
        assert(seq![Ok::<Seq<MessageModel>, Error>(seq![m])] + Seq::<
            Result<Seq<MessageModel>, Error>,
        >::empty() =~= seq![Ok::<Seq<MessageModel>, Error>(seq![m])]);
    } else {
        // the last piece is not in `a`, so `a` holds no zero byte
        let rest = pieces.skip(k + 1);
        assert(rest == rest.drop_last().push(pieces.last()));
        rest.drop_last().lemma_flatten_push(pieces.last());
        assert(rest.flatten().len() >= 1);
        lemma_message_bytes_len(m);
        assert forall|j: int| 0 <= j < a.len() implies a[j] != COBS_SENTINEL by {
            assert(a[j] == e[j]);
            assert(e[j] == enc[j]);
        }
        assert(!exists|i: int| is_first_zero(a, i));
        assert(process_bytes_spec::<C>(buf, inputs[k], bufl, ql) == Some(
            (Ok::<Seq<MessageModel>, Error>(Seq::empty()), a),
        ));
        lemma_feed_pieces::<C>(inputs, pieces, k + 1, m, bufl, ql);
        assert(inputs.skip(k).drop_first() == inputs.skip(k + 1));
        assert(answers.skip(k) =~= seq![Ok::<Seq<MessageModel>, Error>(Seq::empty())]
            + answers.skip(k + 1));
    }
}

/// The USB frames of a message, fed one after the other to a reader that
/// holds no byte, give the message back with the last frame and nothing
/// before it; the reader then holds no byte again.
pub proof fn lemma_usb_frames_read_back(m: MessageModel, bufl: nat, ql: nat)
    requires
        message_round_trips(m),
        encoded_message(m).len() <= bufl,
        ql >= 1,
        codec::UsbCodec::frames_of(encoded_message(m)) is Ok,
    ensures
        ({
            let frames = codec::UsbCodec::frames_of(encoded_message(m)).unwrap();
            feed_all::<codec::UsbCodec>(Seq::empty(), frames, bufl, ql) == Some(
                (one_message_answers(frames.len(), m), Seq::<u8>::empty()),
            )
        }),
{
    let e = encoded_message(m);
    let frames = codec::chunks(e, codec::MAX_USB_FRAME_LENGTH as nat);
    codec::lemma_chunks_flatten(e, codec::MAX_USB_FRAME_LENGTH as nat);
    assert(frames.len() > 0);
    assert(frames.last() == frames[frames.len() - 1]);
    assert forall|i: int| 0 <= i < frames.len() implies codec::UsbCodec::decoded_frame(
        #[trigger] frames[i],
    ) == Ok::<Seq<u8>, CodecError>(frames[i]) by {}
    lemma_feed_pieces::<codec::UsbCodec>(frames, frames, 0, m, bufl, ql);
    assert(frames.take(0).flatten() =~= Seq::<u8>::empty());
    assert(frames.skip(0) == frames);
    assert(one_message_answers(frames.len(), m).skip(0) == one_message_answers(frames.len(), m));
}

/// A message carrying a full LoRa payload is sent over a USB line in two
/// frames, the second ending with the terminating zero byte, and over the
/// RN4870 BLE module in five frames ([`Message::as_frames`]).
pub proof fn lemma_full_payload_frames(data: Seq<u8>)
    requires
        data.len() == crate::MAX_LORA_PAYLOAD_LENGTH,
        message_round_trips(MessageModel::SendData { data }),
    ensures
        ({
            let e = encoded_message(MessageModel::SendData { data });
            &&& codec::UsbCodec::frames_of(e) matches Ok(f) && f.len() == 2 && f[1].last()
                == COBS_SENTINEL
            &&& codec::Rn4870Codec::frames_of(e) matches Ok(g) && g.len() == 5
        }),
{
    let m = MessageModel::SendData { data };
    let bytes = message_bytes(m);
    assert(bytes.len() == 256);
    let e = encoded_message(m);
    assert(257 <= e.len() <= 259);
    codec::lemma_chunks_count(e, codec::MAX_USB_FRAME_LENGTH as nat, 2);
    let f = codec::chunks(e, codec::MAX_USB_FRAME_LENGTH as nat);
    assert(f == seq![e.take(256)] + codec::chunks(e.skip(256), 256));
    assert(codec::chunks(e.skip(256), 256) == seq![e.skip(256)]);
    assert(f[1] == e.skip(256));
    assert(e.skip(256).last() == e.last());
    let h = crate::encoding::hex_lower(e);
    assert(h.len() == 2 * e.len());
    codec::lemma_chunks_count(h, (codec::MAX_BLE_FRAME_LENGTH - 2) as nat, 5);
}

/// The text a frame of the RN4870 codec carries between its two delimiters.
pub open spec fn rn4870_frame_text(f: Seq<u8>) -> Seq<u8> {
    f.subrange(1, f.len() - 1)
}

/// The RN4870 frames of a message, each fed without its two delimiters, one
/// after the other, to a reader that holds no byte, give the message back
/// with the last frame and nothing before it; the reader then holds no byte
/// again. Every such input can be decoded.
pub proof fn lemma_rn4870_frames_read_back(m: MessageModel, bufl: nat, ql: nat)
    requires
        message_round_trips(m),
        encoded_message(m).len() <= bufl,
        ql >= 1,
        codec::Rn4870Codec::frames_of(encoded_message(m)) is Ok,
    ensures
        ({
            let frames = codec::Rn4870Codec::frames_of(encoded_message(m)).unwrap();
            let texts = frames.map_values(|f: Seq<u8>| rn4870_frame_text(f));
            &&& forall|i: int| 0 <= i < frames.len() ==> {
                &&& (#[trigger] frames[i]).len() >= 2
                &&& frames[i][0] == codec::RN4870_DELIMITER
                &&& frames[i].last() == codec::RN4870_DELIMITER
            }
            &&& forall|i: int| 0 <= i < texts.len() ==> codec::Rn4870Codec::can_decode(
                #[trigger] texts[i],
            )
            &&& feed_all::<codec::Rn4870Codec>(Seq::empty(), texts, bufl, ql) == Some(
                (one_message_answers(frames.len(), m), Seq::<u8>::empty()),
            )
        }),
{
    let e = encoded_message(m);
    let k = (codec::MAX_BLE_FRAME_LENGTH - 2) as nat;
    let half = (k / 2) as nat;
    assert(k == 2 * half);
    let pieces = codec::chunks(e, half);
    codec::lemma_chunks_flatten(e, half);
    codec::lemma_hex_chunks(e, half);
    let hexes = codec::chunks(hex_lower(e), k);
    assert(hexes == pieces.map_values(|c: Seq<u8>| hex_lower(c)));
    let wrap = |c: Seq<u8>| seq![codec::RN4870_DELIMITER] + c + seq![codec::RN4870_DELIMITER];
    let frames = codec::Rn4870Codec::frames_of(e).unwrap();
    assert(frames == hexes.map_values(wrap));
    let texts = frames.map_values(|f: Seq<u8>| rn4870_frame_text(f));
    assert forall|i: int| 0 <= i < frames.len() implies {
        &&& (#[trigger] frames[i]).len() >= 2
        &&& frames[i][0] == codec::RN4870_DELIMITER
        &&& frames[i].last() == codec::RN4870_DELIMITER
    } by {
        assert(frames[i] == wrap(hexes[i]));
    }
    assert forall|i: int| 0 <= i < texts.len() implies texts[i] == hex_lower(
        pieces[i],
    ) && codec::Rn4870Codec::decoded_frame(#[trigger] texts[i]) == Ok::<Seq<u8>, CodecError>(
        pieces[i],
    ) && codec::Rn4870Codec::can_decode(texts[i]) by {
        assert(frames[i] == wrap(hexes[i]));
        assert(rn4870_frame_text(wrap(hexes[i])) =~= hexes[i]);
        assert(hexes[i] == hex_lower(pieces[i]));
        lemma_hex_roundtrip(pieces[i]);
    }
    assert(pieces.len() > 0);
    assert(pieces.last() == pieces[pieces.len() - 1]);
    lemma_feed_pieces::<codec::Rn4870Codec>(texts, pieces, 0, m, bufl, ql);
    assert(pieces.take(0).flatten() =~= Seq::<u8>::empty());
    assert(texts.skip(0) == texts);
    assert(one_message_answers(pieces.len(), m).skip(0) == one_message_answers(
        frames.len(),
        m,
    ));
}

/// Why a textual command could not be read.
#[derive(Debug, PartialEq, Eq, Clone, Copy)]
pub enum ParseMessageError {
    MissingSeparator,
    InvalidMessage,
    InvalidHex(HexDecodeError),
    InvalidPayloadLength,
    PayloadTooLong,
}

impl From<HexDecodeError> for ParseMessageError {
    fn from(e: HexDecodeError) -> (r: ParseMessageError)
        ensures
            r == ParseMessageError::InvalidHex(e),
    {
        ParseMessageError::InvalidHex(e)
    }
}

impl vstd::std_specs::convert::FromSpecImpl<HexDecodeError> for ParseMessageError {
    open spec fn obeys_from_spec() -> bool {
        true
    }

    open spec fn from_spec(e: HexDecodeError) -> ParseMessageError {
        ParseMessageError::InvalidHex(e)
    }
}

/// `@`, between a command and its value.
pub open spec fn at_sign() -> u8 {
    0x40
}

/// `|`, between the values of a command.
pub open spec fn bar() -> u8 {
    0x7c
}

/// The text `send`, `status`, `config`, `ts`, `get_rawiq`, `uf`.
pub open spec fn word_send() -> Seq<u8> {
    seq![0x73u8, 0x65, 0x6e, 0x64]
}

pub open spec fn word_status() -> Seq<u8> {
    seq![0x73u8, 0x74, 0x61, 0x74, 0x75, 0x73]
}

pub open spec fn word_config() -> Seq<u8> {
    seq![0x63u8, 0x6f, 0x6e, 0x66, 0x69, 0x67]
}

pub open spec fn word_ts() -> Seq<u8> {
    seq![0x74u8, 0x73]
}

pub open spec fn word_get_rawiq() -> Seq<u8> {
    seq![0x67u8, 0x65, 0x74, 0x5f, 0x72, 0x61, 0x77, 0x69, 0x71]
}

pub open spec fn word_uf() -> Seq<u8> {
    seq![0x75u8, 0x66]
}

/// The hexadecimal payload of a `send` command, without a `0x` or `0X` prefix.
pub open spec fn strip_hex_prefix(v: Seq<u8>) -> Seq<u8> {
    if v.len() >= 2 && v[0] == 0x30 && (v[1] == 0x78 || v[1] == 0x58) {
        v.skip(2)
    } else {
        v
    }
}

/// The command written as the text `s` (its bytes), for example `send@0xAABB`,
/// `status@`, `config@1|7`, `ts@1629896485`, `get_rawiq@`, `uf@`: the command
/// before the first `@`, its value after it (up to a further `@`). `None`
/// where a number of `config` or `ts` cannot be read (reading it would panic).
pub open spec fn message_from_text(s: Seq<u8>) -> Option<Result<MessageModel, ParseMessageError>> {
    match first_index(s, at_sign()) {
        None => Some(Err(ParseMessageError::MissingSeparator)),
        Some(i) => {
            let cmd = s.take(i);
            let val = up_to(s.skip(i + 1), at_sign());
            if cmd == word_send() {
                let clean = strip_hex_prefix(val);
                if clean.len() / 2 > crate::MAX_LORA_PAYLOAD_LENGTH {
                    Some(Err(ParseMessageError::PayloadTooLong))
                } else {
                    match hex_decode(clean) {
                        Ok(d) => Some(Ok(MessageModel::SendData { data: d })),
                        Err(_) => Some(Err(ParseMessageError::InvalidPayloadLength)),
                    }
                }
            } else if cmd == word_status() {
                Some(Ok(MessageModel::ReportRequest))
            } else if cmd == word_config() {
                match first_index(val, bar()) {
                    None => Some(Err(ParseMessageError::MissingSeparator)),
                    Some(j) => {
                        let region = parse_unsigned(val.take(j), 10, 255);
                        let sf = parse_unsigned(up_to(val.skip(j + 1), bar()), 10, 255);
                        if region is None || sf is None {
                            None
                        } else if sf.unwrap() < 7 || sf.unwrap() > 12 {
                            Some(Err(ParseMessageError::InvalidMessage))
                        } else {
                            Some(
                                Ok(
                                    MessageModel::Configure {
                                        region: region.unwrap() as u8,
                                        spreading_factor: sf.unwrap() as u8,
                                    },
                                ),
                            )
                        }
                    },
                }
            } else if cmd == word_ts() {
                match parse_unsigned(val, 10, u64::MAX as nat) {
                    Some(t) => Some(Ok(MessageModel::SetTimestamp { timestamp: t as u64 })),
                    None => None,
                }
            } else if cmd == word_get_rawiq() {
                Some(Ok(MessageModel::GetRawIq))
            } else if cmd == word_uf() {
                Some(Ok(MessageModel::UpgradeFirmwareRequest))
            } else {
                Some(Err(ParseMessageError::InvalidMessage))
            }
        },
    }
}

/// A configuration command `config@R|S`, with `R` and `S` written in
/// decimal, reads as a configuration with region `R` and spreading factor
/// `S` for every region and every spreading factor from 7 to 12; any other
/// spreading factor is refused as an invalid message.
pub proof fn lemma_config_text_read(region: u8, spreading_factor: u8)
    ensures
        ({
            let s = seq![0x63u8, 0x6f, 0x6e, 0x66, 0x69, 0x67, 0x40] + decimal_text(region as nat)
                + seq![0x7cu8] + decimal_text(spreading_factor as nat);
            &&& 7 <= spreading_factor <= 12 ==> message_from_text(s) == Some(
                Ok::<MessageModel, ParseMessageError>(
                    MessageModel::Configure { region, spreading_factor },
                ),
            )
            &&& (spreading_factor < 7 || spreading_factor > 12) ==> message_from_text(s) == Some(
                Err::<MessageModel, ParseMessageError>(ParseMessageError::InvalidMessage),
            )
        }),
{
    let head = seq![0x63u8, 0x6f, 0x6e, 0x66, 0x69, 0x67, 0x40];
    let dr = decimal_text(region as nat);
    let ds = decimal_text(spreading_factor as nat);
    lemma_decimal_text(region as nat);
    lemma_decimal_text(spreading_factor as nat);
    let val = dr + seq![0x7cu8] + ds;
    let s = head + val;
    assert(s == head + dr + seq![0x7cu8] + ds);
    assert forall|j: int| 0 <= j < val.len() implies #[trigger] val[j] != at_sign() by {
        if j < dr.len() {
            assert(val[j] == dr[j]);
        } else if j > dr.len() {
            assert(val[j] == ds[j - dr.len() - 1]);
        }
    }
    assert(is_first(s, at_sign(), 6));
    lemma_first_index_at(s, at_sign(), 6);
    assert(s.take(6) =~= word_config());
    assert(s.skip(7) =~= val);
    lemma_first_index_absent(val, at_sign());
    assert(up_to(val, at_sign()) == val);
    assert forall|j: int| 0 <= j < dr.len() implies #[trigger] val[j] != bar() by {
        assert(val[j] == dr[j]);
    }
    assert(is_first(val, bar(), dr.len() as int));
    lemma_first_index_at(val, bar(), dr.len() as int);
    assert(val.take(dr.len() as int) =~= dr);
    assert(val.skip(dr.len() as int + 1) =~= ds);
    lemma_first_index_absent(ds, bar());
    lemma_parse_decimal_text(region as nat, 255);
    lemma_parse_decimal_text(spreading_factor as nat, 255);
    assert(s.take(6) != word_send());
    assert(s.take(6)[0] != word_status()[0]);
}

/// A timestamp command `ts@T`, with `T` written in decimal, reads as that
/// timestamp, for every timestamp.
pub proof fn lemma_timestamp_text_read(timestamp: u64)
    ensures
        message_from_text(seq![0x74u8, 0x73, 0x40] + decimal_text(timestamp as nat)) == Some(
            Ok::<MessageModel, ParseMessageError>(MessageModel::SetTimestamp { timestamp }),
        ),
{
    let dt = decimal_text(timestamp as nat);
    let s = seq![0x74u8, 0x73, 0x40] + dt;
    lemma_decimal_text(timestamp as nat);
    assert forall|j: int| 0 <= j < dt.len() implies #[trigger] dt[j] != at_sign() by {}
    assert(is_first(s, at_sign(), 2));
    lemma_first_index_at(s, at_sign(), 2);
    assert(s.take(2) =~= word_ts());
    assert(s.skip(3) =~= dt);
    lemma_first_index_absent(dt, at_sign());
    lemma_parse_decimal_text(timestamp as nat, u64::MAX as nat);
    assert(s.take(2).len() != word_send().len());
    assert(s.take(2).len() != word_status().len());
    assert(s.take(2).len() != word_config().len());
}

/// The view of a result of reading a command.
pub open spec fn parse_result_view(r: Result<Message, ParseMessageError>) -> Result<
    MessageModel,
    ParseMessageError,
> {
    match r {
        Ok(m) => Ok(m@),
        Err(e) => Err(e),
    }
}

impl Message {
    /// Reads a command from its text ([`message_from_text`] of the bytes of
    /// `s`). The numbers of `config` and `ts` must be readable: reading them
    /// panics otherwise.
    pub fn from_str(s: &str) -> (r: Result<Message, ParseMessageError>)
        requires
            message_from_text(s.spec_bytes()) is Some,
        ensures
            parse_result_view(r) == message_from_text(s.spec_bytes()).unwrap(),
    {
        let bytes = s.as_bytes();
        let i = match find_byte(bytes, 0x40) {
            None => return Err(ParseMessageError::MissingSeparator),
            Some(i) => i,
        };
        let cmd = copy_range(bytes, 0, i);
        assert(cmd@ == bytes@.take(i as int));
        let val = piece_after(bytes, i, 0x40);
        if bytes_equal(cmd.as_slice(), vec![0x73u8, 0x65, 0x6e, 0x64].as_slice()) {
            let clean = if val.len() >= 2 && val[0] == 0x30 && (val[1] == 0x78 || val[1] == 0x58) {
                let c = copy_range(val.as_slice(), 2, val.len());
                assert(c@ == val@.skip(2));
                c
            } else {
                val
            };
            if clean.len() / 2 > crate::MAX_LORA_PAYLOAD_LENGTH {
                return Err(ParseMessageError::PayloadTooLong);
            }
            let mut data = zeros(clean.len() / 2);
            match hex_decode_into(clean.as_slice(), data.as_mut_slice()) {
                Ok(_) => {
                    proof {
                        let d = hex_decode(clean@).unwrap();
                        assert(data@ =~= d);
                    }
                    Ok(Message::SendData { data })
                },
                Err(_) => Err(ParseMessageError::InvalidPayloadLength),
            }
        } else if bytes_equal(cmd.as_slice(), vec![0x73u8, 0x74, 0x61, 0x74, 0x75, 0x73].as_slice()) {
            Ok(Message::ReportRequest)
        } else if bytes_equal(cmd.as_slice(), vec![0x63u8, 0x6f, 0x6e, 0x66, 0x69, 0x67].as_slice()) {
            let j = match find_byte(val.as_slice(), 0x7c) {
                None => return Err(ParseMessageError::MissingSeparator),
                Some(j) => j,
            };
            let region_text = copy_range(val.as_slice(), 0, j);
            assert(region_text@ == val@.take(j as int));
            let sf_text = piece_after(val.as_slice(), j, 0x7c);
            let region = parse_number(region_text.as_slice(), 10, 255);
            let spreading_factor = parse_number(sf_text.as_slice(), 10, 255);
            match (region, spreading_factor) {
                (Some(region), Some(spreading_factor)) => {
                    if spreading_factor < 7 || spreading_factor > 12 {
                        return Err(ParseMessageError::InvalidMessage);
                    }
                    Ok(
                        Message::Configure {
                            region: region as u8,
                            spreading_factor: spreading_factor as u8,
                        },
                    )
                },
                _ => {
                    proof {
                        assert(false);
                    }
                    Err(ParseMessageError::InvalidMessage)
                },
            }
        } else if bytes_equal(cmd.as_slice(), vec![0x74u8, 0x73].as_slice()) {
            match parse_number(val.as_slice(), 10, u64::MAX) {
                Some(timestamp) => Ok(Message::SetTimestamp { timestamp }),
                None => {
                    proof {
                        assert(false);
                    }
                    Err(ParseMessageError::InvalidMessage)
                },
            }
        } else if bytes_equal(
            cmd.as_slice(),
            vec![0x67u8, 0x65, 0x74, 0x5f, 0x72, 0x61, 0x77, 0x69, 0x71].as_slice(),
        ) {
            Ok(Message::GetRawIq)
        } else if bytes_equal(cmd.as_slice(), vec![0x75u8, 0x66].as_slice()) {
            Ok(Message::UpgradeFirmwareRequest)
        } else {
            Err(ParseMessageError::InvalidMessage)
        }
    }

    /// Whether [`Message::from_str`] can read `s` without panicking: the
    /// numbers of `config` and `ts` are readable.
    pub fn can_read_from_str(s: &str) -> (r: bool)
        ensures
            r == message_from_text(s.spec_bytes()) is Some,
    {
        let bytes = s.as_bytes();
        let i = match find_byte(bytes, 0x40) {
            None => return true,
            Some(i) => i,
        };
        let cmd = copy_range(bytes, 0, i);
        assert(cmd@ == bytes@.take(i as int));
        let val = piece_after(bytes, i, 0x40);
        if bytes_equal(cmd.as_slice(), vec![0x63u8, 0x6f, 0x6e, 0x66, 0x69, 0x67].as_slice()) {
            let j = match find_byte(val.as_slice(), 0x7c) {
                None => return true,
                Some(j) => j,
            };
            let region_text = copy_range(val.as_slice(), 0, j);
            assert(region_text@ == val@.take(j as int));
            let sf_text = piece_after(val.as_slice(), j, 0x7c);
            parse_number(region_text.as_slice(), 10, 255).is_some() && parse_number(
                sf_text.as_slice(),
                10,
                255,
            ).is_some()
        } else if bytes_equal(cmd.as_slice(), vec![0x74u8, 0x73].as_slice()) {
            parse_number(val.as_slice(), 10, u64::MAX).is_some()
        } else {
            true
        }
    }
}

} // verus!
