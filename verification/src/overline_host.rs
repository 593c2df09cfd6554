//! The host protocol of overline nodes: messages between a host (computer,
//! phone) and a node, over USB or BLE.
//!
//! A message is COBS encoded and terminated by a zero byte
//! ([`Message::encode`]); [`Message::as_cobs_encoded_serial_frames`] cuts it
//! into frames the serial line carries, and
//! [`Message::as_cobs_encoded_frames_for_ble`] turns it into lower case
//! hexadecimal text between delimiters, as the BLE module only passes ASCII.
//! A [`MessageReader`] collects incoming bytes and hands back every message
//! whose frame is complete.
use vstd::prelude::*;
use vstd::string::StringSliceAdditionalSpecFns;
use crate::buffers::{append_bytes, copy_range, zeros};
use crate::encoding::{
    cobs_decode_in_place, cobs_encode_into, cobs_encoded_facts, cobs_encoding,
    cobs_in_place_decoding, hex_decode, hex_decode_into, hex_encode_lower_into, hex_lower,
    HexDecodeError,
};
use crate::host::codec::{chunks, frames_view, lemma_chunks_len, split_frames};
use crate::host::{
    at_sign, be_u32_bytes, be_u32_value, is_first_zero, lemma_be_u32_roundtrip,
    lemma_first_zero_unique, strip_hex_prefix, word_config, word_send, word_status, word_uf,
};
use crate::text::{
    bytes_equal, decimal_text, find_byte, first_index, is_first, lemma_decimal_text,
    lemma_first_index_absent, lemma_first_index_at, lemma_parse_decimal_text, parse_number,
    parse_unsigned, piece_after, up_to,
};

verus! {

/// Delimiter put around every BLE frame.
pub const BLE_SERIAL_DELIMITER: char = '%';

pub const COBS_SENTINEL: u8 = 0;

/// Number of messages a reader hands back at most at a time, by default.
pub const DEFAULT_MAX_MESSAGE_QUEUE_LENGTH: usize = 3;

/// Room for the longest encoded message: a type byte and 255 bytes of
/// payload, the COBS overhead of at most 4 bytes and the terminating zero
/// byte.
pub const MAX_MESSAGE_LENGTH: usize = 260;

/// Room for the longest encoded message as hexadecimal text.
pub const MAX_MESSAGE_LENGTH_HEX_ENCODED: usize = 2 * MAX_MESSAGE_LENGTH;

/// Longest frame the BLE module processes.
pub const MAX_SERIAL_FRAME_LENGTH: usize = 128;

/// Most frames a message is cut into.
pub const MAX_HEX_ENCODED_FRAMES_COUNT: usize = MAX_MESSAGE_LENGTH_HEX_ENCODED
    / MAX_SERIAL_FRAME_LENGTH + 1;

/// Most bytes a [`MessageReader`] holds.
pub const READER_BUFFER_LENGTH: usize = 792;

/// An encoded message: at most [`MAX_MESSAGE_LENGTH`] bytes.
pub type HostMessageVec = Vec<u8>;

/// Errors of the host protocol.
#[derive(Debug, PartialEq, Eq, Clone, Copy)]
pub enum Error {
    BufferFull,
    BufferLengthNotSufficient,
    MalformedMessage,
    MessageQueueFull,
    MalformedHex(HexDecodeError),
}

impl From<HexDecodeError> for Error {
    fn from(e: HexDecodeError) -> (r: Error)
        ensures
            r == Error::MalformedHex(e),
    {
        Error::MalformedHex(e)
    }
}

impl vstd::std_specs::convert::FromSpecImpl<HexDecodeError> for Error {
    open spec fn obeys_from_spec() -> bool {
        true
    }

    open spec fn from_spec(e: HexDecodeError) -> Error {
        Error::MalformedHex(e)
    }
}

/// Status reported by a node.
#[derive(Clone, Copy, Debug, PartialEq, Eq)]
pub enum StatusCode {
    FrameReceived,
    CommandReceived,
    ErrUnknownCommmandReceived,
    ErrBusyLoraTransmitting,
    ErrMessageQueueFull,
}

/// Wire value of a status code.
pub open spec fn status_code_value(code: StatusCode) -> u8 {
    match code {
        StatusCode::FrameReceived => 1,
        StatusCode::CommandReceived => 2,
        StatusCode::ErrUnknownCommmandReceived => 3,
        StatusCode::ErrBusyLoraTransmitting => 4,
        StatusCode::ErrMessageQueueFull => 5,
    }
}

/// Status code with wire value `value`, if there is one.
pub open spec fn status_code_of(value: u8) -> Option<StatusCode> {
    match value {
        1 => Some(StatusCode::FrameReceived),
        2 => Some(StatusCode::CommandReceived),
        3 => Some(StatusCode::ErrUnknownCommmandReceived),
        4 => Some(StatusCode::ErrBusyLoraTransmitting),
        5 => Some(StatusCode::ErrMessageQueueFull),
        _ => None,
    }
}

impl StatusCode {
    /// The status code with wire value `value`.
    pub fn try_from(value: u8) -> (r: Result<StatusCode, &'static str>)
        ensures
            match status_code_of(value) {
                Some(c) => r == Ok::<StatusCode, &'static str>(c),
                None => r is Err,
            },
    {
        match value {
            1 => Ok(StatusCode::FrameReceived),
            2 => Ok(StatusCode::CommandReceived),
            3 => Ok(StatusCode::ErrUnknownCommmandReceived),
            4 => Ok(StatusCode::ErrBusyLoraTransmitting),
            5 => Ok(StatusCode::ErrMessageQueueFull),
            _ => Err("Unknown StatusCode"),
        }
    }

    /// The wire value of this status code.
    pub fn value(&self) -> (r: u8)
        ensures
            r == status_code_value(*self),
    {
        match self {
            StatusCode::FrameReceived => 1,
            StatusCode::CommandReceived => 2,
            StatusCode::ErrUnknownCommmandReceived => 3,
            StatusCode::ErrBusyLoraTransmitting => 4,
            StatusCode::ErrMessageQueueFull => 5,
        }
    }

    /// The text that describes this status code to a person.
    pub fn description(&self) -> (r: &'static str)
        ensures
            r@ == match *self {
                StatusCode::FrameReceived => "Single serial frame was successfuly received"@,
                StatusCode::CommandReceived => "Command was successfully received"@,
                StatusCode::ErrUnknownCommmandReceived => "Error: unknown command type"@,
                StatusCode::ErrBusyLoraTransmitting => "Error: cannot execute sent command - radio is currently busy transmitting"@,
                StatusCode::ErrMessageQueueFull => "Transmit queue is full, try sending SendData later again"@,
            },
    {
        match self {
            StatusCode::FrameReceived => "Single serial frame was successfuly received",
            StatusCode::CommandReceived => "Command was successfully received",
            StatusCode::ErrUnknownCommmandReceived => "Error: unknown command type",
            StatusCode::ErrBusyLoraTransmitting => "Error: cannot execute sent command - radio is currently busy transmitting",
            StatusCode::ErrMessageQueueFull => "Transmit queue is full, try sending SendData later again",
        }
    }
}

/// Every status code is read back from its wire value.
pub proof fn lemma_status_code_roundtrip(code: StatusCode)
    ensures
        status_code_of(status_code_value(code)) == Some(code),
{
}

/// The wire value of every status code: 1 a received frame, 2 a received
/// command, 3 an unknown command, 4 a radio busy transmitting, 5 a full
/// message queue; no other byte is a status code.
pub proof fn lemma_status_code_table()
    ensures
        status_code_value(StatusCode::FrameReceived) == 1,
        status_code_value(StatusCode::CommandReceived) == 2,
        status_code_value(StatusCode::ErrUnknownCommmandReceived) == 3,
        status_code_value(StatusCode::ErrBusyLoraTransmitting) == 4,
        status_code_value(StatusCode::ErrMessageQueueFull) == 5,
        status_code_of(1) == Some(StatusCode::FrameReceived),
        status_code_of(2) == Some(StatusCode::CommandReceived),
        status_code_of(3) == Some(StatusCode::ErrUnknownCommmandReceived),
        status_code_of(4) == Some(StatusCode::ErrBusyLoraTransmitting),
        status_code_of(5) == Some(StatusCode::ErrMessageQueueFull),
        forall|v: u8| (v == 0 || v > 5) ==> #[trigger] status_code_of(v) is None,
{
}

/// Commands sent over the host protocol, in both directions.
#[derive(PartialEq, Eq, Debug)]
pub enum Message {
    /// Host sending data to node instructing it to broadcast it to the wireless network
    SendData { data: Vec<u8> },
    /// Node sending data to host
    ReceiveData { data: Vec<u8> },
    /// Host is reconfiguring the node
    Configure { region: u8 },
    /// Host requesting the node status
    ReportRequest,
    /// Node reporting information to host
    Report {
        /// BE encoded
        sn: u32,
        region: u8,
        receive_queue_size: u8,
        transmit_queue_size: u8,
    },
    /// Node reporting some error state to host
    Status { code: StatusCode },
    /// Request noise values from node
    GetNoise,
    /// Node reports noise values to host
    Noise { rssi_value: u8, rssi_wideband: u8 },
    /// Firmware upgrade will follow
    UpgradeFirmwareRequest,
}

/// A [`Message`] as a mathematical value.
pub enum MessageModel {
    SendData { data: Seq<u8> },
    ReceiveData { data: Seq<u8> },
    Configure { region: u8 },
    ReportRequest,
    Report { sn: u32, region: u8, receive_queue_size: u8, transmit_queue_size: u8 },
    Status { code: StatusCode },
    GetNoise,
    Noise { rssi_value: u8, rssi_wideband: u8 },
    UpgradeFirmwareRequest,
}

impl View for Message {
    type V = MessageModel;

    open spec fn view(&self) -> MessageModel {
        match self {
            Message::SendData { data } => MessageModel::SendData { data: data@ },
            Message::ReceiveData { data } => MessageModel::ReceiveData { data: data@ },
            Message::Configure { region } => MessageModel::Configure { region: *region },
            Message::ReportRequest => MessageModel::ReportRequest,
            Message::Report { sn, region, receive_queue_size, transmit_queue_size } =>
                MessageModel::Report {
                sn: *sn,
                region: *region,
                receive_queue_size: *receive_queue_size,
                transmit_queue_size: *transmit_queue_size,
            },
            Message::Status { code } => MessageModel::Status { code: *code },
            Message::GetNoise => MessageModel::GetNoise,
            Message::Noise { rssi_value, rssi_wideband } => MessageModel::Noise {
                rssi_value: *rssi_value,
                rssi_wideband: *rssi_wideband,
            },
            Message::UpgradeFirmwareRequest => MessageModel::UpgradeFirmwareRequest,
        }
    }
}

/// The views of a sequence of messages.
pub open spec fn messages_view(v: Seq<Message>) -> Seq<MessageModel> {
    v.map_values(|m: Message| m@)
}

/// The payload of `m` fits a LoRa packet.
pub open spec fn message_wf(m: MessageModel) -> bool {
    match m {
        MessageModel::SendData { data } => data.len() <= crate::MAX_LORA_PAYLOAD_LENGTH,
        MessageModel::ReceiveData { data } => data.len() <= crate::MAX_LORA_PAYLOAD_LENGTH,
        _ => true,
    }
}

/// The bytes of a message: a type byte followed by its fields.
pub open spec fn message_bytes(m: MessageModel) -> Seq<u8> {
    match m {
        MessageModel::SendData { data } => seq![0xc0u8] + data,
        MessageModel::ReceiveData { data } => seq![0xc1u8] + data,
        MessageModel::Configure { region } => seq![0xc2u8, region],
        MessageModel::ReportRequest => seq![0xc3u8],
        MessageModel::Report { sn, region, receive_queue_size, transmit_queue_size } => seq![
            0xc4u8,
        ] + be_u32_bytes(sn) + seq![region, receive_queue_size, transmit_queue_size],
        MessageModel::Status { code } => seq![0xc5u8, status_code_value(code)],
        MessageModel::GetNoise => seq![0xc6u8],
        MessageModel::Noise { rssi_value, rssi_wideband } => seq![
            0xc7u8,
            rssi_value,
            rssi_wideband,
        ],
        MessageModel::UpgradeFirmwareRequest => seq![0xc8u8],
    }
}

/// The COBS encoding of the bytes of `m` followed by the terminating zero
/// byte.
pub open spec fn encoded_message(m: MessageModel) -> Seq<u8> {
    cobs_encoding(message_bytes(m)).push(COBS_SENTINEL)
}

proof fn lemma_message_bytes_len(m: MessageModel)
    requires
        message_wf(m),
    ensures
        1 <= message_bytes(m).len() <= crate::MAX_LORA_PAYLOAD_LENGTH + 1,
        message_bytes(m)[0] >= 0xc0,
{
}

/// The message that a frame decoded in place holds: `b` is the frame after
/// decoding, `n` the decoded length. The type byte and the fields of messages
/// of fixed length are read from `b`, the payload of data messages from its
/// first `n` bytes. `None` where reading panics: a field past the end of `b`,
/// a payload of data messages that is empty of its type byte or longer than a
/// LoRa packet, or an unknown status code.
pub open spec fn parse_decoded(b: Seq<u8>, n: int) -> Option<Result<MessageModel, Error>> {
    let tag = b[0];
    if tag == 0xc0 || tag == 0xc1 {
        if n < 1 || n - 1 > crate::MAX_LORA_PAYLOAD_LENGTH {
            None
        } else if tag == 0xc0 {
            Some(Ok(MessageModel::SendData { data: b.subrange(1, n) }))
        } else {
            Some(Ok(MessageModel::ReceiveData { data: b.subrange(1, n) }))
        }
    } else if tag == 0xc2 {
        if b.len() < 2 {
            None
        } else {
            Some(Ok(MessageModel::Configure { region: b[1] }))
        }
    } else if tag == 0xc3 {
        Some(Ok(MessageModel::ReportRequest))
    } else if tag == 0xc4 {
        if b.len() < 8 {
            None
        } else {
            Some(
                Ok(
                    MessageModel::Report {
                        sn: be_u32_value(b.subrange(1, 5)),
                        region: b[5],
                        receive_queue_size: b[6],
                        transmit_queue_size: b[7],
                    },
                ),
            )
        }
    } else if tag == 0xc5 {
        if b.len() < 2 {
            None
        } else {
            match status_code_of(b[1]) {
                Some(code) => Some(Ok(MessageModel::Status { code })),
                None => None,
            }
        }
    } else if tag == 0xc6 {
        Some(Ok(MessageModel::GetNoise))
    } else if tag == 0xc7 {
        if b.len() < 3 {
            None
        } else {
            Some(Ok(MessageModel::Noise { rssi_value: b[1], rssi_wideband: b[2] }))
        }
    } else if tag == 0xc8 {
        Some(Ok(MessageModel::UpgradeFirmwareRequest))
    } else {
        Some(Err(Error::MalformedMessage))
    }
}

/// What [`Message::try_from`] does with a COBS frame `frame` (without its
/// zero byte): the message it holds and the frame as the decoding in place
/// leaves it. An empty frame or one that does not decode is malformed.
/// `None` where reading the decoded bytes panics ([`parse_decoded`]).
pub open spec fn decode_frame(frame: Seq<u8>) -> Option<(Result<MessageModel, Error>, Seq<u8>)> {
    if frame.len() == 0 {
        Some((Err(Error::MalformedMessage), frame))
    } else {
        let (r, after) = cobs_in_place_decoding(frame);
        match r {
            Err(_) => Some((Err(Error::MalformedMessage), after)),
            Ok(n) => match parse_decoded(after, n as int) {
                None => None,
                Some(res) => Some((res, after)),
            },
        }
    }
}

/// The view of a result of reading a message.
pub open spec fn result_view(r: Result<Message, Error>) -> Result<MessageModel, Error> {
    match r {
        Ok(m) => Ok(m@),
        Err(e) => Err(e),
    }
}

/// The chunks of hexadecimal text of the BLE frames.
pub open spec fn ble_chunk_length() -> nat {
    (MAX_SERIAL_FRAME_LENGTH - 2) as nat
}

/// The BLE frames of the encoded bytes `e`: their lower case hexadecimal
/// text cut into pieces of 126 digits, each between two delimiters `d`.
pub open spec fn ble_frames(e: Seq<u8>, d: u8) -> Seq<Seq<u8>> {
    chunks(hex_lower(e), ble_chunk_length()).map_values(|c: Seq<u8>| seq![d] + c + seq![d])
}

/// How each message is laid out on the wire: a type byte (0xc0 send data,
/// 0xc1 received data, 0xc2 configure, 0xc3 report request, 0xc4 report,
/// 0xc5 status, 0xc6 noise request, 0xc7 noise, 0xc8 firmware upgrade), then
/// its fields in order: a configuration's region; a report's serial number
/// big endian in four bytes, then region, receive and transmit queue sizes;
/// a status's wire value; a noise report's RSSI value then wideband RSSI;
/// the data of a data message.
pub proof fn lemma_message_layout(m: MessageModel)
    ensures
        ({
            let b = message_bytes(m);
            match m {
                MessageModel::SendData { data } => b == seq![0xc0u8] + data,
                MessageModel::ReceiveData { data } => b == seq![0xc1u8] + data,
                MessageModel::Configure { region } => b.len() == 2 && b[0] == 0xc2 && b[1]
                    == region,
                MessageModel::ReportRequest => b == seq![0xc3u8],
                MessageModel::Report { sn, region, receive_queue_size, transmit_queue_size } => {
                    &&& b.len() == 8
                    &&& b[0] == 0xc4
                    &&& b[1] == sn / 0x1000000
                    &&& b[2] == sn / 0x10000 % 0x100
                    &&& b[3] == sn / 0x100 % 0x100
                    &&& b[4] == sn % 0x100
                    &&& b[5] == region
                    &&& b[6] == receive_queue_size
                    &&& b[7] == transmit_queue_size
                },
                MessageModel::Status { code } => b.len() == 2 && b[0] == 0xc5 && b[1]
                    == status_code_value(code),
                MessageModel::GetNoise => b == seq![0xc6u8],
                MessageModel::Noise { rssi_value, rssi_wideband } => b.len() == 3 && b[0] == 0xc7
                    && b[1] == rssi_value && b[2] == rssi_wideband,
                MessageModel::UpgradeFirmwareRequest => b == seq![0xc8u8],
            }
        }),
{
    match m {
        MessageModel::Report { sn, .. } => {
            crate::host::lemma_be_u32_digits(sn, 0, 0, 0, 0);
        },
        _ => {},
    }
}

/// What decoded bytes `b` (`n` of them decoded) read as, by their type byte:
/// a configuration takes its region from byte 1; a report its serial number
/// from bytes 1 to 4 (big endian), its region from byte 5 and its queue
/// sizes from bytes 6 and 7; a status its code from byte 1; a noise report
/// its RSSI value from byte 1 and its wideband RSSI from byte 2; a data
/// message the decoded bytes after the type byte.
pub proof fn lemma_message_fields_read(b: Seq<u8>, n: int)
    requires
        b.len() >= 1,
        0 <= n <= b.len(),
    ensures
        b[0] == 0xc0 && 1 <= n <= 256 ==> parse_decoded(b, n) == Some(
            Ok::<MessageModel, Error>(MessageModel::SendData { data: b.subrange(1, n) }),
        ),
        b[0] == 0xc1 && 1 <= n <= 256 ==> parse_decoded(b, n) == Some(
            Ok::<MessageModel, Error>(MessageModel::ReceiveData { data: b.subrange(1, n) }),
        ),
        b[0] == 0xc2 && b.len() >= 2 ==> parse_decoded(b, n) == Some(
            Ok::<MessageModel, Error>(MessageModel::Configure { region: b[1] }),
        ),
        b[0] == 0xc4 && b.len() >= 8 ==> (parse_decoded(b, n) matches Some(
            Ok(MessageModel::Report { sn, region, receive_queue_size, transmit_queue_size }),
        ) && sn == b[1] * 0x1000000 + b[2] * 0x10000 + b[3] * 0x100 + b[4] && region == b[5]
            && receive_queue_size == b[6] && transmit_queue_size == b[7]),
        b[0] == 0xc5 && b.len() >= 2 ==> parse_decoded(b, n) == match status_code_of(b[1]) {
            Some(code) => Some(Ok::<MessageModel, Error>(MessageModel::Status { code })),
            None => None,
        },
        b[0] == 0xc7 && b.len() >= 3 ==> parse_decoded(b, n) == Some(
            Ok::<MessageModel, Error>(
                MessageModel::Noise { rssi_value: b[1], rssi_wideband: b[2] },
            ),
        ),
{
    if b[0] == 0xc4 && b.len() >= 8 {
        assert(b.subrange(1, 5) =~= seq![b[1], b[2], b[3], b[4]]);
        crate::host::lemma_be_u32_digits(0, b[1], b[2], b[3], b[4]);
    }
}

/// A configuration command `config@R`, with `R` written in decimal, reads as
/// a configuration with region `R`, for every region.
pub proof fn lemma_config_text_read(region: u8)
    ensures
        message_from_text(
            seq![0x63u8, 0x6f, 0x6e, 0x66, 0x69, 0x67, 0x40] + decimal_text(region as nat),
        ) == Some(Ok::<MessageModel, ParseMessageError>(MessageModel::Configure { region })),
{
    let head = seq![0x63u8, 0x6f, 0x6e, 0x66, 0x69, 0x67, 0x40];
    let dr = decimal_text(region as nat);
    lemma_decimal_text(region as nat);
    let s = head + dr;
    assert forall|j: int| 0 <= j < dr.len() implies #[trigger] dr[j] != at_sign() by {}
    assert(is_first(s, at_sign(), 6));
    lemma_first_index_at(s, at_sign(), 6);
    assert(s.take(6) =~= word_config());
    assert(s.skip(7) =~= dr);
    lemma_first_index_absent(dr, at_sign());
    lemma_parse_decimal_text(region as nat, 255);
    assert(s.take(6) != word_send());
    assert(s.take(6)[0] != word_status()[0]);
}

/// Every serial frame holds between one and 128 bytes and the frames, one
/// after the other, are the encoded message; every BLE frame is at most 128
/// bytes long: the delimiter, between one and 126 lower case hexadecimal
/// digits, and the delimiter, the digits of all frames in order being the
/// hexadecimal text of the encoded message.
pub proof fn lemma_frames_fit(e: Seq<u8>, d: u8)
    ensures
        forall|i: int|
            0 <= i < chunks(e, MAX_SERIAL_FRAME_LENGTH as nat).len() ==> 1 <= (#[trigger] chunks(
                e,
                MAX_SERIAL_FRAME_LENGTH as nat,
            )[i]).len() <= 128 && (i < chunks(e, MAX_SERIAL_FRAME_LENGTH as nat).len() - 1 ==> chunks(
                e,
                MAX_SERIAL_FRAME_LENGTH as nat,
            )[i].len() == 128),
        chunks(e, MAX_SERIAL_FRAME_LENGTH as nat).flatten() == e,
        forall|i: int|
            0 <= i < ble_frames(e, d).len() ==> 3 <= (#[trigger] ble_frames(e, d)[i]).len() <= 128
                && ble_frames(e, d)[i][0] == d && ble_frames(e, d)[i][ble_frames(e, d)[i].len() - 1]
                == d && (i < ble_frames(e, d).len() - 1 ==> ble_frames(e, d)[i].len() == 128),
        ble_frames(e, d).map_values(|x: Seq<u8>| x.subrange(1, x.len() - 1)).flatten()
            == hex_lower(e),
{
    crate::host::codec::lemma_chunks_flatten(e, 128);
    crate::host::codec::lemma_chunks_full(e, 128);
    let h = hex_lower(e);
    let hexes = chunks(h, 126);
    crate::host::codec::lemma_chunks_flatten(h, 126);
    crate::host::codec::lemma_chunks_full(h, 126);
    let wrap = |c: Seq<u8>| seq![d] + c + seq![d];
    let f = ble_frames(e, d);
    assert(f == hexes.map_values(wrap));
    assert forall|i: int| 0 <= i < f.len() implies 3 <= (#[trigger] f[i]).len() <= 128 && f[i][0]
        == d && f[i][f[i].len() - 1] == d && (i < f.len() - 1 ==> f[i].len() == 128) by {
        assert(f[i] == wrap(hexes[i]));
    }
    let inner = f.map_values(|x: Seq<u8>| x.subrange(1, x.len() - 1));
    assert forall|i: int| 0 <= i < inner.len() implies #[trigger] inner[i] == hexes[i] by {
        assert(f[i] == wrap(hexes[i]));
        assert(wrap(hexes[i]).subrange(1, wrap(hexes[i]).len() - 1) =~= hexes[i]);
    }
    assert(inner =~= hexes);
}

impl Message {
    /// The payload of this message fits a LoRa packet.
    pub open spec fn wf(&self) -> bool {
        message_wf(self@)
    }

    /// Number of bytes of this message on the wire ([`message_bytes`]).
    pub fn len(&self) -> (r: usize)
        requires
            self.wf(),
        ensures
            r == message_bytes(self@).len(),
    {
        let variable_part_length: usize = match self {
            Message::SendData { data } => data.len(),
            Message::ReceiveData { data } => data.len(),
            Message::Configure { .. } => 1,
            Message::ReportRequest => 0,
            Message::Report { .. } => 7,
            Message::Status { .. } => 1,
            Message::GetNoise => 0,
            Message::Noise { .. } => 2,
            Message::UpgradeFirmwareRequest => 0,
        };
        1 + variable_part_length
    }

    /// The bytes of this message ([`message_bytes`]).
    fn bytes(&self) -> (r: Vec<u8>)
        requires
            self.wf(),
        ensures
            r@ == message_bytes(self@),
    {
        let mut res: Vec<u8> = Vec::new();
        match self {
            Message::SendData { data } => {
                res.push(0xc0);
                append_bytes(&mut res, data.as_slice());
            },
            Message::ReceiveData { data } => {
                res.push(0xc1);
                append_bytes(&mut res, data.as_slice());
            },
            Message::Configure { region } => {
                res.push(0xc2);
                res.push(*region);
            },
            Message::ReportRequest => {
                res.push(0xc3);
            },
            Message::Report { sn, region, receive_queue_size, transmit_queue_size } => {
                res.push(0xc4);
                res.push((*sn >> 24u32) as u8);
                res.push((*sn >> 16u32) as u8);
                res.push((*sn >> 8u32) as u8);
                res.push(*sn as u8);
                res.push(*region);
                res.push(*receive_queue_size);
                res.push(*transmit_queue_size);
            },
            Message::Status { code } => {
                res.push(0xc5);
                res.push(code.value());
            },
            Message::GetNoise => {
                res.push(0xc6);
            },
            Message::Noise { rssi_value, rssi_wideband } => {
                res.push(0xc7);
                res.push(*rssi_value);
                res.push(*rssi_wideband);
            },
            Message::UpgradeFirmwareRequest => {
                res.push(0xc8);
            },
        }
        assert(res@ =~= message_bytes(self@));
        res
    }

    /// COBS encodes the bytes of this message and terminates them with a zero
    /// byte ([`encoded_message`]).
    pub fn encode(&self) -> (r: Result<HostMessageVec, Error>)
        requires
            self.wf(),
        ensures
            r matches Ok(v) && v@ == encoded_message(self@),
            cobs_encoded_facts(message_bytes(self@)),
            encoded_message(self@).len() < MAX_MESSAGE_LENGTH,
    {
        proof {
            lemma_message_bytes_len(self@);
        }
        let bytes = self.bytes();
        let encoded_len = cobs::max_encoding_length(self.len() + 1);
        let mut result = zeros(encoded_len);
        let n = match cobs_encode_into(bytes.as_slice(), result.as_mut_slice()) {
            Ok(n) => n,
            Err(_) => {
                proof {
                    assert(false);
                }
                return Err(Error::BufferLengthNotSufficient);
            },
        };
        let ghost before_push = result@;
        result.push(COBS_SENTINEL);
        result.truncate(n + 1);
        proof {
            let enc = cobs_encoding(message_bytes(self@));
            assert(before_push == enc + Seq::new(encoded_len as nat, |i: int| 0u8).skip(
                enc.len() as int,
            ));
            assert(result@ =~= enc.push(COBS_SENTINEL));
        }
        Ok(result)
    }

    /// The encoded message cut into frames of 128 bytes, ready to be sent as
    /// they are.
    pub fn as_cobs_encoded_serial_frames(&self) -> (r: Result<Vec<Vec<u8>>, Error>)
        requires
            self.wf(),
        ensures
            r matches Ok(v) && frames_view(v) == chunks(
                encoded_message(self@),
                MAX_SERIAL_FRAME_LENGTH as nat,
            ),
    {
        let result = match self.encode() {
            Ok(e) => e,
            Err(e) => return Err(e),
        };
        proof {
            lemma_chunks_len(result@, MAX_SERIAL_FRAME_LENGTH as nat, MAX_HEX_ENCODED_FRAMES_COUNT as nat);
        }
        match split_frames(result.as_slice(), MAX_SERIAL_FRAME_LENGTH, MAX_HEX_ENCODED_FRAMES_COUNT) {
            Ok(frames) => Ok(frames),
            Err(_) => Err(Error::MalformedMessage),
        }
    }

    /// Frames for the BLE module, which only passes ASCII: the encoded message
    /// as lower case hexadecimal text cut into pieces of 126 digits, each
    /// between two bytes `ble_serial_delimiter` ([`ble_frames`]).
    pub fn as_cobs_encoded_frames_for_ble(&self, ble_serial_delimiter: char) -> (r: Result<
        Vec<Vec<u8>>,
        Error,
    >)
        requires
            self.wf(),
        ensures
            r matches Ok(v) && frames_view(v) == ble_frames(
                encoded_message(self@),
                ble_serial_delimiter as u8,
            ),
    {
        let result = match self.encode() {
            Ok(e) => e,
            Err(e) => return Err(e),
        };
        let mut hex_result = zeros(result.len() * 2);
        hex_encode_lower_into(result.as_slice(), hex_result.as_mut_slice());
        assert(hex_result@ == hex_lower(result@)) by {
            assert(Seq::new(2 * result@.len(), |i: int| 0u8).skip(2 * result@.len() as int)
                =~= Seq::<u8>::empty());
            assert(hex_lower(result@) + Seq::<u8>::empty() =~= hex_lower(result@));
        }
        proof {
            lemma_chunks_len(
                hex_result@,
                ble_chunk_length(),
                MAX_HEX_ENCODED_FRAMES_COUNT as nat,
            );
        }
        let chunked = match split_frames(
            hex_result.as_slice(),
            MAX_SERIAL_FRAME_LENGTH - 2,
            MAX_HEX_ENCODED_FRAMES_COUNT,
        ) {
            Ok(c) => c,
            Err(_) => return Err(Error::MalformedMessage),
        };
        let d = ble_serial_delimiter as u8;
        let ghost wrap = |c: Seq<u8>| seq![d] + c + seq![d];
        let mut frames: Vec<Vec<u8>> = Vec::new();
        let mut i: usize = 0;
        while i < chunked.len()
            invariant
                i <= chunked@.len(),
                frames_view(chunked) == chunks(hex_lower(encoded_message(self@)), ble_chunk_length()),
                wrap == (|c: Seq<u8>| seq![d] + c + seq![d]),
                frames_view(frames) == frames_view(chunked).take(i as int).map_values(wrap),
            decreases chunked@.len() - i,
        {
            let chunk = &chunked[i];
            let mut frame: Vec<u8> = Vec::new();
            frame.push(d);
            append_bytes(&mut frame, chunk.as_slice());
            frame.push(d);
            let ghost old_frames = frames_view(frames);
            frames.push(frame);
            proof {
                assert(frames_view(frames) =~= old_frames.push(frame@));
                assert(frames_view(chunked)[i as int] == chunk@);
                assert(frame@ =~= wrap(chunk@));
                assert(frames_view(chunked).take(i + 1).map_values(wrap) =~= frames_view(
                    chunked,
                ).take(i as int).map_values(wrap).push(wrap(chunk@)));
            }
            i = i + 1;
        }
        assert(frames_view(chunked).take(i as int) == frames_view(chunked));
        Ok(frames)
    }

    /// Decodes the COBS frame in `buf` in place and reads the message it holds
    /// ([`decode_frame`]). [`Message::try_from_checked`] checks first that
    /// reading does not panic.
    pub fn try_from(buf: &mut [u8]) -> (r: Result<Message, Error>)
        requires
            decode_frame(old(buf)@) is Some,
        ensures
            (result_view(r), final(buf)@) == decode_frame(old(buf)@).unwrap(),
            final(buf)@.len() == old(buf)@.len(),
    {
        if buf.len() == 0 {
            return Err(Error::MalformedMessage);
        }
        let decoded_len = match cobs_decode_in_place(buf) {
            Ok(len) => len,
            Err(_) => return Err(Error::MalformedMessage),
        };
        read_decoded(buf, decoded_len)
    }

    /// [`Message::try_from`] where reading the decoded frame does not panic,
    /// `None` (and `buf` untouched) where it does.
    pub fn try_from_checked(buf: &mut [u8]) -> (r: Option<Result<Message, Error>>)
        ensures
            match decode_frame(old(buf)@) {
                Some((res, after)) => r matches Some(x) && result_view(x) == res && final(buf)@
                    == after,
                None => r is None && final(buf)@ == old(buf)@,
            },
            final(buf)@.len() == old(buf)@.len(),
    {
        if buf.len() == 0 {
            return Some(Message::try_from(buf));
        }
        let mut copy = copy_range(buf, 0, buf.len());
        assert(copy@ =~= buf@);
        match cobs_decode_in_place(copy.as_mut_slice()) {
            Ok(n) => {
                if !decoded_readable(copy.as_slice(), n) {
                    return None;
                }
            },
            Err(_) => {},
        }
        Some(Message::try_from(buf))
    }
}

/// Whether [`parse_decoded`] of `b` and `n` is `Some`.
fn decoded_readable(b: &[u8], n: usize) -> (r: bool)
    requires
        b@.len() >= 1,
        n <= b@.len(),
    ensures
        r == parse_decoded(b@, n as int) is Some,
{
    let tag = b[0];
    if tag == 0xc0 || tag == 0xc1 {
        n >= 1 && n - 1 <= crate::MAX_LORA_PAYLOAD_LENGTH
    } else if tag == 0xc2 {
        b.len() >= 2
    } else if tag == 0xc4 {
        b.len() >= 8
    } else if tag == 0xc5 {
        b.len() >= 2 && 1 <= b[1] && b[1] <= 5
    } else if tag == 0xc7 {
        b.len() >= 3
    } else {
        true
    }
}

/// Reads the message a frame decoded in place holds ([`parse_decoded`]).
fn read_decoded(b: &[u8], n: usize) -> (r: Result<Message, Error>)
    requires
        b@.len() >= 1,
        n <= b@.len(),
        parse_decoded(b@, n as int) is Some,
    ensures
        result_view(r) == parse_decoded(b@, n as int).unwrap(),
{
    let tag = b[0];
    if tag == 0xc0 {
        Ok(Message::SendData { data: copy_range(b, 1, n) })
    } else if tag == 0xc1 {
        Ok(Message::ReceiveData { data: copy_range(b, 1, n) })
    } else if tag == 0xc2 {
        Ok(Message::Configure { region: b[1] })
    } else if tag == 0xc3 {
        Ok(Message::ReportRequest)
    } else if tag == 0xc4 {
        let sn = ((b[1] as u32) << 24u32) | ((b[2] as u32) << 16u32) | ((b[3] as u32) << 8u32) | (
        b[4] as u32);
        proof {
            let s = b@.subrange(1, 5);
            assert(s[0] == b@[1] && s[1] == b@[2] && s[2] == b@[3] && s[3] == b@[4]);
        }
        Ok(
            Message::Report {
                sn,
                region: b[5],
                receive_queue_size: b[6],
                transmit_queue_size: b[7],
            },
        )
    } else if tag == 0xc5 {
        match StatusCode::try_from(b[1]) {
            Ok(code) => Ok(Message::Status { code }),
            Err(_) => Err(Error::MalformedMessage),
        }
    } else if tag == 0xc6 {
        Ok(Message::GetNoise)
    } else if tag == 0xc7 {
        Ok(Message::Noise { rssi_value: b[1], rssi_wideband: b[2] })
    } else if tag == 0xc8 {
        Ok(Message::UpgradeFirmwareRequest)
    } else {
        Err(Error::MalformedMessage)
    }
}

/// What a reader holding `buf` does with its frames, having read the
/// messages `out` already and keeping at most `ql` of them: the result and
/// the bytes it keeps. Each frame up to the first zero byte is read
/// ([`decode_frame`]); a message ends the frame and its zero byte; an
/// unreadable frame stops with `MalformedMessage`, leaving the frame as the
/// decoding left it; a message beyond `ql` stops with `MessageQueueFull`
/// after its frame was dropped. Bytes after the last zero byte are kept for
/// later. `None` where reading a frame panics.
pub open spec fn read_frames(buf: Seq<u8>, out: Seq<MessageModel>, ql: nat) -> Option<
    (Result<Seq<MessageModel>, Error>, Seq<u8>),
>
    decreases buf.len(),
{
    if exists|i: int| is_first_zero(buf, i) {
        let i = choose|i: int| is_first_zero(buf, i);
        match decode_frame(buf.take(i)) {
            None => None,
            Some((Err(_), after)) => Some((Err(Error::MalformedMessage), after + buf.skip(i))),
            Some((Ok(m), _)) => if out.len() < ql {
                read_frames(buf.skip(i + 1), out.push(m), ql)
            } else {
                Some((Err(Error::MessageQueueFull), buf.skip(i + 1)))
            },
        }
    } else {
        Some((Ok(out), buf))
    }
}

/// What [`MessageReader::process_bytes`] does for a reader holding `buf`
/// with queue length `ql`, fed with `input`: the bytes are appended when
/// they fit ([`READER_BUFFER_LENGTH`]) and the frames are read
/// ([`read_frames`]).
pub open spec fn process_bytes_spec(buf: Seq<u8>, input: Seq<u8>, ql: nat) -> Option<
    (Result<Seq<MessageModel>, Error>, Seq<u8>),
> {
    if buf.len() + input.len() > READER_BUFFER_LENGTH {
        Some((Err(Error::BufferFull), buf))
    } else {
        read_frames(buf + input, Seq::empty(), ql)
    }
}

/// What [`MessageReader::process_bytes_hex`] does for a reader holding
/// `buf` with queue length `ql`, fed with hexadecimal text `hex`.
pub open spec fn process_bytes_hex_spec(buf: Seq<u8>, hex: Seq<u8>, ql: nat) -> Option<
    (Result<Seq<MessageModel>, Error>, Seq<u8>),
> {
    match hex_decode(hex) {
        Err(e) => Some((Err(Error::MalformedHex(e)), buf)),
        Ok(d) => process_bytes_spec(buf, d, ql),
    }
}

/// The views of the messages a reader returns.
pub open spec fn messages_result_view(r: Result<Vec<Message>, Error>) -> Result<
    Seq<MessageModel>,
    Error,
> {
    match r {
        Ok(v) => Ok(messages_view(v@)),
        Err(e) => Err(e),
    }
}

/// Reads the frames held in `buf` ([`read_frames`]).
fn read_frames_exec(buf: &mut Vec<u8>, ql: usize) -> (r: Option<Result<Vec<Message>, Error>>)
    ensures
        final(buf)@.len() <= old(buf)@.len(),
        match read_frames(old(buf)@, Seq::empty(), ql as nat) {
            Some((res, b)) => r matches Some(x) && messages_result_view(x) == res && final(buf)@
                == b,
            None => r is None,
        },
{
    let mut output: Vec<Message> = Vec::new();
    assert(messages_view(output@) =~= Seq::<MessageModel>::empty());
    loop
        invariant
            read_frames(old(buf)@, Seq::empty(), ql as nat) == read_frames(
                buf@,
                messages_view(output@),
                ql as nat,
            ),
            output@.len() <= ql,
            buf@.len() <= old(buf)@.len(),
        decreases buf@.len(),
    {
        let mut i: usize = 0;
        while i < buf.len() && buf[i] != COBS_SENTINEL
            invariant
                i <= buf@.len(),
                forall|j: int| 0 <= j < i ==> buf@[j] != COBS_SENTINEL,
            decreases buf@.len() - i,
        {
            i = i + 1;
        }
        if i == buf.len() {
            return Some(Ok(output));
        }
        proof {
            assert(is_first_zero(buf@, i as int));
            let k = choose|k: int| is_first_zero(buf@, k);
            lemma_first_zero_unique(buf@, i as int, k);
        }
        let ghost whole = buf@;
        let mut rest = buf.split_off(i);
        assert(buf@ == whole.take(i as int));
        let decoded = Message::try_from_checked(buf.as_mut_slice());
        match decoded {
            None => {
                return None;
            },
            Some(Err(_)) => {
                buf.append(&mut rest);
                return Some(Err(Error::MalformedMessage));
            },
            Some(Ok(m)) => {
                let tail = rest.split_off(1);
                assert(tail@ == whole.skip(i + 1));
                *buf = tail;
                if output.len() < ql {
                    let ghost before = messages_view(output@);
                    output.push(m);
                    assert(messages_view(output@) == before.push(m@));
                } else {
                    return Some(Err(Error::MessageQueueFull));
                }
            },
        }
    }
}

/// Collects incoming bytes, at most [`READER_BUFFER_LENGTH`] of them, and
/// reads the messages whose frames are complete, at most `QL` at a time.
pub struct MessageReader<const QL: usize> {
    buf: Vec<u8>,
}

impl<const QL: usize> View for MessageReader<QL> {
    type V = Seq<u8>;

    /// The bytes the reader holds.
    closed spec fn view(&self) -> Seq<u8> {
        self.buf@
    }
}

impl<const QL: usize> MessageReader<QL> {
    #[verifier::type_invariant]
    closed spec fn inv(self) -> bool {
        self.buf@.len() <= READER_BUFFER_LENGTH
    }

    /// An empty reader.
    pub fn new() -> (r: Self)
        ensures
            r@ == Seq::<u8>::empty(),
    {
        MessageReader { buf: Vec::new() }
    }

    /// Feeds the reader with `bytes` and returns the messages whose frames
    /// are now complete ([`process_bytes_spec`]).
    /// [`MessageReader::try_process_bytes`] checks first that reading does not
    /// panic.
    pub fn process_bytes(&mut self, bytes: &[u8]) -> (r: Result<Vec<Message>, Error>)
        requires
            process_bytes_spec(old(self)@, bytes@, QL as nat) is Some,
        ensures
            (messages_result_view(r), final(self)@) == process_bytes_spec(
                old(self)@,
                bytes@,
                QL as nat,
            ).unwrap(),
    {
        proof {
            use_type_invariant(&*self);
        }
        if bytes.len() > READER_BUFFER_LENGTH - self.buf.len() {
            return Err(Error::BufferFull);
        }
        let mut held: Vec<u8> = Vec::new();
        std::mem::swap(&mut held, &mut self.buf);
        append_bytes(&mut held, bytes);
        let r = read_frames_exec(&mut held, QL);
        self.buf = held;
        match r {
            Some(r) => r,
            None => {
                proof {
                    assert(false);
                }
                Err(Error::MalformedMessage)
            },
        }
    }

    /// [`MessageReader::process_bytes`] where reading every frame does not
    /// panic; `None` (and the reader untouched) where it does.
    pub fn try_process_bytes(&mut self, bytes: &[u8]) -> (r: Option<Result<Vec<Message>, Error>>)
        ensures
            match process_bytes_spec(old(self)@, bytes@, QL as nat) {
                Some((res, b)) => r matches Some(x) && messages_result_view(x) == res
                    && final(self)@ == b,
                None => r is None && final(self)@ == old(self)@,
            },
    {
        proof {
            use_type_invariant(&*self);
        }
        if bytes.len() > READER_BUFFER_LENGTH - self.buf.len() {
            return Some(self.process_bytes(bytes));
        }
        let mut trial = copy_range(self.buf.as_slice(), 0, self.buf.len());
        assert(trial@ =~= self.buf@);
        append_bytes(&mut trial, bytes);
        match read_frames_exec(&mut trial, QL) {
            Some(_) => Some(self.process_bytes(bytes)),
            None => None,
        }
    }

    /// Feeds the reader with the bytes whose hexadecimal text is `hex_bytes`
    /// ([`process_bytes_hex_spec`]); malformed text is refused with
    /// `MalformedHex` and nothing changed. At most 64 bytes are decoded at a
    /// time: longer text of even length is left out (decoding it panics).
    pub fn process_bytes_hex(&mut self, hex_bytes: &[u8]) -> (r: Result<Vec<Message>, Error>)
        requires
            hex_bytes@.len() % 2 == 1 || hex_bytes@.len() / 2 <= 64,
            process_bytes_hex_spec(old(self)@, hex_bytes@, QL as nat) is Some,
        ensures
            (messages_result_view(r), final(self)@) == process_bytes_hex_spec(
                old(self)@,
                hex_bytes@,
                QL as nat,
            ).unwrap(),
    {
        let mut decoded = zeros(64);
        match hex_decode_into(hex_bytes, decoded.as_mut_slice()) {
            Ok(decoded_len) => {
                let d = copy_range(decoded.as_slice(), 0, decoded_len);
                assert(d@ == hex_decode(hex_bytes@).unwrap()) by {
                    let h = hex_decode(hex_bytes@).unwrap();
                    assert(decoded@.subrange(0, decoded_len as int) =~= h);
                }
                self.process_bytes(d.as_slice())
            },
            Err(e) => Err(Error::MalformedHex(e)),
        }
    }

    /// Drops the first `length` bytes the reader holds; refused with
    /// `BufferLengthNotSufficient` (and nothing dropped) when it holds fewer.
    pub fn ltrim(&mut self, length: usize) -> (r: Result<(), Error>)
        ensures
            old(self)@.len() < length ==> r == Err::<(), Error>(Error::BufferLengthNotSufficient)
                && final(self)@ == old(self)@,
            old(self)@.len() >= length ==> r == Ok::<(), Error>(()) && final(self)@ == old(
                self,
            )@.skip(length as int),
    {
        proof {
            use_type_invariant(&*self);
        }
        if self.buf.len() < length {
            return Err(Error::BufferLengthNotSufficient);
        }
        let mut held: Vec<u8> = Vec::new();
        std::mem::swap(&mut held, &mut self.buf);
        let rest = held.split_off(length);
        self.buf = rest;
        Ok(())
    }

    /// Drops every byte the reader holds.
    pub fn reset(&mut self)
        ensures
            final(self)@ == Seq::<u8>::empty(),
    {
        self.buf = Vec::new();
    }
}

impl<const QL: usize> Default for MessageReader<QL> {
    fn default() -> (r: Self)
        ensures
            r@ == Seq::<u8>::empty(),
    {
        Self::new()
    }
}

/// Reading the bytes of a message from a frame that holds them after
/// decoding gives the message back.
pub proof fn lemma_message_bytes_read_back(m: MessageModel, b: Seq<u8>)
    requires
        message_wf(m),
        b.len() >= message_bytes(m).len(),
        b.take(message_bytes(m).len() as int) == message_bytes(m),
    ensures
        parse_decoded(b, message_bytes(m).len() as int) == Some(Ok::<MessageModel, Error>(m)),
{
    let bytes = message_bytes(m);
    let n = bytes.len() as int;
    assert forall|j: int| 0 <= j < n implies b[j] == bytes[j] by {
        assert(b.take(n)[j] == b[j]);
    }
    match m {
        MessageModel::SendData { data } => {
            assert(b.subrange(1, n) =~= data);
        },
        MessageModel::ReceiveData { data } => {
            assert(b.subrange(1, n) =~= data);
        },
        MessageModel::Report { sn, .. } => {
            lemma_be_u32_roundtrip(sn);
            assert(b.subrange(1, 5) =~= be_u32_bytes(sn));
        },
        MessageModel::Status { code } => {
            lemma_status_code_roundtrip(code);
        },
        _ => {},
    }
}

/// The encoded frames of `ms`, one after the other.
pub open spec fn encoded_messages(ms: Seq<MessageModel>) -> Seq<u8>
    decreases ms.len(),
{
    if ms.len() == 0 {
        Seq::empty()
    } else {
        encoded_message(ms[0]) + encoded_messages(ms.drop_first())
    }
}

/// `m` is sent and read back by the protocol: its payload fits and its
/// COBS encoding has the properties [`Message::encode`] reports.
pub open spec fn message_round_trips(m: MessageModel) -> bool {
    &&& message_wf(m)
    &&& cobs_encoded_facts(message_bytes(m))
}

/// A reader holding the encoded frames of messages, one after the other,
/// reads back exactly those messages, in order, and keeps no byte, as long as
/// its queue has room for them.
pub proof fn lemma_encoded_messages_read_back(
    ms: Seq<MessageModel>,
    out: Seq<MessageModel>,
    ql: nat,
)
    requires
        forall|i: int| 0 <= i < ms.len() ==> message_round_trips(#[trigger] ms[i]),
        out.len() + ms.len() <= ql,
    ensures
        read_frames(encoded_messages(ms), out, ql) == Some(
            (Ok::<Seq<MessageModel>, Error>(out + ms), Seq::<u8>::empty()),
        ),
    decreases ms.len(),
{
    let buf = encoded_messages(ms);
    if ms.len() == 0 {
        assert(out + ms =~= out);
        assert(!exists|i: int| is_first_zero(buf, i));
    } else {
        let m = ms[0];
        assert(message_round_trips(ms[0]));
        let bytes = message_bytes(m);
        let enc = cobs_encoding(bytes);
        let rest = encoded_messages(ms.drop_first());
        lemma_message_bytes_len(m);
        assert(buf == enc.push(COBS_SENTINEL) + rest);
        let i = enc.len() as int;
        assert(buf[i] == COBS_SENTINEL);
        assert forall|j: int| 0 <= j < i implies buf[j] != COBS_SENTINEL by {
            assert(buf[j] == enc[j]);
        }
        assert(is_first_zero(buf, i));
        let k = choose|k: int| is_first_zero(buf, k);
        lemma_first_zero_unique(buf, i, k);
        assert(buf.take(i) == enc);
        assert(buf.skip(i + 1) == rest);
        lemma_message_bytes_read_back(m, cobs_in_place_decoding(enc).1);
        assert(decode_frame(enc) matches Some((Ok(x), _)) && x == m);
        assert forall|j: int| 0 <= j < ms.drop_first().len() implies message_round_trips(
            #[trigger] ms.drop_first()[j],
        ) by {
            assert(ms.drop_first()[j] == ms[j + 1]);
        }
        lemma_encoded_messages_read_back(ms.drop_first(), out.push(m), ql);
        assert(out.push(m) + ms.drop_first() =~= out + ms);
    }
}

/// What a reader holding `buf` with queue length `ql` answers when fed
/// `inputs`, one after the other ([`process_bytes_spec`]), and the bytes it
/// holds at the end; `None` where a step cannot be taken.
pub open spec fn feed_all(buf: Seq<u8>, inputs: Seq<Seq<u8>>, ql: nat) -> Option<
    (Seq<Result<Seq<MessageModel>, Error>>, Seq<u8>),
>
    decreases inputs.len(),
{
    if inputs.len() == 0 {
        Some((Seq::empty(), buf))
    } else {
        match process_bytes_spec(buf, inputs[0], ql) {
            None => None,
            Some((r, b)) => match feed_all(b, inputs.drop_first(), ql) {
                None => None,
                Some((rs, b2)) => Some((seq![r] + rs, b2)),
            },
        }
    }
}

/// What a reader holding `buf` with queue length `ql` answers when fed the
/// hexadecimal texts `inputs`, one after the other
/// ([`process_bytes_hex_spec`]), and the bytes it holds at the end; `None`
/// where a step cannot be taken.
pub open spec fn feed_all_hex(buf: Seq<u8>, inputs: Seq<Seq<u8>>, ql: nat) -> Option<
    (Seq<Result<Seq<MessageModel>, Error>>, Seq<u8>),
>
    decreases inputs.len(),
{
    if inputs.len() == 0 {
        Some((Seq::empty(), buf))
    } else {
        match process_bytes_hex_spec(buf, inputs[0], ql) {
            None => None,
            Some((r, b)) => match feed_all_hex(b, inputs.drop_first(), ql) {
                None => None,
                Some((rs, b2)) => Some((seq![r] + rs, b2)),
            },
        }
    }
}

/// The answers to the `n` inputs that carry one message `m`: no message
/// until the last input, which gives `m`.
pub open spec fn one_message_answers(n: nat, m: MessageModel) -> Seq<Result<Seq<MessageModel>, Error>> {
    Seq::new(n, |i: int| if i == n - 1 { Ok(seq![m]) } else { Ok(Seq::empty()) })
}

proof fn lemma_feed_pieces(pieces: Seq<Seq<u8>>, k: int, m: MessageModel, ql: nat)
    requires
        0 <= k < pieces.len(),
        pieces.flatten() == encoded_message(m),
        pieces.last().len() > 0,
        message_round_trips(m),
        encoded_message(m).len() <= READER_BUFFER_LENGTH,
        ql >= 1,
    ensures
        feed_all(pieces.take(k).flatten(), pieces.skip(k), ql) == Some(
            (one_message_answers(pieces.len(), m).skip(k), Seq::<u8>::empty()),
        ),
    decreases pieces.len() - k,
{
    let n = pieces.len() as int;
    let e = encoded_message(m);
    let enc = cobs_encoding(message_bytes(m));
    let buf = pieces.take(k).flatten();
    let d = pieces[k];
    let a = pieces.take(k + 1).flatten();
    assert(pieces.take(k + 1) == pieces.take(k).push(d));
    pieces.take(k).lemma_flatten_push(d);
    assert(a == buf + d);
    assert(pieces.take(k + 1) + pieces.skip(k + 1) == pieces);
    vstd::seq_lib::lemma_flatten_concat(pieces.take(k + 1), pieces.skip(k + 1));
    assert(e == a + pieces.skip(k + 1).flatten());
    assert(pieces.skip(k)[0] == d);
    let answers = one_message_answers(pieces.len(), m);
    if k == n - 1 {
        assert(pieces.take(k + 1) == pieces);
        assert(a == e);
        assert(encoded_messages(seq![m]) == e) by {
            let s1 = seq![m];
            assert(s1.drop_first() =~= Seq::<MessageModel>::empty());
            assert(encoded_messages(s1.drop_first()) == Seq::<u8>::empty());
            assert(s1[0] == m);
            assert(encoded_messages(s1) == encoded_message(m) + Seq::<u8>::empty());
            assert(e + Seq::<u8>::empty() =~= e);
        }
        assert(message_round_trips(seq![m][0]));
        lemma_encoded_messages_read_back(seq![m], Seq::empty(), ql);
        assert(Seq::<MessageModel>::empty() + seq![m] =~= seq![m]);
        assert(process_bytes_spec(buf, d, ql) == Some(
            (Ok::<Seq<MessageModel>, Error>(seq![m]), Seq::<u8>::empty()),
        ));
        assert(pieces.skip(k).drop_first().len() == 0);
        assert(feed_all(Seq::<u8>::empty(), pieces.skip(k).drop_first(), ql) == Some(
            (Seq::<Result<Seq<MessageModel>, Error>>::empty(), Seq::<u8>::empty()),
        ));
        assert(answers.skip(k) =~= seq![Ok::<Seq<MessageModel>, Error>(seq![m])]);
        assert(seq![Ok::<Seq<MessageModel>, Error>(seq![m])] + Seq::<
            Result<Seq<MessageModel>, Error>,
        >::empty() =~= seq![Ok::<Seq<MessageModel>, Error>(seq![m])]);
    } else {
        let rest = pieces.skip(k + 1);
        assert(rest == rest.drop_last().push(pieces.last()));
        rest.drop_last().lemma_flatten_push(pieces.last());
        assert(rest.flatten().len() >= 1);
        lemma_message_bytes_len(m);
        assert forall|j: int| 0 <= j < a.len() implies a[j] != COBS_SENTINEL by {
            assert(a[j] == e[j]);
            assert(e[j] == enc[j]);
        }
        assert(!exists|i: int| is_first_zero(a, i));
        assert(process_bytes_spec(buf, d, ql) == Some(
            (Ok::<Seq<MessageModel>, Error>(Seq::empty()), a),
        ));
        lemma_feed_pieces(pieces, k + 1, m, ql);
        assert(pieces.skip(k).drop_first() == pieces.skip(k + 1));
        assert(answers.skip(k) =~= seq![Ok::<Seq<MessageModel>, Error>(Seq::empty())]
            + answers.skip(k + 1));
    }
}

/// The serial frames of a message, fed one after the other to a reader that
/// holds no byte, give the message back with the last frame and nothing
/// before it; the reader then holds no byte again.
pub proof fn lemma_serial_frames_read_back(m: MessageModel, ql: nat)
    requires
        message_round_trips(m),
        ql >= 1,
    ensures
        ({
            let frames = chunks(encoded_message(m), MAX_SERIAL_FRAME_LENGTH as nat);
            feed_all(Seq::empty(), frames, ql) == Some(
                (one_message_answers(frames.len(), m), Seq::<u8>::empty()),
            )
        }),
{
    let e = encoded_message(m);
    lemma_message_bytes_len(m);
    let frames = chunks(e, MAX_SERIAL_FRAME_LENGTH as nat);
    crate::host::codec::lemma_chunks_flatten(e, MAX_SERIAL_FRAME_LENGTH as nat);
    assert(frames.len() > 0);
    assert(frames.last() == frames[frames.len() - 1]);
    lemma_feed_pieces(frames, 0, m, ql);
    assert(frames.take(0).flatten() =~= Seq::<u8>::empty());
    assert(frames.skip(0) == frames);
    assert(one_message_answers(frames.len(), m).skip(0) == one_message_answers(frames.len(), m));
}

proof fn lemma_feed_hex(buf: Seq<u8>, texts: Seq<Seq<u8>>, pieces: Seq<Seq<u8>>, ql: nat)
    requires
        texts.len() == pieces.len(),
        forall|i: int| 0 <= i < texts.len() ==> #[trigger] texts[i] == hex_lower(pieces[i]),
    ensures
        feed_all_hex(buf, texts, ql) == feed_all(buf, pieces, ql),
    decreases texts.len(),
{
    if texts.len() > 0 {
        crate::encoding::lemma_hex_roundtrip(pieces[0]);
        assert(texts[0] == hex_lower(pieces[0]));
        assert forall|i: int| 0 <= i < texts.drop_first().len() implies #[trigger] texts.drop_first()[i]
            == hex_lower(pieces.drop_first()[i]) by {
            assert(texts.drop_first()[i] == texts[i + 1]);
        }
        match process_bytes_spec(buf, pieces[0], ql) {
            None => {},
            Some((r, b)) => {
                lemma_feed_hex(b, texts.drop_first(), pieces.drop_first(), ql);
            },
        }
    }
}

/// The text a BLE frame carries between its two delimiters.
pub open spec fn ble_frame_text(f: Seq<u8>) -> Seq<u8> {
    f.subrange(1, f.len() - 1)
}

/// The BLE frames of a message, each fed without its two delimiters to
/// [`MessageReader::process_bytes_hex`], one after the other, in a reader
/// that holds no byte, give the message back with the last frame and nothing
/// before it; the reader then holds no byte again. No text is longer than
/// what the reader decodes at a time.
pub proof fn lemma_ble_frames_read_back(m: MessageModel, d: u8, ql: nat)
    requires
        message_round_trips(m),
        ql >= 1,
    ensures
        ({
            let frames = ble_frames(encoded_message(m), d);
            let texts = frames.map_values(|f: Seq<u8>| ble_frame_text(f));
            &&& forall|i: int| 0 <= i < frames.len() ==> {
                &&& (#[trigger] frames[i]).len() >= 2
                &&& frames[i][0] == d
                &&& frames[i].last() == d
            }
            &&& forall|i: int| 0 <= i < texts.len() ==> (#[trigger] texts[i]).len() / 2 <= 64
            &&& feed_all_hex(Seq::empty(), texts, ql) == Some(
                (one_message_answers(frames.len(), m), Seq::<u8>::empty()),
            )
        }),
{
    let e = encoded_message(m);
    lemma_message_bytes_len(m);
    let k = ble_chunk_length();
    let half = (k / 2) as nat;
    assert(k == 2 * half);
    let pieces = chunks(e, half);
    crate::host::codec::lemma_chunks_flatten(e, half);
    crate::host::codec::lemma_hex_chunks(e, half);
    let hexes = chunks(hex_lower(e), k);
    assert(hexes == pieces.map_values(|c: Seq<u8>| hex_lower(c)));
    let wrap = |c: Seq<u8>| seq![d] + c + seq![d];
    let frames = ble_frames(e, d);
    assert(frames == hexes.map_values(wrap));
    let texts = frames.map_values(|f: Seq<u8>| ble_frame_text(f));
    assert forall|i: int| 0 <= i < frames.len() implies {
        &&& (#[trigger] frames[i]).len() >= 2
        &&& frames[i][0] == d
        &&& frames[i].last() == d
    } by {
        assert(frames[i] == wrap(hexes[i]));
    }
    assert forall|i: int| 0 <= i < texts.len() implies #[trigger] texts[i] == hex_lower(pieces[i])
        && texts[i].len() / 2 <= 64 by {
        assert(frames[i] == wrap(hexes[i]));
        assert(ble_frame_text(wrap(hexes[i])) =~= hexes[i]);
        assert(hexes[i] == hex_lower(pieces[i]));
    }
    lemma_feed_hex(Seq::empty(), texts, pieces, ql);
    assert(pieces.len() > 0);
    assert(pieces.last() == pieces[pieces.len() - 1]);
    lemma_feed_pieces(pieces, 0, m, ql);
    assert(pieces.take(0).flatten() =~= Seq::<u8>::empty());
    assert(pieces.skip(0) == pieces);
    assert(one_message_answers(pieces.len(), m).skip(0) == one_message_answers(
        frames.len(),
        m,
    ));
}

/// Errors of the textual commands.
#[derive(Debug, PartialEq, Eq, Clone, Copy)]
pub enum ParseMessageError {
    MissingSeparator,
    InvalidMessage,
    InvalidHex(HexDecodeError),
    InvalidPayloadLength,
    PayloadTooLong,
}

impl From<HexDecodeError> for ParseMessageError {
    fn from(e: HexDecodeError) -> (r: ParseMessageError)
        ensures
            r == ParseMessageError::InvalidHex(e),
    {
        ParseMessageError::InvalidHex(e)
    }
}

impl vstd::std_specs::convert::FromSpecImpl<HexDecodeError> for ParseMessageError {
    open spec fn obeys_from_spec() -> bool {
        true
    }

    open spec fn from_spec(e: HexDecodeError) -> ParseMessageError {
        ParseMessageError::InvalidHex(e)
    }
}

/// `get_noise`
pub open spec fn word_get_noise() -> Seq<u8> {
    seq![0x67u8, 0x65, 0x74, 0x5f, 0x6e, 0x6f, 0x69, 0x73, 0x65]
}

/// The command written as the text `s` (its bytes), for example
/// `send@0xAABB`, `status@`, `config@1`, `get_noise@`, `uf@`: the command
/// before the first `@`, its value after it (up to a further `@`). `None`
/// where the region of `config` is no number (reading it panics).
pub open spec fn message_from_text(s: Seq<u8>) -> Option<Result<MessageModel, ParseMessageError>> {
    match first_index(s, at_sign()) {
        None => Some(Err(ParseMessageError::MissingSeparator)),
        Some(i) => {
            let cmd = s.take(i);
            let val = up_to(s.skip(i + 1), at_sign());
            if cmd == word_send() {
                let clean = strip_hex_prefix(val);
                if clean.len() / 2 > crate::MAX_LORA_PAYLOAD_LENGTH {
                    Some(Err(ParseMessageError::PayloadTooLong))
                } else {
                    match hex_decode(clean) {
                        Ok(d) => Some(Ok(MessageModel::SendData { data: d })),
                        Err(_) => Some(Err(ParseMessageError::InvalidPayloadLength)),
                    }
                }
            } else if cmd == word_status() {
                Some(Ok(MessageModel::ReportRequest))
            } else if cmd == word_config() {
                match parse_unsigned(val, 10, 255) {
                    Some(region) => Some(Ok(MessageModel::Configure { region: region as u8 })),
                    None => None,
                }
            } else if cmd == word_get_noise() {
                Some(Ok(MessageModel::GetNoise))
            } else if cmd == word_uf() {
                Some(Ok(MessageModel::UpgradeFirmwareRequest))
            } else {
                Some(Err(ParseMessageError::InvalidMessage))
            }
        },
    }
}

/// The view of a result of reading a command.
pub open spec fn parse_result_view(r: Result<Message, ParseMessageError>) -> Result<
    MessageModel,
    ParseMessageError,
> {
    match r {
        Ok(m) => Ok(m@),
        Err(e) => Err(e),
    }
}

impl Message {
    /// Reads a command from its text ([`message_from_text`] of the bytes of
    /// `s`). The region of `config` must be readable
    /// ([`Message::can_read_from_str`] tells).
    pub fn from_str(s: &str) -> (r: Result<Message, ParseMessageError>)
        requires
            message_from_text(s.spec_bytes()) is Some,
        ensures
            parse_result_view(r) == message_from_text(s.spec_bytes()).unwrap(),
    {
        let bytes = s.as_bytes();
        let i = match find_byte(bytes, 0x40) {
            None => return Err(ParseMessageError::MissingSeparator),
            Some(i) => i,
        };
        let cmd = copy_range(bytes, 0, i);
        assert(cmd@ == bytes@.take(i as int));
        let val = piece_after(bytes, i, 0x40);
        if bytes_equal(cmd.as_slice(), vec![0x73u8, 0x65, 0x6e, 0x64].as_slice()) {
            let clean = if val.len() >= 2 && val[0] == 0x30 && (val[1] == 0x78 || val[1] == 0x58) {
                let c = copy_range(val.as_slice(), 2, val.len());
                assert(c@ == val@.skip(2));
                c
            } else {
                val
            };
            if clean.len() / 2 > crate::MAX_LORA_PAYLOAD_LENGTH {
                return Err(ParseMessageError::PayloadTooLong);
            }
            let mut data = zeros(clean.len() / 2);
            match hex_decode_into(clean.as_slice(), data.as_mut_slice()) {
                Ok(_) => {
                    proof {
                        let d = hex_decode(clean@).unwrap();
                        assert(data@ =~= d);
                    }
                    Ok(Message::SendData { data })
                },
                Err(_) => Err(ParseMessageError::InvalidPayloadLength),
            }
        } else if bytes_equal(cmd.as_slice(), vec![0x73u8, 0x74, 0x61, 0x74, 0x75, 0x73].as_slice()) {
            Ok(Message::ReportRequest)
        } else if bytes_equal(cmd.as_slice(), vec![0x63u8, 0x6f, 0x6e, 0x66, 0x69, 0x67].as_slice()) {
            match parse_number(val.as_slice(), 10, 255) {
                Some(region) => Ok(Message::Configure { region: region as u8 }),
                None => {
                    proof {
                        assert(false);
                    }
                    Err(ParseMessageError::InvalidMessage)
                },
            }
        } else if bytes_equal(
            cmd.as_slice(),
            vec![0x67u8, 0x65, 0x74, 0x5f, 0x6e, 0x6f, 0x69, 0x73, 0x65].as_slice(),
        ) {
            Ok(Message::GetNoise)
        } else if bytes_equal(cmd.as_slice(), vec![0x75u8, 0x66].as_slice()) {
            Ok(Message::UpgradeFirmwareRequest)
        } else {
            Err(ParseMessageError::InvalidMessage)
        }
    }

    /// Whether [`Message::from_str`] can read `s` without panicking: the
    /// region of `config` is readable.
    pub fn can_read_from_str(s: &str) -> (r: bool)
        ensures
            r == message_from_text(s.spec_bytes()) is Some,
    {
        let bytes = s.as_bytes();
        let i = match find_byte(bytes, 0x40) {
            None => return true,
            Some(i) => i,
        };
        let cmd = copy_range(bytes, 0, i);
        assert(cmd@ == bytes@.take(i as int));
        let val = piece_after(bytes, i, 0x40);
        if bytes_equal(cmd.as_slice(), vec![0x63u8, 0x6f, 0x6e, 0x66, 0x69, 0x67].as_slice()) {
            parse_number(val.as_slice(), 10, 255).is_some()
        } else {
            true
        }
    }
}

} // verus!
