//! Serial messages as postcard serialises them.
//!
//! Messages are of two kinds, depending on the direction they travel: from
//! host to node or from node to host. Their serialisation (postcard over
//! serde) is done outside this library; here are the types, reading a message
//! from its text, and finding the frames of COBS encoded messages in a buffer.
use vstd::prelude::*;
use vstd::string::StringSliceAdditionalSpecFns;
use core::ops::Range;
use crate::buffers::copy_range;
use crate::encoding::{HexDecodeError, hex_decode, hex_decode_into};
use crate::host::{
    at_sign, bar, strip_hex_prefix, word_config, word_get_rawiq, word_send, word_status, word_ts,
    word_uf,
};
use crate::text::{
    bytes_equal, decimal_text, find_byte, first_index, is_first, lemma_decimal_text,
    lemma_first_index_absent, lemma_first_index_at, lemma_parse_decimal_text, parse_number,
    parse_unsigned, piece_after, up_to,
};

verus! {

/// Errors of the message types.
#[derive(Debug, PartialEq, Eq, Clone, Copy)]
pub enum Error {
    InvalidMessageType(u8),
    MissingCobsSentinel,
    CantCreatePayloadRef,
    LoraDataTooLong(usize),
    InvalidStatusCode(u8),
    BufferToShortToEncodeMessage,
    CantWriteMessageToBuffer,
    RawIqDataIncorrectLength,
}

/// Why a textual command could not be read.
#[derive(Debug, PartialEq, Eq, Clone, Copy)]
pub enum FromStrError<'a> {
    MissingSeparator,
    InvalidMessage,
    InvalidHex(HexDecodeError),
    InvalidHexConfigNetwork,
    InvalidPayloadLength,
    PayloadTooLong,
    MissingConfigNetwork,
    InvalidTargetBuffer,
    InvalidTimestamp(&'a str),
}

/// A command sent over the serial interface to or from a node.
#[derive(Debug, PartialEq, Eq, Clone)]
pub enum SerialMessage<'a> {
    /// Host sending data to node instructing it to broadcast it to the wireless network
    SendData(SendData<'a>),
    /// Host is reconfiguring the node
    Configure(Configure),
    /// Host requesting the node status
    ReportRequest(ReportRequest),
    /// Firmware upgrade will follow
    UpgradeFirmwareRequest,
    /// Set current time
    SetTimestamp(SetTimestamp),
    GetRawIq,
    /// Node sending data to host
    ReceiveData(ReceiveData<'a>),
    /// Node reporting information to host
    Report(Report),
    /// Node reporting some error state to host
    Status(Status),
    /// Node returns raw IQ data to host
    RawIq(RawIq<'a>),
}

#[derive(Debug, PartialEq, Eq, Clone, Copy)]
pub struct SendData<'a> {
    pub data: &'a [u8],
}

#[derive(Debug, PartialEq, Eq, Clone, Copy)]
pub struct Configure {
    pub region: u8,
    pub spreading_factor: u8,
    pub network: [u8; 2],
}

#[derive(Debug, PartialEq, Eq, Clone, Copy)]
pub struct ReportRequest;

#[derive(Debug, PartialEq, Eq, Clone, Copy)]
pub struct UpgradeFirmwareRequest;

#[derive(Debug, PartialEq, Eq, Clone, Copy)]
pub struct SetTimestamp {
    pub timestamp: u64,
}

#[derive(Debug, PartialEq, Eq, Clone, Copy)]
pub struct GetRawIq;

#[derive(Debug, PartialEq, Eq, Clone, Copy)]
pub struct ReceiveData<'a> {
    pub data: &'a [u8],
}

#[derive(Debug, PartialEq, Eq, Clone, Copy)]
pub struct Report {
    pub sn: u32,
    pub version_data: [u8; 9],
    pub region: u8,
    pub spreading_factor: u8,
    pub receive_queue_size: u8,
    pub transmit_queue_size: u8,
    pub network: [u8; 2],
}

#[derive(Debug, PartialEq, Eq, Clone, Copy)]
pub struct Status {
    pub code: StatusCode,
}

/// Status reported by a node.
#[derive(Debug, PartialEq, Eq, Clone, Copy)]
pub enum StatusCode {
    FrameReceived,
    CommandReceived,
    ErrUnknownCommmandReceived,
    ErrBusyLoraTransmitting,
    ErrMessageQueueFull,
    RadioNotConfigured,
}

/// Status code with wire value `value`, if there is one.
pub open spec fn status_code_of(value: u8) -> Option<StatusCode> {
    match value {
        1 => Some(StatusCode::FrameReceived),
        2 => Some(StatusCode::CommandReceived),
        3 => Some(StatusCode::ErrUnknownCommmandReceived),
        4 => Some(StatusCode::ErrBusyLoraTransmitting),
        5 => Some(StatusCode::ErrMessageQueueFull),
        6 => Some(StatusCode::RadioNotConfigured),
        _ => None,
    }
}

/// The wire value of every status code: 1 a received frame, 2 a received
/// command, 3 an unknown command, 4 a radio busy transmitting, 5 a full
/// message queue, 6 a radio not configured; no other byte is a status code.
pub proof fn lemma_status_code_table()
    ensures
        status_code_of(1) == Some(StatusCode::FrameReceived),
        status_code_of(2) == Some(StatusCode::CommandReceived),
        status_code_of(3) == Some(StatusCode::ErrUnknownCommmandReceived),
        status_code_of(4) == Some(StatusCode::ErrBusyLoraTransmitting),
        status_code_of(5) == Some(StatusCode::ErrMessageQueueFull),
        status_code_of(6) == Some(StatusCode::RadioNotConfigured),
        forall|v: u8| (v == 0 || v > 6) ==> #[trigger] status_code_of(v) is None,
{
}

impl StatusCode {
    /// The text that describes this status code to a person.
    pub fn description(&self) -> (r: &'static str)
        ensures
            r@ == match *self {
                StatusCode::FrameReceived => "Single serial frame was successfuly received"@,
                StatusCode::CommandReceived => "Command was successfully received"@,
                StatusCode::ErrUnknownCommmandReceived => "Error: unknown command type"@,
                StatusCode::ErrBusyLoraTransmitting => "Error: cannot execute sent command - radio is currently busy transmitting"@,
                StatusCode::ErrMessageQueueFull => "Transmit queue is full, try sending SendData later again"@,
                StatusCode::RadioNotConfigured => "Error: radio is not configured"@,
            },
    {
        match self {
            StatusCode::FrameReceived => "Single serial frame was successfuly received",
            StatusCode::CommandReceived => "Command was successfully received",
            StatusCode::ErrUnknownCommmandReceived => "Error: unknown command type",
            StatusCode::ErrBusyLoraTransmitting => "Error: cannot execute sent command - radio is currently busy transmitting",
            StatusCode::ErrMessageQueueFull => "Transmit queue is full, try sending SendData later again",
            StatusCode::RadioNotConfigured => "Error: radio is not configured",
        }
    }

    /// The status code with wire value `value`.
    pub fn try_from(value: u8) -> (r: Result<StatusCode, &'static str>)
        ensures
            match status_code_of(value) {
                Some(c) => r == Ok::<StatusCode, &'static str>(c),
                None => r is Err,
            },
    {
        match value {
            1 => Ok(StatusCode::FrameReceived),
            2 => Ok(StatusCode::CommandReceived),
            3 => Ok(StatusCode::ErrUnknownCommmandReceived),
            4 => Ok(StatusCode::ErrBusyLoraTransmitting),
            5 => Ok(StatusCode::ErrMessageQueueFull),
            6 => Ok(StatusCode::RadioNotConfigured),
            _ => Err("Unknown StatusCode"),
        }
    }
}

/// Raw IQ samples reported by a node: [`crate::RAWIQ_DATA_LENGTH`] bytes, two
/// per sample, big endian.
#[derive(Debug, PartialEq, Eq, Clone, Copy)]
pub struct RawIq<'a> {
    data: &'a [u8],
}

/// The big endian `u16` samples held in `data`; a trailing odd byte is ignored.
pub open spec fn iq_samples(data: Seq<u8>) -> Seq<u16> {
    Seq::new(data.len() / 2, |i: int| ((data[2 * i] as u16) * 256 + (data[2 * i + 1] as u16)) as u16)
}

/// Sample `i` of raw IQ data is the big endian number in bytes `2 i` and
/// `2 i + 1`; there is one sample per two bytes.
pub proof fn lemma_iq_samples(data: Seq<u8>)
    ensures
        iq_samples(data).len() == data.len() / 2,
        forall|i: int|
            0 <= i < data.len() / 2 ==> #[trigger] iq_samples(data)[i] == data[2 * i] * 256 + data[2
                * i + 1],
{
    assert forall|i: int| 0 <= i < data.len() / 2 implies #[trigger] iq_samples(data)[i] == data[2
        * i] * 256 + data[2 * i + 1] by {
        let hi = data[2 * i];
        let lo = data[2 * i + 1];
        assert(hi * 256 + lo <= 65535);
    }
}

impl<'a> View for RawIq<'a> {
    type V = Seq<u8>;

    /// The raw bytes.
    closed spec fn view(&self) -> Seq<u8> {
        self.data@
    }
}

impl<'a> RawIq<'a> {
    /// Raw IQ data over `data`.
    pub fn new(data: &'a [u8]) -> (r: RawIq<'a>)
        ensures
            r@ == data@,
    {
        RawIq { data }
    }

    /// The raw bytes.
    pub fn raw_data(&self) -> (r: &'a [u8])
        ensures
            r@ == self@,
    {
        self.data
    }

    /// The samples as the ADC measured them ([`iq_samples`]).
    pub fn data(&self) -> (r: Vec<u16>)
        ensures
            r@ == iq_samples(self@),
    {
        let mut r: Vec<u16> = Vec::new();
        let mut i: usize = 0;
        let n = self.data.len() / 2;
        while i < n
            invariant
                n == self.data.len() / 2,
                n == self.data@.len() / 2,
                i <= n,
                r@ == iq_samples(self.data@).take(i as int),
            decreases n - i,
        {
            let hi = self.data[2 * i] as u16;
            let lo = self.data[2 * i + 1] as u16;
            r.push(hi * 256 + lo);
            i = i + 1;
            assert(r@ =~= iq_samples(self.data@).take(i as int));
        }
        assert(iq_samples(self.data@).take(n as int) =~= iq_samples(self.data@));
        r
    }

    /// Replaces the raw bytes; refused (and nothing changed) unless `data`
    /// holds exactly [`crate::RAWIQ_DATA_LENGTH`] bytes.
    pub fn set_data(&mut self, data: &'a [u8]) -> (r: Result<(), Error>)
        ensures
            data@.len() != crate::RAWIQ_DATA_LENGTH ==> r == Err::<(), Error>(
                Error::RawIqDataIncorrectLength,
            ) && final(self)@ == old(self)@,
            data@.len() == crate::RAWIQ_DATA_LENGTH ==> r == Ok::<(), Error>(()) && final(self)@
                == data@,
    {
        if data.len() != crate::RAWIQ_DATA_LENGTH {
            return Err(Error::RawIqDataIncorrectLength);
        }
        self.data = data;
        Ok(())
    }
}

/// `i` is the first position at or after `from` that holds a zero byte.
pub open spec fn is_next_zero(buf: Seq<u8>, from: int, i: int) -> bool {
    &&& from <= i < buf.len()
    &&& buf[i] == 0
    &&& forall|j: int| from <= j < i ==> buf[j] != 0
}

/// The ranges of `buf` from position `from` on that may hold a COBS encoded
/// message: each runs to and includes the next zero byte; the ranges stop
/// after a zero byte followed by another one.
pub open spec fn cobs_message_ranges(buf: Seq<u8>, from: int) -> Seq<(int, int)>
    decreases buf.len() - from,
{
    if exists|i: int| is_next_zero(buf, from, i) {
        let i = choose|i: int| is_next_zero(buf, from, i);
        if i + 1 < buf.len() && buf[i + 1] == 0 {
            seq![(from, i + 1)]
        } else {
            seq![(from, i + 1)] + cobs_message_ranges(buf, i + 1)
        }
    } else {
        Seq::empty()
    }
}

/// The bounds of ranges.
pub open spec fn ranges_view(v: Seq<Range<usize>>) -> Seq<(int, int)> {
    v.map_values(|r: Range<usize>| (r.start as int, r.end as int))
}

proof fn lemma_next_zero_unique(buf: Seq<u8>, from: int, i: int, j: int)
    requires
        is_next_zero(buf, from, i),
        is_next_zero(buf, from, j),
    ensures
        i == j,
{
}

/// The ranges found from position `from` follow one another from `from` on,
/// each ending right after a zero byte and holding no other zero byte; none
/// is found where no zero byte follows `from`. They stop at two consecutive
/// zero bytes: the byte after a range that another follows is not zero, and
/// after the last range comes a zero byte or no zero byte at all.
pub proof fn lemma_cobs_ranges_shape(buf: Seq<u8>, from: int)
    requires
        0 <= from,
    ensures
        ({
            let r = cobs_message_ranges(buf, from);
            &&& (r.len() == 0) == (forall|j: int| from <= j < buf.len() ==> buf[j] != 0)
            &&& forall|k: int|
                0 <= k < r.len() ==> {
                    &&& from <= (#[trigger] r[k]).0 < r[k].1 <= buf.len()
                    &&& buf[r[k].1 - 1] == 0
                    &&& forall|j: int| r[k].0 <= j < r[k].1 - 1 ==> buf[j] != 0
                    &&& k == 0 ==> r[k].0 == from
                    &&& k > 0 ==> r[k].0 == r[k - 1].1
                    &&& k < r.len() - 1 ==> buf[r[k].1] != 0
                }
            &&& r.len() > 0 ==> (r.last().1 < buf.len() && buf[r.last().1] == 0) || (forall|j: int|
                r.last().1 <= j < buf.len() ==> buf[j] != 0)
        }),
    decreases buf.len() - from,
{
    let r = cobs_message_ranges(buf, from);
    if exists|i: int| is_next_zero(buf, from, i) {
        let i = choose|i: int| is_next_zero(buf, from, i);
        if !(i + 1 < buf.len() && buf[i + 1] == 0) {
            lemma_cobs_ranges_shape(buf, i + 1);
            let t = cobs_message_ranges(buf, i + 1);
            assert(r == seq![(from, i + 1)] + t);
            assert forall|k: int| 0 <= k < r.len() implies {
                &&& from <= (#[trigger] r[k]).0 < r[k].1 <= buf.len()
                &&& buf[r[k].1 - 1] == 0
                &&& forall|j: int| r[k].0 <= j < r[k].1 - 1 ==> buf[j] != 0
                &&& k == 0 ==> r[k].0 == from
                &&& k > 0 ==> r[k].0 == r[k - 1].1
                &&& k < r.len() - 1 ==> buf[r[k].1] != 0
            } by {
                if k > 0 {
                    assert(r[k] == t[k - 1]);
                    if k > 1 {
                        assert(r[k - 1] == t[k - 2]);
                    }
                }
                if k == 0 && r.len() > 1 {
                    assert(t[0].0 == i + 1);
                }
            }
            if t.len() > 0 {
                assert(r.last() == t.last());
            }
        }
        assert(r.len() > 0);
    } else {
        assert forall|j: int| from <= j < buf.len() implies buf[j] != 0 by {
            if buf[j] == 0 {
                lemma_next_zero_exists(buf, from, j);
            }
        }
    }
}

proof fn lemma_next_zero_exists(buf: Seq<u8>, from: int, j: int)
    requires
        from <= j < buf.len(),
        buf[j] == 0,
    ensures
        exists|i: int| is_next_zero(buf, from, i),
    decreases j - from,
{
    if exists|k: int| from <= k < j && buf[k] == 0 {
        let k = choose|k: int| from <= k < j && buf[k] == 0;
        lemma_next_zero_exists(buf, from, k);
    } else {
        assert(is_next_zero(buf, from, j));
    }
}

/// Finds all ranges of `buf` that may hold a COBS encoded message
/// ([`cobs_message_ranges`] from position 0).
pub fn get_possible_cobs_message_ranges(buf: &[u8]) -> (r: Vec<Range<usize>>)
    ensures
        ranges_view(r@) == cobs_message_ranges(buf@, 0),
{
    let mut result: Vec<Range<usize>> = Vec::new();
    let mut from: usize = 0;
    assert(ranges_view(result@) =~= Seq::<(int, int)>::empty());
    while from < buf.len()
        invariant
            from <= buf@.len(),
            cobs_message_ranges(buf@, 0) == ranges_view(result@) + cobs_message_ranges(
                buf@,
                from as int,
            ),
        decreases buf@.len() - from,
    {
        let mut i: usize = from;
        while i < buf.len() && buf[i] != 0
            invariant
                from <= i <= buf@.len(),
                forall|j: int| from <= j < i ==> buf@[j] != 0,
            decreases buf@.len() - i,
        {
            i = i + 1;
        }
        if i == buf.len() {
            assert(!exists|k: int| is_next_zero(buf@, from as int, k));
            assert(ranges_view(result@) + Seq::<(int, int)>::empty() =~= ranges_view(result@));
            return result;
        }
        proof {
            assert(is_next_zero(buf@, from as int, i as int));
            let k = choose|k: int| is_next_zero(buf@, from as int, k);
            lemma_next_zero_unique(buf@, from as int, i as int, k);
        }
        let ghost before = ranges_view(result@);
        result.push(Range { start: from, end: i + 1 });
        assert(ranges_view(result@) =~= before.push((from as int, i + 1)));
        if i + 1 < buf.len() && buf[i + 1] == 0 {
            assert(ranges_view(result@) =~= before + seq![(from as int, i + 1)]);
            return result;
        }
        assert(before + (seq![(from as int, i + 1)] + cobs_message_ranges(buf@, i + 1))
            =~= ranges_view(result@) + cobs_message_ranges(buf@, i + 1));
        from = i + 1;
    }
    assert(!exists|k: int| is_next_zero(buf@, from as int, k));
    assert(ranges_view(result@) + Seq::<(int, int)>::empty() =~= ranges_view(result@));
    result
}

/// A [`SerialMessage`] as a mathematical value.
pub enum SerialMessageModel {
    SendData(Seq<u8>),
    Configure(Configure),
    ReportRequest,
    UpgradeFirmwareRequest,
    SetTimestamp(SetTimestamp),
    GetRawIq,
    ReceiveData(Seq<u8>),
    Report(Report),
    Status(Status),
    RawIq(Seq<u8>),
}

impl<'a> View for SerialMessage<'a> {
    type V = SerialMessageModel;

    open spec fn view(&self) -> SerialMessageModel {
        match self {
            SerialMessage::SendData(m) => SerialMessageModel::SendData(m.data@),
            SerialMessage::Configure(m) => SerialMessageModel::Configure(*m),
            SerialMessage::ReportRequest(_) => SerialMessageModel::ReportRequest,
            SerialMessage::UpgradeFirmwareRequest => SerialMessageModel::UpgradeFirmwareRequest,
            SerialMessage::SetTimestamp(m) => SerialMessageModel::SetTimestamp(*m),
            SerialMessage::GetRawIq => SerialMessageModel::GetRawIq,
            SerialMessage::ReceiveData(m) => SerialMessageModel::ReceiveData(m.data@),
            SerialMessage::Report(m) => SerialMessageModel::Report(*m),
            SerialMessage::Status(m) => SerialMessageModel::Status(*m),
            SerialMessage::RawIq(m) => SerialMessageModel::RawIq(m@),
        }
    }
}

/// The view of a result of reading a command.
pub open spec fn text_result_view<'a>(r: Result<SerialMessage<'a>, FromStrError<'a>>) -> Result<
    SerialMessageModel,
    FromStrError<'a>,
> {
    match r {
        Ok(m) => Ok(m@),
        Err(e) => Err(e),
    }
}

/// The text `s` is a `send` command (its bytes before the first `@` are `send`).
pub open spec fn is_send_command(b: Seq<u8>) -> bool {
    first_index(b, at_sign()) matches Some(i) && b.take(i) == word_send()
}

/// The network field of a `config` command: the big endian bytes of `n`.
pub open spec fn network_bytes(n: nat) -> [u8; 2] {
    [(n / 256) as u8, (n % 256) as u8]
}

/// The command written as the text `s`, for example `send@0xAABB`,
/// `status@`, `config@1|7|aacc`, `ts@1629896485`, `get_rawiq@`, `uf@`: the
/// command before the first `@`, its value after it (up to a further `@`).
/// The payload of `send` is decoded into a buffer of `buf_len` bytes; the
/// values of `config` are separated by `|`, the third being the network in
/// hexadecimal. `None` where the payload of `send` does not fit the buffer or
/// where the region or spreading factor of `config` is no number (reading them
/// panics).
pub open spec fn serial_message_from_text<'a>(s: &'a str, buf_len: nat) -> Option<
    Result<SerialMessageModel, FromStrError<'a>>,
> {
    let b = s.spec_bytes();
    match first_index(b, at_sign()) {
        None => Some(Err(FromStrError::MissingSeparator)),
        Some(i) => {
            let cmd = b.take(i);
            let val = up_to(b.skip(i + 1), at_sign());
            if cmd == word_send() {
                let clean = strip_hex_prefix(val);
                if clean.len() / 2 > crate::MAX_LORA_PAYLOAD_LENGTH {
                    Some(Err(FromStrError::PayloadTooLong))
                } else if clean.len() % 2 == 0 && clean.len() / 2 > buf_len {
                    None
                } else {
                    match hex_decode(clean) {
                        Ok(d) => Some(Ok(SerialMessageModel::SendData(d))),
                        Err(_) => Some(Err(FromStrError::InvalidPayloadLength)),
                    }
                }
            } else if cmd == word_status() {
                Some(Ok(SerialMessageModel::ReportRequest))
            } else if cmd == word_config() {
                match first_index(val, bar()) {
                    None => Some(Err(FromStrError::MissingSeparator)),
                    Some(j) => {
                        let rest = val.skip(j + 1);
                        let region = parse_unsigned(val.take(j), 10, 255);
                        let sf = parse_unsigned(up_to(rest, bar()), 10, 255);
                        if region is None || sf is None {
                            None
                        } else if sf.unwrap() < 7 || sf.unwrap() > 12 {
                            Some(Err(FromStrError::InvalidMessage))
                        } else {
                            match first_index(rest, bar()) {
                                None => Some(Err(FromStrError::MissingConfigNetwork)),
                                Some(k) => match parse_unsigned(
                                    up_to(rest.skip(k + 1), bar()),
                                    16,
                                    65535,
                                ) {
                                    None => Some(Err(FromStrError::InvalidHexConfigNetwork)),
                                    Some(n) => Some(
                                        Ok(
                                            SerialMessageModel::Configure(
                                                Configure {
                                                    region: region.unwrap() as u8,
                                                    spreading_factor: sf.unwrap() as u8,
                                                    network: network_bytes(n),
                                                },
                                            ),
                                        ),
                                    ),
                                },
                            }
                        }
                    },
                }
            } else if cmd == word_ts() {
                match parse_unsigned(val, 10, u64::MAX as nat) {
                    Some(t) => Some(
                        Ok(SerialMessageModel::SetTimestamp(SetTimestamp { timestamp: t as u64 })),
                    ),
                    None => Some(Err(FromStrError::InvalidTimestamp(s))),
                }
            } else if cmd == word_get_rawiq() {
                Some(Ok(SerialMessageModel::GetRawIq))
            } else if cmd == word_uf() {
                Some(Ok(SerialMessageModel::UpgradeFirmwareRequest))
            } else {
                Some(Err(FromStrError::InvalidMessage))
            }
        },
    }
}

/// A configuration command `config@R|S|N`, with `R` and `S` written in
/// decimal and `N` the hexadecimal text of the network `n`, reads as a
/// configuration with region `R`, spreading factor `S` and the network's big
/// endian bytes, for every region and every spreading factor from 7 to 12.
#[verifier::rlimit(60)]
pub proof fn lemma_config_text_read(
    s: &str,
    region: u8,
    spreading_factor: u8,
    network_text: Seq<u8>,
    n: nat,
    buf_len: nat,
)
    requires
        s.spec_bytes() == seq![0x63u8, 0x6f, 0x6e, 0x66, 0x69, 0x67, 0x40] + decimal_text(
            region as nat,
        ) + seq![0x7cu8] + decimal_text(spreading_factor as nat) + seq![0x7cu8] + network_text,
        7 <= spreading_factor <= 12,
        forall|j: int|
            0 <= j < network_text.len() ==> #[trigger] network_text[j] != 0x7c && network_text[j]
                != 0x40,
        parse_unsigned(network_text, 16, 65535) == Some(n),
    ensures
        serial_message_from_text(s, buf_len) == Some(
            Ok::<SerialMessageModel, FromStrError>(
                SerialMessageModel::Configure(
                    Configure {
                        region,
                        spreading_factor,
                        network: [(n / 256) as u8, (n % 256) as u8],
                    },
                ),
            ),
        ),
{
    let head = seq![0x63u8, 0x6f, 0x6e, 0x66, 0x69, 0x67, 0x40];
    let dr = decimal_text(region as nat);
    let ds = decimal_text(spreading_factor as nat);
    let rest = ds + seq![0x7cu8] + network_text;
    let val = dr + seq![0x7cu8] + rest;
    let b = s.spec_bytes();
    lemma_decimal_text(region as nat);
    lemma_decimal_text(spreading_factor as nat);
    lemma_config_pieces(dr, ds, network_text);
    assert(b =~= head + val);
    assert forall|j: int| 0 <= j < 6 implies #[trigger] b[j] != at_sign() by {}
    assert(is_first(b, at_sign(), 6));
    lemma_first_index_at(b, at_sign(), 6);
    assert(b.take(6) =~= word_config());
    assert(b.skip(7) =~= val);
    lemma_parse_decimal_text(region as nat, 255);
    lemma_parse_decimal_text(spreading_factor as nat, 255);
    assert(b.take(6) != word_send());
    assert(b.take(6)[0] != word_status()[0]);
    assert(first_index(b, at_sign()) == Some(6int));
    assert(up_to(b.skip(7), at_sign()) == val);
    assert(parse_unsigned(val.take(dr.len() as int), 10, 255) == Some(region as nat));
    assert(parse_unsigned(up_to(val.skip(dr.len() as int + 1), bar()), 10, 255) == Some(
        spreading_factor as nat,
    ));
    assert(up_to(rest.skip(ds.len() as int + 1), bar()) == network_text);
}

/// A timestamp command `ts@T`, with `T` written in decimal, reads as that
/// timestamp, for every timestamp.
pub proof fn lemma_timestamp_text_read(s: &str, timestamp: u64, buf_len: nat)
    requires
        s.spec_bytes() == seq![0x74u8, 0x73, 0x40] + decimal_text(timestamp as nat),
    ensures
        serial_message_from_text(s, buf_len) == Some(
            Ok::<SerialMessageModel, FromStrError>(
                SerialMessageModel::SetTimestamp(SetTimestamp { timestamp }),
            ),
        ),
{
    let dt = decimal_text(timestamp as nat);
    let b = s.spec_bytes();
    lemma_decimal_text(timestamp as nat);
    assert forall|j: int| 0 <= j < dt.len() implies #[trigger] dt[j] != at_sign() by {}
    assert(is_first(b, at_sign(), 2));
    lemma_first_index_at(b, at_sign(), 2);
    assert(b.take(2) =~= word_ts());
    assert(b.skip(3) =~= dt);
    lemma_first_index_absent(dt, at_sign());
    lemma_parse_decimal_text(timestamp as nat, u64::MAX as nat);
    assert(b.take(2).len() != word_send().len());
    assert(b.take(2).len() != word_status().len());
    assert(b.take(2).len() != word_config().len());
}

proof fn lemma_config_pieces(dr: Seq<u8>, ds: Seq<u8>, t: Seq<u8>)
    requires
        forall|j: int| 0 <= j < dr.len() ==> 48 <= #[trigger] dr[j] <= 57,
        forall|j: int| 0 <= j < ds.len() ==> 48 <= #[trigger] ds[j] <= 57,
        forall|j: int| 0 <= j < t.len() ==> #[trigger] t[j] != 0x7c && t[j] != 0x40,
    ensures
        ({
            let rest = ds + seq![0x7cu8] + t;
            let val = dr + seq![0x7cu8] + rest;
            &&& up_to(val, at_sign()) == val
            &&& first_index(val, bar()) == Some(dr.len() as int)
            &&& val.take(dr.len() as int) == dr
            &&& val.skip(dr.len() as int + 1) == rest
            &&& up_to(rest, bar()) == ds
            &&& first_index(rest, bar()) == Some(ds.len() as int)
            &&& rest.skip(ds.len() as int + 1) == t
            &&& up_to(t, bar()) == t
            &&& forall|j: int| 0 <= j < val.len() ==> #[trigger] val[j] != at_sign()
        }),
{
    let rest = ds + seq![0x7cu8] + t;
    let val = dr + seq![0x7cu8] + rest;
    assert forall|j: int| 0 <= j < rest.len() implies #[trigger] rest[j] != at_sign() by {
        if j < ds.len() {
            assert(rest[j] == ds[j]);
        } else if j > ds.len() {
            assert(rest[j] == t[j - ds.len() - 1]);
        }
    }
    assert forall|j: int| 0 <= j < val.len() implies #[trigger] val[j] != at_sign() by {
        if j < dr.len() {
            assert(val[j] == dr[j]);
        } else if j > dr.len() {
            assert(val[j] == rest[j - dr.len() - 1]);
        }
    }
    lemma_first_index_absent(val, at_sign());
    assert forall|j: int| 0 <= j < dr.len() implies #[trigger] val[j] != bar() by {
        assert(val[j] == dr[j]);
    }
    assert(is_first(val, bar(), dr.len() as int));
    lemma_first_index_at(val, bar(), dr.len() as int);
    assert(val.take(dr.len() as int) =~= dr);
    assert(val.skip(dr.len() as int + 1) =~= rest);
    assert forall|j: int| 0 <= j < ds.len() implies #[trigger] rest[j] != bar() by {
        assert(rest[j] == ds[j]);
    }
    assert(is_first(rest, bar(), ds.len() as int));
    lemma_first_index_at(rest, bar(), ds.len() as int);
    assert(rest.take(ds.len() as int) =~= ds);
    assert(rest.skip(ds.len() as int + 1) =~= t);
    lemma_first_index_absent(t, bar());
}

impl<'a> SerialMessage<'a> {
    /// Reads a command from its text ([`serial_message_from_text`]); the
    /// payload of `send` is decoded into `data` and the message refers to it.
    /// The payload must fit `data` and the numbers of `config` must be
    /// readable ([`SerialMessage::can_read_from_str`] tells).
    pub fn new_from_str(s: &'a str, data: &'a mut [u8]) -> (r: Result<Self, FromStrError<'a>>)
        requires
            serial_message_from_text(s, old(data)@.len()) is Some,
        ensures
            text_result_view(r) == serial_message_from_text(s, old(data)@.len()).unwrap(),
            final(data)@.len() == old(data)@.len(),
            !is_send_command(s.spec_bytes()) ==> final(data)@ == old(data)@,
            r matches Ok(SerialMessage::SendData(m)) ==> final(data)@ == m.data@ + old(
                data,
            )@.skip(m.data@.len() as int),
    {
        let bytes = s.as_bytes();
        let i = match find_byte(bytes, 0x40) {
            None => return Err(FromStrError::MissingSeparator),
            Some(i) => i,
        };
        let cmd = copy_range(bytes, 0, i);
        assert(cmd@ == bytes@.take(i as int));
        let val = piece_after(bytes, i, 0x40);
        if bytes_equal(cmd.as_slice(), vec![0x73u8, 0x65, 0x6e, 0x64].as_slice()) {
            let clean = if val.len() >= 2 && val[0] == 0x30 && (val[1] == 0x78 || val[1] == 0x58) {
                let c = copy_range(val.as_slice(), 2, val.len());
                assert(c@ == val@.skip(2));
                c
            } else {
                val
            };
            if clean.len() / 2 > crate::MAX_LORA_PAYLOAD_LENGTH {
                return Err(FromStrError::PayloadTooLong);
            }
            let len = match hex_decode_into(clean.as_slice(), data) {
                Ok(len) => len,
                Err(_) => return Err(FromStrError::InvalidPayloadLength),
            };
            let decoded: &'a [u8] = data;
            let payload = &decoded[0..len];
            proof {
                let d = hex_decode(clean@).unwrap();
                assert(payload@ =~= d);
            }
            Ok(SerialMessage::SendData(SendData { data: payload }))
        } else if bytes_equal(cmd.as_slice(), vec![0x73u8, 0x74, 0x61, 0x74, 0x75, 0x73].as_slice()) {
            Ok(SerialMessage::ReportRequest(ReportRequest))
        } else if bytes_equal(cmd.as_slice(), vec![0x63u8, 0x6f, 0x6e, 0x66, 0x69, 0x67].as_slice()) {
            let j = match find_byte(val.as_slice(), 0x7c) {
                None => return Err(FromStrError::MissingSeparator),
                Some(j) => j,
            };
            let region_text = copy_range(val.as_slice(), 0, j);
            assert(region_text@ == val@.take(j as int));
            let rest = copy_range(val.as_slice(), j + 1, val.len());
            assert(rest@ == val@.skip(j + 1));
            let sf_text = match find_byte(rest.as_slice(), 0x7c) {
                Some(k) => copy_range(rest.as_slice(), 0, k),
                None => copy_range(rest.as_slice(), 0, rest.len()),
            };
            assert(sf_text@ == up_to(rest@, 0x7c)) by {
                assert(rest@.subrange(0, rest@.len() as int) == rest@);
            }
            let region = parse_number(region_text.as_slice(), 10, 255);
            let spreading_factor = parse_number(sf_text.as_slice(), 10, 255);
            let (region, spreading_factor) = match (region, spreading_factor) {
                (Some(r), Some(f)) => (r, f),
                _ => {
                    proof {
                        assert(false);
                    }
                    return Err(FromStrError::InvalidMessage);
                },
            };
            if spreading_factor < 7 || spreading_factor > 12 {
                return Err(FromStrError::InvalidMessage);
            }
            let k = match find_byte(rest.as_slice(), 0x7c) {
                None => return Err(FromStrError::MissingConfigNetwork),
                Some(k) => k,
            };
            let network_text = piece_after(rest.as_slice(), k, 0x7c);
            let network = match parse_number(network_text.as_slice(), 16, 65535) {
                None => return Err(FromStrError::InvalidHexConfigNetwork),
                Some(n) => n,
            };
            Ok(
                SerialMessage::Configure(
                    Configure {
                        region: region as u8,
                        spreading_factor: spreading_factor as u8,
                        network: [(network / 256) as u8, (network % 256) as u8],
                    },
                ),
            )
        } else if bytes_equal(cmd.as_slice(), vec![0x74u8, 0x73].as_slice()) {
            match parse_number(val.as_slice(), 10, u64::MAX) {
                Some(timestamp) => Ok(SerialMessage::SetTimestamp(SetTimestamp { timestamp })),
                None => Err(FromStrError::InvalidTimestamp(s)),
            }
        } else if bytes_equal(
            cmd.as_slice(),
            vec![0x67u8, 0x65, 0x74, 0x5f, 0x72, 0x61, 0x77, 0x69, 0x71].as_slice(),
        ) {
            Ok(SerialMessage::GetRawIq)
        } else if bytes_equal(cmd.as_slice(), vec![0x75u8, 0x66].as_slice()) {
            Ok(SerialMessage::UpgradeFirmwareRequest)
        } else {
            Err(FromStrError::InvalidMessage)
        }
    }
}

impl<'a> SerialMessage<'a> {
    /// Whether [`SerialMessage::new_from_str`] can read `s` into a buffer of
    /// `data_len` bytes without panicking: the payload of `send` fits and the
    /// numbers of `config` are readable.
    pub fn can_read_from_str(s: &str, data_len: usize) -> (r: bool)
        ensures
            r == serial_message_from_text(s, data_len as nat) is Some,
    {
        let bytes = s.as_bytes();
        let i = match find_byte(bytes, 0x40) {
            None => return true,
            Some(i) => i,
        };
        let cmd = copy_range(bytes, 0, i);
        assert(cmd@ == bytes@.take(i as int));
        let val = piece_after(bytes, i, 0x40);
        if bytes_equal(cmd.as_slice(), vec![0x73u8, 0x65, 0x6e, 0x64].as_slice()) {
            let clean_len = if val.len() >= 2 && val[0] == 0x30 && (val[1] == 0x78 || val[1]
                == 0x58) {
                val.len() - 2
            } else {
                val.len()
            };
            if clean_len / 2 > crate::MAX_LORA_PAYLOAD_LENGTH {
                return true;
            }
            !(clean_len % 2 == 0 && clean_len / 2 > data_len)
        } else if bytes_equal(cmd.as_slice(), vec![0x63u8, 0x6f, 0x6e, 0x66, 0x69, 0x67].as_slice()) {
            let j = match find_byte(val.as_slice(), 0x7c) {
                None => return true,
                Some(j) => j,
            };
            let region_text = copy_range(val.as_slice(), 0, j);
            assert(region_text@ == val@.take(j as int));
            let rest = copy_range(val.as_slice(), j + 1, val.len());
            assert(rest@ == val@.skip(j + 1));
            let sf_text = match find_byte(rest.as_slice(), 0x7c) {
                Some(k) => copy_range(rest.as_slice(), 0, k),
                None => copy_range(rest.as_slice(), 0, rest.len()),
            };
            assert(sf_text@ == up_to(rest@, 0x7c)) by {
                assert(rest@.subrange(0, rest@.len() as int) == rest@);
            }
            parse_number(region_text.as_slice(), 10, 255).is_some() && parse_number(
                sf_text.as_slice(),
                10,
                255,
            ).is_some()
        } else {
            true
        }
    }
}

/// `w` is where the first two consecutive zero bytes of `buf` start.
pub open spec fn is_first_double_zero(buf: Seq<u8>, w: int) -> bool {
    &&& 0 <= w && w + 1 < buf.len()
    &&& buf[w] == 0 && buf[w + 1] == 0
    &&& forall|j: int| 0 <= j < w ==> !(buf[j] == 0 && #[trigger] buf[j + 1] == 0)
}

/// Where the messages of `buf` end: at its first two consecutive zero
/// bytes, or at its end.
pub open spec fn messages_end(buf: Seq<u8>) -> int {
    if exists|w: int| is_first_double_zero(buf, w) {
        choose|w: int| is_first_double_zero(buf, w)
    } else {
        buf.len() as int
    }
}

/// `buf[from..end]` split after every zero byte, as `split_inclusive` does;
/// a last piece without zero byte is kept.
pub open spec fn inclusive_pieces(buf: Seq<u8>, from: int, end: int) -> Seq<(int, int)>
    decreases end - from,
{
    if from < 0 || from >= end || end > buf.len() {
        Seq::empty()
    } else if exists|i: int| is_next_zero(buf.take(end), from, i) {
        let i = choose|i: int| is_next_zero(buf.take(end), from, i);
        proof {
            assert(is_next_zero(buf.take(end), from, i));
            assert(buf.take(end).len() == end);
        }
        seq![(from, i + 1)] + inclusive_pieces(buf, i + 1, end)
    } else {
        seq![(from, end)]
    }
}

/// The pieces of `buf[from..end]` follow one another from `from` to `end`;
/// each but the last ends right after a zero byte, and no piece holds a zero
/// byte before its last byte.
pub proof fn lemma_inclusive_pieces_shape(buf: Seq<u8>, from: int, end: int)
    requires
        0 <= from <= end <= buf.len(),
    ensures
        ({
            let r = inclusive_pieces(buf, from, end);
            &&& (r.len() == 0) == (from == end)
            &&& r.len() > 0 ==> r.last().1 == end
            &&& forall|k: int|
                0 <= k < r.len() ==> {
                    &&& from <= (#[trigger] r[k]).0 < r[k].1 <= end
                    &&& forall|j: int| r[k].0 <= j < r[k].1 - 1 ==> buf[j] != 0
                    &&& k < r.len() - 1 ==> buf[r[k].1 - 1] == 0
                    &&& k == 0 ==> r[k].0 == from
                    &&& k > 0 ==> r[k].0 == r[k - 1].1
                }
        }),
    decreases end - from,
{
    let r = inclusive_pieces(buf, from, end);
    let p = buf.take(end);
    if from < end {
        if exists|i: int| is_next_zero(p, from, i) {
            let i = choose|i: int| is_next_zero(p, from, i);
            assert(is_next_zero(p, from, i));
            lemma_inclusive_pieces_shape(buf, i + 1, end);
            let t = inclusive_pieces(buf, i + 1, end);
            assert(r == seq![(from, i + 1)] + t);
            assert forall|j: int| from <= j < i implies buf[j] != 0 by {
                assert(p[j] == buf[j]);
            }
            assert(buf[i] == p[i]);
            assert forall|k: int| 0 <= k < r.len() implies {
                &&& from <= (#[trigger] r[k]).0 < r[k].1 <= end
                &&& forall|j: int| r[k].0 <= j < r[k].1 - 1 ==> buf[j] != 0
                &&& k < r.len() - 1 ==> buf[r[k].1 - 1] == 0
                &&& k == 0 ==> r[k].0 == from
                &&& k > 0 ==> r[k].0 == r[k - 1].1
            } by {
                if k > 0 {
                    assert(r[k] == t[k - 1]);
                    if k > 1 {
                        assert(r[k - 1] == t[k - 2]);
                    }
                }
            }
            if t.len() > 0 {
                assert(r.last() == t.last());
            } else {
                assert(i + 1 == end);
            }
        } else {
            assert(r == seq![(from, end)]);
            assert forall|j: int| from <= j < end - 1 implies buf[j] != 0 by {
                assert(p[j] == buf[j]);
                if buf[j] == 0 {
                    lemma_next_zero_exists(p, from, j);
                }
            }
        }
    }
}

/// The messages end at the first two consecutive zero bytes, or at the end
/// of the buffer where there are none.
pub proof fn lemma_messages_end(buf: Seq<u8>)
    ensures
        0 <= messages_end(buf) <= buf.len(),
        forall|w: int| 0 <= w < messages_end(buf) && w + 1 < buf.len() ==> !(buf[w] == 0 && #[trigger] buf[w + 1] == 0),
        messages_end(buf) < buf.len() ==> messages_end(buf) + 1 < buf.len() && buf[messages_end(buf)] == 0
            && buf[messages_end(buf) + 1] == 0,
{
    if exists|w: int| is_first_double_zero(buf, w) {
        let w = choose|w: int| is_first_double_zero(buf, w);
        assert(is_first_double_zero(buf, w));
    } else {
        assert forall|w: int| 0 <= w < messages_end(buf) && w + 1 < buf.len() implies !(buf[w] == 0
            && #[trigger] buf[w + 1] == 0) by {
            if buf[w] == 0 && buf[w + 1] == 0 {
                lemma_double_zero_exists(buf, w);
            }
        }
    }
}

proof fn lemma_double_zero_exists(buf: Seq<u8>, w: int)
    requires
        0 <= w,
        w + 1 < buf.len(),
        buf[w] == 0 && buf[w + 1] == 0,
    ensures
        exists|v: int| is_first_double_zero(buf, v),
    decreases w,
{
    if exists|v: int| 0 <= v < w && buf[v] == 0 && #[trigger] buf[v + 1] == 0 {
        let v = choose|v: int| 0 <= v < w && buf[v] == 0 && #[trigger] buf[v + 1] == 0;
        lemma_double_zero_exists(buf, v);
    } else {
        assert(is_first_double_zero(buf, w));
    }
}

/// The ranges of `buffer` holding the COBS encoded messages that
/// `try_decode_messages` decodes: up to the first two consecutive zero bytes,
/// one range per message, each ending after its zero byte.
pub open spec fn message_frames(buf: Seq<u8>) -> Seq<(int, int)> {
    inclusive_pieces(buf, 0, messages_end(buf))
}

proof fn lemma_double_zero_unique(buf: Seq<u8>, w: int, v: int)
    requires
        is_first_double_zero(buf, w),
        is_first_double_zero(buf, v),
    ensures
        w == v,
{
    if w < v {
        assert(!(buf[w] == 0 && buf[w + 1] == 0));
    } else if v < w {
        assert(!(buf[v] == 0 && buf[v + 1] == 0));
    }
}

/// Where the messages of `buffer` end ([`messages_end`]).
fn find_messages_end(buffer: &[u8]) -> (r: usize)
    ensures
        r == messages_end(buffer@),
{
    let mut w: usize = 0;
    while w < buffer.len() && w + 1 < buffer.len()
        invariant
            w <= buffer@.len(),
            forall|j: int| 0 <= j < w ==> !(buffer@[j] == 0 && #[trigger] buffer@[j + 1] == 0),
        decreases buffer@.len() - w,
    {
        if buffer[w] == 0 && buffer[w + 1] == 0 {
            proof {
                assert(is_first_double_zero(buffer@, w as int));
                let v = choose|v: int| is_first_double_zero(buffer@, v);
                lemma_double_zero_unique(buffer@, w as int, v);
            }
            return w;
        }
        w = w + 1;
    }
    assert(!exists|v: int| is_first_double_zero(buffer@, v));
    buffer.len()
}

/// Finds the ranges of `buffer` holding COBS encoded messages
/// ([`message_frames`]).
pub fn message_frame_ranges(buffer: &[u8]) -> (r: Vec<Range<usize>>)
    ensures
        ranges_view(r@) == message_frames(buffer@),
{
    let end = find_messages_end(buffer);
    let ghost t = buffer@.take(end as int);
    let mut result: Vec<Range<usize>> = Vec::new();
    let mut from: usize = 0;
    assert(ranges_view(result@) =~= Seq::<(int, int)>::empty());
    while from < end
        invariant
            from <= end <= buffer@.len(),
            t == buffer@.take(end as int),
            end == messages_end(buffer@),
            message_frames(buffer@) == ranges_view(result@) + inclusive_pieces(
                buffer@,
                from as int,
                end as int,
            ),
        decreases end - from,
    {
        let mut i: usize = from;
        while i < end && buffer[i] != 0
            invariant
                from <= i <= end,
                end <= buffer@.len(),
                t == buffer@.take(end as int),
                forall|j: int| from <= j < i ==> t[j] != 0,
            decreases end - i,
        {
            i = i + 1;
        }
        let ghost before = ranges_view(result@);
        if i == end {
            assert(!exists|k: int| is_next_zero(t, from as int, k));
            result.push(Range { start: from, end });
            assert(ranges_view(result@) =~= before + seq![(from as int, end as int)]);
            return result;
        }
        proof {
            assert(is_next_zero(t, from as int, i as int));
            let k = choose|k: int| is_next_zero(t, from as int, k);
            lemma_next_zero_unique(t, from as int, i as int, k);
        }
        result.push(Range { start: from, end: i + 1 });
        assert(before + (seq![(from as int, i + 1)] + inclusive_pieces(buffer@, i + 1, end as int))
            =~= ranges_view(result@) + inclusive_pieces(buffer@, i + 1, end as int));
        from = i + 1;
    }
    assert(ranges_view(result@) + Seq::<(int, int)>::empty() =~= ranges_view(result@));
    result
}

} // verus!
