use orouter_serial::encoding::HexDecodeError;
use orouter_serial::host::codec::{
    Bgx13Codec, Bt4502Codec, CodecError, Rn4870Codec, UsbCodec, WireCodec,
};
use orouter_serial::host::{
    calculate_cobs_overhead, Error, Message, MessageReader, ParseMessageError, StatusCode,
    DEFAULT_MAX_MESSAGE_QUEUE_LENGTH, MAX_MESSAGE_LENGTH, RAWIQ_DATA_LENGTH,
};

type Reader = MessageReader<MAX_MESSAGE_LENGTH, DEFAULT_MAX_MESSAGE_QUEUE_LENGTH>;

fn sample_messages() -> Vec<Message> {
    vec![
        Message::SendData {
            data: vec![0x00, 0x01, 0x00, 0xff],
        },
        Message::ReceiveData { data: vec![0xaa; 255] },
        Message::Configure {
            region: 0,
            spreading_factor: 12,
        },
        Message::ReportRequest,
        Message::Report {
            sn: 0x0102_0304,
            version_data: vec![0, 1, 2, 3, 4, 5, 6, 7, 8],
            region: 1,
            spreading_factor: 9,
            receive_queue_size: 0,
            transmit_queue_size: 2,
        },
        Message::Status {
            code: StatusCode::RadioNotConfigured,
        },
        Message::UpgradeFirmwareRequest,
        Message::SetTimestamp {
            timestamp: 0x0011_2233_4455_6677,
        },
        Message::GetRawIq,
        Message::RawIq {
            data: vec![0x5a; RAWIQ_DATA_LENGTH],
        },
    ]
}

fn same_message(m: &Message) -> Message {
    match m {
        Message::SendData { data } => Message::SendData { data: data.clone() },
        Message::ReceiveData { data } => Message::ReceiveData { data: data.clone() },
        Message::Configure {
            region,
            spreading_factor,
        } => Message::Configure {
            region: *region,
            spreading_factor: *spreading_factor,
        },
        Message::ReportRequest => Message::ReportRequest,
        Message::Report {
            sn,
            version_data,
            region,
            spreading_factor,
            receive_queue_size,
            transmit_queue_size,
        } => Message::Report {
            sn: *sn,
            version_data: version_data.clone(),
            region: *region,
            spreading_factor: *spreading_factor,
            receive_queue_size: *receive_queue_size,
            transmit_queue_size: *transmit_queue_size,
        },
        Message::Status { code } => Message::Status { code: *code },
        Message::UpgradeFirmwareRequest => Message::UpgradeFirmwareRequest,
        Message::SetTimestamp { timestamp } => Message::SetTimestamp {
            timestamp: *timestamp,
        },
        Message::GetRawIq => Message::GetRawIq,
        Message::RawIq { data } => Message::RawIq { data: data.clone() },
    }
}

#[test]
fn encoded_messages_are_read_back() {
    for m in sample_messages() {
        let encoded = m.encode().unwrap();
        let mut reader = MessageReader::<MAX_MESSAGE_LENGTH, 1>::new();
        let mut read = Vec::new();
        for chunk in encoded.chunks(256) {
            read.extend(reader.process_bytes::<UsbCodec>(chunk).unwrap());
        }
        assert_eq!(read, vec![same_message(&m)]);
        assert!(reader.is_empty());
    }
}

#[test]
fn message_bytes_are_read_back() {
    for m in sample_messages() {
        let bytes = m.as_bytes().unwrap();
        assert_eq!(bytes.len(), m.len());
        assert_eq!(Message::try_from(&bytes).unwrap(), m);
    }
}

#[test]
fn usb_frames_are_read_back() {
    let m = Message::ReceiveData { data: vec![0x11; 255] };
    let frames = m.as_frames::<UsbCodec>().unwrap();
    assert_eq!(frames.len(), 2);
    let mut reader = Reader::new();
    assert_eq!(reader.process_bytes::<UsbCodec>(&frames[0]).unwrap(), vec![]);
    assert_eq!(
        reader.process_bytes::<UsbCodec>(&frames[1]).unwrap(),
        vec![same_message(&m)]
    );
}

#[test]
fn rn4870_frames_are_read_back() {
    let m = Message::SendData { data: vec![0xfe; 255] };
    let frames = m.as_frames::<Rn4870Codec>().unwrap();
    assert_eq!(frames.len(), 5);
    let mut reader = Reader::new();
    let mut read = Vec::new();
    for f in &frames {
        assert_eq!(f[0], b'%');
        assert_eq!(f[f.len() - 1], b'%');
        read.extend(
            reader
                .process_bytes::<Rn4870Codec>(&f[1..f.len() - 1])
                .unwrap(),
        );
    }
    assert_eq!(read, vec![m]);
}

#[test]
fn rn4870_frame_is_lower_case_hex_of_encoding() {
    let m = Message::Configure {
        region: 0xab,
        spreading_factor: 7,
    };
    let frames = m.as_frames::<Rn4870Codec>().unwrap();
    assert_eq!(frames, vec![b"%04c2ab0700%".to_vec()]);
}

#[test]
fn encode_gives_cobs_bytes_and_sentinel() {
    let m = Message::SendData {
        data: vec![0x00, 0x11, 0x00],
    };
    assert_eq!(
        m.encode().unwrap(),
        vec![0x02, 0xc0, 0x02, 0x11, 0x01, 0x00]
    );
    let mut buf = [0xeeu8; 7];
    assert_eq!(m.encode_to_slice(&mut buf).unwrap(), 6);
    assert_eq!(buf.to_vec(), vec![0x02, 0xc0, 0x02, 0x11, 0x01, 0x00, 0xee]);
}

#[test]
fn encode_to_slice_refuses_short_buffer() {
    let m = Message::Configure {
        region: 255,
        spreading_factor: 7,
    };
    let mut short = [0u8; 2];
    assert_eq!(m.encode_to_slice(&mut short), Err(Error::CobsEncodeError));
    let mut exact = [0u8; 4];
    assert_eq!(m.try_encode_to_slice(&mut exact), None);
    assert_eq!(exact, [0u8; 4]);
    let mut roomy = [0u8; 5];
    assert_eq!(m.try_encode_to_slice(&mut roomy), Some(Ok(5)));
    assert_eq!(roomy, [0x04, 0xc2, 0xff, 0x07, 0x00]);
}

#[test]
fn try_from_cobs_reads_an_encoded_message() {
    let m = Message::SetTimestamp {
        timestamp: 1629896485,
    };
    let mut encoded = m.encode().unwrap();
    let n = encoded.len();
    assert_eq!(Message::try_from_cobs(&mut encoded[..n - 1]).unwrap(), m);
}

#[test]
fn status_codes_round_trip() {
    for code in [
        StatusCode::FrameReceived,
        StatusCode::CommandReceived,
        StatusCode::ErrUnknownCommmandReceived,
        StatusCode::ErrBusyLoraTransmitting,
        StatusCode::ErrMessageQueueFull,
        StatusCode::RadioNotConfigured,
    ] {
        assert_eq!(StatusCode::try_from(code.value()), Ok(code));
    }
    assert_eq!(StatusCode::ErrBusyLoraTransmitting.value(), 4);
    assert_eq!(StatusCode::FrameReceived.value(), 2);
    assert_eq!(StatusCode::try_from(1), Ok(StatusCode::CommandReceived));
    assert!(StatusCode::try_from(0).is_err());
    assert!(StatusCode::try_from(7).is_err());
    assert_eq!(
        StatusCode::RadioNotConfigured.description(),
        "Error: radio is not configured"
    );
}

#[test]
fn cobs_overhead_formula() {
    assert_eq!(calculate_cobs_overhead(0), 4);
    assert_eq!(calculate_cobs_overhead(1), 5);
    assert_eq!(calculate_cobs_overhead(253), 257);
    assert_eq!(calculate_cobs_overhead(254), 259);
    assert_eq!(calculate_cobs_overhead(255), 260);
    assert_eq!(calculate_cobs_overhead(RAWIQ_DATA_LENGTH), MAX_MESSAGE_LENGTH);
}

#[test]
fn reader_status_frame_from_docs() {
    let test_data: [u8; 4] = [0x03, 0xc5, 0x02, 0x00];
    let mut reader = MessageReader::<2060, 17>::default();
    let messages = reader.process_bytes::<UsbCodec>(&test_data[..]).unwrap();
    assert_eq!(
        messages.get(0),
        Some(Message::Status {
            code: StatusCode::FrameReceived
        })
        .as_ref()
    );
}

#[test]
fn text_command_encodes_and_frames() {
    let message = Message::from_str("config@1|7").unwrap();
    assert_eq!(message.encode().unwrap(), vec![0x04, 0xc2, 0x01, 0x07, 0x00]);
    let frames = message.as_frames::<UsbCodec>().unwrap();
    assert_eq!(frames, vec![vec![0x04, 0xc2, 0x01, 0x07, 0x00]]);
}

#[test]
fn reader_keeps_partial_frames() {
    let mut reader = Reader::new();
    assert_eq!(reader.process_bytes::<UsbCodec>(&[0x03, 0xc5]).unwrap(), vec![]);
    assert!(!reader.is_empty());
    assert_eq!(
        reader.process_bytes::<UsbCodec>(&[0x01, 0x00]).unwrap(),
        vec![Message::Status {
            code: StatusCode::CommandReceived
        }]
    );
    assert!(reader.is_empty());
    reader.process_bytes::<UsbCodec>(&[0x05]).unwrap();
    reader.reset();
    assert!(reader.is_empty());
}

#[test]
fn reader_error_buffer_full() {
    let mut reader = MessageReader::<4, 3>::new();
    assert_eq!(
        reader.process_bytes::<UsbCodec>(&[1, 2, 3, 4, 5]),
        Err(Error::BufferFull)
    );
    assert!(reader.is_empty());
}

#[test]
fn reader_error_malformed_message() {
    let mut reader = Reader::new();
    assert_eq!(
        reader.process_bytes::<UsbCodec>(&[0x02, 0x01, 0x00]),
        Err(Error::MalformedMessage)
    );
}

#[test]
fn reader_error_usb_frame_too_long() {
    let mut reader = Reader::new();
    assert_eq!(
        reader.process_bytes::<UsbCodec>(&[1u8; 257]),
        Err(Error::CodecError(CodecError::DecodeError))
    );
}

#[test]
fn reader_error_malformed_hex() {
    let mut reader = Reader::new();
    assert_eq!(
        reader.process_bytes::<Rn4870Codec>(b"0g"),
        Err(Error::CodecError(CodecError::MalformedHex(
            HexDecodeError::InvalidByte {
                index: 1,
                byte: b'g'
            }
        )))
    );
    assert_eq!(
        reader.process_bytes::<Rn4870Codec>(b"012"),
        Err(Error::CodecError(CodecError::MalformedHex(
            HexDecodeError::InvalidLength { length: 3 }
        )))
    );
}

#[test]
fn text_command_errors() {
    assert_eq!(
        Message::from_str("status"),
        Err(ParseMessageError::MissingSeparator)
    );
    assert_eq!(
        Message::from_str("reboot@"),
        Err(ParseMessageError::InvalidMessage)
    );
    assert_eq!(
        Message::from_str("send@abc"),
        Err(ParseMessageError::InvalidPayloadLength)
    );
    let long = format!("send@{}", "ab".repeat(256));
    assert_eq!(
        Message::from_str(&long),
        Err(ParseMessageError::PayloadTooLong)
    );
    assert_eq!(
        Message::from_str("config@1"),
        Err(ParseMessageError::MissingSeparator)
    );
    assert_eq!(Message::from_str("get_rawiq@"), Ok(Message::GetRawIq));
    assert_eq!(Message::from_str("uf@"), Ok(Message::UpgradeFirmwareRequest));
}

#[test]
fn codec_delimiters_and_small_frames() {
    assert_eq!(Rn4870Codec::message_delimiter(), Some('%'));
    assert_eq!(UsbCodec::message_delimiter(), None);
    let frames = Bgx13Codec::get_frames(&mut [7u8; 65]).unwrap();
    assert_eq!(frames.len(), 3);
    assert_eq!(frames[2], vec![7u8]);
    let frames = Bt4502Codec::get_frames(&mut [9u8; 241]).unwrap();
    assert_eq!(frames.len(), 2);
}

#[test]
fn text_commands_that_cannot_be_read() {
    assert!(Message::can_read_from_str("config@1|7"));
    assert!(!Message::can_read_from_str("config@x|7"));
    assert!(!Message::can_read_from_str("config@1|"));
    assert!(!Message::can_read_from_str("ts@soon"));
    assert!(Message::can_read_from_str("ts@12"));
    assert!(Message::can_read_from_str("send@zz"));
    assert!(Message::can_read_from_str("nothing"));
}

#[test]
fn full_payload_takes_two_usb_frames_and_five_ble_frames() {
    for fill in [0x00u8, 0x01, 0xff] {
        let msg = Message::SendData { data: vec![fill; 255] };
        let usb = msg.as_frames::<UsbCodec>().unwrap();
        assert_eq!(usb.len(), 2);
        assert_eq!(usb[1].last(), Some(&0x00));
        let ble = msg.as_frames::<Rn4870Codec>().unwrap();
        assert_eq!(ble.len(), 5);
    }
}
