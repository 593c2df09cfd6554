use orouter_serial::encoding::HexDecodeError;
use orouter_serial::overline_host::{
    Error, Message, MessageReader, ParseMessageError, StatusCode,
};

type Reader = MessageReader<3>;

fn samples() -> Vec<Message> {
    vec![
        Message::SendData {
            data: vec![0, 1, 0, 2],
        },
        Message::ReceiveData { data: vec![0x77; 255] },
        Message::Configure { region: 0 },
        Message::ReportRequest,
        Message::Report {
            sn: 0xdead_beef,
            region: 3,
            receive_queue_size: 0,
            transmit_queue_size: 9,
        },
        Message::Status {
            code: StatusCode::ErrMessageQueueFull,
        },
        Message::GetNoise,
        Message::Noise {
            rssi_value: 0,
            rssi_wideband: 200,
        },
        Message::UpgradeFirmwareRequest,
    ]
}

#[test]
fn overline_host_messages_read_back() {
    for m in samples() {
        let mut encoded = m.encode().unwrap();
        assert!(encoded.len() < 260);
        let n = encoded.len();
        assert_eq!(Message::try_from(&mut encoded[..n - 1]), Ok(samples_copy(&m)));
        let mut reader = Reader::new();
        let mut read = Vec::new();
        for frame in m.as_cobs_encoded_serial_frames().unwrap() {
            read.extend(reader.process_bytes(&frame).unwrap());
        }
        assert_eq!(read, vec![samples_copy(&m)]);
        let mut reader = Reader::new();
        let mut read = Vec::new();
        for frame in m.as_cobs_encoded_frames_for_ble('#').unwrap() {
            assert_eq!(frame[0], b'#');
            assert_eq!(frame[frame.len() - 1], b'#');
            read.extend(reader.process_bytes_hex(&frame[1..frame.len() - 1]).unwrap());
        }
        assert_eq!(read, vec![m]);
    }
}

fn samples_copy(m: &Message) -> Message {
    match m {
        Message::SendData { data } => Message::SendData { data: data.clone() },
        Message::ReceiveData { data } => Message::ReceiveData { data: data.clone() },
        Message::Configure { region } => Message::Configure { region: *region },
        Message::ReportRequest => Message::ReportRequest,
        Message::Report {
            sn,
            region,
            receive_queue_size,
            transmit_queue_size,
        } => Message::Report {
            sn: *sn,
            region: *region,
            receive_queue_size: *receive_queue_size,
            transmit_queue_size: *transmit_queue_size,
        },
        Message::Status { code } => Message::Status { code: *code },
        Message::GetNoise => Message::GetNoise,
        Message::Noise {
            rssi_value,
            rssi_wideband,
        } => Message::Noise {
            rssi_value: *rssi_value,
            rssi_wideband: *rssi_wideband,
        },
        Message::UpgradeFirmwareRequest => Message::UpgradeFirmwareRequest,
    }
}

#[test]
fn overline_host_report_bytes() {
    let m = Message::Report {
        sn: 0x0102_0304,
        region: 5,
        receive_queue_size: 6,
        transmit_queue_size: 7,
    };
    assert_eq!(
        m.encode().unwrap(),
        vec![0x09, 0xc4, 0x01, 0x02, 0x03, 0x04, 0x05, 0x06, 0x07, 0x00]
    );
}

#[test]
fn overline_host_reader_errors() {
    let mut reader = Reader::new();
    assert_eq!(
        reader.process_bytes(&[1u8; 793]),
        Err(Error::BufferFull)
    );
    assert_eq!(
        reader.process_bytes(&[0x02, 0x01, 0x00]),
        Err(Error::MalformedMessage)
    );
    reader.reset();
    assert_eq!(
        reader.process_bytes_hex(b"0"),
        Err(Error::MalformedHex(HexDecodeError::InvalidLength { length: 1 }))
    );
    assert_eq!(
        reader.process_bytes_hex(b"zz"),
        Err(Error::MalformedHex(HexDecodeError::InvalidByte {
            index: 0,
            byte: b'z'
        }))
    );
    assert_eq!(reader.try_process_bytes(&[0x02, 0xc5, 0x00]), None);
    assert_eq!(Message::try_from_checked(&mut [0x02, 0xc5]), None);
    assert_eq!(
        Message::try_from_checked(&mut [0x02, 0xc3]),
        Some(Ok(Message::ReportRequest))
    );
}

#[test]
fn overline_host_text_commands() {
    assert_eq!(Message::from_str("get_noise@"), Ok(Message::GetNoise));
    assert_eq!(Message::from_str("uf@"), Ok(Message::UpgradeFirmwareRequest));
    assert_eq!(
        Message::from_str("noise"),
        Err(ParseMessageError::MissingSeparator)
    );
    assert_eq!(
        Message::from_str("ping@"),
        Err(ParseMessageError::InvalidMessage)
    );
    assert_eq!(
        Message::from_str("send@abc"),
        Err(ParseMessageError::InvalidPayloadLength)
    );
    assert!(!Message::can_read_from_str("config@eu"));
    assert!(Message::can_read_from_str("config@3"));
    assert_eq!(
        StatusCode::ErrBusyLoraTransmitting.description(),
        "Error: cannot execute sent command - radio is currently busy transmitting"
    );
    assert_eq!(StatusCode::try_from(5), Ok(StatusCode::ErrMessageQueueFull));
    assert!(StatusCode::try_from(6).is_err());
}
