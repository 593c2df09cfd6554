use orouter_serial::overline_host::{
    Error, Message, MessageReader, StatusCode, BLE_SERIAL_DELIMITER, COBS_SENTINEL,
    DEFAULT_MAX_MESSAGE_QUEUE_LENGTH, MAX_HEX_ENCODED_FRAMES_COUNT, MAX_SERIAL_FRAME_LENGTH,
};
use orouter_serial::MAX_LORA_PAYLOAD_LENGTH;
use rand::{thread_rng, Rng};

type Reader = MessageReader<DEFAULT_MAX_MESSAGE_QUEUE_LENGTH>;

#[test]
fn host_test_msg_len() {
    assert_eq!(
        8,
        Message::Report {
            region: 0x01,
            sn: 12345678u32,
            receive_queue_size: 1,
            transmit_queue_size: 3
        }
        .len()
    );
    assert_eq!(1, Message::ReportRequest.len());
    assert_eq!(2, Message::Configure { region: 0x1 }.len());
    assert_eq!(
        3,
        Message::SendData {
            data: vec![0xff, 0xee]
        }
        .len()
    );
    assert_eq!(
        5,
        Message::ReceiveData {
            data: vec![0xde, 0xad, 0xbe, 0xef]
        }
        .len()
    );
}

#[test]
fn host_test_process_with_no_bytes_is_empty() {
    let mut cr = Reader::new();
    assert_eq!(cr.process_bytes(&[][..]).unwrap().len(), 0);
}

#[test]
fn host_test_process_with_no_full_message_is_empty() {
    let mut cr = Reader::new();
    assert_eq!(cr.process_bytes(&[0x01, 0x02][..]).unwrap().len(), 0);
}

#[test]
fn test_broken_case_1() {
    let encoded = &[
        0xaa, 0xd6, 0xbb, 0x28, 0x44, 0xf8, 0x47, 0xfd, 0xf7, 0xd8, 0x25, 0xfe, 0x74, 0x07,
        0xd6, 0x39, 0x1a, 0xce, 0xcd, 0xa2, 0xfb, 0xbf, 0xa1, 0xe0, 0x26, 0x60, 0x49, 0x7b,
        0x84, 0x97, 0x5b, 0x75, 0x5d, 0xd8, 0xe7, 0x3e, 0xd6, 0x25, 0x90, 0x5a, 0x21, 0x03,
        0x77, 0x68, 0xcf, 0xf2, 0xff, 0x5c, 0xe3, 0x5c, 0x77, 0x59, 0x6e, 0x59, 0x0c, 0xcc,
        0x23, 0x44, 0x1e, 0xe4, 0x78, 0x4d, 0xe7, 0x97, 0x13, 0x4d, 0xe9, 0x2e, 0xc0, 0x8b,
        0xb0, 0x46, 0xd2, 0x3a, 0x27, 0x3a, 0xd5, 0x2f, 0xdb, 0x96, 0x29, 0x92, 0x2f, 0x5e,
        0x79, 0x9f, 0x6f, 0x66, 0x6b, 0x6d, 0xd7, 0xa9, 0x7f, 0x0f, 0xae, 0x64, 0x75, 0x80,
        0x2b, 0xca, 0xba, 0xd7, 0xf6, 0x8c, 0x1c, 0xcf, 0xe9, 0x67, 0xb6, 0xdb, 0x1a, 0x27,
        0x10, 0x3a, 0xf3, 0xa4, 0x1d, 0x00, 0xb2, 0x6d, 0x1e, 0x48, 0x59, 0xaf, 0x28, 0x1a,
        0x43, 0x3d, 0xe9, 0x9e, 0xe6, 0xc5, 0x06, 0xdd, 0x63, 0x9a, 0x1c, 0x72, 0xb9, 0x3f,
        0x76, 0x96, 0x63, 0xf4, 0x8a, 0x5b, 0x7b, 0x3a, 0xb2, 0xd8, 0x9f, 0x90, 0x98, 0xfc,
        0x49, 0x71, 0x1d, 0x79, 0xae, 0x88, 0x74, 0x1a, 0xe7, 0xdf, 0x43, 0x04, 0x66, 0xd3,
        0xe5, 0x24, 0x92, 0xec, 0xde, 0xe4, 0x15, 0x4b, 0x4d, 0xbe, 0x09, 0x02, 0x13, 0x41,
        0x2a, 0xcf, 0x38, 0xe8, 0x01, 0x91, 0xb5, 0x1b, 0xa8, 0xc5, 0xcd, 0xbb, 0xa8, 0x3a,
        0xaa, 0xd0, 0x80, 0xf7, 0x80, 0xee, 0x64, 0xde, 0xa8, 0xe7, 0xa4, 0xd0, 0x47, 0x05,
        0xdc, 0x50, 0xf6, 0x33, 0x40, 0xe8, 0x90, 0xaa, 0x7a, 0xe5, 0x71, 0x32, 0x1a, 0x2a,
        0xfd, 0xc7, 0x4b, 0x3d, 0x85, 0xb2, 0x0d, 0x58, 0x09, 0xdb, 0xaf, 0x70, 0x31, 0x22,
        0xf1, 0x1d, 0x92, 0x81, 0x19, 0x44, 0x92, 0xe5, 0x8d, 0xb5, 0xad, 0x64, 0x24, 0x7b,
        0xf4, 0x3b, 0xf8,
    ];
    let msg = Message::SendData {
        data: encoded.to_vec(),
    };

    let frames = msg.as_cobs_encoded_serial_frames().unwrap();

    assert_eq!(frames.len(), 3);

    let result = &frames[0];
    let last_frame = &frames.last().unwrap();
    assert_eq!(result.len(), MAX_SERIAL_FRAME_LENGTH);
    for b in &result[0..result.len() - 2] {
        assert_ne!(0x00, *b);
    }
    assert_eq!(Some(&0x00), last_frame.last());
}

#[test]
fn host_test_single_message_decoding() {
    let encoded = &[0x03, 0xc2, 0xff, 0x00];
    let mut cr = Reader::new();
    let messages = cr.process_bytes(&encoded[..]).unwrap();

    let expected_msg_0 = Message::Configure { region: 255u8 };
    assert_eq!(messages.len(), 1);
    assert_eq!(messages[0], expected_msg_0);
}

#[test]
fn host_test_multiple() {
    let mut encoded_buffer = [128; 32];
    let mut start = 0;
    for msg in vec![vec![0xc0, 0xff, 0xee], vec![0xc1, 0xde, 0xad, 0xbe, 0xef]] {
        let written = cobs::encode(&msg, &mut encoded_buffer[start..]);
        encoded_buffer[start + written] = 0x00;
        start = start + written + 1;
    }

    let mut cr = Reader::new();
    let messages = cr.process_bytes(&encoded_buffer[..]).unwrap();
    assert_eq!(messages.len(), 2);
    assert_eq!(
        messages[0],
        Message::SendData {
            data: vec![0xff, 0xee]
        }
    );
    assert_eq!(
        messages[1],
        Message::ReceiveData {
            data: vec![0xde, 0xad, 0xbe, 0xef]
        }
    );
}

#[test]
fn host_test_more_than_queue_capacity() {
    let mut encoded_buffer = [128; 32];
    let mut start = 0;
    for msg in vec![
        vec![0xc0, 0xff, 0xee],
        vec![0xc0, 0xff, 0xee],
        vec![0xc0, 0xff, 0xee],
        vec![0xc0, 0xff, 0xee],
        vec![0xc0, 0xff, 0xee],
    ] {
        let written = cobs::encode(&msg, &mut encoded_buffer[start..]);
        encoded_buffer[start + written] = 0x00;
        start = start + written + 1;
    }
    let mut cr = Reader::new();
    let err = cr.process_bytes(&encoded_buffer[..]);
    assert_eq!(err, Err(Error::MessageQueueFull));
}

#[test]
fn test_single_message_encoding_as_cobs_encoded_serial_frames() {
    let expected = &[0x03, 0xc2, 0xff, 0x00];
    let msg = Message::Configure { region: 255u8 };
    let frames = msg.as_cobs_encoded_serial_frames().unwrap();

    assert_eq!(frames.len(), 1);
    let result = &frames[0];
    assert_eq!(result, expected);
}

#[test]
fn host_test_max_len_data_message_encoding() {
    let mut arr = [0u8; MAX_LORA_PAYLOAD_LENGTH];
    thread_rng().try_fill(&mut arr[..]).unwrap();

    let msg = Message::SendData { data: arr.to_vec() };

    let frames = msg.as_cobs_encoded_serial_frames().unwrap();
    assert_eq!(frames.len(), 3);

    let last_frame = &frames.last().unwrap();
    assert_eq!(last_frame.last().unwrap(), &COBS_SENTINEL);
}

#[test]
fn host_test_ltrim_ok() {
    let mut cr = Reader::new();
    let buf = b"%DISCONNECT%";
    cr.process_bytes(buf.as_ref()).unwrap();
    let res = cr.ltrim(buf.len());
    assert_eq!(Ok(()), res);
}

#[test]
fn host_test_ltrim_err() {
    let mut cr = Reader::new();
    let buf = b"%DISCONNECT%";
    cr.process_bytes(buf.as_ref()).unwrap();
    let err = cr.ltrim(buf.len() + 1);
    assert_eq!(err, Err(Error::BufferLengthNotSufficient));
}

#[test]
fn host_test_single_message_encoding_as_cobs_encoded_frames_for_ble() {
    let expected = &[0x03, 0xc2, 0xff, 0x00];
    let msg = Message::Configure { region: 255u8 };
    let hex_frames = msg.as_cobs_encoded_frames_for_ble('%').unwrap();

    assert_eq!(hex_frames.len(), 1);
    let hex_frame = &hex_frames[0];
    let mut decoded = vec![0u8; expected.len()];
    base16::decode_slice(&hex_frame.clone()[1..hex_frame.len() - 1], &mut decoded).unwrap();
    assert_eq!(decoded, expected);
}

#[test]
fn host_test_message_reader_process_bytes_hex() {
    let msg = Message::Configure { region: 255u8 };
    let hex_frames = msg.as_cobs_encoded_frames_for_ble('%').unwrap();

    assert_eq!(hex_frames.len(), 1);
    let hex_frame = hex_frames[0].clone();
    let mut cr = Reader::new();
    let messages = cr
        .process_bytes_hex(&hex_frame[1..hex_frame.len() - 1])
        .unwrap();
    assert_eq!(messages.len(), 1);
    assert_eq!(messages[0], msg);
}

#[test]
fn host_test_max_message_length_as_cobs_encoded_frames_for_ble() {
    let mut arr = [0u8; MAX_LORA_PAYLOAD_LENGTH];
    thread_rng().try_fill(&mut arr[..]).unwrap();

    let msg = Message::SendData { data: arr.to_vec() };

    let frames = msg
        .as_cobs_encoded_frames_for_ble(BLE_SERIAL_DELIMITER)
        .unwrap();
    assert_eq!(frames.len(), MAX_HEX_ENCODED_FRAMES_COUNT);
}

#[test]
fn host_test_status_code_encoding() {
    let msg = Message::Status {
        code: StatusCode::ErrBusyLoraTransmitting,
    };
    let encoded = msg.encode().unwrap();
    let mut mr = Reader::new();
    let messages = mr.process_bytes(&encoded[..]).unwrap();
    assert_eq!(messages.len(), 1);
    assert_eq!(messages[0], msg);
}

#[test]
fn host_test_message_parse_status() {
    let msg = Message::from_str("status@").unwrap();
    assert_eq!(msg, Message::ReportRequest);
}

#[test]
fn host_test_message_parse_send_data() {
    let msg = Message::from_str("send@0xAABB").unwrap();
    assert_eq!(
        msg,
        Message::SendData {
            data: vec![0xaa, 0xbb]
        }
    );

    let msg = Message::from_str("send@ccdd").unwrap();
    assert_eq!(
        msg,
        Message::SendData {
            data: vec![0xcc, 0xdd]
        }
    );
}

#[test]
fn host_test_message_parse_config() {
    let msg = Message::from_str("config@1").unwrap();
    assert_eq!(msg, Message::Configure { region: 1 });
}
