use orouter_serial::host::codec::{Rn4870Codec, UsbCodec};
use orouter_serial::host::{
    calculate_cobs_overhead, Error, Message, MessageReader, ParseMessageError, StatusCode,
    COBS_SENTINEL, DEFAULT_MAX_MESSAGE_QUEUE_LENGTH, MAX_MESSAGE_LENGTH,
};
use orouter_serial::MAX_LORA_PAYLOAD_LENGTH;
use rand::{thread_rng, Rng};

type Reader = MessageReader<MAX_MESSAGE_LENGTH, DEFAULT_MAX_MESSAGE_QUEUE_LENGTH>;

#[test]
fn mod_test_msg_len() {
    assert_eq!(
        18,
        Message::Report {
            region: 0x01,
            spreading_factor: 7,
            sn: 12345678u32,
            version_data: vec![0x01, 0x00, 0x01, 0x00, 0x04, 0x40, 0x6e, 0xd3, 0x01],
            receive_queue_size: 1,
            transmit_queue_size: 3
        }
        .len()
    );
    assert_eq!(1, Message::ReportRequest.len());
    assert_eq!(
        3,
        Message::Configure {
            region: 0x1,
            spreading_factor: 7
        }
        .len()
    );
    assert_eq!(
        3,
        Message::SendData {
            data: vec![0xff, 0xee]
        }
        .len()
    );
    assert_eq!(
        5,
        Message::ReceiveData {
            data: vec![0xde, 0xad, 0xbe, 0xef]
        }
        .len()
    );
}

#[test]
fn mod_test_process_with_no_bytes_is_empty() {
    let mut cr = Reader::new();
    assert_eq!(cr.process_bytes::<UsbCodec>(&[][..]).unwrap().len(), 0);
}

#[test]
fn mod_test_process_with_no_full_message_is_empty() {
    let mut cr = Reader::new();
    assert_eq!(
        cr.process_bytes::<UsbCodec>(&[0x01, 0x02][..])
            .unwrap()
            .len(),
        0
    );
}

#[test]
fn mod_test_single_message_decoding() {
    let encoded = &[0x04, 0xc2, 0xff, 0x07, 0x00];
    let mut cr = Reader::new();
    let messages = cr.process_bytes::<UsbCodec>(&encoded[..]).unwrap();

    let expected_msg_0 = Message::Configure {
        region: 255u8,
        spreading_factor: 7,
    };
    assert_eq!(messages.len(), 1);
    assert_eq!(messages[0], expected_msg_0);
}

#[test]
fn mod_test_multiple() {
    let mut encoded_buffer = [128; 32];
    let mut start = 0;
    for msg in vec![vec![0xc0, 0xff, 0xee], vec![0xc1, 0xde, 0xad, 0xbe, 0xef]] {
        let written = cobs::encode(&msg, &mut encoded_buffer[start..]);
        encoded_buffer[start + written] = 0x00;
        start = start + written + 1;
    }

    let mut cr = Reader::new();
    let messages = cr.process_bytes::<UsbCodec>(&encoded_buffer[..]).unwrap();
    assert_eq!(messages.len(), 2);
    assert_eq!(
        messages[0],
        Message::SendData {
            data: vec![0xff, 0xee]
        }
    );
    assert_eq!(
        messages[1],
        Message::ReceiveData {
            data: vec![0xde, 0xad, 0xbe, 0xef]
        }
    );
}

#[test]
fn mod_test_more_than_queue_capacity() {
    let mut encoded_buffer = [128; 32];
    let mut start = 0;
    for msg in vec![
        vec![0xc0, 0xff, 0xee],
        vec![0xc0, 0xff, 0xee],
        vec![0xc0, 0xff, 0xee],
        vec![0xc0, 0xff, 0xee],
        vec![0xc0, 0xff, 0xee],
    ] {
        let written = cobs::encode(&msg, &mut encoded_buffer[start..]);
        encoded_buffer[start + written] = 0x00;
        start = start + written + 1;
    }
    let mut cr = Reader::new();
    let err = cr.process_bytes::<UsbCodec>(&encoded_buffer[..]);
    assert_eq!(err, Err(Error::MessageQueueFull));
}

#[test]
fn test_single_message_encoding_as_cobs_encoded_usb_frames() {
    let expected = &[0x04, 0xc2, 0xff, 0x07, 0x00];
    let msg = Message::Configure {
        region: 255u8,
        spreading_factor: 7,
    };
    let frames = msg.as_frames::<UsbCodec>().unwrap();

    assert_eq!(frames.len(), 1);
    let result = &frames[0];
    assert_eq!(result, expected);
}

#[test]
fn mod_test_max_len_data_message_encoding() {
    let mut arr = [0u8; MAX_LORA_PAYLOAD_LENGTH];
    thread_rng().try_fill(&mut arr[..]).unwrap();

    let msg = Message::SendData { data: arr.to_vec() };

    let frames = msg.as_frames::<UsbCodec>().unwrap();
    assert_eq!(frames.len(), 2);

    let last_frame = &frames.last().unwrap();
    assert_eq!(last_frame.last().unwrap(), &COBS_SENTINEL);
}

#[test]
fn mod_test_ltrim_ok() {
    let mut cr = Reader::new();
    let buf = b"%DISCONNECT%";
    cr.process_bytes::<UsbCodec>(buf.as_ref()).unwrap();
    let res = cr.ltrim(buf.len());
    assert_eq!(Ok(()), res);
}

#[test]
fn mod_test_ltrim_err() {
    let mut cr = Reader::new();
    let buf = b"%DISCONNECT%";
    cr.process_bytes::<UsbCodec>(buf.as_ref()).unwrap();
    let err = cr.ltrim(buf.len() + 1);
    assert_eq!(err, Err(Error::BufferLengthNotSufficient));
}

#[test]
fn mod_test_single_message_encoding_as_cobs_encoded_frames_for_ble() {
    let expected = &[0x04, 0xc2, 0xff, 0x0c, 0x00];
    let msg = Message::Configure {
        region: 255u8,
        spreading_factor: 12,
    };
    let hex_frames = msg.as_frames::<Rn4870Codec>().unwrap();

    assert_eq!(hex_frames.len(), 1);
    let hex_frame = &hex_frames[0];
    let mut decoded = vec![0u8; expected.len()];
    base16::decode_slice(&hex_frame.clone()[1..hex_frame.len() - 1], &mut decoded).unwrap();
    assert_eq!(decoded, expected);
}

#[test]
fn mod_test_message_reader_process_bytes_hex() {
    let msg = Message::Configure {
        region: 255u8,
        spreading_factor: 7,
    };
    let hex_frames = msg.as_frames::<Rn4870Codec>().unwrap();

    assert_eq!(hex_frames.len(), 1);
    let hex_frame = hex_frames[0].clone();
    let mut cr = Reader::new();
    let messages = cr
        .process_bytes::<Rn4870Codec>(&hex_frame[1..hex_frame.len() - 1])
        .unwrap();
    assert_eq!(messages.len(), 1);
    assert_eq!(messages[0], msg);
}

#[test]
fn mod_test_max_message_length_as_cobs_encoded_frames_for_ble() {
    let mut arr = [0u8; MAX_LORA_PAYLOAD_LENGTH];
    thread_rng().try_fill(&mut arr[..]).unwrap();

    let msg = Message::SendData { data: arr.to_vec() };

    let frames = msg.as_frames::<Rn4870Codec>().unwrap();
    assert_eq!(frames.len(), 5);
}

#[test]
fn mod_test_status_code_encoding() {
    let msg = Message::Status {
        code: StatusCode::ErrBusyLoraTransmitting,
    };
    let encoded = msg.encode().unwrap();
    let mut mr = Reader::new();
    let messages = mr.process_bytes::<UsbCodec>(&encoded[..]).unwrap();
    assert_eq!(messages.len(), 1);
    assert_eq!(messages[0], msg);
}

#[test]
fn test_encode_to_slice_status() {
    let mut result = [0u8; 20];
    let msg = Message::Status {
        code: StatusCode::ErrBusyLoraTransmitting,
    };
    let result_len = msg.encode_to_slice(&mut result[..]).unwrap();
    assert_eq!(result[0..result_len], msg.encode().unwrap()[..]);
}

#[test]
fn test_encode_to_slice_receive_data() {
    let mut result = [0u8; 68];
    let msg = Message::ReceiveData {
        data: [0xab].repeat(64),
    };
    let result_len = msg.encode_to_slice(&mut result[..]).unwrap();
    assert_eq!(result[0..result_len], msg.encode().unwrap()[..]);
}

#[test]
fn test_encode_to_slice_report() {
    let mut result = [0u8; 68];
    let msg = Message::Report {
        sn: 0xa1a2a3a4,
        version_data: vec![0x01, 0x00, 0x01, 0x00, 0x04, 0x40, 0x6e, 0xd3, 0x01],
        region: 13,
        spreading_factor: 7,
        receive_queue_size: 17,
        transmit_queue_size: 25,
    };
    let result_len = msg.encode_to_slice(&mut result[..]).unwrap();
    assert_eq!(result[0..result_len], msg.encode().unwrap()[..]);
}

#[test]
fn mod_test_message_parse_status() {
    let msg = Message::from_str("status@").unwrap();
    assert_eq!(msg, Message::ReportRequest);
}

#[test]
fn mod_test_message_parse_send_data() {
    let msg = Message::from_str("send@0xAABB").unwrap();
    assert_eq!(
        msg,
        Message::SendData {
            data: vec![0xaa, 0xbb]
        }
    );

    let msg = Message::from_str("send@ccdd").unwrap();
    assert_eq!(
        msg,
        Message::SendData {
            data: vec![0xcc, 0xdd]
        }
    );
}

#[test]
fn mod_test_message_parse_config() {
    let msg = Message::from_str("config@1|7").unwrap();
    assert_eq!(
        msg,
        Message::Configure {
            region: 1,
            spreading_factor: 7
        }
    );
}

#[test]
fn mod_test_message_parse_config_invalid_sf() {
    let err = Message::from_str("config@1|6");
    assert_eq!(err, Err(ParseMessageError::InvalidMessage));

    let err = Message::from_str("config@1|13");
    assert_eq!(err, Err(ParseMessageError::InvalidMessage));
}

#[test]
fn mod_test_message_parse_ts() {
    let msg = Message::from_str("ts@1629896485").unwrap();
    assert_eq!(
        msg,
        Message::SetTimestamp {
            timestamp: 1629896485u64
        }
    );
}

#[test]
fn test_calculate_cobs_overhead_for_255() {
    let max_message_length = calculate_cobs_overhead(255);
    assert_eq!(max_message_length, 260);
}

#[test]
fn test_calculate_cobs_overhead_for_2048() {
    let max_message_length = calculate_cobs_overhead(2048);
    assert_eq!(max_message_length, 2060);
}

#[test]
fn test_calculate_cobs_overhead_for_4096() {
    let max_message_length = calculate_cobs_overhead(4096);
    assert_eq!(max_message_length, 4116);
}
