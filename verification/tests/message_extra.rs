use orouter_serial::encoding::HexDecodeError;
use orouter_serial::message::{
    message_frame_ranges, Error, FromStrError, RawIq, SerialMessage, StatusCode,
};
use orouter_serial::RAWIQ_DATA_LENGTH;

#[test]
fn raw_iq_samples_are_big_endian_pairs() {
    let bytes = [0x01, 0x02, 0xff, 0x00, 0x07];
    let iq = RawIq::new(&bytes);
    assert_eq!(iq.raw_data(), &bytes[..]);
    assert_eq!(iq.data(), vec![0x0102, 0xff00]);
}

#[test]
fn raw_iq_set_data_needs_full_length() {
    let short = [0u8; 4];
    let full = [0x10u8; RAWIQ_DATA_LENGTH];
    let mut iq = RawIq::new(&short);
    assert_eq!(
        iq.set_data(&full[..RAWIQ_DATA_LENGTH - 1]),
        Err(Error::RawIqDataIncorrectLength)
    );
    assert_eq!(iq.raw_data(), &short[..]);
    assert_eq!(iq.set_data(&full), Ok(()));
    assert_eq!(iq.raw_data().len(), RAWIQ_DATA_LENGTH);
    assert_eq!(iq.data().len(), RAWIQ_DATA_LENGTH / 2);
}

#[test]
fn message_status_codes_from_wire_values() {
    assert_eq!(StatusCode::try_from(1), Ok(StatusCode::FrameReceived));
    assert_eq!(StatusCode::try_from(6), Ok(StatusCode::RadioNotConfigured));
    assert_eq!(StatusCode::try_from(0), Err("Unknown StatusCode"));
    assert_eq!(
        StatusCode::ErrMessageQueueFull.description(),
        "Transmit queue is full, try sending SendData later again"
    );
}

#[test]
fn frame_ranges_stop_at_double_zero() {
    let data = [
        0x02, 0x05, 0x00, 0x01, 0x05, 0x03, 0xc0, 0xff, 0xee, 0x00, 0x00, 0x00, 0x00,
    ];
    assert_eq!(message_frame_ranges(&data), vec![0..3, 3..9]);
    let open_end = [0x02, 0x05, 0x00, 0x03, 0x01];
    assert_eq!(message_frame_ranges(&open_end), vec![0..3, 3..5]);
    assert_eq!(message_frame_ranges(&[]), vec![]);
}

#[test]
fn text_errors_of_serial_messages() {
    let mut data = [0u8; 256];
    assert_eq!(
        SerialMessage::new_from_str("status", &mut data),
        Err(FromStrError::MissingSeparator)
    );
    assert_eq!(
        SerialMessage::new_from_str("config@1", &mut data),
        Err(FromStrError::MissingSeparator)
    );
    assert_eq!(
        SerialMessage::new_from_str("hello@", &mut data),
        Err(FromStrError::InvalidMessage)
    );
    assert_eq!(
        SerialMessage::new_from_str("send@0xabc", &mut data),
        Err(FromStrError::InvalidPayloadLength)
    );
    let long = format!("send@{}", "00".repeat(256));
    assert_eq!(
        SerialMessage::new_from_str(&long, &mut data),
        Err(FromStrError::PayloadTooLong)
    );
    assert_eq!(
        SerialMessage::new_from_str("config@1|7|zz", &mut data),
        Err(FromStrError::InvalidHexConfigNetwork)
    );
    let bad_ts = "ts@soon";
    assert_eq!(
        SerialMessage::new_from_str(bad_ts, &mut data),
        Err(FromStrError::InvalidTimestamp(bad_ts))
    );
    assert_eq!(
        SerialMessage::new_from_str("get_rawiq@", &mut data),
        Ok(SerialMessage::GetRawIq)
    );
    assert_eq!(
        SerialMessage::new_from_str("uf@", &mut data),
        Ok(SerialMessage::UpgradeFirmwareRequest)
    );
}

#[test]
fn send_payload_is_decoded_into_the_buffer() {
    let mut data = [0x55u8; 4];
    let msg = SerialMessage::new_from_str("send@0A0b", &mut data).unwrap();
    match msg {
        SerialMessage::SendData(s) => assert_eq!(s.data, &[0x0a, 0x0b]),
        other => panic!("unexpected {:?}", other),
    }
    assert_eq!(data, [0x0a, 0x0b, 0x55, 0x55]);
}

#[test]
fn hex_decode_error_values() {
    let e = HexDecodeError::InvalidLength { length: 3 };
    assert_eq!(e, HexDecodeError::InvalidLength { length: 3 });
}

#[test]
fn serial_text_commands_that_cannot_be_read() {
    assert!(SerialMessage::can_read_from_str("config@1|7|aacc", 256));
    assert!(!SerialMessage::can_read_from_str("config@1|x|aacc", 256));
    assert!(!SerialMessage::can_read_from_str("send@aabb", 1));
    assert!(SerialMessage::can_read_from_str("send@aabb", 2));
    assert!(SerialMessage::can_read_from_str("send@aab", 1));
    assert!(SerialMessage::can_read_from_str("ts@soon", 0));
}
