use orouter_serial::message::{
    get_possible_cobs_message_ranges, Configure, FromStrError, ReportRequest, SendData,
    SerialMessage, SetTimestamp,
};

#[test]
fn test_get_message_ranges() {
    let cobs_encoded_data = [
        0x02, 0x05, 0x00, 0x01, 0x05, 0x03, 0xc0, 0xff, 0xee, 0x00, 0x00, 0x00, 0x00,
    ];
    let message_ranges: Vec<_> = get_possible_cobs_message_ranges(&cobs_encoded_data[..])
        .into_iter()
        .collect();
    assert_eq!(message_ranges, vec![0..3, 3..10])
}

#[test]
fn message_test_message_parse_status() {
    let mut data = [0u8; 256];
    let msg = SerialMessage::new_from_str("status@", &mut data).unwrap();
    assert_eq!(msg, SerialMessage::ReportRequest(ReportRequest));
}

#[test]
fn message_test_message_parse_send_data() {
    let mut data = [0u8; 256];
    let msg = SerialMessage::new_from_str("send@0xAABB", &mut data).unwrap();
    assert_eq!(
        msg,
        SerialMessage::SendData(SendData {
            data: &[0xaa, 0xbb]
        })
    );

    let msg = SerialMessage::new_from_str("send@0xccdd", &mut data).unwrap();
    assert_eq!(
        msg,
        SerialMessage::SendData(SendData {
            data: &[0xcc, 0xdd]
        })
    );
}

#[test]
fn message_test_message_parse_config() {
    let mut data = [0u8; 256];
    let msg = SerialMessage::new_from_str("config@1|7|aacc", &mut data).unwrap();
    assert_eq!(
        msg,
        SerialMessage::Configure(Configure {
            region: 1,
            spreading_factor: 7,
            network: [0xaa, 0xcc]
        })
    );
}

#[test]
fn message_test_message_parse_config_invalid_sf() {
    let mut data = [0u8; 256];
    let err = SerialMessage::new_from_str("config@1|6|aacc", &mut data);
    assert_eq!(err, Err(FromStrError::InvalidMessage));

    let err = SerialMessage::new_from_str("config@1|13|ccaa", &mut data);
    assert_eq!(err, Err(FromStrError::InvalidMessage));
}

#[test]
fn message_test_message_parse_ts() {
    let mut data = [0u8; 256];
    let msg = SerialMessage::new_from_str("ts@1629896485", &mut data).unwrap();
    assert_eq!(
        msg,
        SerialMessage::SetTimestamp(SetTimestamp {
            timestamp: 1629896485u64
        })
    );
}

#[test]
#[should_panic(expected = "MissingConfigNetwork")]
fn test_message_parse_config_missing_network() {
    let mut data = [0u8; 256];
    SerialMessage::new_from_str("config@1|12", &mut data).unwrap();
}
