use orouter_serial::p2p::{
    Error, MessagePool, MessageSlicer, HEADER_LENGTH, MAX_LORA_MESSAGE_SIZE,
    MAX_OVERLINE_MESSAGE_LENGTH,
};

#[test]
fn test_pool_try_insert_1_of_1() {
    let mut p = MessagePool::default();
    //              prefix               | num | tot | len | data
    let msg1 = vec![0x01, 0x01, 0x02, 0x02, 0x01, 0x01, 0x03, 0xc0, 0xff, 0xee];

    let res = p.try_insert(msg1).unwrap().unwrap();
    assert_eq!(&res, &[0xc0, 0xff, 0xee]);
}

#[test]
fn test_pool_try_insert_1_of_2() {
    let mut p = MessagePool::default();
    let msg1 = vec![0x01, 0x01, 0x02, 0x02, 0x01, 0x02, 0x03, 0xc0, 0xff, 0xee];

    let res = p.try_insert(msg1).unwrap();
    assert_eq!(res, None);
}

#[test]
fn test_pool_try_insert_1_and_2_of_2() {
    let mut p = MessagePool::default();
    let msg1 = vec![0x01, 0x01, 0x02, 0x02, 0x01, 0x02, 0x03, 0xc0, 0xff, 0xee];
    let msg2 = vec![0x01, 0x01, 0x02, 0x02, 0x02, 0x02, 0x03, 0xc1, 0xff, 0xee];

    p.try_insert(msg1).unwrap();
    let res = p.try_insert(msg2).unwrap().unwrap();
    assert_eq!(&res, &[0xc0, 0xff, 0xee, 0xc1, 0xff, 0xee]);
}

#[test]
fn test_pool_try_insert_2_and_1_of_2() {
    let mut p = MessagePool::default();
    let msg1 = vec![0x01, 0x01, 0x02, 0x02, 0x01, 0x02, 0x03, 0xc0, 0xff, 0xee];
    let msg2 = vec![0x01, 0x01, 0x02, 0x02, 0x02, 0x02, 0x03, 0xc1, 0xff, 0xee];

    assert_eq!(None, p.try_insert(msg2).unwrap());
    let res = p.try_insert(msg1).unwrap().unwrap();
    assert_eq!(&res, &[0xc0, 0xff, 0xee, 0xc1, 0xff, 0xee]);
}

#[test]
fn test_pool_try_insert_1_2_and_3_of_3() {
    let mut p = MessagePool::default();
    let msg1 = vec![0x01, 0x01, 0x02, 0x02, 0x01, 0x03, 0x03, 0xc0, 0xff, 0xee];
    let msg2 = vec![0x01, 0x01, 0x02, 0x02, 0x02, 0x03, 0x03, 0xc1, 0xff, 0xee];
    let msg3 = vec![0x01, 0x01, 0x02, 0x02, 0x03, 0x03, 0x03, 0xc2, 0xff, 0xee];

    assert_eq!(None, p.try_insert(msg1).unwrap());
    assert_eq!(None, p.try_insert(msg2).unwrap());
    let res = p.try_insert(msg3).unwrap().unwrap();
    assert_eq!(&res, &[0xc0, 0xff, 0xee, 0xc1, 0xff, 0xee, 0xc2, 0xff, 0xee]);
}

#[test]
fn test_pool_try_insert_2_1_and_3_of_3() {
    let mut p = MessagePool::default();
    let msg1 = vec![0x01, 0x01, 0x02, 0x02, 0x01, 0x03, 0x03, 0xc0, 0xff, 0xee];
    let msg2 = vec![0x01, 0x01, 0x02, 0x02, 0x02, 0x03, 0x03, 0xc1, 0xff, 0xee];
    let msg3 = vec![0x01, 0x01, 0x02, 0x02, 0x03, 0x03, 0x03, 0xc2, 0xff, 0xee];

    assert_eq!(None, p.try_insert(msg2).unwrap());
    assert_eq!(None, p.try_insert(msg1).unwrap());
    let res = p.try_insert(msg3).unwrap().unwrap();
    assert_eq!(&res, &[0xc0, 0xff, 0xee, 0xc1, 0xff, 0xee, 0xc2, 0xff, 0xee]);
}

#[test]
fn test_pool_try_insert_3_1_and_2_of_3() {
    let mut p = MessagePool::default();
    let msg1 = vec![0x01, 0x01, 0x02, 0x02, 0x01, 0x03, 0x03, 0xc0, 0xff, 0xee];
    let msg2 = vec![0x01, 0x01, 0x02, 0x02, 0x02, 0x03, 0x03, 0xc1, 0xff, 0xee];
    let msg3 = vec![0x01, 0x01, 0x02, 0x02, 0x03, 0x03, 0x03, 0xc2, 0xff, 0xee];

    assert_eq!(None, p.try_insert(msg3).unwrap());
    assert_eq!(None, p.try_insert(msg1).unwrap());
    let res = p.try_insert(msg2).unwrap().unwrap();
    assert_eq!(&res, &[0xc0, 0xff, 0xee, 0xc1, 0xff, 0xee, 0xc2, 0xff, 0xee]);
}

#[test]
fn test_pool_try_insert_3_1_and_3_again_of3() {
    let mut p = MessagePool::default();
    let msg1 = vec![0x01, 0x01, 0x02, 0x02, 0x01, 0x03, 0x03, 0xc0, 0xff, 0xee];
    let msg3 = vec![0x01, 0x01, 0x02, 0x02, 0x03, 0x03, 0x03, 0xc2, 0xff, 0xee];

    assert_eq!(None, p.try_insert(msg3.clone()).unwrap());
    assert_eq!(None, p.try_insert(msg1).unwrap());
    let res = p.try_insert(msg3).unwrap();
    assert_eq!(res, None);
}

#[test]
fn test_try_insert_pool_full() {
    let mut p = MessagePool::default();
    let msg1 = vec![0x01, 0x01, 0x02, 0x02, 0x01, 0x02, 0x03, 0xc0, 0xff, 0xee];
    assert_eq!(None, p.try_insert(msg1).unwrap());
    let msg2 = vec![0x02, 0x01, 0x02, 0x02, 0x02, 0x02, 0x03, 0xc1, 0xff, 0xee];
    assert_eq!(None, p.try_insert(msg2).unwrap());
    let msg3 = vec![0x03, 0x01, 0x02, 0x02, 0x02, 0x02, 0x03, 0xc1, 0xff, 0xee];
    assert_eq!(None, p.try_insert(msg3).unwrap());
    let msg4 = vec![0x04, 0x01, 0x02, 0x02, 0x02, 0x02, 0x03, 0xc1, 0xff, 0xee];
    assert_eq!(None, p.try_insert(msg4).unwrap());
    let msg5 = vec![0x05, 0x01, 0x02, 0x02, 0x02, 0x02, 0x03, 0xc1, 0xff, 0xee];
    assert_eq!(Err(Error::PoolFull), p.try_insert(msg5));
}

#[test]
fn test_pool_size() {
    let mut p = MessagePool::default();
    assert_eq!(p.size(), 0);
    let msg1 = vec![0x01, 0x01, 0x02, 0x02, 0x01, 0x02, 0x03, 0xc0, 0xff, 0xee];
    assert_eq!(None, p.try_insert(msg1).unwrap());
    assert_eq!(p.size(), 1);
    let msg2 = vec![0x02, 0x01, 0x02, 0x02, 0x02, 0x02, 0x03, 0xc1, 0xff, 0xee];
    assert_eq!(None, p.try_insert(msg2).unwrap());
    assert_eq!(p.size(), 2);
    let msg3 = vec![0x03, 0x01, 0x02, 0x02, 0x02, 0x02, 0x03, 0xc1, 0xff, 0xee];
    assert_eq!(None, p.try_insert(msg3).unwrap());
    assert_eq!(p.size(), 3);
    let msg4 = vec![0x04, 0x01, 0x02, 0x02, 0x02, 0x02, 0x03, 0xc1, 0xff, 0xee];
    assert_eq!(None, p.try_insert(msg4).unwrap());
    assert_eq!(p.size(), 4);

    let msg1_2 = vec![0x01, 0x01, 0x02, 0x02, 0x02, 0x02, 0x03, 0xc0, 0xff, 0xee];
    assert_ne!(None, p.try_insert(msg1_2).unwrap());
    assert_eq!(p.size(), 3);
}

#[test]
fn test_pool_reset() {
    let mut p = MessagePool::default();
    assert_eq!(p.size(), 0);
    let msg1 = vec![0x01, 0x01, 0x02, 0x02, 0x01, 0x02, 0x03, 0xc0, 0xff, 0xee];
    assert_eq!(None, p.try_insert(msg1).unwrap());
    assert_eq!(p.size(), 1);
    let msg2 = vec![0x02, 0x01, 0x02, 0x02, 0x02, 0x02, 0x03, 0xc1, 0xff, 0xee];
    assert_eq!(None, p.try_insert(msg2.clone()).unwrap());
    assert_eq!(p.size(), 2);

    p.reset();
    assert_eq!(p.size(), 0);

    assert_eq!(None, p.try_insert(msg2).unwrap());
    assert_eq!(p.size(), 1);

    p.reset();
    assert_eq!(p.size(), 0);
}

#[test]
fn test_is_valid_message_valid() {
    let p = MessagePool::default();
    assert!(p.is_valid_message(&[0x01, 0x01, 0x02, 0x02, 0x02, 0x02, 0x03, 0xc1, 0xff, 0xee]));
}

#[test]
fn test_is_valid_message_shorter_than_possible() {
    let p = MessagePool::default();
    assert!(!p.is_valid_message(&[0xff, 0xff, 0xff, 0xff, 0x04, 0x01, 0x02]));
}

#[test]
fn test_is_valid_message_wrong_num() {
    let p = MessagePool::default();
    assert!(!p.is_valid_message(&[0xff, 0xff, 0xff, 0xff, 0x04, 0x01, 0x02, 0xff, 0xff]));
}

#[test]
fn test_is_valid_message_wrong_total_num() {
    let p = MessagePool::default();
    assert!(!p.is_valid_message(&[0xff, 0xff, 0xff, 0xff, 0x01, 0x04, 0x02, 0xff, 0xff]));
}

#[test]
fn test_is_valid_message_wrong_len() {
    let p = MessagePool::default();
    assert!(!p.is_valid_message(&[0xff, 0xff, 0xff, 0xff, 0x01, 0x03, 0xf9, 0xff, 0xff]));
}

#[test]
fn test_is_valid_message_not_matching_claimed_and_actual_len() {
    let p = MessagePool::default();
    assert!(!p.is_valid_message(&[0xff, 0xff, 0xff, 0xff, 0x01, 0x03, 0x03, 0xff, 0xff]));
}

#[test]
fn test_slicer_single_message() {
    let mut s = MessageSlicer::new(0xdead_beef_cafe_d00d);
    let parts = s.slice(&[0xc0, 0xff, 0xee]).unwrap();
    assert_eq!(parts.len(), 1);
    assert_eq!(
        parts[0],
        //   prefix              |part_n|tot|part_l|data
        &[0x3c, 0x2a, 0x2b, 0xed, 0x01, 0x01, 0x03, 0xc0, 0xff, 0xee]
    );
}

#[test]
fn test_slicer_two_parts() {
    let mut s = MessageSlicer::new(0xdead_beef_cafe_d00d);
    let mut test_data_message: Vec<u8> = Vec::new();
    for b in core::iter::repeat(0xff).take(MAX_LORA_MESSAGE_SIZE - HEADER_LENGTH) {
        test_data_message.push(b);
    }
    test_data_message.extend_from_slice(&[0xc0, 0xff, 0xee]);
    let parts = s.slice(&test_data_message).unwrap();
    assert_eq!(parts.len(), 2);
    assert_eq!(
        parts[1],
        //   prefix              |part_n|tot|part_l|data
        &[0x3c, 0x2a, 0x2b, 0xed, 0x02, 0x02, 0x03, 0xc0, 0xff, 0xee]
    );
}

#[test]
fn test_slicer_too_long_data() {
    let mut s = MessageSlicer::new(0xdead_beef_cafe_d00d);
    let mut test_data_message: Vec<u8> = Vec::new();
    for b in core::iter::repeat(0xff).take(MAX_OVERLINE_MESSAGE_LENGTH + 1) {
        test_data_message.push(b);
    }
    assert_eq!(Err(Error::TooLong), s.slice(&test_data_message));
}
