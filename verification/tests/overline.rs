use heapless::HistoryBuffer;
use orouter_serial::overline::{
    Error, Message, MessageStore, MessageType, StoreRecvOutcome,
    LONG_TERM_QUEUE_LENGTH, SHORT_TERM_QUEUE_LENGTH,
};
use orouter_serial::random::RandomSource;
use rand::rngs::SmallRng;
use rand::SeedableRng;

struct TestingRng(u8, Vec<u64>);

impl TestingRng {
    fn next_u64(&mut self) -> u64 {
        let next = self.1[self.0 as usize];
        if self.0 == 63 {
            self.0 = 0;
        } else {
            self.0 += 1;
        }
        next
    }
}

impl RandomSource for TestingRng {
    fn next_u32(&mut self) -> u32 {
        self.next_u64() as u32
    }
}

fn store_with<R: RandomSource>(rng: R) -> MessageStore<R> {
    MessageStore::new(rng, heapless::Vec::new(), HistoryBuffer::new())
}

#[test]
fn test_hash_ok() {
    let m = Message::new(vec![
        0xaa, 0xaa, 0xaa, 0xaa, 0xaa, 0xaa, 0xaa, 0xaa, 0xaa, 0xaa, 0xaa, 0xaa, 0xaa, 0xaa, 0xbb,
        0xcc, 0xff, 0xff,
    ]);
    assert_eq!(
        vec![
            0xaa, 0xaa, 0xaa, 0xaa, 0xaa, 0xaa, 0xaa, 0xaa, 0xaa, 0xaa, 0xaa, 0xaa, 0xaa, 0xaa,
            0xbb, 0xcc
        ],
        m.hash().unwrap()
    )
}

#[test]
fn test_typ_err() {
    let m = Message::new(vec![
        0xaa, 0xaa, 0xaa, 0xaa, 0xaa, 0xaa, 0xaa, 0xaa, 0xaa, 0xaa, 0xaa, 0xaa, 0xaa, 0xaa, 0xbb,
        0xcc, 0xef, 0xff,
    ]);
    assert_eq!(Err(Error::UnknownType), m.typ())
}

#[test]
fn test_typ_ok() {
    let m = Message::new(vec![
        0xaa, 0xaa, 0xaa, 0xaa, 0xaa, 0xaa, 0xaa, 0xaa, 0xaa, 0xaa, 0xaa, 0x02, 0xaa, 0xaa, 0xbb,
        0xcc, 0x02, 0xff,
    ]);
    assert_eq!(MessageType::Challenge, m.typ().unwrap())
}

#[test]
fn test_try_from_into_hash_data() {
    let hash = vec![
        0xaa, 0x10, 0xaa, 0x10, 0xaa, 0x10, 0xaa, 0x10, 0xaa, 0x10, 0xaa, 0xff, 0xaa, 0x10, 0xaa,
        0x10,
    ];
    let data = vec![0xef, 0xda, 0x1a, 0xda, 0x1a];

    let m = Message::try_from_hash_data(hash.clone(), data.clone()).unwrap();
    assert_eq!(hash, m.hash().unwrap());
    assert_eq!(MessageType::Other, m.typ().unwrap());

    let (hash_new, data_new) = m.into_hash_data().unwrap();
    assert_eq!(hash, hash_new);
    assert_eq!(data, data_new);
}

fn sample_message() -> Message {
    Message::new(vec![
        0xaa, 0xaa, 0xaa, 0xaa, 0xaa, 0xaa, 0xaa, 0xaa, 0xaa, 0xaa, 0xaa, 0xaa, 0xaa, 0xaa, 0xbb,
        0xcc, 0x15, 0xff,
    ])
}

#[test]
fn test_store_receive_not_seen() {
    let rng = TestingRng(0, vec![2, 1]);
    let mut store = store_with(rng);
    let m = sample_message();

    let outcome = store.recv(m).unwrap();
    let expected_when = 2;
    assert_eq!(StoreRecvOutcome::NotSeenScheduled(expected_when), outcome);
}

#[test]
fn test_store_receive_seen() {
    let rng = SmallRng::seed_from_u64(0x1111_2222_3333_4444);
    let mut store = store_with(rng);
    let m = sample_message();
    let m_clone = m.clone();
    let m_clone_2 = m.clone();

    store.recv(m).unwrap();
    let outcome = store.recv(m_clone).unwrap();
    assert_eq!(StoreRecvOutcome::Seen, outcome);
    let outcome = store.recv(m_clone_2).unwrap();
    assert_eq!(StoreRecvOutcome::Seen, outcome);
}

#[test]
fn test_store_receive_seen_not_clone() {
    let rng = TestingRng(0, vec![1, 1]);
    let mut store = store_with(rng);
    let m = sample_message();
    let m2 = sample_message();

    let _ = store.recv(m).unwrap();
    store.tick_try_send().unwrap();
    store.tick_try_send().unwrap();
    let outcome = store.recv(m2.clone()).unwrap();
    assert_eq!(StoreRecvOutcome::Seen, outcome);
    store.tick_try_send().unwrap();
    let outcome = store.recv(m2).unwrap();
    assert_eq!(StoreRecvOutcome::Seen, outcome);
}

#[test]
fn test_schedue_tick_simple() {
    let rng = TestingRng(0, vec![2, 1]);
    let mut store = store_with(rng);
    let m = sample_message();

    let outcome = store.recv(m.clone()).unwrap();
    assert_eq!(StoreRecvOutcome::NotSeenScheduled(2), outcome);
    let tick_1_result = store.tick_try_send().unwrap();
    assert!(tick_1_result.is_empty());
    store.tick_try_send().unwrap();

    let tick_3_result = store.tick_try_send().unwrap();
    assert_eq!(tick_3_result.len(), 1);
    assert_eq!(tick_3_result[0], m);
}

#[test]
fn test_schedule_tick_rollover() {
    let rng = TestingRng(0, vec![6, 1, 1, 1]);
    let mut store = store_with(rng);
    let m = sample_message();

    for _ in 0..(SHORT_TERM_QUEUE_LENGTH - 3) {
        store.tick_try_send().unwrap();
    }

    let outcome = store.recv(m.clone()).unwrap();
    assert_eq!(StoreRecvOutcome::NotSeenScheduled(2), outcome);

    for _ in 0..5 {
        let tick_result = store.tick_try_send().unwrap();
        assert_eq!(tick_result.len(), 0);
    }
    let tick_result = store.tick_try_send().unwrap();
    assert_eq!(tick_result.len(), 1);
    assert_eq!(tick_result[0], m);
}

fn twos_after_zero() -> Vec<u64> {
    let mut v = vec![0];
    v.extend(std::iter::repeat(2).take(63));
    v
}

#[test]
fn test_schedule_max_plus_1_message() {
    let rng = TestingRng(0, twos_after_zero());
    let mut store = store_with(rng);

    for n in 0..(SHORT_TERM_QUEUE_LENGTH) {
        let first_byte = (n + 100) as u8;
        let m = Message::new(vec![
            0xaa, first_byte, 0xaa, 0xaa, 0xaa, 0xaa, 0xaa, 0xaa, 0xaa, 0xaa, 0xaa, 0xaa, 0xaa,
            0xaa, 0xbb, 0xcc, 0x15, 0xff,
        ]);
        let _ = store.recv(m).unwrap();
    }

    let m = Message::new(vec![
        0xaa, 0x00, 0xaa, 0xaa, 0xaa, 0xaa, 0xaa, 0xaa, 0xaa, 0xaa, 0xaa, 0xaa, 0xaa, 0xaa, 0xbb,
        0xcc, 0x15, 0xff,
    ]);
    let outcome = store.recv(m);

    assert_eq!(Err(Error::ShortTermQueueFull), outcome);

    let tick_result = store.tick_try_send().unwrap();
    assert_eq!(tick_result.len(), 1);
    let msg = tick_result[0].clone();
    let (hash, _) = msg.into_hash_data().unwrap();
    assert!(hash.starts_with(&[0xaa, 100]));

    let m = Message::new(vec![
        0xaa, 0x00, 0xaa, 0xaa, 0xaa, 0xaa, 0xaa, 0xaa, 0xaa, 0xaa, 0xaa, 0xaa, 0xaa, 0xaa, 0xbb,
        0xcc, 0x15, 0xff,
    ]);

    let outcome = store.recv(m).unwrap();
    assert_eq!(StoreRecvOutcome::NotSeenScheduled(3), outcome);
}

#[test]
fn test_schedule_max_plus_1_long_term_queue() {
    let rng = TestingRng(0, twos_after_zero());
    let mut store = store_with(rng);

    for n in 0..(LONG_TERM_QUEUE_LENGTH) {
        let bytes = (n as u16).to_be_bytes();
        let m = Message::new(vec![
            0xaa, bytes[0], bytes[1], 0xaa, 0xaa, 0xaa, 0xaa, 0xaa, 0xaa, 0xaa, 0xaa, 0xaa, 0xaa,
            0xaa, 0xbb, 0xcc, 0x15, 0xff,
        ]);
        let _ = store.recv(m.clone()).unwrap();
        let outcome = store.recv(m).unwrap();
        assert_eq!(outcome, StoreRecvOutcome::Seen);
    }

    let m = Message::new(vec![
        0xaa, 0xff, 0xaa, 0xaa, 0xaa, 0xaa, 0xaa, 0xaa, 0xaa, 0xaa, 0xaa, 0xaa, 0xaa, 0xaa, 0xbb,
        0xcc, 0x15, 0xff,
    ]);
    let outcome = store.recv(m.clone()).unwrap();
    assert_eq!(outcome, StoreRecvOutcome::NotSeenScheduled(0));
    let outcome = store.recv(m).unwrap();
    assert_eq!(outcome, StoreRecvOutcome::Seen);
}
