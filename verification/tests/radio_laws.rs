use heapless::HistoryBuffer;
use orouter_serial::overline::{
    Error as OverlineError, Message, MessageStore, StoreRecvOutcome,
    LONG_TERM_QUEUE_LENGTH,
};
use orouter_serial::p2p::{Error as P2pError, MessagePool, MessageSlicer};
use orouter_serial::random::RandomSource;

struct Fixed(u32);

impl RandomSource for Fixed {
    fn next_u32(&mut self) -> u32 {
        self.0
    }
}

fn message_with(first: u8, second: u8) -> Message {
    let mut bytes = vec![first, second];
    bytes.extend_from_slice(&[0x11; 14]);
    bytes.extend_from_slice(&[0x01, 0x02, 0x03]);
    Message::new(bytes)
}

#[test]
fn store_message_received_twice_is_seen() {
    let mut store = MessageStore::new(Fixed(5), heapless::Vec::new(), HistoryBuffer::new());
    let m = message_with(1, 2);
    assert_eq!(
        store.recv(m.clone()),
        Ok(StoreRecvOutcome::NotSeenScheduled(5))
    );
    assert_eq!(store.short_term_queue_len(), 1);
    assert_eq!(store.recv(m.clone()), Ok(StoreRecvOutcome::Seen));
    assert_eq!(store.short_term_queue_len(), 0);
    assert_eq!(store.recv(m), Ok(StoreRecvOutcome::Seen));
}

#[test]
fn store_sent_message_is_seen_when_it_comes_back() {
    let mut store = MessageStore::new(Fixed(1), heapless::Vec::new(), HistoryBuffer::new());
    let m = message_with(3, 4);
    assert_eq!(
        store.recv(m.clone()),
        Ok(StoreRecvOutcome::NotSeenScheduled(1))
    );
    assert_eq!(store.tick_try_send().unwrap().len(), 0);
    assert_eq!(store.tick_count(), 1);
    let sent = store.tick_try_send().unwrap();
    assert_eq!(sent, vec![m.clone()]);
    assert_eq!(store.tick_count(), 2);
    assert_eq!(store.recv(m), Ok(StoreRecvOutcome::Seen));
}

#[test]
fn store_marked_message_is_seen() {
    let mut store = MessageStore::new(Fixed(9), heapless::Vec::new(), HistoryBuffer::new());
    let m = message_with(5, 6);
    assert_eq!(store.mark_seen(&m), Ok(()));
    assert_eq!(store.mark_seen(&m), Ok(()));
    assert_eq!(store.recv(m), Ok(StoreRecvOutcome::Seen));
}

#[test]
fn store_refuses_short_message() {
    let mut store = MessageStore::new(Fixed(0), heapless::Vec::new(), HistoryBuffer::new());
    let short = Message::new(vec![1, 2, 3]);
    assert_eq!(store.mark_seen(&short), Err(OverlineError::InvalidMessage));
    assert_eq!(store.recv(short), Err(OverlineError::InvalidMessage));
    assert_eq!(
        Message::new(vec![1, 2, 3]).hash(),
        Err(OverlineError::InvalidMessage)
    );
}

#[test]
fn store_refuses_more_than_three_due_messages() {
    let mut store = MessageStore::new(Fixed(0), heapless::Vec::new(), HistoryBuffer::new());
    for n in 0..4u8 {
        assert_eq!(
            store.recv(message_with(n, 0)),
            Ok(StoreRecvOutcome::NotSeenScheduled(0))
        );
    }
    assert_eq!(store.tick_try_send(), Err(()));
    assert_eq!(store.tick_count(), 0);
    assert_eq!(store.short_term_queue_len(), 4);
}

#[test]
fn store_tick_wraps_after_last_tick() {
    let mut store = MessageStore::new(Fixed(0), heapless::Vec::new(), HistoryBuffer::new());
    for _ in 0..63 {
        store.tick_try_send().unwrap();
    }
    assert_eq!(store.tick_count(), 63);
    store.tick_try_send().unwrap();
    assert_eq!(store.tick_count(), 0);
}

#[test]
fn scheduled_tick_wraps_around() {
    assert_eq!(orouter_serial::overline::scheduled_tick(10, 70), 16);
    assert_eq!(orouter_serial::overline::scheduled_tick(60, 10), 5);
    assert_eq!(orouter_serial::overline::scheduled_tick(1, 63), 64);
}

#[test]
fn store_keeps_the_last_hashes_seen() {
    let mut store = MessageStore::new(Fixed(3), heapless::Vec::new(), HistoryBuffer::new());
    let with_number = |n: u16| {
        let mut bytes = n.to_be_bytes().to_vec();
        bytes.extend_from_slice(&[0x22; 15]);
        Message::new(bytes)
    };
    for n in 0..(LONG_TERM_QUEUE_LENGTH as u16 + 1) {
        assert_eq!(store.mark_seen(&with_number(n)), Ok(()));
    }
    assert_eq!(store.recv(with_number(LONG_TERM_QUEUE_LENGTH as u16)), Ok(StoreRecvOutcome::Seen));
    assert_eq!(store.recv(with_number(1)), Ok(StoreRecvOutcome::Seen));
    assert_eq!(
        store.recv(with_number(0)),
        Ok(StoreRecvOutcome::NotSeenScheduled(3))
    );
}

#[test]
fn overline_hash_and_data_round_trip() {
    let m = message_with(7, 8);
    let bytes = m.clone().to_vec();
    let (hash, data) = m.into_hash_data().unwrap();
    assert_eq!(hash, bytes[..16].to_vec());
    assert_eq!(data, bytes[16..].to_vec());
    let back = Message::try_from_hash_data(hash, data).unwrap();
    assert_eq!(back.to_vec(), bytes);
    assert_eq!(
        Message::try_from_hash_data(vec![1, 2], vec![3]),
        Err(OverlineError::InvalidMessage)
    );
}

fn reassemble(pool: &mut MessagePool, parts: Vec<Vec<u8>>) -> Vec<Option<Vec<u8>>> {
    parts
        .into_iter()
        .map(|p| pool.try_insert(p).unwrap())
        .collect()
}

#[test]
fn sliced_message_is_put_back_together() {
    for len in [1usize, 3, 248, 249, 300, 496, 497, 512] {
        let msg: Vec<u8> = (0..len).map(|i| (i % 251) as u8).collect();
        let mut slicer = MessageSlicer::new(len as u64);
        let parts = slicer.slice(&msg).unwrap();
        let expected_parts = (len + 247) / 248;
        assert_eq!(parts.len(), expected_parts);
        let pool_check = MessagePool::default();
        for (i, p) in parts.iter().enumerate() {
            assert!(pool_check.is_valid_message(p));
            assert_eq!(p[4] as usize, i + 1);
            assert_eq!(p[5] as usize, expected_parts);
        }
        let mut pool = MessagePool::default();
        let answers = reassemble(&mut pool, parts);
        let mut expected = vec![None; expected_parts - 1];
        expected.push(Some(msg.clone()));
        assert_eq!(answers, expected);
        assert_eq!(pool.size(), 0);
    }
}

#[test]
fn slicer_gives_no_part_for_empty_message() {
    let mut slicer = MessageSlicer::new(1);
    assert_eq!(slicer.slice(&[]).unwrap(), Vec::<Vec<u8>>::new());
}

#[test]
fn slice_with_prefix_lays_out_the_header() {
    let parts = orouter_serial::p2p::slice_with_prefix(&[9, 8, 7, 6], &[0xaa; 250]);
    assert_eq!(parts.len(), 2);
    assert_eq!(parts[0][..7].to_vec(), vec![9, 8, 7, 6, 1, 2, 248]);
    assert_eq!(parts[0].len(), 255);
    assert_eq!(parts[1], vec![9, 8, 7, 6, 2, 2, 2, 0xaa, 0xaa]);
}

#[test]
fn pool_refuses_malformed_part() {
    let mut pool = MessagePool::default();
    assert_eq!(
        pool.try_insert(vec![1, 2, 3, 4, 1, 1, 5, 0xff]),
        Err(P2pError::MalformedMessage)
    );
    assert_eq!(pool.size(), 0);
}

struct Draws(Vec<u32>, usize);

impl RandomSource for Draws {
    fn next_u32(&mut self) -> u32 {
        let d = self.0[self.1 % self.0.len()];
        self.1 += 1;
        d
    }
}

#[test]
fn store_tick_sends_every_due_message_and_keeps_the_rest() {
    let mut store = MessageStore::new(Draws(vec![0, 1, 0, 0], 0), heapless::Vec::new(), HistoryBuffer::new());
    let ms: Vec<Message> = (1..=4u8).map(|n| message_with(n, n)).collect();
    let whens: Vec<_> = ms.iter().map(|m| store.recv(m.clone()).unwrap()).collect();
    assert_eq!(
        whens,
        vec![
            StoreRecvOutcome::NotSeenScheduled(0),
            StoreRecvOutcome::NotSeenScheduled(1),
            StoreRecvOutcome::NotSeenScheduled(0),
            StoreRecvOutcome::NotSeenScheduled(0),
        ]
    );
    let sent = store.tick_try_send().unwrap();
    assert_eq!(sent, vec![ms[0].clone(), ms[2].clone(), ms[3].clone()]);
    assert_eq!(store.short_term_queue_len(), 1);
    assert_eq!(store.tick_count(), 1);
    let sent = store.tick_try_send().unwrap();
    assert_eq!(sent, vec![ms[1].clone()]);
    assert_eq!(store.short_term_queue_len(), 0);
    for m in ms {
        assert_eq!(store.recv(m), Ok(StoreRecvOutcome::Seen));
    }
}

#[test]
fn sliced_parts_in_any_order_are_put_back_together() {
    let msg: Vec<u8> = (0..600usize).map(|i| (i % 7) as u8 + 1).take(510).collect();
    let mut slicer = MessageSlicer::new(42);
    let parts = slicer.slice(&msg).unwrap();
    assert_eq!(parts.len(), 3);
    for order in [[0, 1, 2], [0, 2, 1], [1, 0, 2], [1, 2, 0], [2, 0, 1], [2, 1, 0]] {
        let mut pool = MessagePool::default();
        let answers: Vec<_> = order
            .iter()
            .map(|&i| pool.try_insert(parts[i].clone()).unwrap())
            .collect();
        assert_eq!(answers, vec![None, None, Some(msg.clone())]);
        assert_eq!(pool.size(), 0);
    }
}

#[test]
fn store_tick_takes_due_items_out_by_swap_removal() {
    // a and c are due at tick 0, b, d and e at tick 1.
    let draws = vec![0, 1, 0, 1, 1];
    let mut store = MessageStore::new(Draws(draws, 0), heapless::Vec::new(), HistoryBuffer::new());
    let ms: Vec<Message> = (1..=5u8).map(|n| message_with(n, 9)).collect();
    for m in &ms {
        store.recv(m.clone()).unwrap();
    }
    assert_eq!(store.tick_try_send().unwrap(), vec![ms[0].clone(), ms[2].clone()]);
    // Removing a moves e to the front; removing c then moves d into its place.
    assert_eq!(
        store.tick_try_send().unwrap(),
        vec![ms[4].clone(), ms[1].clone(), ms[3].clone()]
    );
    assert_eq!(store.short_term_queue_len(), 0);
}

#[test]
fn store_recv_with_draw_schedules_by_the_given_number() {
    let mut store = MessageStore::new(Fixed(0), heapless::Vec::new(), HistoryBuffer::new());
    assert_eq!(
        store.recv_with_draw(message_with(1, 1), 70),
        Ok(StoreRecvOutcome::NotSeenScheduled(6))
    );
    assert_eq!(
        store.recv_with_draw(message_with(1, 1), 3),
        Ok(StoreRecvOutcome::Seen)
    );
    assert_eq!(
        store.recv_with_draw(Message::new(vec![1, 2]), 3),
        Err(OverlineError::InvalidMessage)
    );
}
