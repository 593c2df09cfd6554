//! The overline protocol: how a logical overline message is laid out in a
//! LoRa packet, and the [`MessageStore`] that applies the rules for storing
//! and retransmitting the messages a node sees.
use vstd::prelude::*;
use crate::buffers::{append_bytes, copy_range};
use crate::random::RandomSource;
use crate::text::bytes_equal;

verus! {

pub const MAX_LORA_PAYLOAD_LENGTH: usize = 255;

/// Length of the hash that starts every overline message.
pub const OVERLINE_STORE_MESSAGE_HASH_LENGTH: usize = 16;

pub const MESSAGE_MAX_DATA_LENGTH: usize = MAX_LORA_PAYLOAD_LENGTH
    - OVERLINE_STORE_MESSAGE_HASH_LENGTH;

/// The data after the hash: at most [`MESSAGE_MAX_DATA_LENGTH`] bytes.
pub type MessageDataPart = Vec<u8>;

/// The hash of a message: at most [`OVERLINE_STORE_MESSAGE_HASH_LENGTH`] bytes.
pub type MessageHash = Vec<u8>;

/// Position of the message type byte.
pub const MSG_TYPE_IDX: usize = 11;

/// Errors of the overline layer.
#[derive(PartialEq, Eq, Debug, Clone, Copy)]
pub enum Error {
    InvalidMessage,
    ShortTermQueueFull,
    LongTermQueueFull,
    CannotReceive,
    UnknownType,
}

/// Types of wireless messages.
#[derive(PartialEq, Eq, Debug, Clone, Copy)]
pub enum MessageType {
    Data,
    Challenge,
    Proof,
    Flush,
    Receipt,
    Other,
}

/// The message type with wire value `v`, if there is one.
pub open spec fn message_type_of(v: u8) -> Option<MessageType> {
    match v {
        0x01 => Some(MessageType::Data),
        0x02 => Some(MessageType::Challenge),
        0x03 => Some(MessageType::Proof),
        0x04 => Some(MessageType::Flush),
        0x05 => Some(MessageType::Receipt),
        0xff => Some(MessageType::Other),
        _ => None,
    }
}

/// The wire value of every message type: 0x01 data, 0x02 challenge, 0x03
/// proof, 0x04 flush, 0x05 receipt, 0xff other; no other byte is a type.
pub proof fn lemma_message_type_table()
    ensures
        message_type_of(0x01) == Some(MessageType::Data),
        message_type_of(0x02) == Some(MessageType::Challenge),
        message_type_of(0x03) == Some(MessageType::Proof),
        message_type_of(0x04) == Some(MessageType::Flush),
        message_type_of(0x05) == Some(MessageType::Receipt),
        message_type_of(0xff) == Some(MessageType::Other),
        forall|v: u8| (v == 0 || 5 < v < 0xff) ==> #[trigger] message_type_of(v) is None,
{
}

/// Logical message of the overline protocol: a hash of
/// [`OVERLINE_STORE_MESSAGE_HASH_LENGTH`] bytes followed by data, at most
/// [`MAX_LORA_PAYLOAD_LENGTH`] bytes in all. It holds no link level data.
#[derive(PartialEq, Eq, Debug)]
pub struct Message(pub(crate) Vec<u8>);

impl Clone for Message {
    fn clone(&self) -> (r: Self)
        ensures
            r@ == self@,
    {
        proof {
            use_type_invariant(self);
        }
        Message(copy_range(self.0.as_slice(), 0, self.0.len()))
    }
}

impl View for Message {
    type V = Seq<u8>;

    closed spec fn view(&self) -> Seq<u8> {
        self.0@
    }
}

impl Message {
    #[verifier::type_invariant]
    closed spec fn inv(self) -> bool {
        self.0@.len() <= MAX_LORA_PAYLOAD_LENGTH
    }

    /// A message holding `data` (at most [`MAX_LORA_PAYLOAD_LENGTH`] bytes).
    pub fn new(data: Vec<u8>) -> (r: Self)
        requires
            data@.len() <= MAX_LORA_PAYLOAD_LENGTH,
        ensures
            r@ == data@,
    {
        Message(data)
    }

    /// The message made of `hash` (which must have exactly
    /// [`OVERLINE_STORE_MESSAGE_HASH_LENGTH`] bytes) followed by `data`.
    pub fn try_from_hash_data(hash: MessageHash, data: MessageDataPart) -> (r: Result<Self, Error>)
        requires
            hash@.len() <= OVERLINE_STORE_MESSAGE_HASH_LENGTH,
            data@.len() <= MESSAGE_MAX_DATA_LENGTH,
        ensures
            hash@.len() != OVERLINE_STORE_MESSAGE_HASH_LENGTH ==> r == Err::<Message, Error>(
                Error::InvalidMessage,
            ),
            hash@.len() == OVERLINE_STORE_MESSAGE_HASH_LENGTH ==> (r matches Ok(m) && m@ == hash@
                + data@),
    {
        if hash.len() != OVERLINE_STORE_MESSAGE_HASH_LENGTH {
            return Err(Error::InvalidMessage);
        }
        if hash.len() + data.len() > MAX_LORA_PAYLOAD_LENGTH {
            return Err(Error::InvalidMessage);
        }
        let mut v: Vec<u8> = Vec::new();
        append_bytes(&mut v, hash.as_slice());
        append_bytes(&mut v, data.as_slice());
        Ok(Message(v))
    }

    /// The hash and the data of this message; refused when it is shorter
    /// than a hash.
    pub fn into_hash_data(self) -> (r: Result<(MessageHash, MessageDataPart), Error>)
        ensures
            self@.len() < OVERLINE_STORE_MESSAGE_HASH_LENGTH ==> r == Err::<
                (MessageHash, MessageDataPart),
                Error,
            >(Error::InvalidMessage),
            self@.len() >= OVERLINE_STORE_MESSAGE_HASH_LENGTH ==> (r matches Ok((h, d)) && h@
                == self@.take(16) && d@ == self@.skip(16)),
    {
        let hash = match self.hash() {
            Ok(h) => h,
            Err(e) => return Err(e),
        };
        let data_part = match self.data_part() {
            Ok(d) => d,
            Err(e) => return Err(e),
        };
        Ok((hash, data_part))
    }

    /// The first [`OVERLINE_STORE_MESSAGE_HASH_LENGTH`] bytes; refused when
    /// the message is shorter.
    pub fn hash(&self) -> (r: Result<MessageHash, Error>)
        ensures
            self@.len() < OVERLINE_STORE_MESSAGE_HASH_LENGTH ==> r == Err::<MessageHash, Error>(
                Error::InvalidMessage,
            ),
            self@.len() >= OVERLINE_STORE_MESSAGE_HASH_LENGTH ==> (r matches Ok(h) && h@
                == self@.take(16)),
    {
        if self.0.len() < OVERLINE_STORE_MESSAGE_HASH_LENGTH {
            return Err(Error::InvalidMessage);
        }
        let h = copy_range(self.0.as_slice(), 0, OVERLINE_STORE_MESSAGE_HASH_LENGTH);
        assert(h@ == self@.take(16));
        Ok(h)
    }

    /// The bytes after the hash. The message must hold a hash (slicing a
    /// shorter one panics).
    pub fn data_part(&self) -> (r: Result<MessageDataPart, Error>)
        requires
            self@.len() >= OVERLINE_STORE_MESSAGE_HASH_LENGTH,
        ensures
            r matches Ok(d) && d@ == self@.skip(16),
    {
        proof {
            use_type_invariant(self);
        }
        let d = copy_range(self.0.as_slice(), OVERLINE_STORE_MESSAGE_HASH_LENGTH, self.0.len());
        assert(d@ == self@.skip(16));
        Ok(d)
    }

    /// The type of this message, read from byte [`MSG_TYPE_IDX`] (which must
    /// exist).
    pub fn typ(&self) -> (r: Result<MessageType, Error>)
        requires
            self@.len() > MSG_TYPE_IDX,
        ensures
            match message_type_of(self@[MSG_TYPE_IDX as int]) {
                Some(t) => r == Ok::<MessageType, Error>(t),
                None => r == Err::<MessageType, Error>(Error::UnknownType),
            },
    {
        let b = self.0[MSG_TYPE_IDX];
        if b == 0x01 {
            Ok(MessageType::Data)
        } else if b == 0x02 {
            Ok(MessageType::Challenge)
        } else if b == 0x03 {
            Ok(MessageType::Proof)
        } else if b == 0x04 {
            Ok(MessageType::Flush)
        } else if b == 0x05 {
            Ok(MessageType::Receipt)
        } else if b == 0xff {
            Ok(MessageType::Other)
        } else {
            Err(Error::UnknownType)
        }
    }

    /// The bytes of this message.
    pub fn to_vec(self) -> (r: Vec<u8>)
        ensures
            r@ == self@,
    {
        self.0
    }
}

/// Splitting a message into its hash and data and putting them back together
/// gives the message.
pub proof fn lemma_hash_data_roundtrip(m: Seq<u8>)
    requires
        m.len() >= OVERLINE_STORE_MESSAGE_HASH_LENGTH,
    ensures
        m.take(16) + m.skip(16) == m,
        m.take(16).len() == OVERLINE_STORE_MESSAGE_HASH_LENGTH,
{
    assert(m.take(16) + m.skip(16) =~= m);
}

/// Putting a hash and data together and splitting the message gives them back.
pub proof fn lemma_data_hash_roundtrip(hash: Seq<u8>, data: Seq<u8>)
    requires
        hash.len() == OVERLINE_STORE_MESSAGE_HASH_LENGTH,
    ensures
        (hash + data).take(16) == hash,
        (hash + data).skip(16) == data,
{
    assert((hash + data).take(16) =~= hash);
    assert((hash + data).skip(16) =~= data);
}

/// Outcome of [`MessageStore::recv`].
#[derive(PartialEq, Eq, Debug, Clone, Copy)]
pub enum StoreRecvOutcome {
    /// The hash was not in the short term queue: the message is scheduled for
    /// retransmission at this tick.
    NotSeenScheduled(u16),
    /// The message was seen before; it left the short term queue.
    Seen,
    /// The message was a command.
    Command,
}

/// Number of ticks of the short term queue, and its capacity.
pub const SHORT_TERM_QUEUE_LENGTH: usize = 64;

/// Capacity of the long term queue of seen hashes.
pub const LONG_TERM_QUEUE_LENGTH: usize = 512;

/// A message waiting in the short term queue: its hash, its data, and the
/// tick at which it is due for retransmission. Items are ordered by that tick.
#[derive(Eq, Debug)]
pub struct ShortTermQueueItem {
    pub(crate) when: u16,
    pub(crate) message_hash: MessageHash,
    pub(crate) message_data_part: MessageDataPart,
}

/// A [`ShortTermQueueItem`] as a mathematical value.
pub struct ItemModel {
    pub when: u16,
    pub hash: Seq<u8>,
    pub data: Seq<u8>,
}

impl View for ShortTermQueueItem {
    type V = ItemModel;

    closed spec fn view(&self) -> ItemModel {
        ItemModel {
            when: self.when,
            hash: self.message_hash@,
            data: self.message_data_part@,
        }
    }
}

impl ShortTermQueueItem {
    #[verifier::type_invariant]
    closed spec fn inv(self) -> bool {
        &&& self.message_hash@.len() == OVERLINE_STORE_MESSAGE_HASH_LENGTH
        &&& self.message_data_part@.len() <= MESSAGE_MAX_DATA_LENGTH
    }
}

impl PartialEq for ShortTermQueueItem {
    fn eq(&self, other: &Self) -> (r: bool) {
        self.when == other.when
    }
}

impl vstd::std_specs::cmp::PartialEqSpecImpl for ShortTermQueueItem {
    open spec fn obeys_eq_spec() -> bool {
        true
    }

    open spec fn eq_spec(&self, other: &Self) -> bool {
        self@.when == other@.when
    }
}

impl PartialOrd for ShortTermQueueItem {
    fn partial_cmp(&self, other: &Self) -> (r: Option<core::cmp::Ordering>) {
        if self.when < other.when {
            Some(core::cmp::Ordering::Less)
        } else if self.when == other.when {
            Some(core::cmp::Ordering::Equal)
        } else {
            Some(core::cmp::Ordering::Greater)
        }
    }
}

impl vstd::std_specs::cmp::PartialOrdSpecImpl for ShortTermQueueItem {
    open spec fn obeys_partial_cmp_spec() -> bool {
        true
    }

    open spec fn partial_cmp_spec(&self, other: &Self) -> Option<core::cmp::Ordering> {
        if self@.when < other@.when {
            Some(core::cmp::Ordering::Less)
        } else if self@.when == other@.when {
            Some(core::cmp::Ordering::Equal)
        } else {
            Some(core::cmp::Ordering::Greater)
        }
    }
}

/// `heapless::HistoryBuffer`, the ring of the last hashes seen, made known to
/// Verus without its fields.
#[verifier::external_type_specification]
#[verifier::external_body]
#[verifier::reject_recursive_types(T)]
pub struct ExHistoryBuffer<T, const N: usize>(heapless::HistoryBuffer<T, N>);

/// The hashes that a long term queue holds, oldest first.
pub uninterp spec fn held_hashes(h: heapless::HistoryBuffer<Vec<u8>, LONG_TERM_QUEUE_LENGTH>) -> Seq<Seq<u8>>;

/// `h` after `x` was written into it.
pub open spec fn history_write(h: Seq<Seq<u8>>, x: Seq<u8>) -> Seq<Seq<u8>> {
    if h.len() >= LONG_TERM_QUEUE_LENGTH {
        h.drop_first().push(x)
    } else {
        h.push(x)
    }
}

/// `h` after each of `xs` was written into it, in order.
pub open spec fn history_write_all(h: Seq<Seq<u8>>, xs: Seq<Seq<u8>>) -> Seq<Seq<u8>>
    decreases xs.len(),
{
    if xs.len() == 0 {
        h
    } else {
        history_write_all(history_write(h, xs[0]), xs.drop_first())
    }
}

/// `heapless::HistoryBuffer::write`: `x` becomes the newest hash; in a full
/// buffer it takes the place of the oldest ([`history_write`]).
#[verifier::external_body]
fn write_hash(h: &mut heapless::HistoryBuffer<Vec<u8>, LONG_TERM_QUEUE_LENGTH>, x: Vec<u8>)
    ensures
        held_hashes(*final(h)) == history_write(held_hashes(*old(h)), x@),
{
    h.write(x);
}

/// `heapless::HistoryBuffer::len`: the number of hashes held, never more than
/// the buffer's capacity.
#[verifier::external_body]
fn held_count(h: &heapless::HistoryBuffer<Vec<u8>, LONG_TERM_QUEUE_LENGTH>) -> (r: usize)
    ensures
        r == held_hashes(*h).len(),
        r <= LONG_TERM_QUEUE_LENGTH,
{
    h.len()
}

/// `heapless::HistoryBuffer::as_slice`: the hashes held, in the order of the
/// buffer's storage, which is not oldest first once the buffer has wrapped;
/// so only which hashes come how often is stated.
#[verifier::external_body]
fn held_slice(h: &heapless::HistoryBuffer<Vec<u8>, LONG_TERM_QUEUE_LENGTH>) -> (r: &[Vec<u8>])
    ensures
        r@.map_values(|v: Vec<u8>| v@).to_multiset() == held_hashes(*h).to_multiset(),
{
    h.as_slice()
}

/// Whether the long term queue `h` holds hash `x`.
fn holds_hash(h: &heapless::HistoryBuffer<Vec<u8>, LONG_TERM_QUEUE_LENGTH>, x: &[u8]) -> (r: bool)
    ensures
        r == held_hashes(*h).contains(x@),
{
    let s = held_slice(h);
    let ghost hs = s@.map_values(|v: Vec<u8>| v@);
    proof {
        hs.to_multiset_ensures();
        held_hashes(*h).to_multiset_ensures();
        assert(hs.to_multiset().count(x@) == held_hashes(*h).to_multiset().count(x@));
    }
    let mut i: usize = 0;
    while i < s.len()
        invariant
            i <= s@.len(),
            hs == s@.map_values(|v: Vec<u8>| v@),
            hs.contains(x@) == held_hashes(*h).contains(x@),
            forall|j: int| 0 <= j < i ==> s@[j]@ != x@,
        decreases s@.len() - i,
    {
        if bytes_equal(s[i].as_slice(), x) {
            assert(hs[i as int] == x@);
            return true;
        }
        i = i + 1;
    }
    proof {
        if hs.contains(x@) {
            let k = choose|k: int| 0 <= k < hs.len() && hs[k] == x@;
            assert(s@[k]@ == x@);
        }
    }
    false
}

/// A [`MessageStore`] as a mathematical value (without its random source).
pub struct StoreModel {
    pub tick_count: u16,
    pub short_term_queue: Seq<ItemModel>,
    pub long_term_queue: Seq<Seq<u8>>,
}

impl StoreModel {
    /// The tick is below [`SHORT_TERM_QUEUE_LENGTH`], the short term queue
    /// holds at most that many items, each with a full hash, and the long term
    /// queue holds at most [`LONG_TERM_QUEUE_LENGTH`] hashes.
    pub open spec fn valid(self) -> bool {
        &&& self.tick_count < SHORT_TERM_QUEUE_LENGTH
        &&& self.short_term_queue.len() <= SHORT_TERM_QUEUE_LENGTH
        &&& forall|i: int|
            0 <= i < self.short_term_queue.len() ==> #[trigger] self.short_term_queue[i].hash.len()
                == OVERLINE_STORE_MESSAGE_HASH_LENGTH
        &&& self.long_term_queue.len() <= LONG_TERM_QUEUE_LENGTH
    }
}

/// The last `n` items of `s` (all of them when it is shorter).
pub open spec fn keep_last<T>(s: Seq<T>, n: nat) -> Seq<T> {
    if s.len() > n {
        s.skip(s.len() - n)
    } else {
        s
    }
}

proof fn lemma_keep_last_twice<T>(a: Seq<T>, b: Seq<T>, n: nat)
    ensures
        keep_last(keep_last(a, n) + b, n) == keep_last(a + b, n),
{
    let a1 = keep_last(a, n);
    let lhs = keep_last(a1 + b, n);
    let rhs = keep_last(a + b, n);
    assert(lhs.len() == rhs.len());
    assert forall|i: int| 0 <= i < lhs.len() implies lhs[i] == rhs[i] by {
        let k1 = (a1 + b).len() - lhs.len() + i;
        let k2 = (a + b).len() - rhs.len() + i;
        assert(lhs[i] == (a1 + b)[k1]);
        assert(rhs[i] == (a + b)[k2]);
        assert(k2 == k1 + (a.len() - a1.len()));
        if k1 < a1.len() {
            assert(a1[k1] == a[k1 + (a.len() - a1.len())]);
        }
    }
    assert(lhs =~= rhs);
}

/// A hash history keeps the last [`LONG_TERM_QUEUE_LENGTH`] hashes written
/// into it: writing `xs` into a history `h` gives the last that many of
/// `h` followed by `xs`.
pub proof fn lemma_history_keeps_last(h: Seq<Seq<u8>>, xs: Seq<Seq<u8>>)
    requires
        h.len() <= LONG_TERM_QUEUE_LENGTH,
    ensures
        history_write_all(h, xs) == keep_last(h + xs, LONG_TERM_QUEUE_LENGTH as nat),
        history_write_all(h, xs).len() <= LONG_TERM_QUEUE_LENGTH,
    decreases xs.len(),
{
    let n = LONG_TERM_QUEUE_LENGTH as nat;
    if xs.len() == 0 {
        assert(h + xs =~= h);
    } else {
        let h1 = history_write(h, xs[0]);
        assert(h1 == keep_last(h.push(xs[0]), n)) by {
            if h.len() >= LONG_TERM_QUEUE_LENGTH {
                assert(h.drop_first().push(xs[0]) =~= h.push(xs[0]).skip(1));
            }
        }
        lemma_history_keeps_last(h1, xs.drop_first());
        lemma_keep_last_twice(h.push(xs[0]), xs.drop_first(), n);
        assert(h.push(xs[0]) + xs.drop_first() =~= h + xs);
    }
}

/// Every hash among the last [`LONG_TERM_QUEUE_LENGTH`] written into a hash
/// history is in it.
pub proof fn lemma_history_holds_written(h: Seq<Seq<u8>>, xs: Seq<Seq<u8>>, i: int)
    requires
        h.len() <= LONG_TERM_QUEUE_LENGTH,
        xs.len() <= LONG_TERM_QUEUE_LENGTH,
        0 <= i < xs.len(),
    ensures
        history_write_all(h, xs).contains(xs[i]),
{
    lemma_history_keeps_last(h, xs);
    let r = history_write_all(h, xs);
    let k = r.len() - (h + xs).len() + h.len() + i;
    if (h + xs).len() > LONG_TERM_QUEUE_LENGTH {
        assert(r[k] == (h + xs)[h.len() + i]);
    } else {
        assert(r[h.len() + i] == xs[i]);
    }
}

/// The views of queue items.
pub open spec fn queue_view(q: Seq<ShortTermQueueItem>) -> Seq<ItemModel> {
    q.map_values(|i: ShortTermQueueItem| i@)
}

/// `heapless::Vec`, the short term queue's storage, made known to Verus
/// without its fields.
#[verifier::external_type_specification]
#[verifier::external_body]
#[verifier::reject_recursive_types(T)]
pub struct ExHeaplessVec<T, const N: usize>(heapless::Vec<T, N>);

/// The items that a short term queue holds, in order.
pub uninterp spec fn queued_items(v: heapless::Vec<ShortTermQueueItem, SHORT_TERM_QUEUE_LENGTH>) -> Seq<ItemModel>;

/// `heapless::Vec::as_slice`: the items held, in order; never more than the
/// vector's capacity.
#[verifier::external_body]
fn queue_slice(v: &heapless::Vec<ShortTermQueueItem, SHORT_TERM_QUEUE_LENGTH>) -> (r: &[ShortTermQueueItem])
    ensures
        queue_view(r@) == queued_items(*v),
        r@.len() <= SHORT_TERM_QUEUE_LENGTH,
{
    v.as_slice()
}

/// `heapless::Vec::push`: appends `item` when the vector is not full, and
/// otherwise hands it back and changes nothing.
#[verifier::external_body]
fn queue_push(
    v: &mut heapless::Vec<ShortTermQueueItem, SHORT_TERM_QUEUE_LENGTH>,
    item: ShortTermQueueItem,
) -> (r: Result<(), ShortTermQueueItem>)
    ensures
        queued_items(*old(v)).len() < SHORT_TERM_QUEUE_LENGTH ==> (r is Ok && queued_items(
            *final(v),
        ) == queued_items(*old(v)).push(item@)),
        queued_items(*old(v)).len() >= SHORT_TERM_QUEUE_LENGTH ==> (r matches Err(back) && back
            == item && queued_items(*final(v)) == queued_items(*old(v))),
{
    v.push(item)
}

/// `heapless::Vec::swap_remove`: takes out item `i` and moves the last item
/// into its place.
#[verifier::external_body]
fn queue_swap_remove(
    v: &mut heapless::Vec<ShortTermQueueItem, SHORT_TERM_QUEUE_LENGTH>,
    i: usize,
) -> (r: ShortTermQueueItem)
    requires
        i < queued_items(*old(v)).len(),
    ensures
        r@ == queued_items(*old(v))[i as int],
        queued_items(*final(v)) == swap_remove(queued_items(*old(v)), i as int),
{
    v.swap_remove(i)
}

/// `q` with item `i` removed by moving the last item into its place.
pub open spec fn swap_remove<T>(q: Seq<T>, i: int) -> Seq<T> {
    q.update(i, q.last()).drop_last()
}

/// `i` is the first position of an item with hash `h`.
pub open spec fn is_first_hash(q: Seq<ItemModel>, h: Seq<u8>, i: int) -> bool {
    &&& 0 <= i < q.len()
    &&& q[i].hash == h
    &&& forall|j: int| 0 <= j < i ==> q[j].hash != h
}

/// Position of the first item with hash `h`, if any.
pub open spec fn find_hash(q: Seq<ItemModel>, h: Seq<u8>) -> Option<int> {
    if exists|i: int| is_first_hash(q, h, i) {
        Some(choose|i: int| is_first_hash(q, h, i))
    } else {
        None
    }
}

/// The tick at which a message received at tick `tick` is scheduled, for a
/// random number `draw`: up to 63 ticks later, wrapping around after tick 64.
pub open spec fn scheduled_tick_spec(tick: u16, draw: u32) -> u16 {
    let interval = tick + draw % (SHORT_TERM_QUEUE_LENGTH as u32);
    if interval > SHORT_TERM_QUEUE_LENGTH {
        (interval - SHORT_TERM_QUEUE_LENGTH - 1) as u16
    } else {
        interval as u16
    }
}

/// What [`MessageStore::recv`] does with message bytes `msg` in state `st`
/// when its random source gives `draw`: a message whose hash waits in the
/// short term queue is seen, leaves that queue and enters the long term
/// queue; a message whose hash is in the long term queue is seen; any other is
/// scheduled into the short term queue, unless the queue is full.
pub open spec fn recv_spec(st: StoreModel, msg: Seq<u8>, draw: u32) -> (
    Result<StoreRecvOutcome, Error>,
    StoreModel,
) {
    if msg.len() < OVERLINE_STORE_MESSAGE_HASH_LENGTH {
        (Err(Error::InvalidMessage), st)
    } else {
        let h = msg.take(16);
        let d = msg.skip(16);
        match find_hash(st.short_term_queue, h) {
            Some(i) => (
                Ok(StoreRecvOutcome::Seen),
                StoreModel {
                    tick_count: st.tick_count,
                    short_term_queue: swap_remove(st.short_term_queue, i),
                    long_term_queue: history_write(st.long_term_queue, h),
                },
            ),
            None => if st.long_term_queue.contains(h) {
                (Ok(StoreRecvOutcome::Seen), st)
            } else if st.short_term_queue.len() >= SHORT_TERM_QUEUE_LENGTH {
                (Err(Error::ShortTermQueueFull), st)
            } else {
                let when = scheduled_tick_spec(st.tick_count, draw);
                (
                    Ok(StoreRecvOutcome::NotSeenScheduled(when)),
                    StoreModel {
                        tick_count: st.tick_count,
                        short_term_queue: st.short_term_queue.push(
                            ItemModel { when, hash: h, data: d },
                        ),
                        long_term_queue: st.long_term_queue,
                    },
                )
            },
        }
    }
}

/// The items of `q` due at tick `tick`, in queue order.
pub open spec fn due_items(q: Seq<ItemModel>, tick: u16) -> Seq<ItemModel>
    decreases q.len(),
{
    if q.len() == 0 {
        Seq::empty()
    } else if q.last().when == tick {
        due_items(q.drop_last(), tick).push(q.last())
    } else {
        due_items(q.drop_last(), tick)
    }
}

/// `q` after its due items from position `i` on are taken out one after the
/// other, front to back, each by moving the last item into its place
/// ([`swap_remove`]); an item moved in is looked at in turn.
///
/// Wherever removing the due positions found beforehand ([`due_indices`]),
/// from the first to the last, stays within the queue, this is the queue that
/// removal leaves ([`lemma_sweep_is_positional_removal`]); unlike it, this
/// never runs past the end of the queue, and every due item leaves
/// ([`lemma_tick_removes_due_items`]).
pub open spec fn sweep_due(q: Seq<ItemModel>, tick: u16, i: int) -> Seq<ItemModel>
    decreases q.len() - i,
{
    if i < 0 || i >= q.len() {
        q
    } else if q[i].when == tick {
        sweep_due(swap_remove(q, i), tick, i)
    } else {
        sweep_due(q, tick, i + 1)
    }
}

/// Positions of the items of `q` due at tick `tick`, in increasing order.
pub open spec fn due_indices(q: Seq<ItemModel>, tick: u16) -> Seq<int>
    decreases q.len(),
{
    if q.len() == 0 {
        Seq::empty()
    } else if q.last().when == tick {
        due_indices(q.drop_last(), tick).push(q.len() - 1)
    } else {
        due_indices(q.drop_last(), tick)
    }
}

/// `q` after the items at positions `idxs` are removed one after the other,
/// each by moving the last item into its place; `None` where a position is
/// past the end of what is left.
pub open spec fn swap_remove_all(q: Seq<ItemModel>, idxs: Seq<int>) -> Option<Seq<ItemModel>>
    decreases idxs.len(),
{
    if idxs.len() == 0 {
        Some(q)
    } else if 0 <= idxs[0] < q.len() {
        swap_remove_all(swap_remove(q, idxs[0]), idxs.drop_first())
    } else {
        None
    }
}

/// The message an item stands for: its hash followed by its data.
pub open spec fn item_message(i: ItemModel) -> Seq<u8> {
    i.hash + i.data
}

/// The tick after `tick`, wrapping after the last one.
pub open spec fn next_tick(tick: u16) -> u16 {
    if tick == SHORT_TERM_QUEUE_LENGTH - 1 {
        0
    } else {
        (tick + 1) as u16
    }
}

/// The largest number of messages one tick sends.
pub const MAX_MESSAGES_PER_TICK: usize = 3;

/// What [`MessageStore::tick_try_send`] does in state `st`: the messages due
/// at the current tick are returned in queue order and leave the short term
/// queue ([`sweep_due`]); their hashes enter the long term queue in that
/// order, and the tick advances. More than
/// [`MAX_MESSAGES_PER_TICK`] due messages are refused with nothing changed.
pub open spec fn tick_spec(st: StoreModel) -> (Result<Seq<Seq<u8>>, ()>, StoreModel) {
    let q = st.short_term_queue;
    let due = due_items(q, st.tick_count);
    if due.len() > MAX_MESSAGES_PER_TICK {
        (Err(()), st)
    } else {
        (
            Ok(due.map_values(|i: ItemModel| item_message(i))),
            StoreModel {
                tick_count: next_tick(st.tick_count),
                short_term_queue: sweep_due(q, st.tick_count, 0),
                long_term_queue: history_write_all(
                    st.long_term_queue,
                    due.map_values(|i: ItemModel| i.hash),
                ),
            },
        )
    }
}

/// The views of a sequence of overline messages.
pub open spec fn messages_view(v: Seq<Message>) -> Seq<Seq<u8>> {
    v.map_values(|m: Message| m@)
}

/// What [`MessageStore::mark_seen`] does with message bytes `msg` in state
/// `st`: its hash enters the long term queue unless it is there already.
pub open spec fn mark_seen_spec(st: StoreModel, msg: Seq<u8>) -> (Result<(), Error>, StoreModel) {
    if msg.len() < OVERLINE_STORE_MESSAGE_HASH_LENGTH {
        (Err(Error::InvalidMessage), st)
    } else if st.long_term_queue.contains(msg.take(16)) {
        (Ok(()), st)
    } else {
        (
            Ok(()),
            StoreModel {
                tick_count: st.tick_count,
                short_term_queue: st.short_term_queue,
                long_term_queue: history_write(st.long_term_queue, msg.take(16)),
            },
        )
    }
}

proof fn lemma_first_hash_exists(q: Seq<ItemModel>, h: Seq<u8>, j: int)
    requires
        0 <= j < q.len(),
        q[j].hash == h,
    ensures
        find_hash(q, h) is Some,
    decreases j,
{
    if exists|k: int| 0 <= k < j && q[k].hash == h {
        let k = choose|k: int| 0 <= k < j && q[k].hash == h;
        lemma_first_hash_exists(q, h, k);
    } else {
        assert(is_first_hash(q, h, j));
    }
}

proof fn lemma_written_is_held(l: Seq<Seq<u8>>, h: Seq<u8>)
    ensures
        history_write(l, h).contains(h),
{
    let w = history_write(l, h);
    assert(w[w.len() - 1] == h);
}

/// A message received twice in a row is seen the second time, whatever the
/// random source gives, when the first reception was accepted.
pub proof fn lemma_recv_twice_seen(st: StoreModel, msg: Seq<u8>, d1: u32, d2: u32)
    requires
        recv_spec(st, msg, d1).0 is Ok,
    ensures
        recv_spec(recv_spec(st, msg, d1).1, msg, d2).0 == Ok::<StoreRecvOutcome, Error>(
            StoreRecvOutcome::Seen,
        ),
{
    let h = msg.take(16);
    let st1 = recv_spec(st, msg, d1).1;
    match find_hash(st.short_term_queue, h) {
        Some(i) => {
            lemma_written_is_held(st.long_term_queue, h);
        },
        None => {
            if !st.long_term_queue.contains(h) {
                let q1 = st1.short_term_queue;
                lemma_first_hash_exists(q1, h, q1.len() - 1);
            }
        },
    }
}

/// A message that a tick sent is seen when it comes back, whatever the
/// random source gives.
pub proof fn lemma_sent_then_seen(st: StoreModel, i: int, d: u32)
    requires
        st.valid(),
        tick_spec(st).0 matches Ok(msgs) && 0 <= i < msgs.len(),
    ensures
        recv_spec(tick_spec(st).1, tick_spec(st).0.unwrap()[i], d).0 == Ok::<
            StoreRecvOutcome,
            Error,
        >(StoreRecvOutcome::Seen),
{
    let q = st.short_term_queue;
    let due = due_items(q, st.tick_count);
    let msgs = tick_spec(st).0.unwrap();
    lemma_due_hashes(q, st.tick_count);
    assert(msgs[i] == item_message(due[i]));
    let hashes = due.map_values(|it: ItemModel| it.hash);
    assert(hashes[i] == due[i].hash);
    lemma_history_holds_written(st.long_term_queue, hashes, i);
    assert(msgs[i].take(16) == due[i].hash) by {
        lemma_data_hash_roundtrip(due[i].hash, due[i].data);
    }
}

/// A message marked as seen is seen when it comes, whatever the random
/// source gives.
pub proof fn lemma_marked_then_seen(st: StoreModel, msg: Seq<u8>, d: u32)
    requires
        mark_seen_spec(st, msg).0 is Ok,
    ensures
        recv_spec(mark_seen_spec(st, msg).1, msg, d).0 == Ok::<StoreRecvOutcome, Error>(
            StoreRecvOutcome::Seen,
        ),
{
    lemma_written_is_held(st.long_term_queue, msg.take(16));
}

proof fn lemma_due_prefix(q: Seq<ItemModel>, tick: u16, k: int)
    requires
        0 <= k <= q.len(),
    ensures
        due_items(q.take(k), tick).len() <= due_items(q, tick).len(),
    decreases q.len(),
{
    if q.len() > 0 {
        if k == q.len() {
            assert(q.take(k) == q);
        } else {
            assert(q.take(k) == q.drop_last().take(k));
            lemma_due_prefix(q.drop_last(), tick, k);
        }
    }
}

proof fn lemma_due_hashes(q: Seq<ItemModel>, tick: u16)
    requires
        forall|i: int| 0 <= i < q.len() ==> #[trigger] q[i].hash.len() == OVERLINE_STORE_MESSAGE_HASH_LENGTH,
    ensures
        forall|j: int|
            0 <= j < due_items(q, tick).len() ==> #[trigger] due_items(q, tick)[j].hash.len()
                == OVERLINE_STORE_MESSAGE_HASH_LENGTH,
    decreases q.len(),
{
    if q.len() > 0 {
        let p = q.drop_last();
        assert forall|i: int| 0 <= i < p.len() implies #[trigger] p[i].hash.len()
            == OVERLINE_STORE_MESSAGE_HASH_LENGTH by {
            assert(p[i] == q[i]);
        }
        lemma_due_hashes(p, tick);
        let d = due_items(q, tick);
        let dp = due_items(p, tick);
        if q.last().when == tick {
            assert(d == dp.push(q.last()));
            assert(q.last() == q[q.len() - 1]);
            assert forall|j: int| 0 <= j < d.len() implies #[trigger] d[j].hash.len()
                == OVERLINE_STORE_MESSAGE_HASH_LENGTH by {
                if j < dp.len() {
                    assert(d[j] == dp[j]);
                }
            }
        } else {
            assert(d == dp);
        }
    }
}

proof fn lemma_swap_remove_counts<T>(q: Seq<T>, i: int)
    requires
        0 <= i < q.len(),
    ensures
        forall|x: T|
            #[trigger] swap_remove(q, i).to_multiset().count(x) == q.to_multiset().count(x) - (if x
                == q[i] {
                1int
            } else {
                0int
            }),
{
    broadcast use vstd::seq_lib::group_to_multiset_ensures, vstd::multiset::group_multiset_axioms;

    let l = q.last();
    let u = q.update(i, l);
    assert(u.drop_last() =~= u.remove(u.len() - 1));
    assert(u[u.len() - 1] == l);
    assert forall|x: T| #[trigger] swap_remove(q, i).to_multiset().count(x) == q.to_multiset().count(
        x,
    ) - (if x == q[i] {
        1int
    } else {
        0int
    }) by {
        assert(q.contains(q[i]));
        assert(q.contains(l));
    }
}

/// A tick takes every due item out of the short term queue and keeps every
/// other item: after [`sweep_due`], an item that is due occurs nowhere, and
/// any other occurs as often as before.
pub proof fn lemma_tick_removes_due_items(q: Seq<ItemModel>, tick: u16)
    ensures
        forall|x: ItemModel|
            #[trigger] sweep_due(q, tick, 0).to_multiset().count(x) == if x.when == tick {
                0
            } else {
                q.to_multiset().count(x)
            },
{
    lemma_sweep_counts(q, tick, 0);
}

proof fn lemma_sweep_counts(q: Seq<ItemModel>, tick: u16, i: int)
    requires
        0 <= i,
        forall|j: int| 0 <= j < i && j < q.len() ==> #[trigger] q[j].when != tick,
    ensures
        forall|x: ItemModel|
            #[trigger] sweep_due(q, tick, i).to_multiset().count(x) == if x.when == tick {
                0
            } else {
                q.to_multiset().count(x)
            },
    decreases q.len() - i,
{
    broadcast use vstd::seq_lib::group_to_multiset_ensures;

    if i >= q.len() {
        assert(sweep_due(q, tick, i) == q);
        assert forall|x: ItemModel| x.when == tick implies #[trigger] q.to_multiset().count(x) == 0 by {
            if q.contains(x) {
                let j = choose|j: int| 0 <= j < q.len() && q[j] == x;
                assert(q[j].when != tick);
            }
        }
    } else if q[i].when == tick {
        let r = swap_remove(q, i);
        lemma_swap_remove_counts(q, i);
        assert forall|j: int| 0 <= j < i && j < r.len() implies #[trigger] r[j].when != tick by {
            assert(r[j] == q[j]);
        }
        lemma_sweep_counts(r, tick, i);
        assert forall|x: ItemModel| #[trigger] sweep_due(q, tick, i).to_multiset().count(x) == if x.when
            == tick {
            0
        } else {
            q.to_multiset().count(x)
        } by {
            assert(sweep_due(q, tick, i) == sweep_due(r, tick, i));
            assert(r.to_multiset().count(x) == q.to_multiset().count(x) - (if x == q[i] {
                1int
            } else {
                0int
            }));
        }
    } else {
        assert(sweep_due(q, tick, i) == sweep_due(q, tick, i + 1));
        lemma_sweep_counts(q, tick, i + 1);
    }
}

proof fn lemma_sweep_hashes(q: Seq<ItemModel>, tick: u16, i: int)
    requires
        forall|j: int| 0 <= j < q.len() ==> #[trigger] q[j].hash.len() == OVERLINE_STORE_MESSAGE_HASH_LENGTH,
    ensures
        sweep_due(q, tick, i).len() <= q.len(),
        forall|j: int|
            0 <= j < sweep_due(q, tick, i).len() ==> #[trigger] sweep_due(q, tick, i)[j].hash.len()
                == OVERLINE_STORE_MESSAGE_HASH_LENGTH,
    decreases q.len() - i,
{
    if 0 <= i < q.len() {
        if q[i].when == tick {
            let r = swap_remove(q, i);
            assert forall|j: int| 0 <= j < r.len() implies #[trigger] r[j].hash.len()
                == OVERLINE_STORE_MESSAGE_HASH_LENGTH by {
                if j == i {
                    assert(r[j] == q[q.len() - 1]);
                } else {
                    assert(r[j] == q[j]);
                }
            }
            lemma_sweep_hashes(r, tick, i);
        } else {
            lemma_sweep_hashes(q, tick, i + 1);
        }
    }
}

proof fn lemma_swap_remove_all_bounds(q: Seq<ItemModel>, idxs: Seq<int>)
    requires
        swap_remove_all(q, idxs) is Some,
    ensures
        forall|j: int| 0 <= j < idxs.len() ==> 0 <= #[trigger] idxs[j] < q.len() - j,
    decreases idxs.len(),
{
    if idxs.len() > 0 {
        let q1 = swap_remove(q, idxs[0]);
        let rest = idxs.drop_first();
        lemma_swap_remove_all_bounds(q1, rest);
        assert forall|j: int| 0 <= j < idxs.len() implies 0 <= #[trigger] idxs[j] < q.len() - j by {
            if j > 0 {
                assert(idxs[j] == rest[j - 1]);
            }
        }
    }
}

proof fn lemma_due_indices_facts(q: Seq<ItemModel>, tick: u16)
    ensures
        forall|a: int, b: int|
            0 <= a < b < due_indices(q, tick).len() ==> #[trigger] due_indices(q, tick)[a]
                < #[trigger] due_indices(q, tick)[b],
        forall|a: int|
            0 <= a < due_indices(q, tick).len() ==> 0 <= #[trigger] due_indices(q, tick)[a] < q.len()
                && q[due_indices(q, tick)[a]].when == tick,
        forall|p: int| 0 <= p < q.len() && #[trigger] q[p].when == tick ==> due_indices(q, tick).contains(p),
    decreases q.len(),
{
    if q.len() > 0 {
        let p = q.drop_last();
        lemma_due_indices_facts(p, tick);
        let d = due_indices(q, tick);
        let dp = due_indices(p, tick);
        assert forall|a: int| 0 <= a < dp.len() implies 0 <= #[trigger] dp[a] < q.len() - 1 && q[dp[a]].when
            == tick by {
            assert(q[dp[a]] == p[dp[a]]);
        }
        assert forall|x: int| 0 <= x < q.len() && #[trigger] q[x].when == tick implies d.contains(x) by {
            if x == q.len() - 1 {
                assert(d[d.len() - 1] == x);
            } else {
                assert(p[x] == q[x]);
                let m = choose|m: int| 0 <= m < dp.len() && dp[m] == x;
                assert(d[m] == x);
            }
        }
    }
}

proof fn lemma_positional_removal(q: Seq<ItemModel>, tick: u16, i: int, idxs: Seq<int>)
    requires
        0 <= i,
        forall|j: int| 0 <= j < i && j < q.len() ==> #[trigger] q[j].when != tick,
        forall|a: int, b: int| 0 <= a < b < idxs.len() ==> #[trigger] idxs[a] < #[trigger] idxs[b],
        forall|a: int|
            0 <= a < idxs.len() ==> i <= #[trigger] idxs[a] < q.len() && q[idxs[a]].when == tick,
        forall|p: int| i <= p < q.len() && #[trigger] q[p].when == tick ==> idxs.contains(p),
        swap_remove_all(q, idxs) is Some,
    ensures
        swap_remove_all(q, idxs) == Some(sweep_due(q, tick, i)),
    decreases q.len() - i,
{
    let n = q.len() as int;
    if i >= n {
        if idxs.len() > 0 {
            assert(i <= idxs[0] < n);
        }
    } else if q[i].when != tick {
        assert forall|a: int| 0 <= a < idxs.len() implies i + 1 <= #[trigger] idxs[a] < q.len()
            && q[idxs[a]].when == tick by {
            assert(q[idxs[a]].when == tick);
        }
        lemma_positional_removal(q, tick, i + 1, idxs);
    } else {
        assert(idxs.contains(i));
        let m = choose|m: int| 0 <= m < idxs.len() && idxs[m] == i;
        if m > 0 {
            assert(idxs[0] < idxs[m]);
        }
        assert(idxs[0] == i);
        lemma_swap_remove_all_bounds(q, idxs);
        if i < n - 1 && q[n - 1].when == tick {
            assert(idxs.contains(n - 1));
            let m2 = choose|m2: int| 0 <= m2 < idxs.len() && idxs[m2] == n - 1;
            assert(idxs[m2] < n - m2);
        }
        let r = swap_remove(q, i);
        let rest = idxs.drop_first();
        assert forall|j: int| 0 <= j < i && j < r.len() implies #[trigger] r[j].when != tick by {
            assert(r[j] == q[j]);
        }
        assert forall|a: int, b: int| 0 <= a < b < rest.len() implies #[trigger] rest[a]
            < #[trigger] rest[b] by {
            assert(rest[a] == idxs[a + 1]);
            assert(rest[b] == idxs[b + 1]);
        }
        assert forall|a: int| 0 <= a < rest.len() implies i <= #[trigger] rest[a] < r.len()
            && r[rest[a]].when == tick by {
            assert(rest[a] == idxs[a + 1]);
            assert(idxs[0] < idxs[a + 1]);
            assert(q[idxs[a + 1]].when == tick);
            assert(r[rest[a]] == q[rest[a]]);
        }
        assert forall|x: int| i <= x < r.len() && #[trigger] r[x].when == tick implies rest.contains(
            x,
        ) by {
            if x == i {
                assert(r[x] == q[n - 1]);
            } else {
                assert(r[x] == q[x]);
                assert(idxs.contains(x));
                let k = choose|k: int| 0 <= k < idxs.len() && idxs[k] == x;
                assert(k != 0);
                assert(rest[k - 1] == x);
            }
        }
        lemma_positional_removal(r, tick, i, rest);
    }
}

/// Where removing the positions of the due items, found beforehand, one
/// after the other from the first by moving the last item into their place
/// stays within the queue, it leaves the queue that [`sweep_due`] leaves.
pub proof fn lemma_sweep_is_positional_removal(q: Seq<ItemModel>, tick: u16)
    requires
        swap_remove_all(q, due_indices(q, tick)) is Some,
    ensures
        swap_remove_all(q, due_indices(q, tick)) == Some(sweep_due(q, tick, 0)),
{
    lemma_due_indices_facts(q, tick);
    lemma_positional_removal(q, tick, 0, due_indices(q, tick));
}

/// Computes [`scheduled_tick_spec`].
pub fn scheduled_tick(tick_count: u16, draw: u32) -> (r: u16)
    requires
        tick_count < SHORT_TERM_QUEUE_LENGTH,
    ensures
        r == scheduled_tick_spec(tick_count, draw),
{
    let mut interval = tick_count + (draw % (SHORT_TERM_QUEUE_LENGTH as u32)) as u16;
    if interval > SHORT_TERM_QUEUE_LENGTH as u16 {
        interval = interval - SHORT_TERM_QUEUE_LENGTH as u16 - 1;
    }
    interval
}

/// Applies the rules for storing and retransmitting the overline messages a
/// node sees. Driven by a timer through [`MessageStore::tick_try_send`].
pub struct MessageStore<R: RandomSource> {
    tick_count: u16,
    short_term_queue: heapless::Vec<ShortTermQueueItem, SHORT_TERM_QUEUE_LENGTH>,
    long_term_queue: heapless::HistoryBuffer<Vec<u8>, LONG_TERM_QUEUE_LENGTH>,
    rng: R,
}

impl<R: RandomSource> View for MessageStore<R> {
    type V = StoreModel;

    closed spec fn view(&self) -> StoreModel {
        StoreModel {
            tick_count: self.tick_count,
            short_term_queue: queued_items(self.short_term_queue),
            long_term_queue: held_hashes(self.long_term_queue),
        }
    }
}

impl<R: RandomSource> MessageStore<R> {
    /// The store's model is [valid](StoreModel::valid).
    pub open spec fn wf(&self) -> bool {
        self@.valid()
    }

    /// A store at tick 0 over the given queues and random source.
    pub fn new(
        rng: R,
        short_term_queue: heapless::Vec<ShortTermQueueItem, SHORT_TERM_QUEUE_LENGTH>,
        long_term_queue: heapless::HistoryBuffer<Vec<u8>, LONG_TERM_QUEUE_LENGTH>,
    ) -> (r: Self)
        ensures
            r.wf(),
            r@ == (StoreModel {
                tick_count: 0,
                short_term_queue: queued_items(short_term_queue),
                long_term_queue: held_hashes(long_term_queue),
            }),
    {
        held_count(&long_term_queue);
        let items = queue_slice(&short_term_queue);
        let mut i: usize = 0;
        while i < items.len()
            invariant
                i <= items@.len(),
                forall|j: int|
                    0 <= j < i ==> #[trigger] items@[j]@.hash.len()
                        == OVERLINE_STORE_MESSAGE_HASH_LENGTH,
            decreases items@.len() - i,
        {
            let item = &items[i];
            proof {
                use_type_invariant(item);
            }
            i = i + 1;
        }
        MessageStore { tick_count: 0, short_term_queue, long_term_queue, rng }
    }

    /// The current tick.
    pub fn tick_count(&self) -> (r: u16)
        ensures
            r == self@.tick_count,
    {
        self.tick_count
    }

    /// Number of messages waiting in the short term queue.
    pub fn short_term_queue_len(&self) -> (r: usize)
        ensures
            r == self@.short_term_queue.len(),
    {
        queue_slice(&self.short_term_queue).len()
    }

    /// Position of the first item of the short term queue with hash `h`.
    fn find_in_short_term_queue(&self, h: &[u8]) -> (r: Option<usize>)
        ensures
            match find_hash(self@.short_term_queue, h@) {
                Some(i) => r == Some(i as usize),
                None => r is None,
            },
    {
        let ghost q = self@.short_term_queue;
        let items = queue_slice(&self.short_term_queue);
        let mut idx: usize = 0;
        while idx < items.len()
            invariant
                idx <= items@.len(),
                q == queue_view(items@),
                q == self@.short_term_queue,
                forall|j: int| 0 <= j < idx ==> q[j].hash != h@,
            decreases items@.len() - idx,
        {
            if bytes_equal(items[idx].message_hash.as_slice(), h) {
                proof {
                    assert(is_first_hash(q, h@, idx as int));
                    let k = choose|k: int| is_first_hash(q, h@, k);
                    assert(k == idx);
                }
                return Some(idx);
            }
            idx = idx + 1;
        }
        assert(!exists|k: int| is_first_hash(q, h@, k));
        None
    }

    /// Whether receiving `message` schedules it, so that a random number is
    /// drawn for it: it holds a hash that neither queue holds.
    fn schedules(&self, message: &Message) -> (r: bool)
        ensures
            r == (message@.len() >= OVERLINE_STORE_MESSAGE_HASH_LENGTH && find_hash(
                self@.short_term_queue,
                message@.take(16),
            ) is None && !self@.long_term_queue.contains(message@.take(16))),
    {
        let h = match message.hash() {
            Ok(h) => h,
            Err(_) => return false,
        };
        if self.find_in_short_term_queue(h.as_slice()).is_some() {
            return false;
        }
        !holds_hash(&self.long_term_queue, h.as_slice())
    }

    /// Used when the node received `message` ([`recv_spec`], for whatever
    /// number the random source gives). A number is drawn only for a message
    /// that gets scheduled.
    pub fn recv(&mut self, message: Message) -> (r: Result<StoreRecvOutcome, Error>)
        requires
            old(self).wf(),
        ensures
            final(self).wf(),
            exists|draw: u32| (r, final(self)@) == recv_spec(old(self)@, message@, draw),
    {
        let draw = if self.schedules(&message) {
            self.rng.next_u32()
        } else {
            0
        };
        self.recv_with_draw(message, draw)
    }

    /// Used when the node received `message` and the random source gave
    /// `draw` ([`recv_spec`]).
    pub fn recv_with_draw(&mut self, message: Message, draw: u32) -> (r: Result<
        StoreRecvOutcome,
        Error,
    >)
        requires
            old(self).wf(),
        ensures
            final(self).wf(),
            (r, final(self)@) == recv_spec(old(self)@, message@, draw),
    {
        proof {
            use_type_invariant(&message);
        }
        let (message_hash, message_data_part) = match message.into_hash_data() {
            Ok(x) => x,
            Err(e) => return Err(e),
        };
        if let Some(remove_idx) = self.find_in_short_term_queue(message_hash.as_slice()) {
            queue_swap_remove(&mut self.short_term_queue, remove_idx);
            write_hash(&mut self.long_term_queue, message_hash);
            return Ok(StoreRecvOutcome::Seen);
        }
        if holds_hash(&self.long_term_queue, message_hash.as_slice()) {
            return Ok(StoreRecvOutcome::Seen);
        }
        let when = scheduled_tick(self.tick_count, draw);
        let item = ShortTermQueueItem { message_hash, message_data_part, when };
        if queue_slice(&self.short_term_queue).len() >= SHORT_TERM_QUEUE_LENGTH {
            return Err(Error::ShortTermQueueFull);
        }
        if queue_push(&mut self.short_term_queue, item).is_err() {
            return Err(Error::CannotReceive);
        }
        Ok(StoreRecvOutcome::NotSeenScheduled(when))
    }

    /// Driven by a timer: returns the messages whose tick has come (they were
    /// not seen again in time and are to be retransmitted), removes them from
    /// the short term queue, and advances the tick ([`tick_spec`]).
    pub fn tick_try_send(&mut self) -> (r: Result<Vec<Message>, ()>)
        requires
            old(self).wf(),
        ensures
            final(self).wf(),
            (match r {
                Ok(v) => Ok(messages_view(v@)),
                Err(e) => Err(e),
            }, final(self)@) == tick_spec(old(self)@),
    {
        let ghost q = self@.short_term_queue;
        let ghost tick = self.tick_count;
        // The due messages, in queue order; more than a tick sends leave the
        // store as it is.
        let items = queue_slice(&self.short_term_queue);
        let mut result: Vec<Message> = Vec::new();
        let mut idx: usize = 0;
        assert(messages_view(result@) =~= due_items(q.take(0), tick).map_values(
            |i: ItemModel| item_message(i),
        ));
        while idx < items.len()
            invariant
                idx <= items@.len(),
                q == queue_view(items@),
                tick == self.tick_count,
                messages_view(result@) == due_items(q.take(idx as int), tick).map_values(
                    |i: ItemModel| item_message(i),
                ),
                result@.len() <= MAX_MESSAGES_PER_TICK,
                self.wf(),
                self@ == old(self)@,
                q == old(self)@.short_term_queue,
            decreases items@.len() - idx,
        {
            let item = &items[idx];
            proof {
                assert(q.take(idx + 1).drop_last() == q.take(idx as int));
                assert(q.take(idx + 1).last() == q[idx as int]);
                assert(item@ == q[idx as int]);
            }
            if item.when == self.tick_count {
                proof {
                    use_type_invariant(item);
                }
                let ghost d = due_items(q.take(idx as int), tick);
                if result.len() == MAX_MESSAGES_PER_TICK {
                    proof {
                        assert(messages_view(result@).len() == d.len());
                        lemma_due_prefix(q, tick, idx + 1);
                    }
                    return Err(());
                }
                let msg = match Message::try_from_hash_data(
                    copy_range(item.message_hash.as_slice(), 0, item.message_hash.len()),
                    copy_range(item.message_data_part.as_slice(), 0, item.message_data_part.len()),
                ) {
                    Ok(msg) => msg,
                    Err(_) => {
                        proof {
                            assert(false);
                        }
                        return Err(());
                    },
                };
                let ghost before = messages_view(result@);
                result.push(msg);
                proof {
                    assert(item.message_hash@.subrange(0, item.message_hash@.len() as int)
                        =~= item.message_hash@);
                    assert(item.message_data_part@.subrange(
                        0,
                        item.message_data_part@.len() as int,
                    ) =~= item.message_data_part@);
                    assert(msg@ == item_message(q[idx as int]));
                    assert(messages_view(result@) =~= before.push(msg@));
                    assert(d.push(q[idx as int]).map_values(|i: ItemModel| item_message(i)) =~= d.map_values(
                        |i: ItemModel| item_message(i),
                    ).push(item_message(q[idx as int])));
                }
            }
            idx = idx + 1;
        }
        let ghost due = due_items(q, tick);
        proof {
            assert(q.take(idx as int) == q);
            lemma_due_hashes(q, tick);
            lemma_sweep_hashes(q, tick, 0);
        }
        // Take the due items out, front to back, by swap removal.
        let mut i: usize = 0;
        while i < queue_slice(&self.short_term_queue).len()
            invariant
                sweep_due(queued_items(self.short_term_queue), tick, i as int) == sweep_due(q, tick, 0),
                queued_items(self.short_term_queue).len() <= SHORT_TERM_QUEUE_LENGTH,
                held_hashes(self.long_term_queue) == old(self)@.long_term_queue,
                self.tick_count == tick,
            decreases queued_items(self.short_term_queue).len() - i,
        {
            let now = queue_slice(&self.short_term_queue);
            proof {
                assert(queue_view(now@).len() == now@.len());
            }
            if now[i].when == self.tick_count {
                proof {
                    assert(now@[i as int]@ == queued_items(self.short_term_queue)[i as int]);
                }
                queue_swap_remove(&mut self.short_term_queue, i);
            } else {
                proof {
                    assert(now@[i as int]@ == queued_items(self.short_term_queue)[i as int]);
                }
                i = i + 1;
            }
        }
        proof {
            assert(queued_items(self.short_term_queue) == sweep_due(q, tick, 0));
        }
        // Their hashes enter the long term queue, in the same order.
        let ghost hashes = due.map_values(|it: ItemModel| it.hash);
        let mut k: usize = 0;
        assert(hashes.skip(0) == hashes);
        assert(messages_view(result@).len() == result@.len());
        assert(result@.len() == due.len());
        while k < result.len()
            invariant
                k <= result@.len(),
                result@.len() == due.len(),
                messages_view(result@) == due.map_values(|i: ItemModel| item_message(i)),
                forall|m: int| 0 <= m < due.len() ==> #[trigger] due[m].hash.len()
                    == OVERLINE_STORE_MESSAGE_HASH_LENGTH,
                hashes == due.map_values(|it: ItemModel| it.hash),
                history_write_all(old(self)@.long_term_queue, hashes) == history_write_all(
                    held_hashes(self.long_term_queue),
                    hashes.skip(k as int),
                ),
                held_hashes(self.long_term_queue).len() <= LONG_TERM_QUEUE_LENGTH,
                queued_items(self.short_term_queue) == sweep_due(q, tick, 0),
                self.tick_count == tick,
            decreases result@.len() - k,
        {
            proof {
                assert(messages_view(result@)[k as int] == result@[k as int]@);
                assert(result@[k as int]@ == item_message(due[k as int]));
            }
            let h = match result[k].hash() {
                Ok(h) => h,
                Err(_) => {
                    proof {
                        assert(false);
                    }
                    return Err(());
                },
            };
            proof {
                lemma_data_hash_roundtrip(due[k as int].hash, due[k as int].data);
                assert(h@ == due[k as int].hash);
                assert(hashes.skip(k as int)[0] == h@);
                assert(hashes.skip(k as int).drop_first() == hashes.skip(k + 1));
            }
            write_hash(&mut self.long_term_queue, h);
            k = k + 1;
        }
        proof {
            assert(hashes.skip(k as int) =~= Seq::<Seq<u8>>::empty());
        }
        if self.tick_count == SHORT_TERM_QUEUE_LENGTH as u16 - 1 {
            self.tick_count = 0;
        } else {
            self.tick_count = self.tick_count + 1;
        }
        Ok(result)
    }

    /// Marks `message` as seen: its hash enters the long term queue unless it
    /// is there already ([`mark_seen_spec`]).
    pub fn mark_seen(&mut self, message: &Message) -> (r: Result<(), Error>)
        requires
            old(self).wf(),
        ensures
            final(self).wf(),
            (r, final(self)@) == mark_seen_spec(old(self)@, message@),
    {
        let h = match message.hash() {
            Ok(h) => h,
            Err(e) => return Err(e),
        };
        if !holds_hash(&self.long_term_queue, h.as_slice()) {
            write_hash(&mut self.long_term_queue, h);
        }
        Ok(())
    }
}

} // verus!
