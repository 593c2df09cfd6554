//! The point-to-point protocol of the radio layer (LoRa).
//!
//! A logical overline message can be longer than one LoRa packet. The
//! [`MessageSlicer`] cuts it into parts, each behind a header that lets the
//! receiver put the message back together; the [`MessagePool`] collects the
//! parts until a message is complete.
//!
//! A part is laid out as follows:
//!
//! | name        | bytes | meaning                                           |
//! |-------------|-------|---------------------------------------------------|
//! | prefix      | 4     | groups the parts of one message                   |
//! | part_num    | 1     | number of this part: 1, 2 or 3                    |
//! | total_count | 1     | number of parts of the message                    |
//! | length      | 1     | number of data bytes                              |
//! | data        | 1-248 | the data                                          |
use vstd::prelude::*;
use crate::buffers::{append_bytes, copy_range};
use crate::host::codec::{chunks, frames_view, lemma_chunks_flatten, lemma_chunks_len, split_frames};
use crate::overline::swap_remove;
use crate::random::{random_byte, small_rng_from_seed};

verus! {

/// Largest LoRa packet, and so the largest part.
pub const MAX_LORA_MESSAGE_SIZE: usize = 255;

/// A raw part as received by the radio chip: at most
/// [`MAX_LORA_MESSAGE_SIZE`] bytes.
pub type P2pMessagePart = Vec<u8>;

/// Longest logical message.
pub const MAX_OVERLINE_MESSAGE_LENGTH: usize = 512;

/// Most parts a message is cut into.
pub const MAX_P2P_MESSAGE_PART_COUNT: usize = 3;

/// Most messages whose parts the pool collects at once.
pub const MAX_UNFINISHED_P2P_MESSAGE_COUNT: usize = 4;

/// A logical message put back together from its parts, not yet parsed as an
/// overline message: at most [`MAX_OVERLINE_MESSAGE_LENGTH`] bytes.
pub type P2pMessage = Vec<u8>;

pub const PREFIX_LENGTH: usize = 4;

pub const PREFIX_IDX: usize = 0;

pub const PART_NUMBER_IDX: usize = 4;

pub const TOTAL_COUNT_IDX: usize = 5;

pub const LENGTH_IDX: usize = 6;

/// Length of the header in front of the data of a part.
pub const HEADER_LENGTH: usize = 7;

/// Most data bytes one part carries.
pub const MAX_PART_DATA_LENGTH: usize = MAX_LORA_MESSAGE_SIZE - HEADER_LENGTH;

/// Errors of the point-to-point layer.
#[derive(Debug, PartialEq, Eq, Clone, Copy)]
pub enum Error {
    PoolFull,
    MalformedMessage,
    TooLong,
}

/// `msg` is a well formed part: a header whose part number and total count
/// are between 1 and 3 and whose length, between 1 and 248, is the number of
/// bytes after the header.
pub open spec fn is_valid_part(msg: Seq<u8>) -> bool {
    &&& msg.len() >= HEADER_LENGTH + 1
    &&& 1 <= msg[PART_NUMBER_IDX as int] <= 3
    &&& 1 <= msg[TOTAL_COUNT_IDX as int] <= 3
    &&& 1 <= msg[LENGTH_IDX as int] <= MAX_PART_DATA_LENGTH
    &&& msg[LENGTH_IDX as int] == msg.len() - HEADER_LENGTH
}

/// The parts collected for one prefix. A part that has not arrived yet is
/// empty; parts are kept at the position given by their number.
pub struct PartsEntry {
    pub prefix: Seq<u8>,
    pub parts: Seq<Seq<u8>>,
}

/// `i` is the first position of an entry with prefix `p`.
pub open spec fn is_first_prefix(es: Seq<PartsEntry>, p: Seq<u8>, i: int) -> bool {
    &&& 0 <= i < es.len()
    &&& es[i].prefix == p
    &&& forall|j: int| 0 <= j < i ==> es[j].prefix != p
}

/// Whether `msg` is a well formed part ([`is_valid_part`]).
fn is_valid_part_bytes(msg: &[u8]) -> (r: bool)
    ensures
        r == is_valid_part(msg@),
{
    if msg.len() < HEADER_LENGTH + 1 {
        return false;
    }
    let part_num = msg[PART_NUMBER_IDX];
    let total_count = msg[TOTAL_COUNT_IDX];
    let len = msg[LENGTH_IDX];
    if !(1 <= part_num && part_num < 4) {
        return false;
    }
    if !(1 <= total_count && total_count < 4) {
        return false;
    }
    if !(1 <= len && len < 249) {
        return false;
    }
    if len as usize != msg.len() - HEADER_LENGTH {
        return false;
    }
    true
}

/// Position of the entry with prefix `p`, if any.
pub open spec fn find_prefix(es: Seq<PartsEntry>, p: Seq<u8>) -> Option<int> {
    if exists|i: int| is_first_prefix(es, p, i) {
        Some(choose|i: int| is_first_prefix(es, p, i))
    } else {
        None
    }
}

/// `parts` after storing `data` as part number `idx + 1`: a part that is
/// there already stays; a missing one is filled in, growing the list with
/// empty parts where needed.
pub open spec fn stored_parts(parts: Seq<Seq<u8>>, idx: int, data: Seq<u8>) -> Seq<Seq<u8>> {
    if idx < parts.len() {
        if parts[idx].len() > 0 {
            parts
        } else {
            parts.update(idx, data)
        }
    } else {
        (parts + Seq::new((idx + 1 - parts.len()) as nat, |k: int| Seq::<u8>::empty())).update(
            idx,
            data,
        )
    }
}

/// All `total` parts are there.
pub open spec fn is_complete(parts: Seq<Seq<u8>>, total: u8) -> bool {
    &&& parts.len() == total
    &&& forall|k: int| 0 <= k < parts.len() ==> #[trigger] parts[k].len() > 0
}

/// Stores the valid part `msg` into entry `i`: when that completes the
/// message, the message is returned and the entry leaves the pool (its place
/// taken by the last entry); otherwise the entry is updated. `None` where the
/// completed message is longer than [`MAX_OVERLINE_MESSAGE_LENGTH`] (putting
/// it together panics).
pub open spec fn insert_into(es: Seq<PartsEntry>, i: int, msg: Seq<u8>) -> Option<
    (Result<Option<Seq<u8>>, Error>, Seq<PartsEntry>),
> {
    let parts = stored_parts(
        es[i].parts,
        msg[PART_NUMBER_IDX as int] - 1,
        msg.skip(HEADER_LENGTH as int),
    );
    if is_complete(parts, msg[TOTAL_COUNT_IDX as int]) {
        if parts.flatten().len() > MAX_OVERLINE_MESSAGE_LENGTH {
            None
        } else {
            Some((Ok(Some(parts.flatten())), swap_remove(es, i)))
        }
    } else {
        Some((Ok(None), es.update(i, PartsEntry { prefix: es[i].prefix, parts })))
    }
}

/// What [`MessagePool::try_insert`] does with part `msg` in a pool whose
/// entries are `es`: a malformed part is refused; a message of one part is
/// returned at once; any other part is stored under its prefix, opening a new
/// entry at the end when there is room, and a message whose parts are all
/// there is returned. `None` where that panics.
pub open spec fn insert_spec(es: Seq<PartsEntry>, msg: Seq<u8>) -> Option<
    (Result<Option<Seq<u8>>, Error>, Seq<PartsEntry>),
> {
    if !is_valid_part(msg) {
        Some((Err(Error::MalformedMessage), es))
    } else if msg[PART_NUMBER_IDX as int] == 1 && msg[TOTAL_COUNT_IDX as int] == 1 {
        Some((Ok(Some(msg.skip(HEADER_LENGTH as int))), es))
    } else {
        let prefix = msg.take(PREFIX_LENGTH as int);
        match find_prefix(es, prefix) {
            Some(i) => insert_into(es, i, msg),
            None => if es.len() == MAX_UNFINISHED_P2P_MESSAGE_COUNT {
                Some((Err(Error::PoolFull), es))
            } else {
                insert_into(
                    es.push(PartsEntry { prefix, parts: Seq::empty() }),
                    es.len() as int,
                    msg,
                )
            },
        }
    }
}

/// Number of parts present in `parts`.
pub open spec fn filled(parts: Seq<Seq<u8>>) -> nat
    decreases parts.len(),
{
    if parts.len() == 0 {
        0
    } else {
        filled(parts.drop_last()) + if parts.last().len() > 0 {
            1nat
        } else {
            0nat
        }
    }
}

/// Number of parts held in a pool whose entries are `es`.
pub open spec fn pool_size(es: Seq<PartsEntry>) -> nat
    decreases es.len(),
{
    if es.len() == 0 {
        0
    } else {
        pool_size(es.drop_last()) + filled(es.last().parts)
    }
}

/// At most [`MAX_UNFINISHED_P2P_MESSAGE_COUNT`] entries, each with at most
/// [`MAX_P2P_MESSAGE_PART_COUNT`] parts.
pub open spec fn pool_valid(es: Seq<PartsEntry>) -> bool {
    &&& es.len() <= MAX_UNFINISHED_P2P_MESSAGE_COUNT
    &&& forall|i: int| 0 <= i < es.len() ==> #[trigger] es[i].parts.len() <= MAX_P2P_MESSAGE_PART_COUNT
}

struct PoolEntry {
    prefix: Vec<u8>,
    parts: Vec<Vec<u8>>,
}

spec fn entry_view(e: PoolEntry) -> PartsEntry {
    PartsEntry { prefix: e.prefix@, parts: frames_view(e.parts) }
}

spec fn entries_view(v: Seq<PoolEntry>) -> Seq<PartsEntry> {
    v.map_values(|e: PoolEntry| entry_view(e))
}

/// Holds the parts of messages whose other parts have not arrived yet, for
/// at most [`MAX_UNFINISHED_P2P_MESSAGE_COUNT`] messages. The parts of each
/// message are kept in order of their number.
pub struct MessagePool {
    entries: Vec<PoolEntry>,
}

impl View for MessagePool {
    type V = Seq<PartsEntry>;

    closed spec fn view(&self) -> Seq<PartsEntry> {
        entries_view(self.entries@)
    }
}

proof fn lemma_filled_bound(parts: Seq<Seq<u8>>)
    ensures
        filled(parts) <= parts.len(),
    decreases parts.len(),
{
    if parts.len() > 0 {
        lemma_filled_bound(parts.drop_last());
    }
}

proof fn lemma_pool_size_bound(es: Seq<PartsEntry>)
    requires
        pool_valid(es),
    ensures
        pool_size(es) <= MAX_P2P_MESSAGE_PART_COUNT * es.len(),
    decreases es.len(),
{
    if es.len() > 0 {
        let rest = es.drop_last();
        assert(pool_valid(rest)) by {
            assert forall|i: int| 0 <= i < rest.len() implies #[trigger] rest[i].parts.len()
                <= MAX_P2P_MESSAGE_PART_COUNT by {
                assert(rest[i] == es[i]);
            }
        }
        lemma_pool_size_bound(rest);
        lemma_filled_bound(es.last().parts);
        assert(es.last() == es[es.len() - 1]);
    }
}

impl Default for MessagePool {
    fn default() -> (r: Self)
        ensures
            r@ == Seq::<PartsEntry>::empty(),
    {
        let r = MessagePool { entries: Vec::new() };
        assert(r@ =~= Seq::<PartsEntry>::empty());
        r
    }
}

impl MessagePool {
    #[verifier::type_invariant]
    closed spec fn inv(self) -> bool {
        pool_valid(self@)
    }

    /// Whether `msg` is a well formed part ([`is_valid_part`]).
    pub fn is_valid_message(&self, msg: &[u8]) -> (r: bool)
        ensures
            r == is_valid_part(msg@),
    {
        is_valid_part_bytes(msg)
    }

    /// Stores part `msg` and returns the message it completes, if any
    /// ([`insert_spec`]). A message of one part is returned at once.
    pub fn try_insert(&mut self, msg: P2pMessagePart) -> (r: Result<Option<P2pMessage>, Error>)
        requires
            insert_spec(old(self)@, msg@) is Some,
        ensures
            (match r {
                Ok(Some(m)) => Ok(Some(m@)),
                Ok(None) => Ok(None),
                Err(e) => Err(e),
            }, final(self)@) == insert_spec(old(self)@, msg@).unwrap(),
            pool_valid(final(self)@),
    {
        proof {
            use_type_invariant(&*self);
        }
        let mut entries: Vec<PoolEntry> = Vec::new();
        std::mem::swap(&mut entries, &mut self.entries);
        let r = insert_part(&mut entries, msg.as_slice());
        self.entries = entries;
        r
    }

    /// Number of parts held for messages that are not complete yet
    /// ([`pool_size`]).
    pub fn size(&self) -> (r: u8)
        ensures
            r == pool_size(self@),
    {
        proof {
            use_type_invariant(self);
            lemma_pool_size_bound(self@);
        }
        let ghost es = self@;
        let mut size: u8 = 0;
        let mut i: usize = 0;
        while i < self.entries.len()
            invariant
                i <= self.entries@.len(),
                es == self@,
                pool_valid(es),
                size == pool_size(es.take(i as int)),
            decreases self.entries@.len() - i,
        {
            let parts = &self.entries[i];
            let mut k: usize = 0;
            proof {
                assert(es.take(i + 1).drop_last() == es.take(i as int));
                assert(es.take(i + 1).last() == es[i as int]);
                assert(es[i as int].parts == frames_view(self.entries@[i as int].parts));
                lemma_pool_size_bound(es.take(i + 1));
                assert(pool_valid(es.take(i + 1))) by {
                    assert forall|m: int| 0 <= m < es.take(i + 1).len() implies #[trigger] es.take(
                        i + 1,
                    )[m].parts.len() <= MAX_P2P_MESSAGE_PART_COUNT by {
                        assert(es.take(i + 1)[m] == es[m]);
                    }
                }
            }
            let ghost ps = es[i as int].parts;
            while k < parts.parts.len()
                invariant
                    k <= parts.parts@.len(),
                    ps == frames_view(parts.parts),
                    size == pool_size(es.take(i as int)) + filled(ps.take(k as int)),
                    pool_size(es.take(i as int)) + filled(ps) <= 12,
                decreases parts.parts@.len() - k,
            {
                proof {
                    assert(ps.take(k + 1).drop_last() == ps.take(k as int));
                    assert(ps.take(k + 1).last() == ps[k as int]);
                    lemma_filled_prefix(ps, k + 1);
                }
                if parts.parts[k].len() != 0 {
                    size = size + 1;
                }
                k = k + 1;
            }
            proof {
                assert(ps.take(k as int) == ps);
            }
            i = i + 1;
        }
        proof {
            assert(es.take(i as int) == es);
        }
        size
    }

    /// Drops every part held.
    pub fn reset(&mut self)
        ensures
            final(self)@ == Seq::<PartsEntry>::empty(),
    {
        self.entries = Vec::new();
        assert(self@ =~= Seq::<PartsEntry>::empty());
    }
}

/// Position of the entry with prefix `p` ([`find_prefix`]).
fn find_entry(entries: &Vec<PoolEntry>, p: &[u8]) -> (r: Option<usize>)
    ensures
        match find_prefix(entries_view(entries@), p@) {
            Some(i) => r == Some(i as usize),
            None => r is None,
        },
{
    let ghost es = entries_view(entries@);
    let mut idx: usize = 0;
    while idx < entries.len()
        invariant
            idx <= entries@.len(),
            es == entries_view(entries@),
            es.len() == entries@.len(),
            forall|j: int| 0 <= j < idx ==> es[j].prefix != p@,
        decreases entries@.len() - idx,
    {
        if crate::text::bytes_equal(entries[idx].prefix.as_slice(), p) {
            proof {
                assert(es[idx as int].prefix == p@);
                assert(is_first_prefix(es, p@, idx as int));
                let k = choose|k: int| is_first_prefix(es, p@, k);
                assert(k == idx);
            }
            return Some(idx);
        }
        proof {
            assert(es[idx as int].prefix == entries@[idx as int].prefix@);
        }
        idx = idx + 1;
    }
    assert(!exists|k: int| is_first_prefix(es, p@, k));
    None
}

/// Stores part `msg` into the pool entries ([`insert_spec`]).
fn insert_part(entries: &mut Vec<PoolEntry>, msg: &[u8]) -> (r: Result<Option<Vec<u8>>, Error>)
    requires
        pool_valid(entries_view(old(entries)@)),
        insert_spec(entries_view(old(entries)@), msg@) is Some,
    ensures
        pool_valid(entries_view(final(entries)@)),
        (match r {
            Ok(Some(m)) => Ok(Some(m@)),
            Ok(None) => Ok(None),
            Err(e) => Err(e),
        }, entries_view(final(entries)@)) == insert_spec(entries_view(old(entries)@), msg@).unwrap(),
{
    if !is_valid_part_bytes(msg) {
        return Err(Error::MalformedMessage);
    }
    let part_num = msg[PART_NUMBER_IDX];
    let total_count = msg[TOTAL_COUNT_IDX];
    if part_num == 1 && total_count == 1 {
        return Ok(Some(copy_range(msg, HEADER_LENGTH, msg.len())));
    }
    let prefix = copy_range(msg, PREFIX_IDX, PREFIX_LENGTH);
    assert(prefix@ == msg@.take(4));
    let ghost es0 = entries_view(entries@);
    let i = match find_entry(entries, prefix.as_slice()) {
        Some(i) => i,
        None => {
            if entries.len() == MAX_UNFINISHED_P2P_MESSAGE_COUNT {
                return Err(Error::PoolFull);
            }
            let ghost before = entries@;
            entries.push(PoolEntry { prefix, parts: Vec::new() });
            proof {
                let last = entries@[entries@.len() - 1];
                assert(frames_view(last.parts) =~= Seq::<Seq<u8>>::empty());
                assert(entries_view(entries@) =~= es0.push(PartsEntry { prefix: msg@.take(4), parts: Seq::empty() }));
            }
            entries.len() - 1
        },
    };
    let ghost es1 = entries_view(entries@);
    let ghost ents1 = entries@;
    let idx = (part_num - 1) as usize;
    let data = copy_range(msg, HEADER_LENGTH, msg.len());
    let mut entry = PoolEntry { prefix: Vec::new(), parts: Vec::new() };
    entries.set_and_swap(i, &mut entry);
    assert(entry_view(entry) == es1[i as int]);
    let ghost old_parts = frames_view(entry.parts);
    if idx < entry.parts.len() {
        if entry.parts[idx].len() == 0 {
            entry.parts.set(idx, data);
            assert(frames_view(entry.parts) =~= old_parts.update(idx as int, msg@.skip(7)));
        }
    } else {
        while entry.parts.len() < idx + 1
            invariant
                idx < MAX_P2P_MESSAGE_PART_COUNT,
                entry.prefix@ == es1[i as int].prefix,
                old_parts.len() <= entry.parts@.len() <= idx + 1,
                frames_view(entry.parts) == old_parts + Seq::new(
                    (entry.parts@.len() - old_parts.len()) as nat,
                    |k: int| Seq::<u8>::empty(),
                ),
            decreases idx + 1 - entry.parts@.len(),
        {
            let ghost before = frames_view(entry.parts);
            let ghost cnt = (entry.parts@.len() - old_parts.len()) as nat;
            entry.parts.push(Vec::new());
            assert(frames_view(entry.parts) =~= before.push(Seq::<u8>::empty()));
            assert(Seq::new(cnt + 1, |k: int| Seq::<u8>::empty()) =~= Seq::new(
                cnt,
                |k: int| Seq::<u8>::empty(),
            ).push(Seq::<u8>::empty()));
            assert(frames_view(entry.parts) =~= old_parts + Seq::new(
                (entry.parts@.len() - old_parts.len()) as nat,
                |k: int| Seq::<u8>::empty(),
            ));
        }
        let ghost padded = frames_view(entry.parts);
        entry.parts.set(idx, data);
        assert(frames_view(entry.parts) =~= padded.update(idx as int, msg@.skip(7)));
    }
    let ghost parts = frames_view(entry.parts);
    assert(parts == stored_parts(old_parts, idx as int, msg@.skip(7)));
    let mut has_all = true;
    let mut k: usize = 0;
    while k < entry.parts.len()
        invariant
            k <= entry.parts@.len(),
            parts == frames_view(entry.parts),
            has_all <==> forall|j: int| 0 <= j < k ==> #[trigger] parts[j].len() > 0,
        decreases entry.parts@.len() - k,
    {
        assert(parts[k as int] == entry.parts@[k as int]@);
        if entry.parts[k].len() == 0 {
            has_all = false;
        }
        k = k + 1;
    }
    let has_all = has_all && entry.parts.len() == total_count as usize;
    assert(has_all == is_complete(parts, total_count));
    if has_all {
        let mut r: Vec<u8> = Vec::new();
        let mut j: usize = 0;
        while j < entry.parts.len()
            invariant
                j <= entry.parts@.len(),
                parts == frames_view(entry.parts),
                r@ == parts.take(j as int).flatten(),
            decreases entry.parts@.len() - j,
        {
            proof {
                let t1 = parts.take(j + 1);
                t1.lemma_flatten_and_flatten_alt_are_equivalent();
                parts.take(j as int).lemma_flatten_and_flatten_alt_are_equivalent();
                assert(t1.drop_last() =~= parts.take(j as int));
            }
            append_bytes(&mut r, entry.parts[j].as_slice());
            j = j + 1;
        }
        let ghost before = entries@;
        entries.swap_remove(i);
        proof {
            assert(parts.take(j as int) == parts);
            assert(entries_view(entries@) =~= swap_remove(es1, i as int));
        }
        return Ok(Some(r));
    }
    let ghost new_entry = entry_view(entry);
    assert(new_entry == PartsEntry { prefix: es1[i as int].prefix, parts });
    let ghost mid = entries@;
    entries.set(i, entry);
    assert(entries@ == ents1.update(i as int, entry));
    proof {
        assert(entries_view(entries@) =~= es1.update(i as int, PartsEntry { prefix: es1[i as int].prefix, parts }));
    }
    Ok(None)
}

proof fn lemma_filled_prefix(ps: Seq<Seq<u8>>, k: int)
    requires
        0 <= k <= ps.len(),
    ensures
        filled(ps.take(k)) <= filled(ps),
    decreases ps.len(),
{
    if ps.len() > 0 {
        if k == ps.len() {
            assert(ps.take(k) == ps);
        } else {
            assert(ps.take(k) == ps.drop_last().take(k));
            lemma_filled_prefix(ps.drop_last(), k);
        }
    }
}

/// Part `i` of `n` carrying `chunk`, behind `prefix`.
pub open spec fn part_of(prefix: Seq<u8>, i: int, n: int, chunk: Seq<u8>) -> Seq<u8> {
    prefix + seq![(i + 1) as u8, n as u8, chunk.len() as u8] + chunk
}

/// The parts that `msg` is cut into behind `prefix`: its data in pieces of
/// [`MAX_PART_DATA_LENGTH`] bytes, numbered from 1.
pub open spec fn sliced(prefix: Seq<u8>, msg: Seq<u8>) -> Seq<Seq<u8>> {
    let cs = chunks(msg, MAX_PART_DATA_LENGTH as nat);
    Seq::new(cs.len(), |i: int| part_of(prefix, i, cs.len() as int, cs[i]))
}

/// Cuts `msg` into parts behind `prefix` ([`sliced`]).
pub fn slice_with_prefix(prefix: &[u8], msg: &[u8]) -> (r: Vec<P2pMessagePart>)
    requires
        prefix@.len() == PREFIX_LENGTH,
        msg@.len() <= MAX_OVERLINE_MESSAGE_LENGTH,
    ensures
        frames_view(r) == sliced(prefix@, msg@),
{
    proof {
        lemma_chunks_len(msg@, MAX_PART_DATA_LENGTH as nat, 3);
        lemma_chunks_flatten(msg@, MAX_PART_DATA_LENGTH as nat);
    }
    let ghost cs = chunks(msg@, MAX_PART_DATA_LENGTH as nat);
    let chunks_v = match split_frames(msg, MAX_PART_DATA_LENGTH, MAX_P2P_MESSAGE_PART_COUNT) {
        Ok(v) => v,
        Err(_) => Vec::new(),
    };
    assert(frames_view(chunks_v) == cs);
    let n = chunks_v.len();
    let mut res: Vec<P2pMessagePart> = Vec::new();
    let mut i: usize = 0;
    while i < n
        invariant
            i <= n,
            cs == chunks(msg@, MAX_PART_DATA_LENGTH as nat),
            n == cs.len(),
            n <= MAX_P2P_MESSAGE_PART_COUNT,
            frames_view(chunks_v) == cs,
            forall|j: int| 0 <= j < cs.len() ==> 1 <= #[trigger] cs[j].len() <= MAX_PART_DATA_LENGTH,
            frames_view(res) == sliced(prefix@, msg@).take(i as int),
        decreases n - i,
    {
        let chunk = &chunks_v[i];
        assert(chunk@ == cs[i as int]);
        let mut p: Vec<u8> = Vec::new();
        append_bytes(&mut p, prefix);
        p.push(i as u8 + 1);
        p.push(n as u8);
        p.push(chunk.len() as u8);
        append_bytes(&mut p, chunk.as_slice());
        let ghost before = frames_view(res);
        res.push(p);
        proof {
            assert(p@ =~= part_of(prefix@, i as int, n as int, cs[i as int]));
            assert(sliced(prefix@, msg@)[i as int] == p@);
            assert(frames_view(res) =~= before.push(p@));
            assert(sliced(prefix@, msg@).take(i + 1) =~= sliced(prefix@, msg@).take(i as int).push(
                p@,
            ));
        }
        i = i + 1;
    }
    assert(sliced(prefix@, msg@).take(i as int) =~= sliced(prefix@, msg@));
    res
}

/// Inserting `parts` one after the other into a pool whose entries are `es`:
/// the answers and the final entries; `None` where an insertion panics.
pub open spec fn insert_all(es: Seq<PartsEntry>, parts: Seq<Seq<u8>>) -> Option<
    (Seq<Result<Option<Seq<u8>>, Error>>, Seq<PartsEntry>),
>
    decreases parts.len(),
{
    if parts.len() == 0 {
        Some((Seq::empty(), es))
    } else {
        match insert_spec(es, parts[0]) {
            None => None,
            Some((r, es1)) => match insert_all(es1, parts.drop_first()) {
                None => None,
                Some((rs, es2)) => Some((seq![r] + rs, es2)),
            },
        }
    }
}

/// The answers to inserting the `n` parts of `msg` in order: nothing until
/// the last part, which gives `msg`.
pub open spec fn reassembly_answers(n: nat, msg: Seq<u8>) -> Seq<Result<Option<Seq<u8>>, Error>> {
    Seq::new(n, |i: int| if i == n - 1 { Ok(Some(msg)) } else { Ok(None) })
}

proof fn lemma_part_facts(prefix: Seq<u8>, j: int, n: int, c: Seq<u8>)
    requires
        prefix.len() == PREFIX_LENGTH,
        0 <= j < n <= MAX_P2P_MESSAGE_PART_COUNT,
        1 <= c.len() <= MAX_PART_DATA_LENGTH,
    ensures
        is_valid_part(part_of(prefix, j, n, c)),
        part_of(prefix, j, n, c)[PART_NUMBER_IDX as int] == j + 1,
        part_of(prefix, j, n, c)[TOTAL_COUNT_IDX as int] == n,
        part_of(prefix, j, n, c).take(PREFIX_LENGTH as int) == prefix,
        part_of(prefix, j, n, c).skip(HEADER_LENGTH as int) == c,
{
    let p = part_of(prefix, j, n, c);
    assert(p[PART_NUMBER_IDX as int] == (j + 1) as u8);
    assert(p[TOTAL_COUNT_IDX as int] == n as u8);
    assert(p[LENGTH_IDX as int] == c.len() as u8);
    assert(p.take(PREFIX_LENGTH as int) =~= prefix);
    assert(p.skip(HEADER_LENGTH as int) =~= c);
}

proof fn lemma_no_prefix(es: Seq<PartsEntry>, p: Seq<u8>, j: int)
    requires
        find_prefix(es, p) is None,
        0 <= j < es.len(),
    ensures
        es[j].prefix != p,
    decreases j,
{
    if es[j].prefix == p {
        if forall|k: int| 0 <= k < j ==> es[k].prefix != p {
            assert(is_first_prefix(es, p, j));
        } else {
            let k = choose|k: int| 0 <= k < j && es[k].prefix == p;
            lemma_no_prefix(es, p, k);
        }
    }
}

proof fn lemma_prefix_at_end(es: Seq<PartsEntry>, p: Seq<u8>, parts: Seq<Seq<u8>>)
    requires
        find_prefix(es, p) is None,
    ensures
        find_prefix(es.push(PartsEntry { prefix: p, parts }), p) == Some(es.len() as int),
{
    let es1 = es.push(PartsEntry { prefix: p, parts });
    assert forall|j: int| 0 <= j < es.len() implies es1[j].prefix != p by {
        lemma_no_prefix(es, p, j);
    }
    assert(is_first_prefix(es1, p, es.len() as int));
    let k = choose|k: int| is_first_prefix(es1, p, k);
    assert(k == es.len());
}

/// The parts of a message of at most [`MAX_OVERLINE_MESSAGE_LENGTH`] bytes
/// are between one and three well formed parts with the given prefix,
/// numbered from 1, each giving the total count; their data put together is
/// the message.
pub proof fn lemma_sliced_parts_valid(prefix: Seq<u8>, msg: Seq<u8>)
    requires
        prefix.len() == PREFIX_LENGTH,
        0 < msg.len() <= MAX_OVERLINE_MESSAGE_LENGTH,
    ensures
        1 <= sliced(prefix, msg).len() <= MAX_P2P_MESSAGE_PART_COUNT,
        forall|j: int|
            0 <= j < sliced(prefix, msg).len() ==> {
                let p = #[trigger] sliced(prefix, msg)[j];
                &&& is_valid_part(p)
                &&& p.take(PREFIX_LENGTH as int) == prefix
                &&& p[PART_NUMBER_IDX as int] == j + 1
                &&& p[TOTAL_COUNT_IDX as int] == sliced(prefix, msg).len()
                &&& p[4] == j + 1
                &&& p[5] == sliced(prefix, msg).len()
                &&& p[6] == p.len() - 7
                &&& j < sliced(prefix, msg).len() - 1 ==> p.len() == 255
            },
        sliced(prefix, msg).map_values(|p: Seq<u8>| p.skip(HEADER_LENGTH as int)).flatten() == msg,
{
    let cs = chunks(msg, MAX_PART_DATA_LENGTH as nat);
    lemma_chunks_len(msg, MAX_PART_DATA_LENGTH as nat, 3);
    lemma_chunks_flatten(msg, MAX_PART_DATA_LENGTH as nat);
    crate::host::codec::lemma_chunks_full(msg, MAX_PART_DATA_LENGTH as nat);
    let sl = sliced(prefix, msg);
    assert forall|j: int| 0 <= j < sl.len() implies {
        let p = #[trigger] sl[j];
        &&& is_valid_part(p)
        &&& p.take(PREFIX_LENGTH as int) == prefix
        &&& p[PART_NUMBER_IDX as int] == j + 1
        &&& p[TOTAL_COUNT_IDX as int] == sl.len()
        &&& p[4] == j + 1
        &&& p[5] == sl.len()
        &&& p[6] == p.len() - 7
        &&& j < sl.len() - 1 ==> p.len() == 255
    } by {
        lemma_part_facts(prefix, j, cs.len() as int, cs[j]);
    }
    let data = sl.map_values(|p: Seq<u8>| p.skip(HEADER_LENGTH as int));
    assert forall|j: int| 0 <= j < sl.len() implies #[trigger] data[j] == cs[j] by {
        lemma_part_facts(prefix, j, cs.len() as int, cs[j]);
    }
    assert(data =~= cs);
}

/// `order` lists each of the positions `0..n` once.
pub open spec fn is_order(order: Seq<int>, n: nat) -> bool {
    &&& order.len() == n
    &&& forall|i: int| 0 <= i < n ==> 0 <= #[trigger] order[i] < n
    &&& forall|i: int, j: int| 0 <= i < j < n ==> #[trigger] order[i] != #[trigger] order[j]
}

/// One more than the largest of `done` (0 when empty): the number of parts
/// a pool keeps once the parts at positions `done` arrived.
pub open spec fn span(done: Seq<int>) -> int
    decreases done.len(),
{
    if done.len() == 0 {
        0
    } else {
        let s = span(done.drop_last());
        if done.last() + 1 > s {
            done.last() + 1
        } else {
            s
        }
    }
}

/// The parts a pool keeps for a message whose pieces are `cs` once the parts
/// at positions `done` arrived: each of those at its position, the others
/// missing.
pub open spec fn filled_parts(cs: Seq<Seq<u8>>, done: Seq<int>) -> Seq<Seq<u8>> {
    Seq::new(
        span(done) as nat,
        |j: int|
            if done.contains(j) {
                cs[j]
            } else {
                Seq::<u8>::empty()
            },
    )
}

proof fn lemma_span(done: Seq<int>)
    requires
        forall|i: int| 0 <= i < done.len() ==> 0 <= #[trigger] done[i],
    ensures
        span(done) >= 0,
        forall|i: int| 0 <= i < done.len() ==> #[trigger] done[i] < span(done),
        done.len() > 0 ==> done.contains(span(done) - 1),
    decreases done.len(),
{
    if done.len() > 0 {
        let d = done.drop_last();
        lemma_span(d);
        assert forall|i: int| 0 <= i < done.len() implies #[trigger] done[i] < span(done) by {
            if i < done.len() - 1 {
                assert(done[i] == d[i]);
            }
        }
        if span(done) == done.last() + 1 {
            assert(done[done.len() - 1] == done.last());
        } else {
            let w = choose|i: int| 0 <= i < d.len() && d[i] == span(d) - 1;
            assert(done[w] == d[w]);
        }
    }
}

proof fn lemma_filled_step(cs: Seq<Seq<u8>>, done: Seq<int>, x: int)
    requires
        forall|i: int| 0 <= i < done.len() ==> 0 <= #[trigger] done[i],
        0 <= x,
        !done.contains(x),
    ensures
        stored_parts(filled_parts(cs, done), x, cs[x]) == filled_parts(cs, done.push(x)),
{
    lemma_span(done);
    let f = filled_parts(cs, done);
    let g = filled_parts(cs, done.push(x));
    assert(done.push(x).drop_last() == done);
    assert forall|j: int| #![trigger done.push(x).contains(j)] done.push(x).contains(j) <==> (
    done.contains(j) || j == x) by {
        if done.push(x).contains(j) {
            let i = choose|i: int| 0 <= i < done.push(x).len() && done.push(x)[i] == j;
            if i < done.len() {
                assert(done[i] == j);
            }
        }
        if done.contains(j) {
            let i = choose|i: int| 0 <= i < done.len() && done[i] == j;
            assert(done.push(x)[i] == j);
        }
        if j == x {
            assert(done.push(x)[done.len() as int] == x);
        }
    }
    if x < span(done) {
        assert(!done.contains(x));
        assert(f[x].len() == 0);
        assert(f.update(x, cs[x]) =~= g);
    } else {
        assert forall|j: int| span(done) <= j implies !done.contains(j) by {
            if done.contains(j) {
                let i = choose|i: int| 0 <= i < done.len() && done[i] == j;
            }
        }
        let padded = f + Seq::new((x + 1 - f.len()) as nat, |k: int| Seq::<u8>::empty());
        assert(padded.update(x, cs[x]) =~= g);
    }
}

proof fn lemma_order_cover(order: Seq<int>, n: nat)
    requires
        is_order(order, n),
        1 <= n <= MAX_P2P_MESSAGE_PART_COUNT,
    ensures
        forall|j: int| 0 <= j < n ==> #[trigger] order.contains(j),
{
    assert forall|j: int| 0 <= j < n implies #[trigger] order.contains(j) by {
        if n == 1 {
            assert(order[0] == j);
        } else if n == 2 {
            if order[0] == j {
            } else {
                assert(order[1] == j);
            }
        } else {
            if order[0] == j {
            } else if order[1] == j {
            } else {
                assert(order[2] == j);
            }
        }
    }
}

proof fn lemma_order_gap(order: Seq<int>, n: nat, k: int) -> (j: int)
    requires
        is_order(order, n),
        n <= MAX_P2P_MESSAGE_PART_COUNT,
        0 <= k < n,
    ensures
        0 <= j < n,
        !order.take(k).contains(j),
{
    let t = order.take(k);
    let j = if k == 0 {
        0
    } else if k == 1 {
        if order[0] == 0 {
            1
        } else {
            0
        }
    } else {
        3 - order[0] - order[1]
    };
    if t.contains(j) {
        let i = choose|i: int| 0 <= i < t.len() && t[i] == j;
        assert(t[i] == order[i]);
    }
    j
}

proof fn lemma_insert_in_order_from(
    es: Seq<PartsEntry>,
    prefix: Seq<u8>,
    msg: Seq<u8>,
    order: Seq<int>,
    k: int,
)
    requires
        prefix.len() == PREFIX_LENGTH,
        0 < msg.len() <= MAX_OVERLINE_MESSAGE_LENGTH,
        sliced(prefix, msg).len() >= 2,
        is_order(order, sliced(prefix, msg).len()),
        find_prefix(es, prefix) is None,
        1 <= k < sliced(prefix, msg).len(),
    ensures
        ({
            let sl = sliced(prefix, msg);
            let cs = chunks(msg, MAX_PART_DATA_LENGTH as nat);
            insert_all(
                es.push(PartsEntry { prefix, parts: filled_parts(cs, order.take(k)) }),
                order.map_values(|i: int| sl[i]).skip(k),
            ) == Some((reassembly_answers(sl.len(), msg).skip(k), es))
        }),
    decreases sliced(prefix, msg).len() - k,
{
    let sl = sliced(prefix, msg);
    let cs = chunks(msg, MAX_PART_DATA_LENGTH as nat);
    lemma_chunks_len(msg, MAX_PART_DATA_LENGTH as nat, 3);
    lemma_chunks_flatten(msg, MAX_PART_DATA_LENGTH as nat);
    let n = sl.len() as int;
    let ordered = order.map_values(|i: int| sl[i]);
    let len = es.len() as int;
    let done = order.take(k);
    let x = order[k];
    let parts_k = filled_parts(cs, done);
    let es_k = es.push(PartsEntry { prefix, parts: parts_k });
    lemma_part_facts(prefix, x, n, cs[x]);
    assert(ordered.skip(k)[0] == sl[x]);
    lemma_prefix_at_end(es, prefix, parts_k);
    assert forall|i: int| 0 <= i < done.len() implies 0 <= #[trigger] done[i] by {
        assert(done[i] == order[i]);
    }
    assert(!done.contains(x)) by {
        if done.contains(x) {
            let i = choose|i: int| 0 <= i < done.len() && done[i] == x;
            assert(order[i] == order[k]);
        }
    }
    lemma_filled_step(cs, done, x);
    let next = done.push(x);
    assert(next == order.take(k + 1));
    let parts_n = filled_parts(cs, next);
    assert(stored_parts(parts_k, x, cs[x]) == parts_n);
    let r_none = Ok::<Option<Seq<u8>>, Error>(None);
    let r_msg = Ok::<Option<Seq<u8>>, Error>(Some(msg));
    let answers = reassembly_answers(n as nat, msg);
    if k + 1 == n {
        lemma_order_cover(order, n as nat);
        assert(next == order);
        assert forall|i: int| 0 <= i < next.len() implies 0 <= #[trigger] next[i] by {}
        lemma_span(next);
        assert(span(next) == n) by {
            assert(next.contains(n - 1));
            let w = choose|i: int| 0 <= i < next.len() && next[i] == span(next) - 1;
        }
        assert(parts_n =~= cs);
        assert(is_complete(parts_n, sl[x][TOTAL_COUNT_IDX as int]));
        assert(swap_remove(es_k, len) =~= es);
        assert(insert_spec(es_k, sl[x]) == Some((r_msg, es)));
        assert(ordered.skip(k).drop_first().len() == 0);
        assert(insert_all(es, ordered.skip(k).drop_first()) == Some(
            (Seq::<Result<Option<Seq<u8>>, Error>>::empty(), es),
        ));
        assert(answers.skip(k) =~= seq![r_msg]);
        assert(seq![r_msg] + Seq::<Result<Option<Seq<u8>>, Error>>::empty() =~= seq![r_msg]);
    } else {
        let gap = lemma_order_gap(order, n as nat, k + 1);
        assert(!is_complete(parts_n, sl[x][TOTAL_COUNT_IDX as int])) by {
            if parts_n.len() == n {
                assert(parts_n[gap].len() == 0);
            }
        }
        let es_next = es.push(PartsEntry { prefix, parts: parts_n });
        assert(es_k.update(len, PartsEntry { prefix, parts: parts_n }) =~= es_next);
        assert(insert_spec(es_k, sl[x]) == Some((r_none, es_next)));
        lemma_insert_in_order_from(es, prefix, msg, order, k + 1);
        assert(ordered.skip(k).drop_first() == ordered.skip(k + 1));
        assert(answers.skip(k) =~= seq![r_none] + answers.skip(k + 1));
    }
}

/// Inserting the parts of a message in any order into a pool that holds no
/// entry with their prefix and has room for one more gives nothing until the
/// last part, which gives the message back, and leaves the pool as it was. A
/// message that fits one part needs no room in the pool.
pub proof fn lemma_slices_reassemble_in_any_order(
    es: Seq<PartsEntry>,
    prefix: Seq<u8>,
    msg: Seq<u8>,
    order: Seq<int>,
)
    requires
        prefix.len() == PREFIX_LENGTH,
        0 < msg.len() <= MAX_OVERLINE_MESSAGE_LENGTH,
        is_order(order, sliced(prefix, msg).len()),
        msg.len() <= MAX_PART_DATA_LENGTH || (find_prefix(es, prefix) is None && es.len()
            < MAX_UNFINISHED_P2P_MESSAGE_COUNT),
    ensures
        insert_all(es, order.map_values(|i: int| sliced(prefix, msg)[i])) == Some(
            (reassembly_answers(sliced(prefix, msg).len(), msg), es),
        ),
{
    let sl = sliced(prefix, msg);
    let cs = chunks(msg, MAX_PART_DATA_LENGTH as nat);
    lemma_chunks_len(msg, MAX_PART_DATA_LENGTH as nat, 3);
    lemma_chunks_flatten(msg, MAX_PART_DATA_LENGTH as nat);
    let n = sl.len() as int;
    let ordered = order.map_values(|i: int| sl[i]);
    let r_none = Ok::<Option<Seq<u8>>, Error>(None);
    let r_msg = Ok::<Option<Seq<u8>>, Error>(Some(msg));
    let answers = reassembly_answers(n as nat, msg);
    let no_answers = Seq::<Result<Option<Seq<u8>>, Error>>::empty();
    if n == 1 {
        assert(order[0] == 0);
        lemma_part_facts(prefix, 0, n, cs[0]);
        assert(cs == seq![cs[0]]);
        cs.lemma_flatten_one_element();
        assert(ordered[0] == sl[0]);
        assert(insert_spec(es, sl[0]) == Some((r_msg, es)));
        assert(ordered.drop_first().len() == 0);
        assert(insert_all(es, ordered.drop_first()) == Some((no_answers, es)));
        assert(answers =~= seq![r_msg]);
        assert(seq![r_msg] + no_answers =~= seq![r_msg]);
    } else {
        assert(msg.len() > MAX_PART_DATA_LENGTH);
        let len = es.len() as int;
        let x = order[0];
        lemma_part_facts(prefix, x, n, cs[x]);
        assert(ordered[0] == sl[x]);
        let e0 = es.push(PartsEntry { prefix, parts: Seq::empty() });
        let done = order.take(1);
        assert(done == seq![x]);
        assert(Seq::<int>::empty().push(x) == seq![x]);
        assert(filled_parts(cs, Seq::<int>::empty()) =~= Seq::<Seq<u8>>::empty());
        lemma_filled_step(cs, Seq::<int>::empty(), x);
        let parts_1 = filled_parts(cs, done);
        assert(stored_parts(Seq::empty(), x, cs[x]) == parts_1);
        let gap = lemma_order_gap(order, n as nat, 1);
        assert(!is_complete(parts_1, sl[x][TOTAL_COUNT_IDX as int])) by {
            if parts_1.len() == n {
                assert(parts_1[gap].len() == 0);
            }
        }
        let es1 = es.push(PartsEntry { prefix, parts: parts_1 });
        assert(e0.update(len, PartsEntry { prefix, parts: parts_1 }) =~= es1);
        assert(insert_spec(es, sl[x]) == Some((r_none, es1)));
        lemma_insert_in_order_from(es, prefix, msg, order, 1);
        assert(ordered.drop_first() == ordered.skip(1));
        assert(answers =~= seq![r_none] + answers.skip(1));
    }
}

/// An empty pool puts any message back together from its parts, whatever
/// order they come in: handing the parts that [`MessageSlicer::slice`] cuts
/// the message into ([`sliced`], behind whatever prefix it drew) to
/// [`MessagePool::try_insert`] one by one gives nothing until the last part,
/// which gives the message, and leaves the pool empty, of
/// [size](MessagePool::size) 0.
pub proof fn lemma_empty_pool_reassembles(prefix: Seq<u8>, msg: Seq<u8>, order: Seq<int>)
    requires
        prefix.len() == PREFIX_LENGTH,
        0 < msg.len() <= MAX_OVERLINE_MESSAGE_LENGTH,
        is_order(order, sliced(prefix, msg).len()),
    ensures
        insert_all(Seq::<PartsEntry>::empty(), order.map_values(|i: int| sliced(prefix, msg)[i]))
            == Some(
            (reassembly_answers(sliced(prefix, msg).len(), msg), Seq::<PartsEntry>::empty()),
        ),
        pool_size(Seq::<PartsEntry>::empty()) == 0,
{
    let es = Seq::<PartsEntry>::empty();
    assert(find_prefix(es, prefix) is None);
    lemma_slices_reassemble_in_any_order(es, prefix, msg, order);
}

proof fn lemma_insert_steps(
    parts: Seq<Seq<u8>>,
    pools: Seq<Seq<PartsEntry>>,
    answers: Seq<Result<Option<Seq<u8>>, Error>>,
    k: int,
)
    requires
        0 <= k <= parts.len(),
        pools.len() == parts.len() + 1,
        answers.len() == parts.len(),
        forall|j: int|
            0 <= j < parts.len() ==> insert_spec(pools[j], #[trigger] parts[j]) == Some(
                (answers[j], pools[j + 1]),
            ),
    ensures
        insert_all(pools[k], parts.skip(k)) == Some((answers.skip(k), pools[parts.len() as int])),
    decreases parts.len() - k,
{
    if k == parts.len() {
        assert(parts.skip(k).len() == 0);
        assert(answers.skip(k) =~= Seq::<Result<Option<Seq<u8>>, Error>>::empty());
    } else {
        lemma_insert_steps(parts, pools, answers, k + 1);
        assert(parts.skip(k)[0] == parts[k]);
        assert(parts.skip(k).drop_first() =~= parts.skip(k + 1));
        assert(answers.skip(k) =~= seq![answers[k]] + answers.skip(k + 1));
    }
}

/// Calls of [`MessagePool::try_insert`] on an empty pool with the parts of a
/// message, in any order, each taking the pool from one state to the next as
/// its contract states ([`insert_spec`]), answer nothing until the last part,
/// which gives the message, and leave the pool empty, of
/// [size](MessagePool::size) 0.
pub proof fn lemma_try_insert_calls_reassemble(
    prefix: Seq<u8>,
    msg: Seq<u8>,
    order: Seq<int>,
    pools: Seq<Seq<PartsEntry>>,
    answers: Seq<Result<Option<Seq<u8>>, Error>>,
)
    requires
        prefix.len() == PREFIX_LENGTH,
        0 < msg.len() <= MAX_OVERLINE_MESSAGE_LENGTH,
        is_order(order, sliced(prefix, msg).len()),
        pools.len() == order.len() + 1,
        answers.len() == order.len(),
        pools[0] == Seq::<PartsEntry>::empty(),
        forall|j: int|
            0 <= j < order.len() ==> insert_spec(pools[j], sliced(prefix, msg)[#[trigger] order[j]])
                == Some((answers[j], pools[j + 1])),
    ensures
        answers == reassembly_answers(sliced(prefix, msg).len(), msg),
        pools[order.len() as int] == Seq::<PartsEntry>::empty(),
        pool_size(pools[order.len() as int]) == 0,
{
    let parts = order.map_values(|i: int| sliced(prefix, msg)[i]);
    assert forall|j: int| 0 <= j < parts.len() implies insert_spec(pools[j], #[trigger] parts[j])
        == Some((answers[j], pools[j + 1])) by {
        assert(parts[j] == sliced(prefix, msg)[order[j]]);
    }
    lemma_insert_steps(parts, pools, answers, 0);
    assert(parts.skip(0) == parts);
    assert(answers.skip(0) == answers);
    lemma_empty_pool_reassembles(prefix, msg, order);
}

/// Cuts logical messages into parts that fit a LoRa packet, behind a random
/// prefix per message.
pub struct MessageSlicer {
    rng: rand::rngs::SmallRng,
}

impl MessageSlicer {
    /// A slicer whose prefixes come from a small random generator seeded with
    /// `initial_seed`.
    pub fn new(initial_seed: u64) -> Self {
        MessageSlicer { rng: small_rng_from_seed(initial_seed) }
    }

    /// Cuts `msg` into parts behind a fresh random prefix of four bytes
    /// ([`sliced`]); refused when `msg` is longer than
    /// [`MAX_OVERLINE_MESSAGE_LENGTH`].
    pub fn slice(&mut self, msg: &[u8]) -> (r: Result<Vec<P2pMessagePart>, Error>)
        ensures
            msg@.len() > MAX_OVERLINE_MESSAGE_LENGTH ==> r == Err::<Vec<P2pMessagePart>, Error>(
                Error::TooLong,
            ),
            msg@.len() <= MAX_OVERLINE_MESSAGE_LENGTH ==> (r matches Ok(v) && exists|p: Seq<u8>|
                p.len() == PREFIX_LENGTH && frames_view(v) == sliced(p, msg@)),
    {
        if msg.len() > MAX_OVERLINE_MESSAGE_LENGTH {
            return Err(Error::TooLong);
        }
        let mut prefix: Vec<u8> = Vec::new();
        let mut k: usize = 0;
        while k < PREFIX_LENGTH
            invariant
                k <= PREFIX_LENGTH,
                prefix@.len() == k,
            decreases PREFIX_LENGTH - k,
        {
            prefix.push(random_byte(&mut self.rng));
            k = k + 1;
        }
        let parts = slice_with_prefix(prefix.as_slice(), msg);
        assert(frames_view(parts) == sliced(prefix@, msg@));
        Ok(parts)
    }
}

} // verus!
