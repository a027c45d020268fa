//! Reassembling chunks into messages.
//!
//! Partly received messages are kept in a table keyed by message id. Each entry
//! records which chunk indices have arrived, their data, and when the entry last
//! took a new chunk (nanoseconds on the receiver's clock).
use vstd::prelude::*;
use std::collections::HashMap;
use std::collections::HashSet;
use crate::net::boundary::{bytes_mut_as_slice, bytes_mut_contents, bytes_mut_from_slice};
use crate::net::boundary::{crc32, instant_now, nanos_since};
use crate::net::chunk::{decode_chunk, Chunk, ChunkModel, ChunkView};
use crate::net::message::{decode_message, Message, MessageModel};

verus! {

broadcast use vstd::std_specs::hash::group_hash_axioms;

/// Nanoseconds (five seconds) after its last new chunk that a partly received
/// message is dropped.
pub const MESSAGE_TIMEOUT_NANOS: u64 = 5_000_000_000;

/// A message whose chunks are being collected.
pub struct ReceivingMessage {
    pub parts: Vec<Option<bytes::BytesMut>>,
    pub received_chunks: Vec<bool>,
    pub last_seen: u64,
    pub total_expected: u16,
}

/// The mathematical value of a `ReceivingMessage`.
pub struct EntryModel {
    pub parts: Seq<Option<Seq<u8>>>,
    pub received: Seq<bool>,
    pub last_seen: u64,
    pub total: u16,
}

/// The bytes of one stored part, if any.
pub open spec fn part_contents(p: Option<bytes::BytesMut>) -> Option<Seq<u8>> {
    match p {
        Some(b) => Some(bytes_mut_contents(b)),
        None => None,
    }
}

impl View for ReceivingMessage {
    type V = EntryModel;

    open spec fn view(&self) -> EntryModel {
        EntryModel {
            parts: self.parts@.map_values(|p: Option<bytes::BytesMut>| part_contents(p)),
            received: self.received_chunks@,
            last_seen: self.last_seen,
            total: self.total_expected,
        }
    }
}

/// The table of partly received messages, by value.
pub open spec fn table_view(m: Map<u64, ReceivingMessage>) -> Map<u64, EntryModel> {
    m.map_values(|e: ReceivingMessage| e@)
}

/// The stored parts joined in index order; missing parts contribute nothing.
pub open spec fn concat_parts(parts: Seq<Option<Seq<u8>>>) -> Seq<u8>
    decreases parts.len(),
{
    if parts.len() == 0 {
        Seq::empty()
    } else {
        concat_parts(parts.drop_last()) + match parts.last() {
            Some(d) => d,
            None => Seq::empty(),
        }
    }
}

/// Every flag is set.
pub open spec fn all_received(received: Seq<bool>) -> bool {
    forall|i: int| 0 <= i < received.len() ==> #[trigger] received[i]
}

/// The entry a message starts with when its first chunk arrives.
pub open spec fn fresh_entry(total: u16, now: u64) -> EntryModel {
    EntryModel {
        parts: Seq::new(total as nat, |i: int| None),
        received: Seq::new(total as nat, |i: int| false),
        last_seen: now,
        total,
    }
}

/// The entry that chunk `c` meets: the stored one, or a fresh one.
pub open spec fn entry_for(t: Map<u64, EntryModel>, c: ChunkModel, now: u64) -> EntryModel {
    if t.contains_key(c.msg_id) {
        t[c.msg_id]
    } else {
        fresh_entry(c.total, now)
    }
}

/// Chunk `c` can be taken into table `t`: unless its total disagrees with the
/// stored entry, its index names a flag, and a part slot where one is still missing.
pub open spec fn chunk_acceptable(t: Map<u64, EntryModel>, c: ChunkModel) -> bool {
    let e = entry_for(t, c, 0);
    e.total != c.total || (c.idx < e.received.len() && (!e.received[c.idx as int] ==> c.idx
        < e.parts.len()))
}

/// The entry after chunk `c` is recorded: a first copy of an index stores the data,
/// sets the flag and the time; a repeated index changes nothing.
pub open spec fn record_part(e: EntryModel, c: ChunkModel, now: u64) -> EntryModel {
    if !e.received[c.idx as int] {
        EntryModel {
            parts: e.parts.update(c.idx as int, Some(c.data)),
            received: e.received.update(c.idx as int, true),
            last_seen: now,
            total: e.total,
        }
    } else {
        e
    }
}

/// The entry once its parts have been handed out.
pub open spec fn drained(e: EntryModel) -> EntryModel {
    EntryModel { parts: Seq::empty(), received: e.received, last_seen: e.last_seen, total: e.total }
}

/// Taking chunk `c` at time `now` into table `t`: the new table, and the joined
/// message bytes when this chunk completes the message.
/// A chunk whose total disagrees with the stored entry drops that entry.
pub open spec fn process_step(t: Map<u64, EntryModel>, c: ChunkModel, now: u64) -> (
    Map<u64, EntryModel>,
    Option<Seq<u8>>,
) {
    let e = entry_for(t, c, now);
    if e.total != c.total {
        (t.remove(c.msg_id), None)
    } else {
        let e1 = record_part(e, c, now);
        if all_received(e1.received) {
            (t.insert(c.msg_id, drained(e1)), Some(concat_parts(e1.parts)))
        } else {
            (t.insert(c.msg_id, e1), None)
        }
    }
}

/// The bytes of an optional buffer.
pub open spec fn bytes_option(v: Option<Vec<u8>>) -> Option<Seq<u8>> {
    match v {
        Some(b) => Some(b@),
        None => None,
    }
}

/// A fresh entry for a message of `total` chunks, first seen at `now`.
pub fn new_receiving_message(total: u16, now: u64) -> (e: ReceivingMessage)
    ensures
        e@ == fresh_entry(total, now),
{
    let mut parts: Vec<Option<bytes::BytesMut>> = Vec::new();
    let mut received_chunks: Vec<bool> = Vec::new();
    let mut i: u16 = 0;
    while i < total
        invariant
            i <= total,
            parts@.len() == i,
            received_chunks@.len() == i,
            forall|j: int| 0 <= j < i ==> #[trigger] parts@[j] is None,
            forall|j: int| 0 <= j < i ==> !#[trigger] received_chunks@[j],
        decreases total - i,
    {
        parts.push(None);
        received_chunks.push(false);
        i = i + 1;
    }
    let e = ReceivingMessage { parts, received_chunks, last_seen: now, total_expected: total };
    assert(e@.parts =~= fresh_entry(total, now).parts);
    assert(e@.received =~= fresh_entry(total, now).received);
    e
}

/// Whether every flag is set.
fn all_set(flags: &Vec<bool>) -> (all: bool)
    ensures
        all == all_received(flags@),
{
    let n: usize = flags.len();
    let mut i: usize = 0;
    while i < n
        invariant
            n == flags@.len(),
            i <= n,
            forall|j: int| 0 <= j < i ==> #[trigger] flags@[j],
        decreases n - i,
    {
        if !flags[i] {
            return false;
        }
        i = i + 1;
    }
    true
}

/// Joins the stored parts in index order and empties the part list.
pub fn assemble_complete_message(entry: &mut ReceivingMessage) -> (full: Vec<u8>)
    ensures
        full@ == concat_parts(old(entry)@.parts),
        final(entry)@ == drained(old(entry)@),
{
    let ghost parts = entry@.parts;
    let mut full: Vec<u8> = Vec::new();
    let n: usize = entry.parts.len();
    let mut i: usize = 0;
    while i < n
        invariant
            n == entry.parts@.len(),
            parts == entry@.parts,
            i <= n,
            full@ == concat_parts(parts.take(i as int)),
        decreases n - i,
    {
        assert(parts.take(i + 1).drop_last() =~= parts.take(i as int));
        match &entry.parts[i] {
            Some(b) => {
                let ghost before = full@;
                full.extend_from_slice(bytes_mut_as_slice(b));
                assert(full@ =~= before + bytes_mut_contents(*b));
            },
            None => {},
        }
        i = i + 1;
    }
    assert(parts.take(n as int) =~= parts);
    entry.parts.clear();
    assert(entry@.parts =~= Seq::<Option<Seq<u8>>>::empty());
    full
}

/// Takes chunk `chunk` at time `now` into the table of partly received messages.
/// Returns the joined message bytes when this chunk completes its message; the
/// completed entry stays in the table with its parts handed out.
pub fn process_chunk(
    chunk: &ChunkView<'_>,
    messages: &mut HashMap<u64, ReceivingMessage>,
    now: u64,
) -> (assembled: Option<Vec<u8>>)
    requires
        chunk_acceptable(table_view(old(messages)@), chunk@),
    ensures
        (table_view(final(messages)@), bytes_option(assembled)) == process_step(
            table_view(old(messages)@),
            chunk@,
            now,
        ),
        forall|k: u64|
            k != chunk.msg_id ==> final(messages)@.contains_key(k) == old(messages)@.contains_key(k)
                && (old(messages)@.contains_key(k) ==> #[trigger] final(messages)@[k]
                == old(messages)@[k]),
        assembled is Some <==> final(messages)@.contains_key(chunk.msg_id) && all_received(
            final(messages)@[chunk.msg_id]@.received,
        ),
{
    let ghost t0 = table_view(messages@);
    let mut entry: ReceivingMessage = match messages.remove(&chunk.msg_id) {
        Some(e) => e,
        None => new_receiving_message(chunk.total, now),
    };
    assert(entry@ == entry_for(t0, chunk@, now));
    assert(table_view(messages@) =~= t0.remove(chunk.msg_id));
    if chunk.total != entry.total_expected {
        return None;
    }
    let idx: usize = chunk.idx as usize;
    if !entry.received_chunks[idx] {
        let part: bytes::BytesMut = bytes_mut_from_slice(chunk.data);
        entry.parts.set(idx, Some(part));
        entry.received_chunks.set(idx, true);
        entry.last_seen = now;
    }
    let ghost e1 = record_part(entry_for(t0, chunk@, now), chunk@, now);
    assert(entry@.parts =~= e1.parts);
    assert(entry@ == e1);
    if all_set(&entry.received_chunks) {
        let full: Vec<u8> = assemble_complete_message(&mut entry);
        messages.insert(chunk.msg_id, entry);
        assert(table_view(messages@) =~= t0.insert(chunk.msg_id, drained(e1)));
        Some(full)
    } else {
        messages.insert(chunk.msg_id, entry);
        assert(table_view(messages@) =~= t0.insert(chunk.msg_id, e1));
        None
    }
}

/// Nanoseconds from `last_seen` to `now`; zero when `last_seen` is later.
pub open spec fn age(now: u64, last_seen: u64) -> int {
    if now >= last_seen {
        now - last_seen
    } else {
        0
    }
}

/// An entry last touched at `last_seen` is kept at time `now`.
pub open spec fn is_recent(now: u64, last_seen: u64) -> bool {
    age(now, last_seen) < MESSAGE_TIMEOUT_NANOS
}

/// The table with the entries that are no longer recent removed.
pub open spec fn retain_recent<V>(m: Map<u64, V>, last_seen: spec_fn(V) -> u64, now: u64) -> Map<
    u64,
    V,
> {
    Map::new(|k: u64| m.contains_key(k) && is_recent(now, last_seen(m[k])), |k: u64| m[k])
}

/// The time at which an entry last took a new chunk.
pub open spec fn last_seen_of(e: ReceivingMessage) -> u64 {
    e.last_seen
}

/// Drops every partly received message that took no new chunk in the last
/// `MESSAGE_TIMEOUT_NANOS` nanoseconds before `now`.
pub fn cleanup_old_messages(messages: &mut HashMap<u64, ReceivingMessage>, now: u64)
    ensures
        final(messages)@ == retain_recent(old(messages)@, |e: ReceivingMessage| last_seen_of(e), now),
{
    let ghost m0 = messages@;
    let mut ids: Vec<u64> = Vec::new();
    for k in it: messages.keys()
        invariant
            ids@.len() == it.index(),
            forall|j: int| 0 <= j < it.index() ==> ids@[j] == *it.seq()[j],
    {
        ids.push(*k);
    }
    assert(forall|k: u64| m0.contains_key(k) ==> ids@.contains(k));
    let n: usize = ids.len();
    let mut i: usize = 0;
    while i < n
        invariant
            n == ids@.len(),
            i <= n,
            forall|k: u64| m0.contains_key(k) ==> ids@.contains(k),
            messages@ == Map::new(
                |k: u64|
                    m0.contains_key(k) && (!ids@.take(i as int).contains(k) || is_recent(
                        now,
                        m0[k].last_seen,
                    )),
                |k: u64| m0[k],
            ),
        decreases n - i,
    {
        let id: u64 = ids[i];
        let ghost prev = messages@;
        let stale: bool = match messages.get(&id) {
            Some(e) => now.saturating_sub(e.last_seen) >= MESSAGE_TIMEOUT_NANOS,
            None => false,
        };
        assert(stale <==> (prev.contains_key(id) && !is_recent(now, m0[id].last_seen)));
        if stale {
            messages.remove(&id);
            assert(messages@ == prev.remove(id));
        }
        assert(ids@.take(i + 1) =~= ids@.take(i as int).push(id));
        assert forall|k: u64| #[trigger] ids@.take(i + 1).contains(k) <==> (ids@.take(
            i as int,
        ).contains(k) || k == id) by {
            if ids@.take(i as int).contains(k) {
                let j = choose|j: int| 0 <= j < i && #[trigger] ids@.take(i as int)[j] == k;
                assert(ids@.take(i + 1)[j] == k);
            }
            if k == id {
                assert(ids@.take(i + 1)[i as int] == k);
            }
            if ids@.take(i + 1).contains(k) {
                let j = choose|j: int| 0 <= j < i + 1 && #[trigger] ids@.take(i + 1)[j] == k;
                if j < i {
                    assert(ids@.take(i as int)[j] == k);
                }
            }
        }
        i = i + 1;
        assert(messages@ =~= Map::new(
                |k: u64|
                    m0.contains_key(k) && (!ids@.take(i as int).contains(k) || is_recent(
                        now,
                        m0[k].last_seen,
                    )),
                |k: u64| m0[k],
            ));
    }
    assert(ids@.take(n as int) =~= ids@);
    assert(messages@ =~= retain_recent(m0, |e: ReceivingMessage| last_seen_of(e), now));
}

/// The table of entries after a cleanup at `now`, by value.
pub open spec fn retain_recent_entries(t: Map<u64, EntryModel>, now: u64) -> Map<u64, EntryModel> {
    retain_recent(t, |e: EntryModel| e.last_seen, now)
}

proof fn lemma_table_view_retain(m: Map<u64, ReceivingMessage>, now: u64)
    ensures
        table_view(retain_recent(m, |e: ReceivingMessage| last_seen_of(e), now))
            == retain_recent_entries(table_view(m), now),
{
    assert(table_view(retain_recent(m, |e: ReceivingMessage| last_seen_of(e), now))
        =~= retain_recent_entries(table_view(m), now));
}

/// What became of one received datagram.
pub enum PacketOutcome {
    /// The datagram does not hold a whole chunk (shorter than the 16-byte header,
    /// or than the header and the data it announces): ignored, nothing changes.
    Ignored,
    /// The chunk belongs to a message that was already handed out: ignored,
    /// nothing changes.
    Duplicate,
    /// The chunk was taken and its message is not complete yet.
    Pending,
    /// The chunk with the given message id completed a message whose checksum
    /// matches its data. The id is recorded as handed out; the entry stays in the
    /// table until `finish_message` is called with that id.
    Complete(u64, Message),
    /// The chunk completed a message whose checksum does not match its data:
    /// the message is dropped with its entry.
    Corrupt,
}

/// A datagram that the receive loop cannot go on from.
pub enum ReceiveError {
    /// The chunk index is not below the number of chunks of its message.
    ChunkIndexOutOfRange,
    /// The completed message bytes do not hold a whole message.
    MalformedMessage,
}

/// `PacketOutcome` by value.
pub enum OutcomeModel {
    Ignored,
    Duplicate,
    Pending,
    Complete(u64, MessageModel),
    Corrupt,
}

/// The value of a receive result.
pub open spec fn outcome_view(r: Result<PacketOutcome, ReceiveError>) -> Result<OutcomeModel, ReceiveError> {
    match r {
        Ok(PacketOutcome::Ignored) => Ok(OutcomeModel::Ignored),
        Ok(PacketOutcome::Duplicate) => Ok(OutcomeModel::Duplicate),
        Ok(PacketOutcome::Pending) => Ok(OutcomeModel::Pending),
        Ok(PacketOutcome::Complete(id, m)) => Ok(OutcomeModel::Complete(id, m@)),
        Ok(PacketOutcome::Corrupt) => Ok(OutcomeModel::Corrupt),
        Err(e) => Err(e),
    }
}

/// The receiving side's state by value: the table of partly received messages
/// and the ids of the messages already handed out.
pub struct ReceiverModel {
    pub table: Map<u64, EntryModel>,
    pub delivered: Set<u64>,
}

/// One step of the receive loop: the received bytes `datagram` arrive at time
/// `now` in state `s`. Gives the new state and what became of the datagram.
pub open spec fn receive_step(s: ReceiverModel, datagram: Seq<u8>, now: u64) -> (
    ReceiverModel,
    Result<OutcomeModel, ReceiveError>,
) {
    let t = s.table;
    let d = s.delivered;
    match decode_chunk(datagram) {
        None => (s, Ok(OutcomeModel::Ignored)),
        Some(c) => if d.contains(c.msg_id) {
            (s, Ok(OutcomeModel::Duplicate))
        } else if !chunk_acceptable(t, c) {
            (s, Err(ReceiveError::ChunkIndexOutOfRange))
        } else {
            let (t1, out) = process_step(t, c, now);
            match out {
                None => (
                    ReceiverModel { table: retain_recent_entries(t1, now), delivered: d },
                    Ok(OutcomeModel::Pending),
                ),
                Some(bytes) => match decode_message(bytes) {
                    None => (
                        ReceiverModel { table: t1, delivered: d },
                        Err(ReceiveError::MalformedMessage),
                    ),
                    Some(m) => if m.intact() {
                        (
                            ReceiverModel { table: t1, delivered: d.insert(c.msg_id) },
                            Ok(OutcomeModel::Complete(c.msg_id, m)),
                        )
                    } else {
                        (
                            ReceiverModel {
                                table: retain_recent_entries(t1.remove(c.msg_id), now),
                                delivered: d,
                            },
                            Ok(OutcomeModel::Corrupt),
                        )
                    },
                },
            }
        },
    }
}

/// Takes one received datagram (exactly the received bytes) at time `now`:
/// reads the chunk, skips it if its message was already handed out, records it,
/// and when it completes its message, reads the message and checks its checksum.
/// Entries that are no longer recent are dropped after a pending or corrupt outcome.
pub fn receive_packet(
    datagram: &[u8],
    messages: &mut HashMap<u64, ReceivingMessage>,
    delivered: &mut HashSet<u64>,
    now: u64,
) -> (r: Result<PacketOutcome, ReceiveError>)
    ensures
        ({
            let (s1, out) = receive_step(
                ReceiverModel { table: table_view(old(messages)@), delivered: old(delivered)@ },
                datagram@,
                now,
            );
            &&& table_view(final(messages)@) == s1.table
            &&& final(delivered)@ == s1.delivered
            &&& outcome_view(r) == out
        }),
{
    let chunk: ChunkView = match Chunk::deserialize(datagram) {
        Ok(c) => c,
        Err(_) => {
            return Ok(PacketOutcome::Ignored);
        },
    };
    if delivered.contains(&chunk.msg_id) {
        return Ok(PacketOutcome::Duplicate);
    }
    if !chunk_fits(&chunk, messages) {
        return Err(ReceiveError::ChunkIndexOutOfRange);
    }
    match process_chunk(&chunk, messages, now) {
        None => {
            let ghost m1 = messages@;
            cleanup_old_messages(messages, now);
            proof {
                lemma_table_view_retain(m1, now);
            }
            Ok(PacketOutcome::Pending)
        },
        Some(bytes) => {
            match Message::deserialize(bytes.as_slice()) {
                Err(_) => Err(ReceiveError::MalformedMessage),
                Ok(view) => {
                    let message: Message = view.to_owned();
                    if crc32(message.data.as_slice()) == message.crc {
                        delivered.insert(chunk.msg_id);
                        Ok(PacketOutcome::Complete(chunk.msg_id, message))
                    } else {
                        let ghost t1 = table_view(messages@);
                        messages.remove(&chunk.msg_id);
                        assert(table_view(messages@) =~= t1.remove(chunk.msg_id));
                        let ghost m1 = messages@;
                        cleanup_old_messages(messages, now);
                        proof {
                            lemma_table_view_retain(m1, now);
                        }
                        Ok(PacketOutcome::Corrupt)
                    }
                },
            }
        },
    }
}

/// Whether `process_chunk` can take `chunk` into `messages`.
fn chunk_fits(chunk: &ChunkView<'_>, messages: &HashMap<u64, ReceivingMessage>) -> (fits: bool)
    ensures
        fits == chunk_acceptable(table_view(messages@), chunk@),
{
    match messages.get(&chunk.msg_id) {
        Some(e) => {
            if e.total_expected != chunk.total {
                true
            } else {
                let idx: usize = chunk.idx as usize;
                idx < e.received_chunks.len() && (e.received_chunks[idx] || idx < e.parts.len())
            }
        },
        None => chunk.idx < chunk.total,
    }
}

/// After a completed message was handed on: drops its entry, then every entry
/// that is no longer recent at time `now`.
pub fn finish_message(messages: &mut HashMap<u64, ReceivingMessage>, msg_id: u64, now: u64)
    ensures
        table_view(final(messages)@) == retain_recent_entries(
            table_view(old(messages)@).remove(msg_id),
            now,
        ),
{
    let ghost t0 = table_view(messages@);
    messages.remove(&msg_id);
    assert(table_view(messages@) =~= t0.remove(msg_id));
    let ghost m1 = messages@;
    cleanup_old_messages(messages, now);
    proof {
        lemma_table_view_retain(m1, now);
    }
}

/// The receiving side's state: the table of partly received messages, the ids
/// of the messages already handed out, the instant from which its clock counts
/// nanoseconds, and the clock reading of the latest received datagram.
pub struct Receiver {
    messages: HashMap<u64, ReceivingMessage>,
    delivered: HashSet<u64>,
    started: tokio::time::Instant,
    clock: u64,
}

impl View for Receiver {
    type V = ReceiverModel;

    /// The table and the handed-out ids, by value.
    closed spec fn view(&self) -> ReceiverModel {
        ReceiverModel { table: table_view(self.messages@), delivered: self.delivered@ }
    }
}

impl Receiver {
    /// The clock reading (nanoseconds since the receiver was made) that the latest
    /// received datagram was taken at; zero before any datagram.
    pub closed spec fn clock(&self) -> u64 {
        self.clock
    }

    /// An empty table, no message handed out yet, and a clock that starts now.
    pub fn new() -> (r: Self)
        ensures
            r@ == (ReceiverModel { table: Map::empty(), delivered: Set::empty() }),
            r.clock() == 0,
    {
        let r = Receiver {
            messages: HashMap::new(),
            delivered: HashSet::new(),
            started: instant_now(),
            clock: 0,
        };
        assert(r@.table =~= Map::<u64, EntryModel>::empty());
        r
    }

    /// Reads the clock and takes one received datagram at that time (see
    /// `receive_packet`); the reading becomes the receiver's clock.
    pub fn receive(&mut self, datagram: &[u8]) -> (r: Result<PacketOutcome, ReceiveError>)
        ensures
            (final(self)@, outcome_view(r)) == receive_step(
                old(self)@,
                datagram@,
                final(self).clock(),
            ),
    {
        let now: u64 = nanos_since(&self.started);
        self.clock = now;
        receive_packet(datagram, &mut self.messages, &mut self.delivered, now)
    }

    /// After the message with id `msg_id` was handed on: drops its entry and cleans
    /// the table at the clock reading of the datagram that completed it, the latest
    /// received (see `finish_message`); the handed-out ids are kept.
    pub fn finish(&mut self, msg_id: u64)
        ensures
            final(self).clock() == old(self).clock(),
            final(self)@.delivered == old(self)@.delivered,
            final(self)@.table == retain_recent_entries(
                old(self)@.table.remove(msg_id),
                old(self).clock(),
            ),
    {
        finish_message(&mut self.messages, msg_id, self.clock);
    }
}

} // verus!
