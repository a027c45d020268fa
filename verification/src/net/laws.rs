//! Properties that relate the functions of the library to one another:
//! what splitting and reassembly give back of a message.
use vstd::prelude::*;
use crate::net::chunk::{chunk_announced_len, decode_chunk, lemma_chunk_roundtrip, ChunkModel, CHUNK_HEADER_LEN};
use crate::net::consts::CHUNK_SIZE;
use crate::net::message::{lemma_message_roundtrip, MessageModel};
use crate::net::output::{chunk_count, lemma_chunk_count, payload_of, split_into_chunks, MAX_PAYLOAD};
use crate::net::input::{
    all_received, chunk_acceptable, concat_parts, drained, entry_for, is_recent, process_step,
    receive_step, record_part, retain_recent_entries, EntryModel, OutcomeModel, ReceiveError,
    ReceiverModel, MESSAGE_TIMEOUT_NANOS,
};

verus! {

/// Index `i` is among the first `k` arrivals of `order`.
pub open spec fn seen(order: Seq<int>, k: int, i: int) -> bool {
    order.take(k).contains(i)
}

/// Every index below `n` is among the first `k` arrivals of `order`.
pub open spec fn covers(order: Seq<int>, k: int, n: nat) -> bool {
    forall|i: int| 0 <= i < n ==> #[trigger] seen(order, k, i)
}

/// Every piece, stored.
pub open spec fn all_parts(ds: Seq<Seq<u8>>) -> Seq<Option<Seq<u8>>> {
    ds.map_values(|d: Seq<u8>| Some(d))
}

/// The data of the first of the first `k` arrivals that carried index `i`
/// (arrival `j` carries index `order[j]` and data `datas[j]`); empty if none did.
pub open spec fn first_data(order: Seq<int>, datas: Seq<Seq<u8>>, k: nat, i: int) -> Seq<u8>
    decreases k,
{
    if k == 0 {
        Seq::empty()
    } else if seen(order, k - 1, i) {
        first_data(order, datas, (k - 1) as nat, i)
    } else if order[k - 1] == i {
        datas[k - 1]
    } else {
        Seq::empty()
    }
}

/// For each index below `n`, the data of its first arrival among the first `k`.
pub open spec fn first_arrivals(order: Seq<int>, datas: Seq<Seq<u8>>, n: nat, k: nat) -> Seq<
    Seq<u8>,
> {
    Seq::new(n, |i: int| first_data(order, datas, k, i))
}

/// The entry of a message of `n` chunks after the first `k` arrivals, last
/// touched at `last_seen`: each index that arrived holds its first data.
pub open spec fn history_entry(
    order: Seq<int>,
    datas: Seq<Seq<u8>>,
    n: nat,
    k: nat,
    last_seen: u64,
) -> EntryModel {
    EntryModel {
        parts: Seq::new(
            n,
            |i: int|
                if seen(order, k as int, i) {
                    Some(first_data(order, datas, k, i))
                } else {
                    None
                },
        ),
        received: Seq::new(n, |i: int| seen(order, k as int, i)),
        last_seen,
        total: n as u16,
    }
}

/// The chunk of arrival `j`: message `id` of `n` chunks, index `order[j]`, data `datas[j]`.
pub open spec fn arrival_chunk(id: u64, n: nat, order: Seq<int>, datas: Seq<Seq<u8>>, j: int) -> ChunkModel {
    ChunkModel { msg_id: id, idx: order[j] as u16, total: n as u16, data: datas[j] }
}

/// The chunks of all arrivals.
pub open spec fn arrival_chunks(id: u64, n: nat, order: Seq<int>, datas: Seq<Seq<u8>>) -> Seq<ChunkModel> {
    Seq::new(order.len(), |j: int| arrival_chunk(id, n, order, datas, j))
}

proof fn lemma_seen_next(order: Seq<int>, k: int, i: int)
    requires
        0 <= k < order.len(),
    ensures
        seen(order, (k + 1) as int, i) <==> (seen(order, k, i) || order[k] == i),
{
    let a = order.take(k);
    let b = order.take(k + 1);
    if b.contains(i) {
        let j = choose|j: int| 0 <= j < b.len() && #[trigger] b[j] == i;
        if j < k {
            assert(a[j] == i);
        }
    }
    if a.contains(i) {
        let j = choose|j: int| 0 <= j < a.len() && #[trigger] a[j] == i;
        assert(b[j] == i);
    }
    if order[k] == i {
        assert(b[k] == i);
    }
}

proof fn lemma_seen_mono(order: Seq<int>, k1: int, k2: int, i: int)
    requires
        0 <= k1 <= k2 <= order.len(),
        seen(order, k1, i),
    ensures
        seen(order, k2, i),
{
    let a = order.take(k1);
    let j = choose|j: int| 0 <= j < a.len() && #[trigger] a[j] == i;
    assert(order.take(k2)[j] == i);
}

/// One arrival of the reassembly: the chunk of arrival `k` meets the entry that
/// the first `k` arrivals built (none when `k == 0`).
proof fn lemma_arrival(
    t: Map<u64, EntryModel>,
    id: u64,
    n: nat,
    order: Seq<int>,
    datas: Seq<Seq<u8>>,
    k: nat,
    last_seen: u64,
    now: u64,
)
    requires
        1 <= n <= u16::MAX,
        k < order.len(),
        datas.len() == order.len(),
        forall|j: int| 0 <= j < order.len() ==> 0 <= #[trigger] order[j] < n,
        k == 0 ==> !t.contains_key(id),
        k > 0 ==> t.contains_key(id) && t[id] == history_entry(order, datas, n, k, last_seen),
    ensures
        chunk_acceptable(t, arrival_chunk(id, n, order, datas, k as int)),
        ({
            let (t1, out) = process_step(t, arrival_chunk(id, n, order, datas, k as int), now);
            let ls1 = if k > 0 && seen(order, k as int, order[k as int]) { last_seen } else { now };
            &&& t1.contains_key(id)
            &&& forall|x: u64| x != id ==> t1.contains_key(x) == t.contains_key(x) && t1[x] == t[x]
            &&& covers(order, (k + 1) as int, n) ==> out == Some(
                concat_parts(all_parts(first_arrivals(order, datas, n, k + 1))),
            ) && t1[id] == drained(history_entry(order, datas, n, k + 1, ls1))
            &&& !covers(order, (k + 1) as int, n) ==> out is None && t1[id] == history_entry(
                order,
                datas,
                n,
                k + 1,
                ls1,
            )
        }),
{
    let c = arrival_chunk(id, n, order, datas, k as int);
    let idx = order[k as int];
    assert(c.idx as int == idx);
    assert(c.total as int == n);
    let ls0 = if k == 0 { now } else { last_seen };
    let e = entry_for(t, c, now);
    if k == 0 {
        assert forall|i: int| 0 <= i < n implies !seen(order, 0, i) by {
            assert(order.take(0) =~= Seq::<int>::empty());
        }
        assert(e.parts =~= history_entry(order, datas, n, 0, ls0).parts);
        assert(e.received =~= history_entry(order, datas, n, 0, ls0).received);
    }
    assert(e == history_entry(order, datas, n, k, ls0));
    assert(entry_for(t, c, 0).received == e.received);
    assert(entry_for(t, c, 0).parts.len() == e.parts.len());
    let e1 = record_part(e, c, now);
    let ls1 = if k > 0 && seen(order, k as int, order[k as int]) { last_seen } else { now };
    assert forall|i: int| 0 <= i < n implies #[trigger] seen(order, (k + 1) as int, i) == (seen(
        order,
        k as int,
        i,
    ) || idx == i) by {
        lemma_seen_next(order, k as int, i);
    }
    if k == 0 {
        assert(!seen(order, k as int, idx));
    }
    assert(e1.parts =~= history_entry(order, datas, n, k + 1, ls1).parts);
    assert(e1.received =~= history_entry(order, datas, n, k + 1, ls1).received);
    assert(e1 == history_entry(order, datas, n, k + 1, ls1));
    if covers(order, (k + 1) as int, n) {
        assert(all_received(e1.received));
        assert(e1.parts =~= all_parts(first_arrivals(order, datas, n, k + 1)));
    } else {
        let i = choose|i: int| 0 <= i < n && !#[trigger] seen(order, (k + 1) as int, i);
        assert(!e1.received[i]);
        assert(!all_received(e1.received));
    }
}

/// The first `k` chunks of `cs` taken one after another into table `t`, the
/// `j`-th at time `nows[j]`: the table after them and what each call returned.
pub open spec fn process_run(t: Map<u64, EntryModel>, cs: Seq<ChunkModel>, nows: Seq<u64>, k: nat) -> (
    Map<u64, EntryModel>,
    Seq<Option<Seq<u8>>>,
)
    decreases k,
{
    if k == 0 {
        (t, Seq::empty())
    } else {
        let (t1, outs) = process_run(t, cs, nows, (k - 1) as nat);
        let (t2, out) = process_step(t1, cs[k - 1], nows[k - 1]);
        (t2, outs.push(out))
    }
}

/// The conditions on a history of arrivals that the reassembly law speaks of:
/// every index is below `n`, and the last arrival is the first that completes the set.
pub open spec fn completing_history(n: nat, order: Seq<int>, datas: Seq<Seq<u8>>) -> bool {
    &&& order.len() >= 1
    &&& datas.len() == order.len()
    &&& forall|j: int| 0 <= j < order.len() ==> 0 <= #[trigger] order[j] < n
    &&& covers(order, order.len() as int, n)
    &&& !covers(order, order.len() - 1, n)
}

proof fn lemma_not_covered_before(n: nat, order: Seq<int>, k: int)
    requires
        0 <= k <= order.len() - 1,
        !covers(order, order.len() - 1, n),
    ensures
        !covers(order, k, n),
{
    if covers(order, k, n) {
        assert forall|i: int| 0 <= i < n implies #[trigger] seen(order, order.len() - 1, i) by {
            lemma_seen_mono(order, k, order.len() - 1, i);
        }
    }
}

proof fn lemma_process_prefix(
    t: Map<u64, EntryModel>,
    id: u64,
    n: nat,
    order: Seq<int>,
    datas: Seq<Seq<u8>>,
    nows: Seq<u64>,
    k: nat,
) -> (last_seen: u64)
    requires
        1 <= n <= u16::MAX,
        !t.contains_key(id),
        completing_history(n, order, datas),
        nows.len() == order.len(),
        k < order.len(),
    ensures
        ({
            let cs = arrival_chunks(id, n, order, datas);
            let (tk, outs) = process_run(t, cs, nows, k);
            &&& outs.len() == k
            &&& forall|j: int| 0 <= j < k ==> #[trigger] outs[j] is None
            &&& forall|j: int|
                0 <= j < k ==> chunk_acceptable(
                    #[trigger] process_run(t, cs, nows, j as nat).0,
                    cs[j],
                )
            &&& k == 0 ==> tk == t
            &&& k > 0 ==> tk.contains_key(id) && tk[id] == history_entry(order, datas, n, k, last_seen)
        }),
    decreases k,
{
    let cs = arrival_chunks(id, n, order, datas);
    if k == 0 {
        0
    } else {
        let ls = lemma_process_prefix(t, id, n, order, datas, nows, (k - 1) as nat);
        let (t1, outs) = process_run(t, cs, nows, (k - 1) as nat);
        lemma_arrival(t1, id, n, order, datas, (k - 1) as nat, ls, nows[k - 1]);
        assert(cs[k - 1] == arrival_chunk(id, n, order, datas, k - 1));
        lemma_not_covered_before(n, order, k as int);
        let (t2, outs2) = process_run(t, cs, nows, k);
        assert forall|j: int| 0 <= j < k implies #[trigger] outs2[j] is None by {
            if j < k - 1 {
                assert(outs2[j] == outs[j]);
            }
        }
        if k > 1 && seen(order, k - 1, order[k - 1]) {
            ls
        } else {
            nows[k - 1]
        }
    }
}

/// Reassembly over any history: when chunks of one message of `n` chunks arrive
/// in any order, repeats included and whatever data each repeat carries, into a
/// table that holds no entry for the message, no call fails, every call before
/// the arrival that completes the set of indices returns nothing, and that call
/// returns, joined in index order, the data of the first arrival of each index.
pub proof fn lemma_reassembly_any_order(
    t: Map<u64, EntryModel>,
    id: u64,
    n: nat,
    order: Seq<int>,
    datas: Seq<Seq<u8>>,
    nows: Seq<u64>,
)
    requires
        1 <= n <= u16::MAX,
        !t.contains_key(id),
        completing_history(n, order, datas),
        nows.len() == order.len(),
    ensures
        ({
            let cs = arrival_chunks(id, n, order, datas);
            let (tn, outs) = process_run(t, cs, nows, order.len());
            &&& outs.len() == order.len()
            &&& forall|j: int|
                0 <= j < order.len() ==> chunk_acceptable(
                    #[trigger] process_run(t, cs, nows, j as nat).0,
                    cs[j],
                )
            &&& forall|j: int| 0 <= j < order.len() - 1 ==> #[trigger] outs[j] is None
            &&& outs[order.len() - 1] == Some(
                concat_parts(all_parts(first_arrivals(order, datas, n, order.len()))),
            )
        }),
{
    let cs = arrival_chunks(id, n, order, datas);
    let last = (order.len() - 1) as nat;
    let ls = lemma_process_prefix(t, id, n, order, datas, nows, last);
    let (t1, outs) = process_run(t, cs, nows, last);
    lemma_arrival(t1, id, n, order, datas, last, ls, nows[last as int]);
    assert(cs[last as int] == arrival_chunk(id, n, order, datas, last as int));
    let (tn, outs_n) = process_run(t, cs, nows, order.len());
    assert forall|j: int| 0 <= j < order.len() - 1 implies #[trigger] outs_n[j] is None by {
        assert(outs_n[j] == outs[j]);
    }
}

/// Only the entry of the chunk's own message can change: every other entry of
/// the table is the same after a chunk is taken.
pub proof fn lemma_other_entries_untouched(t: Map<u64, EntryModel>, c: ChunkModel, now: u64, x: u64)
    requires
        x != c.msg_id,
    ensures
        process_step(t, c, now).0.contains_key(x) == t.contains_key(x),
        t.contains_key(x) ==> process_step(t, c, now).0[x] == t[x],
{
}

/// The pieces that the chunks of `data` carry, in index order.
pub open spec fn pieces(data: Seq<u8>) -> Seq<Seq<u8>> {
    Seq::new(chunk_count(data.len()), |i: int| payload_of(data, i))
}

proof fn lemma_pieces_prefix(data: Seq<u8>, k: nat)
    requires
        k <= chunk_count(data.len()),
    ensures
        concat_parts(all_parts(pieces(data).take(k as int))) == data.subrange(
            0,
            if k * MAX_PAYLOAD < data.len() { k * MAX_PAYLOAD } else { data.len() as int },
        ),
    decreases k,
{
    let p = pieces(data);
    lemma_chunk_count(data.len());
    if k == 0 {
        assert(all_parts(p.take(0)) =~= Seq::<Option<Seq<u8>>>::empty());
        assert(data.subrange(0, 0) =~= Seq::<u8>::empty());
    } else {
        lemma_pieces_prefix(data, (k - 1) as nat);
        assert(all_parts(p.take(k as int)).drop_last() =~= all_parts(p.take(k - 1)));
        assert(all_parts(p.take(k as int)).last() == Some(payload_of(data, k - 1)));
        assert((k - 1) * MAX_PAYLOAD < data.len()) by (nonlinear_arith)
            requires
                k <= chunk_count(data.len()),
                k >= 1,
                chunk_count(data.len()) == 0 || (chunk_count(data.len()) - 1) * 1434 < data.len(),
        ;
        assert(k * MAX_PAYLOAD == (k - 1) * MAX_PAYLOAD + MAX_PAYLOAD) by (nonlinear_arith);
        let start = (k - 1) * MAX_PAYLOAD;
        let end = if data.len() < start + MAX_PAYLOAD { data.len() as int } else { start + MAX_PAYLOAD };
        assert(data.subrange(0, start) + data.subrange(start, end) =~= data.subrange(0, end));
    }
}

/// Splitting then joining: the pieces of `data`, joined in index order, are
/// `data`; each piece is non-empty and at most `MAX_PAYLOAD` bytes long.
pub proof fn lemma_pieces_rejoin(data: Seq<u8>)
    ensures
        concat_parts(all_parts(pieces(data))) == data,
        forall|i: int|
            0 <= i < chunk_count(data.len()) ==> 0 < (#[trigger] payload_of(data, i)).len()
                <= MAX_PAYLOAD,
{
    let n = chunk_count(data.len());
    lemma_chunk_count(data.len());
    lemma_pieces_prefix(data, n);
    assert(pieces(data).take(n as int) =~= pieces(data));
    assert(data.subrange(0, data.len() as int) =~= data);
    assert forall|i: int| 0 <= i < n implies 0 < (#[trigger] payload_of(data, i)).len() <= MAX_PAYLOAD by {
        assert(i * MAX_PAYLOAD < data.len()) by (nonlinear_arith)
            requires
                0 <= i < n,
                n == 0 || (n - 1) * 1434 < data.len(),
        ;
    }
}

/// The first `k` datagrams `bufs` taken one after another by the receive loop, the `j`-th at time `nows[j]`: the table after
/// them and what became of each.
pub open spec fn receive_run(
    s: ReceiverModel,
    bufs: Seq<Seq<u8>>,
    nows: Seq<u64>,
    k: nat,
) -> (ReceiverModel, Seq<Result<OutcomeModel, ReceiveError>>)
    decreases k,
{
    if k == 0 {
        (s, Seq::empty())
    } else {
        let (s1, outs) = receive_run(s, bufs, nows, (k - 1) as nat);
        let (s2, out) = receive_step(s1, bufs[k - 1], nows[k - 1]);
        (s2, outs.push(out))
    }
}

/// The datagrams that carry the chunks of message `m` in the arrival order
/// `order`; datagram `j` holds the serialized chunk followed by `junk[j]`.
pub open spec fn message_datagrams(m: MessageModel, order: Seq<int>, junk: Seq<Seq<u8>>) -> Seq<
    Seq<u8>,
> {
    let cs = split_into_chunks(m.id, m.encode());
    Seq::new(order.len(), |j: int| cs[order[j]].encode() + junk[j])
}

/// The time of the latest arrival up to arrival `j` that brought an index not
/// seen before: the time at which the message's entry last took a new chunk.
pub open spec fn last_new_time(order: Seq<int>, nows: Seq<u64>, j: nat) -> u64
    decreases j,
{
    if j > 0 && seen(order, j as int, order[j as int]) {
        last_new_time(order, nows, (j - 1) as nat)
    } else {
        nows[j as int]
    }
}

/// The conditions on the arrivals under which a message is delivered: every
/// index is a chunk index, the last arrival is the first that completes the set,
/// and every arrival before the last
/// comes less than `input::MESSAGE_TIMEOUT_NANOS` after the latest arrival that brought
/// a new index (so the cleanup after it keeps the message's entry).
pub open spec fn live_complete_arrivals(
    n: nat,
    order: Seq<int>,
    junk: Seq<Seq<u8>>,
    nows: Seq<u64>,
) -> bool {
    &&& order.len() >= 1
    &&& junk.len() == order.len()
    &&& nows.len() == order.len()
    &&& forall|j: int| 0 <= j < order.len() ==> 0 <= #[trigger] order[j] < n
    &&& covers(order, order.len() as int, n)
    &&& !covers(order, order.len() - 1, n)
    &&& forall|j: nat|
        j < order.len() - 1 ==> is_recent(nows[j as int], #[trigger] last_new_time(order, nows, j))
}

/// The data that the chunks of `m` carry, arrival by arrival.
pub open spec fn arrival_pieces(m: MessageModel, order: Seq<int>) -> Seq<Seq<u8>> {
    Seq::new(order.len(), |j: int| pieces(m.encode())[order[j]])
}

proof fn lemma_datagram_decodes(m: MessageModel, order: Seq<int>, junk: Seq<Seq<u8>>, j: int)
    requires
        0 <= j < order.len(),
        junk.len() == order.len(),
        0 <= order[j] < chunk_count(m.encode().len()),
    ensures
        decode_chunk(message_datagrams(m, order, junk)[j]) == Some(
            arrival_chunk(
                m.id,
                chunk_count(m.encode().len()),
                order,
                arrival_pieces(m, order),
                j,
            ),
        ),
{
    let data = m.encode();
    let cs = split_into_chunks(m.id, data);
    lemma_pieces_rejoin(data);
    assert(payload_of(data, order[j]).len() <= MAX_PAYLOAD);
    assert(cs[order[j]] == arrival_chunk(
        m.id,
        chunk_count(data.len()),
        order,
        arrival_pieces(m, order),
        j,
    ));
    lemma_chunk_roundtrip(cs[order[j]], junk[j]);
}

/// When every arrival of index `i` carries `ds[i]`, the first data of a seen index is `ds[i]`.
proof fn lemma_first_data_uniform(order: Seq<int>, ds: Seq<Seq<u8>>, datas: Seq<Seq<u8>>, k: nat, i: int)
    requires
        k <= order.len(),
        datas.len() == order.len(),
        forall|j: int| 0 <= j < order.len() ==> 0 <= #[trigger] order[j] < ds.len(),
        forall|j: int| 0 <= j < order.len() ==> #[trigger] datas[j] == ds[order[j]],
        seen(order, k as int, i),
    ensures
        first_data(order, datas, k, i) == ds[i],
    decreases k,
{
    if k == 0 {
        assert(order.take(0) =~= Seq::<int>::empty());
    } else {
        lemma_seen_next(order, k - 1, i);
        if seen(order, k - 1, i) {
            lemma_first_data_uniform(order, ds, datas, (k - 1) as nat, i);
        }
    }
}

proof fn lemma_receive_prefix(
    s: ReceiverModel,
    m: MessageModel,
    order: Seq<int>,
    junk: Seq<Seq<u8>>,
    nows: Seq<u64>,
    k: nat,
)
    requires
        1 <= chunk_count(m.encode().len()) <= u16::MAX,
        !s.table.contains_key(m.id),
        !s.delivered.contains(m.id),
        live_complete_arrivals(chunk_count(m.encode().len()), order, junk, nows),
        k < order.len(),
    ensures
        ({
            let (sk, outs) = receive_run(s, message_datagrams(m, order, junk), nows, k);
            &&& outs.len() == k
            &&& forall|j: int| 0 <= j < k ==> #[trigger] outs[j] == Ok::<OutcomeModel, ReceiveError>(OutcomeModel::Pending)
            &&& sk.delivered == s.delivered
            &&& k == 0 ==> sk == s
            &&& k > 0 ==> {
                &&& sk.table.contains_key(m.id)
                &&& sk.table[m.id] == history_entry(
                    order,
                    arrival_pieces(m, order),
                    chunk_count(m.encode().len()),
                    k,
                    last_new_time(order, nows, (k - 1) as nat),
                )
            }
        }),
    decreases k,
{
    let n = chunk_count(m.encode().len());
    let datas = arrival_pieces(m, order);
    let bufs = message_datagrams(m, order, junk);
    if k > 0 {
        lemma_receive_prefix(s, m, order, junk, nows, (k - 1) as nat);
        let (s1, outs) = receive_run(s, bufs, nows, (k - 1) as nat);
        let t1 = s1.table;
        let now = nows[k - 1];
        let ls = if k > 1 { last_new_time(order, nows, (k - 2) as nat) } else { 0 };
        lemma_arrival(t1, m.id, n, order, datas, (k - 1) as nat, ls, now);
        lemma_datagram_decodes(m, order, junk, k - 1);
        lemma_not_covered_before(n, order, k as int);
        let (t2, _) = process_step(t1, arrival_chunk(m.id, n, order, datas, k - 1), now);
        assert(last_new_time(order, nows, (k - 1) as nat) == (if k - 1 > 0 && seen(
            order,
            k - 1,
            order[k - 1],
        ) {
            ls
        } else {
            now
        }));
        assert(is_recent(now, last_new_time(order, nows, (k - 1) as nat)));
        assert(retain_recent_entries(t2, now).contains_key(m.id));
        let (sk, outs2) = receive_run(s, bufs, nows, k);
        assert forall|j: int| 0 <= j < k implies #[trigger] outs2[j] == Ok::<OutcomeModel, ReceiveError>(OutcomeModel::Pending) by {
            if j < k - 1 {
                assert(outs2[j] == outs[j]);
            }
        }
    }
}

/// Delivery: when the chunks of an intact message `m` (one whose checksum agrees
/// with its data) arrive as datagrams in any order, repeats included, each before
/// the last coming less than `input::MESSAGE_TIMEOUT_NANOS` after the latest one
/// that brought a new index, to a receiver that holds no entry for `m` and has not
/// handed out its id, every datagram before the one that completes the set is
/// pending, and that one gives back `m` itself with its id, which is then
/// recorded as handed out.
pub proof fn lemma_message_delivery(
    s: ReceiverModel,
    m: MessageModel,
    order: Seq<int>,
    junk: Seq<Seq<u8>>,
    nows: Seq<u64>,
)
    requires
        m.intact(),
        m.data.len() <= u32::MAX,
        chunk_count(m.encode().len()) <= u16::MAX,
        !s.table.contains_key(m.id),
        !s.delivered.contains(m.id),
        live_complete_arrivals(chunk_count(m.encode().len()), order, junk, nows),
    ensures
        ({
            let (sn, outs) = receive_run(s, message_datagrams(m, order, junk), nows, order.len());
            &&& outs.len() == order.len()
            &&& forall|j: int| 0 <= j < order.len() - 1 ==> #[trigger] outs[j] == Ok::<OutcomeModel, ReceiveError>(OutcomeModel::Pending)
            &&& outs[order.len() - 1] == Ok::<OutcomeModel, ReceiveError>(OutcomeModel::Complete(m.id, m))
            &&& sn.delivered == s.delivered.insert(m.id)
        }),
{
    let data = m.encode();
    let n = chunk_count(data.len());
    let ds = pieces(data);
    let datas = arrival_pieces(m, order);
    let bufs = message_datagrams(m, order, junk);
    let last = (order.len() - 1) as nat;
    lemma_chunk_count(data.len());
    assert(data.len() >= 18) by {
        crate::net::encoding::lemma_le_roundtrip();
    }
    assert(n >= 1);
    lemma_receive_prefix(s, m, order, junk, nows, last);
    let (s1, outs) = receive_run(s, bufs, nows, last);
    let now = nows[last as int];
    let ls = if last > 0 { last_new_time(order, nows, (last - 1) as nat) } else { 0 };
    lemma_arrival(s1.table, m.id, n, order, datas, last, ls, now);
    lemma_datagram_decodes(m, order, junk, last as int);
    assert forall|i: int| 0 <= i < n implies #[trigger] first_arrivals(order, datas, n, order.len())[i] == ds[i] by {
        lemma_first_data_uniform(order, ds, datas, order.len(), i);
    }
    assert(first_arrivals(order, datas, n, order.len()) =~= ds);
    lemma_pieces_rejoin(data);
    lemma_message_roundtrip(m, Seq::empty());
    assert(data + Seq::<u8>::empty() =~= data);
    let (sn, outs_n) = receive_run(s, bufs, nows, order.len());
    assert forall|j: int| 0 <= j < order.len() - 1 implies #[trigger] outs_n[j] == Ok::<OutcomeModel, ReceiveError>(OutcomeModel::Pending) by {
        assert(outs_n[j] == outs[j]);
    }
}

/// The id of the message that a receive outcome hands out, if any.
pub open spec fn handed_out(o: Result<OutcomeModel, ReceiveError>) -> Option<u64> {
    match o {
        Ok(OutcomeModel::Complete(id, _)) => Some(id),
        _ => None,
    }
}

/// No message is handed out twice: over any sequence of datagrams, every id that
/// the receive loop hands out was not handed out before and is recorded, and no
/// later datagram hands it out again.
pub proof fn lemma_no_id_handed_out_twice(s: ReceiverModel, bufs: Seq<Seq<u8>>, nows: Seq<u64>, k: nat)
    ensures
        ({
            let (sk, outs) = receive_run(s, bufs, nows, k);
            &&& outs.len() == k
            &&& s.delivered.subset_of(sk.delivered)
            &&& forall|j: int|
                0 <= j < k && (#[trigger] handed_out(outs[j])) is Some ==> !s.delivered.contains(
                    handed_out(outs[j])->0,
                ) && sk.delivered.contains(handed_out(outs[j])->0)
            &&& forall|j: int, l: int|
                0 <= j < l < k && (#[trigger] handed_out(outs[j])) is Some ==> #[trigger] handed_out(
                    outs[l],
                ) != handed_out(outs[j])
        }),
    decreases k,
{
    if k > 0 {
        lemma_no_id_handed_out_twice(s, bufs, nows, (k - 1) as nat);
        let (s1, outs) = receive_run(s, bufs, nows, (k - 1) as nat);
        let (s2, out) = receive_step(s1, bufs[k - 1], nows[k - 1]);
        let (sk, outs_k) = receive_run(s, bufs, nows, k);
        assert(s1.delivered.subset_of(s2.delivered));
        assert(handed_out(out) is Some ==> !s1.delivered.contains(handed_out(out)->0)
            && s2.delivered.contains(handed_out(out)->0));
        assert forall|j: int|
            0 <= j < k && (#[trigger] handed_out(outs_k[j])) is Some implies !s.delivered.contains(
                handed_out(outs_k[j])->0,
            ) && sk.delivered.contains(handed_out(outs_k[j])->0) by {
            if j < k - 1 {
                assert(outs_k[j] == outs[j]);
            }
        }
        assert forall|j: int, l: int|
            0 <= j < l < k && (#[trigger] handed_out(outs_k[j])) is Some implies #[trigger] handed_out(
                outs_k[l],
            ) != handed_out(outs_k[j]) by {
            assert(outs_k[j] == outs[j]);
            if l < k - 1 {
                assert(outs_k[l] == outs[l]);
            }
        }
    }
}

/// A datagram that does not hold a whole chunk (fewer than 16 bytes, or fewer
/// than the header and the data it announces) is ignored and changes nothing.
pub proof fn lemma_incomplete_datagram_ignored(s: ReceiverModel, datagram: Seq<u8>, now: u64)
    requires
        datagram.len() < CHUNK_HEADER_LEN || datagram.len() < CHUNK_HEADER_LEN
            + chunk_announced_len(datagram),
    ensures
        receive_step(s, datagram, now) == (s, Ok::<OutcomeModel, ReceiveError>(OutcomeModel::Ignored)),
{
}

/// Checksum validation: whenever the receive loop hands out a message, its
/// checksum agrees with its data.
pub proof fn lemma_handed_out_messages_are_intact(s: ReceiverModel, datagram: Seq<u8>, now: u64)
    ensures
        receive_step(s, datagram, now).1 matches Ok(OutcomeModel::Complete(_, m)) ==> m.intact(),
{
}

/// Deduplication: a chunk whose index has already arrived for a message that is
/// not yet complete changes nothing and returns nothing.
pub proof fn lemma_repeated_chunk_is_ignored(t: Map<u64, EntryModel>, c: ChunkModel, now: u64)
    requires
        t.contains_key(c.msg_id),
        t[c.msg_id].total == c.total,
        0 <= c.idx < t[c.msg_id].received.len(),
        t[c.msg_id].received[c.idx as int],
        !all_received(t[c.msg_id].received),
    ensures
        process_step(t, c, now) == (t, None::<Seq<u8>>),
{
    assert(t.insert(c.msg_id, t[c.msg_id]) =~= t);
}

/// Datagram size: every chunk of a message serializes to at most `CHUNK_SIZE` bytes.
pub proof fn lemma_chunk_datagram_size(id: u64, data: Seq<u8>, i: int)
    requires
        0 <= i < chunk_count(data.len()),
    ensures
        split_into_chunks(id, data)[i].encode().len() <= CHUNK_SIZE,
{
    crate::net::encoding::lemma_le_roundtrip();
    lemma_pieces_rejoin(data);
    assert(payload_of(data, i).len() <= MAX_PAYLOAD);
}

/// A chunk whose total disagrees with the stored entry of its message (one not
/// yet handed out) is taken without error: the receive loop answers `Pending`,
/// drops that message's entry, keeps the handed-out ids, and keeps every other
/// entry that is still recent at `now`.
pub proof fn lemma_inconsistent_total_drops_entry(s: ReceiverModel, datagram: Seq<u8>, now: u64)
    requires
        decode_chunk(datagram) is Some,
        !s.delivered.contains(decode_chunk(datagram)->0.msg_id),
        s.table.contains_key(decode_chunk(datagram)->0.msg_id),
        s.table[decode_chunk(datagram)->0.msg_id].total != decode_chunk(datagram)->0.total,
    ensures
        ({
            let c = decode_chunk(datagram)->0;
            let (s1, out) = receive_step(s, datagram, now);
            &&& chunk_acceptable(s.table, c)
            &&& out == Ok::<OutcomeModel, ReceiveError>(OutcomeModel::Pending)
            &&& !s1.table.contains_key(c.msg_id)
            &&& s1.delivered == s.delivered
            &&& forall|k: u64|
                k != c.msg_id && s.table.contains_key(k) && (now < s.table[k].last_seen || now
                    - s.table[k].last_seen < MESSAGE_TIMEOUT_NANOS) ==> #[trigger] s1.table.contains_key(k)
                    && s1.table[k] == s.table[k]
        }),
{
}

/// Cleaning after a message was handed on drops that message's entry and only
/// entries that took no new chunk in the `MESSAGE_TIMEOUT_NANOS` before `now`:
/// every other entry seen less than that before `now` (or later) stays, unchanged.
pub proof fn lemma_finish_keeps_recent_entries(t: Map<u64, EntryModel>, id: u64, now: u64)
    ensures
        !retain_recent_entries(t.remove(id), now).contains_key(id),
        forall|k: u64|
            k != id && t.contains_key(k) && (now < t[k].last_seen || now - t[k].last_seen
                < MESSAGE_TIMEOUT_NANOS) ==> #[trigger] retain_recent_entries(t.remove(id), now).contains_key(k)
                && retain_recent_entries(t.remove(id), now)[k] == t[k],
        forall|k: u64|
            #[trigger] retain_recent_entries(t.remove(id), now).contains_key(k) ==> k != id
                && t.contains_key(k) && (now < t[k].last_seen || now - t[k].last_seen
                < MESSAGE_TIMEOUT_NANOS),
{
}

} // verus!
