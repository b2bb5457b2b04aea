//! What holds of a send buffer over several steps, and of what it sends to a
//! receive buffer.
use vstd::prelude::*;

use crate::rx_state::RxState;
use crate::tx_buffer::{TxBuffer, TxChunkState};
use crate::tx_state::TxState;

verus! {

/// Enqueuing keeps the chunks contiguous.
pub proof fn law_send_wf(s: TxState, data: Seq<u8>)
    requires
        s.wf(),
    ensures
        s.after_send(data).wf(),
{
    let t = s.after_send(data);
    assert forall|i: int| 0 <= i < t.chunks.len() implies #[trigger] t.ends_at(
        i,
        t.start(i + 1),
    ) by {
        if i < s.chunks.len() {
            assert(s.ends_at(i, s.start(i + 1)));
        }
    }
}

/// Sending a chunk keeps the chunks contiguous.
pub proof fn law_next_wf(s: TxState, now: u64)
    requires
        s.wf(),
    ensures
        s.after_next(now).wf(),
{
    let t = s.after_next(now);
    s.lemma_first(TxChunkState::Unsent);
    s.lemma_first(TxChunkState::Lost);
    assert forall|i: int| 0 <= i < t.chunks.len() implies #[trigger] t.ends_at(
        i,
        t.start(i + 1),
    ) by {
        assert(s.ends_at(i, s.start(i + 1)));
    }
}

/// The bytes of the first chunks are the same where the chunks have the same
/// data.
proof fn lemma_same_bytes(s: TxState, t: TxState, n: int)
    requires
        0 <= n <= s.chunks.len(),
        n <= t.chunks.len(),
        forall|i: int| 0 <= i < n ==> (#[trigger] s.chunks[i]).data == t.chunks[i].data,
    ensures
        s.bytes(n) == t.bytes(n),
    decreases n,
{
    if n > 0 {
        lemma_same_bytes(s, t, n - 1);
        assert(s.chunks[n - 1].data == t.chunks[n - 1].data);
    }
}

/// What is enqueued is appended to the stream.
pub proof fn law_send_appends(s: TxState, data: Seq<u8>)
    ensures
        s.after_send(data).stream() == s.stream() + data,
{
    let t = s.after_send(data);
    lemma_same_bytes(s, t, s.chunks.len() as int);
}

/// Sending a chunk does not change the stream.
pub proof fn law_next_keeps_stream(s: TxState, now: u64)
    ensures
        s.after_next(now).stream() == s.stream(),
{
    s.lemma_first(TxChunkState::Unsent);
    s.lemma_first(TxChunkState::Lost);
    lemma_same_bytes(s, s.after_next(now), s.chunks.len() as int);
}

/// The bytes of the first `n` chunks reach up to where the next chunk starts.
proof fn lemma_bytes_len(s: TxState, n: int)
    requires
        s.wf(),
        0 <= n <= s.chunks.len(),
    ensures
        s.bytes(n).len() == s.start(n),
    decreases n,
{
    if n > 0 {
        lemma_bytes_len(s, n - 1);
        assert(s.ends_at(n - 1, s.start(n - 1 + 1)));
    }
}

/// The first chunks give the beginning of the stream.
proof fn lemma_bytes_prefix(s: TxState, n: int, m: int)
    requires
        0 <= n <= m,
    ensures
        s.bytes(n).len() <= s.bytes(m).len(),
        s.bytes(n) == s.bytes(m).take(s.bytes(n).len() as int),
    decreases m,
{
    if n < m {
        lemma_bytes_prefix(s, n, m - 1);
        assert(s.bytes(n) =~= s.bytes(m).take(s.bytes(n).len() as int));
    } else {
        assert(s.bytes(n) =~= s.bytes(m).take(s.bytes(n).len() as int));
    }
}

/// The stream has as many bytes as its offset says, and each chunk has the bytes
/// of the stream from its own offset on.
pub proof fn law_chunk_in_stream(s: TxState, i: int)
    requires
        s.wf(),
        0 <= i < s.chunks.len(),
    ensures
        s.stream().len() == s.offset,
        s.chunks[i].offset + s.chunks[i].data.len() <= s.offset,
        s.chunks[i].data == s.stream().subrange(
            s.chunks[i].offset as int,
            (s.chunks[i].offset + s.chunks[i].data.len()) as int,
        ),
{
    let all = s.chunks.len() as int;
    lemma_bytes_len(s, i);
    lemma_bytes_len(s, i + 1);
    lemma_bytes_len(s, all);
    lemma_bytes_prefix(s, i + 1, all);
    let upto = s.bytes(i + 1);
    assert(upto == s.bytes(i) + s.chunks[i].data);
    let data = s.chunks[i].data;
    let from = s.chunks[i].offset as int;
    let cut = s.stream().subrange(from, from + data.len());
    assert forall|j: int| 0 <= j < data.len() implies #[trigger] data[j] == cut[j] by {
        assert(upto[from + j] == data[j]);
        assert(upto[from + j] == s.stream()[from + j]);
    }
    assert(data =~= cut);
}

/// A chunk that was not sent goes out before any that was lost, and before those
/// that were enqueued after it.
pub proof fn law_next_order(s: TxState, j: int)
    requires
        0 <= j < s.chunks.len(),
        s.chunks[j].state == TxChunkState::Unsent,
    ensures
        s.pick() matches Some(i) && i <= j && s.chunks[i].state == TxChunkState::Unsent,
{
    s.lemma_first(TxChunkState::Unsent);
}

/// Nothing goes out just if every chunk has been sent.
pub proof fn law_next_none(s: TxState)
    ensures
        s.pick() is None <==> forall|i: int|
            0 <= i < s.chunks.len() ==> (#[trigger] s.chunks[i]).state is Sent,
{
    s.lemma_first(TxChunkState::Unsent);
    s.lemma_first(TxChunkState::Lost);
    if let Some(i) = s.pick() {
        assert(!(s.chunks[i].state is Sent));
    }
}

/// A chunk that went out is not the next to go out, and no other chunk has
/// changed.
pub proof fn law_next_once(s: TxState, now: u64)
    ensures
        s.pick() matches Some(i) ==> {
            &&& s.after_next(now).pick() != Some(i)
            &&& s.after_next(now).chunks[i].state == TxChunkState::Sent(now)
            &&& s.after_next(now).chunks.len() == s.chunks.len()
            &&& forall|j: int|
                0 <= j < s.chunks.len() && j != i ==> #[trigger] s.after_next(now).chunks[j]
                    == s.chunks[j]
        },
{
    let t = s.after_next(now);
    s.lemma_first(TxChunkState::Unsent);
    s.lemma_first(TxChunkState::Lost);
    t.lemma_first(TxChunkState::Unsent);
    t.lemma_first(TxChunkState::Lost);
}

/// Where every chunk has been sent, what is enqueued goes out next, at the
/// offset at which the stream ended.
pub proof fn law_send_next(s: TxState, data: Seq<u8>)
    requires
        s.pick() is None,
    ensures
        ({
            let t = s.after_send(data);
            t.pick() matches Some(i) && t.chunks[i].offset == s.offset && t.chunks[i].data == data
        }),
{
    let t = s.after_send(data);
    law_next_none(s);
    t.lemma_first(TxChunkState::Unsent);
    let last = s.chunks.len() as int;
    assert(t.chunks[last].state == TxChunkState::Unsent);
    if let Some(i) = t.first(TxChunkState::Unsent) {
        if i < last {
            assert(t.chunks[i] == s.chunks[i]);
        }
    }
}

/// There is data just if some was enqueued; sending it does not change that.
pub proof fn law_data_ready(s: TxState, data: Seq<u8>, now: u64)
    ensures
        !TxState::empty().data_ready(),
        s.after_send(data).data_ready() <==> s.data_ready() || data.len() != 0,
        s.after_next(now).data_ready() <==> s.data_ready(),
{
    let t = s.after_send(data);
    let u = s.after_next(now);
    s.lemma_first(TxChunkState::Unsent);
    s.lemma_first(TxChunkState::Lost);
    assert(t.chunks[s.chunks.len() as int].data == data);
    assert forall|i: int| 0 <= i < s.chunks.len() implies (#[trigger] s.chunks[i]).data
        == t.chunks[i].data && s.chunks[i].data == u.chunks[i].data by {}
    if s.data_ready() {
        let i = choose|i: int|
            0 <= i < s.chunks.len() && (#[trigger] s.chunks[i]).data.len() != 0;
        assert(t.chunks[i].data.len() != 0);
        assert(u.chunks[i].data.len() != 0);
    }
    if t.data_ready() {
        let i = choose|i: int|
            0 <= i < t.chunks.len() && (#[trigger] t.chunks[i]).data.len() != 0;
        if i < s.chunks.len() {
            assert(s.chunks[i].data.len() != 0);
        }
    }
    if u.data_ready() {
        let i = choose|i: int|
            0 <= i < u.chunks.len() && (#[trigger] u.chunks[i]).data.len() != 0;
        assert(s.chunks[i].data.len() != 0);
    }
}

/// A receive buffer that gets any chunk of a send buffer as a frame goes on
/// holding only bytes of the stream that is sent.
pub proof fn law_chunk_received(s: TxState, r: RxState, i: int)
    requires
        s.wf(),
        s.offset <= u64::MAX,
        r.wf(),
        r.agrees(s.stream()),
        0 <= i < s.chunks.len(),
    ensures
        r.after_frame(s.chunks[i].offset as u64, s.chunks[i].data).agrees(s.stream()),
{
    law_chunk_in_stream(s, i);
    crate::rx_laws::law_frame_agrees(
        r,
        s.chunks[i].offset as u64,
        s.chunks[i].data,
        s.stream(),
    );
}

/// What is enqueued later does not make the bytes that were received wrong.
pub proof fn law_send_received(s: TxState, r: RxState, data: Seq<u8>)
    requires
        r.wf(),
        r.agrees(s.stream()),
    ensures
        r.agrees(s.after_send(data).stream()),
{
    law_send_appends(s, data);
    assert forall|o: int| #[trigger] r.held(o) implies o < (s.stream() + data).len() && r.byte(o)
        == (s.stream() + data)[o] by {
        let k = choose|k: u64| r.covers(k, o);
        assert(r.covers(k, o));
        assert(o >= 0);
    }
}

/// The model of a send buffer is made of its fields, chunk by chunk.
pub proof fn law_buffer_fields(b: TxBuffer, i: int)
    requires
        0 <= i < b.chunks@.len(),
    ensures
        b@.offset == b.offset,
        b@.chunks.len() == b.chunks@.len(),
        b@.chunks[i].offset == b.chunks@[i].offset,
        b@.chunks[i].data == b.chunks@[i].data@,
        b@.chunks[i].state == b.chunks@[i].state,
{
}

/// A new send buffer has no chunk and starts at zero.
pub proof fn law_empty()
    ensures
        TxState::empty().wf(),
        TxState::empty().offset == 0,
        TxState::empty().chunks.len() == 0,
{
}

/// Whatever is in the buffer, what is enqueued becomes one more chunk, which has
/// not been sent, at the offset at which the stream ended. The chunks before it
/// stay as they are.
pub proof fn law_send_chunks(s: TxState, data: Seq<u8>)
    ensures
        ({
            let t = s.after_send(data);
            &&& t.offset == s.offset + data.len()
            &&& t.chunks.len() == s.chunks.len() + 1
            &&& t.chunks.last().offset == s.offset
            &&& t.chunks.last().data == data
            &&& t.chunks.last().state == TxChunkState::Unsent
            &&& forall|i: int| 0 <= i < s.chunks.len() ==> #[trigger] t.chunks[i] == s.chunks[i]
        }),
{
}

/// The chunk that goes out is the first that was not sent, or, where there is
/// none, the first that was lost.
pub proof fn law_pick(s: TxState)
    ensures
        s.pick() matches Some(i) ==> {
            &&& 0 <= i < s.chunks.len()
            &&& s.chunks[i].state == TxChunkState::Unsent || s.chunks[i].state == TxChunkState::Lost
            &&& forall|j: int|
                0 <= j < i ==> (#[trigger] s.chunks[j]).state != s.chunks[i].state
            &&& s.chunks[i].state == TxChunkState::Lost ==> forall|j: int|
                0 <= j < s.chunks.len() ==> (#[trigger] s.chunks[j]).state != TxChunkState::Unsent
        },
{
    s.lemma_first(TxChunkState::Unsent);
    s.lemma_first(TxChunkState::Lost);
}

/// Where nothing goes out, nothing changes.
pub proof fn law_none_unchanged(s: TxState, now: u64)
    requires
        s.pick() is None,
    ensures
        s.after_next(now) == s,
{
}

/// A chunk that goes out keeps its place and its bytes, and counts as sent at the
/// time at which it did. No other chunk changes, and no offset does.
pub proof fn law_next_chunks(s: TxState, now: u64, i: int)
    requires
        s.pick() == Some(i),
    ensures
        ({
            let t = s.after_next(now);
            &&& t.offset == s.offset
            &&& t.chunks.len() == s.chunks.len()
            &&& t.chunks[i].offset == s.chunks[i].offset
            &&& t.chunks[i].data == s.chunks[i].data
            &&& t.chunks[i].state == TxChunkState::Sent(now)
            &&& forall|j: int|
                0 <= j < s.chunks.len() && j != i ==> #[trigger] t.chunks[j] == s.chunks[j]
        }),
{
    law_pick(s);
}

/// There is data just if some chunk has bytes.
pub proof fn law_ready(s: TxState)
    ensures
        s.data_ready() <==> exists|i: int|
            0 <= i < s.chunks.len() && (#[trigger] s.chunks[i]).data.len() > 0,
{
    if s.data_ready() {
        let i = choose|i: int|
            0 <= i < s.chunks.len() && (#[trigger] s.chunks[i]).data.len() != 0;
        assert(s.chunks[i].data.len() > 0);
    }
    if exists|i: int| 0 <= i < s.chunks.len() && (#[trigger] s.chunks[i]).data.len() > 0 {
        let i = choose|i: int|
            0 <= i < s.chunks.len() && (#[trigger] s.chunks[i]).data.len() > 0;
        assert(s.chunks[i].data.len() != 0);
    }
}

/// Something that happens to a send buffer.
pub enum TxStep {
    /// These bytes are enqueued.
    Send(Seq<u8>),
    /// The next chunk, if there is one, goes out at this time.
    Next(u64),
}

/// The buffer after `steps`, which started with `s`.
pub open spec fn after_steps(s: TxState, steps: Seq<TxStep>) -> TxState
    decreases steps.len(),
{
    if steps.len() == 0 {
        s
    } else {
        let t = after_steps(s, steps.drop_last());
        match steps.last() {
            TxStep::Send(data) => t.after_send(data),
            TxStep::Next(now) => t.after_next(now),
        }
    }
}

/// What was enqueued among `steps`, in order.
pub open spec fn enqueued(steps: Seq<TxStep>) -> Seq<Seq<u8>>
    decreases steps.len(),
{
    if steps.len() == 0 {
        Seq::empty()
    } else {
        match steps.last() {
            TxStep::Send(data) => enqueued(steps.drop_last()).push(data),
            TxStep::Next(_) => enqueued(steps.drop_last()),
        }
    }
}

/// What went out among `steps`, which started with a new buffer: offsets and
/// bytes, in order.
pub open spec fn given(steps: Seq<TxStep>) -> Seq<(nat, Seq<u8>)>
    decreases steps.len(),
{
    if steps.len() == 0 {
        Seq::empty()
    } else {
        let before = given(steps.drop_last());
        let s = after_steps(TxState::empty(), steps.drop_last());
        match steps.last() {
            TxStep::Send(_) => before,
            TxStep::Next(_) => match s.pick() {
                Some(i) => before.push((s.chunks[i].offset, s.chunks[i].data)),
                None => before,
            },
        }
    }
}

/// How many bytes the first `n` pieces have.
pub open spec fn total(pieces: Seq<Seq<u8>>, n: int) -> nat
    decreases n,
{
    if n <= 0 {
        0
    } else {
        total(pieces, n - 1) + pieces[n - 1].len()
    }
}

/// The first pieces have as many bytes after one more was added.
proof fn lemma_total_push(pieces: Seq<Seq<u8>>, more: Seq<u8>, n: int)
    requires
        n <= pieces.len(),
    ensures
        total(pieces.push(more), n) == total(pieces, n),
    decreases n,
{
    if n > 0 {
        lemma_total_push(pieces, more, n - 1);
        assert(pieces.push(more)[n - 1] == pieces[n - 1]);
    }
}

/// A chunk that was sent stays sent, as it is, and does not go out again, however
/// many steps follow, and whether or not anything goes out in them.
pub proof fn law_sent_stays(s: TxState, steps: Seq<TxStep>, i: int)
    requires
        0 <= i < s.chunks.len(),
        s.chunks[i].state is Sent,
    ensures
        after_steps(s, steps).chunks.len() >= s.chunks.len(),
        after_steps(s, steps).chunks[i] == s.chunks[i],
        after_steps(s, steps).pick() != Some(i),
    decreases steps.len(),
{
    if steps.len() > 0 {
        let t = after_steps(s, steps.drop_last());
        law_sent_stays(s, steps.drop_last(), i);
        law_pick(t);
        if let TxStep::Next(now) = steps.last() {
            if let Some(j) = t.pick() {
                law_next_chunks(t, now, j);
            } else {
                law_none_unchanged(t, now);
            }
        }
    }
    law_pick(after_steps(s, steps));
}

/// A new buffer after `steps`: there is a chunk for each piece that was enqueued,
/// in order, and those that went out are the first ones.
proof fn lemma_order(steps: Seq<TxStep>)
    ensures
        ({
            let s = after_steps(TxState::empty(), steps);
            let pieces = enqueued(steps);
            let out = given(steps);
            &&& s.chunks.len() == pieces.len()
            &&& s.offset == total(pieces, pieces.len() as int)
            &&& out.len() <= pieces.len()
            &&& forall|i: int|
                0 <= i < pieces.len() ==> (#[trigger] s.chunks[i]).data == pieces[i]
                    && s.chunks[i].offset == total(pieces, i)
            &&& forall|i: int|
                0 <= i < out.len() ==> (#[trigger] s.chunks[i]).state is Sent && out[i] == (
                s.chunks[i].offset,
                s.chunks[i].data,
            )
            &&& forall|i: int|
                out.len() <= i < pieces.len() ==> (#[trigger] s.chunks[i]).state
                    == TxChunkState::Unsent
        }),
    decreases steps.len(),
{
    if steps.len() > 0 {
        let before = steps.drop_last();
        let s = after_steps(TxState::empty(), before);
        let t = after_steps(TxState::empty(), steps);
        let pieces = enqueued(before);
        let out = given(before);
        lemma_order(before);
        match steps.last() {
            TxStep::Send(data) => {
                law_send_chunks(s, data);
                assert forall|i: int| 0 <= i <= pieces.len() implies #[trigger] total(
                    pieces.push(data),
                    i,
                ) == total(pieces, i) by {
                    lemma_total_push(pieces, data, i);
                }
                assert(t.chunks[pieces.len() as int] == t.chunks.last());
                assert forall|i: int| 0 <= i < pieces.len() + 1 implies (
                #[trigger] t.chunks[i]).data == pieces.push(data)[i] && t.chunks[i].offset == total(
                    pieces.push(data),
                    i,
                ) by {
                    assert(total(pieces.push(data), i) == total(pieces, i));
                    if i < pieces.len() {
                        assert(t.chunks[i] == s.chunks[i]);
                    }
                }
                assert forall|i: int| 0 <= i < out.len() implies (#[trigger] t.chunks[i]).state
                    is Sent && out[i] == (t.chunks[i].offset, t.chunks[i].data) by {
                    assert(t.chunks[i] == s.chunks[i]);
                }
                assert forall|i: int| out.len() <= i < pieces.len() + 1 implies (
                #[trigger] t.chunks[i]).state == TxChunkState::Unsent by {
                    if i < pieces.len() {
                        assert(t.chunks[i] == s.chunks[i]);
                    }
                }
            },
            TxStep::Next(now) => {
                law_pick(s);
                law_next_none(s);
                if out.len() < pieces.len() {
                    assert(s.chunks[out.len() as int].state == TxChunkState::Unsent);
                    law_next_order(s, out.len() as int);
                }
                if let Some(i) = s.pick() {
                    law_next_chunks(s, now, i);
                    assert(!(s.chunks[i].state is Sent));
                    assert(i == out.len());
                } else {
                    law_none_unchanged(s, now);
                }
            },
        }
    }
}

/// What goes out is what was enqueued, each piece once, in the order in which it
/// was enqueued, and at the offset at which it stands in the stream.
pub proof fn law_given_in_order(steps: Seq<TxStep>, i: int)
    requires
        0 <= i < given(steps).len(),
    ensures
        given(steps).len() <= enqueued(steps).len(),
        given(steps)[i].1 == enqueued(steps)[i],
        given(steps)[i].0 == total(enqueued(steps), i),
{
    lemma_order(steps);
    let s = after_steps(TxState::empty(), steps);
    assert(s.chunks[i].data == enqueued(steps)[i]);
}

/// While something that was enqueued has not gone out, one more step lets one
/// more piece go out. After that none does.
pub proof fn law_given_grows(steps: Seq<TxStep>, now: u64)
    ensures
        ({
            let more = given(steps.push(TxStep::Next(now)));
            &&& given(steps).len() < enqueued(steps).len() ==> more.len() == given(steps).len() + 1
            &&& given(steps).len() == enqueued(steps).len() ==> more == given(steps)
            &&& enqueued(steps.push(TxStep::Next(now))) == enqueued(steps)
        }),
{
    let s = after_steps(TxState::empty(), steps);
    let out = given(steps);
    lemma_order(steps);
    law_next_none(s);
    assert(steps.push(TxStep::Next(now)).drop_last() =~= steps);
    if out.len() < enqueued(steps).len() {
        assert(s.chunks[out.len() as int].state == TxChunkState::Unsent);
        law_next_order(s, out.len() as int);
    }
}

/// As many steps as there are pieces left let all of what was enqueued go out.
pub proof fn law_all_given(steps: Seq<TxStep>, times: Seq<u64>)
    requires
        enqueued(steps).len() <= given(steps).len() + times.len(),
    ensures
        ({
            let all = steps + times.map_values(|now: u64| TxStep::Next(now));
            &&& enqueued(all) == enqueued(steps)
            &&& given(all).len() == enqueued(steps).len()
            &&& forall|i: int|
                0 <= i < enqueued(steps).len() ==> (#[trigger] given(all)[i]).1 == enqueued(
                    steps,
                )[i] && given(all)[i].0 == total(enqueued(steps), i)
        }),
{
    let all = steps + times.map_values(|now: u64| TxStep::Next(now));
    lemma_many_next(steps, times);
    lemma_order(steps);
    assert forall|i: int| 0 <= i < enqueued(steps).len() implies (#[trigger] given(all)[i]).1
        == enqueued(steps)[i] && given(all)[i].0 == total(enqueued(steps), i) by {
        law_given_in_order(all, i);
    }
}

/// What some steps that only let chunks go out lead to.
proof fn lemma_many_next(steps: Seq<TxStep>, times: Seq<u64>)
    ensures
        ({
            let all = steps + times.map_values(|now: u64| TxStep::Next(now));
            let left = enqueued(steps).len() - given(steps).len();
            &&& enqueued(all) == enqueued(steps)
            &&& given(all).len() == given(steps).len() + if times.len() < left {
                times.len() as int
            } else {
                left
            }
        }),
    decreases times.len(),
{
    let all = steps + times.map_values(|now: u64| TxStep::Next(now));
    lemma_order(steps);
    if times.len() == 0 {
        assert(all =~= steps);
    } else {
        let fewer = times.drop_last();
        let some = steps + fewer.map_values(|now: u64| TxStep::Next(now));
        lemma_many_next(steps, fewer);
        assert(all =~= some.push(TxStep::Next(times.last())));
        law_given_grows(some, times.last());
    }
}

/// The bytes of the first `n` pieces that went out, put together.
pub open spec fn joined(out: Seq<(nat, Seq<u8>)>, n: int) -> Seq<u8>
    decreases n,
{
    if n <= 0 {
        Seq::empty()
    } else {
        joined(out, n - 1) + out[n - 1].1
    }
}

/// Pieces that are the first chunks have their bytes.
proof fn lemma_joined(s: TxState, out: Seq<(nat, Seq<u8>)>, n: int)
    requires
        n <= out.len(),
        forall|i: int| 0 <= i < out.len() ==> (#[trigger] out[i]).1 == s.chunks[i].data,
    ensures
        joined(out, n) == s.bytes(n),
    decreases n,
{
    if n > 0 {
        lemma_joined(s, out, n - 1);
    }
}

/// What went out, put together, is the beginning of all that was enqueued, and
/// the whole of it once nothing is left to go out.
pub proof fn law_given_is_stream(steps: Seq<TxStep>)
    ensures
        ({
            let s = after_steps(TxState::empty(), steps);
            let sent = joined(given(steps), given(steps).len() as int);
            &&& sent.len() <= s.stream().len()
            &&& sent == s.stream().take(sent.len() as int)
            &&& s.pick() is None ==> sent == s.stream()
        }),
{
    let s = after_steps(TxState::empty(), steps);
    let out = given(steps);
    let n = out.len() as int;
    lemma_order(steps);
    assert forall|i: int| 0 <= i < out.len() implies (#[trigger] out[i]).1
        == s.chunks[i].data by {
        assert(s.chunks[i].state is Sent);
    }
    lemma_joined(s, out, n);
    lemma_bytes_prefix(s, n, s.chunks.len() as int);
    law_next_none(s);
    if s.pick() is None && n < s.chunks.len() {
        assert(s.chunks[n].state is Sent);
    }
}

} // verus!
