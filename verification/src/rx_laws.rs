//! What holds of a receive buffer over several steps.
use vstd::prelude::*;

use crate::rx_state::RxState;

verus! {

/// What a frame does to each offset: the part of it that is kept becomes held
/// with the bytes of the frame, and nothing else changes. In particular no
/// offset that was held is lost.
pub proof fn law_frame_bytes(s: RxState, start: u64, data: Seq<u8>, o: int)
    requires
        s.wf(),
        start + data.len() <= u64::MAX,
    ensures
        ({
            let t = s.after_frame(start, data);
            let taken = !s.covered(start, data.len()) && start <= o < start + s.kept(
                start,
                data.len(),
            );
            &&& t.held(o) <==> s.held(o) || taken
            &&& taken ==> t.byte(o) == data[o - start]
            &&& s.held(o) && !taken ==> t.byte(o) == s.byte(o)
        }),
{
    s.lemma_prev(start);
    s.lemma_next(start);
    s.lemma_frame_wf(start, data);
    let t = s.after_frame(start, data);
    let kept = s.kept(start, data.len());
    if !s.covered(start, data.len()) {
        assert(t.ranges.contains_key(start));
        if start <= o < start + kept {
            assert(t.covers(start, o));
            t.lemma_byte(start, o);
        } else if s.held(o) {
            let k = choose|k: u64| s.covers(k, o);
            assert(s.covers(k, o));
            s.lemma_byte(k, o);
            if let Some(n) = s.next(start) {
                assert(k > start ==> n <= k);
            }
            if k > start {
                assert(t.ranges[k] == s.ranges[k]);
            } else if let Some(p) = s.prev(start) {
                assert(k <= p);
                assert(k < p ==> s.end(k) <= p);
                if let Some(n) = s.next(start) {
                    assert(s.end(p) <= n);
                }
                assert(o < start);
            }
            assert(t.covers(k, o));
            t.lemma_byte(k, o);
        } else if t.held(o) {
            let k = choose|k: u64| t.covers(k, o);
            assert(t.covers(k, o));
            assert(k != start);
            assert(s.ranges.contains_key(k));
            assert(s.covers(k, o));
        }
    }
}

/// After a frame each of its offsets is held, unless the offset lies past the
/// start of a range after the frame's and was not held.
pub proof fn law_frame_delivers(s: RxState, start: u64, data: Seq<u8>, o: int)
    requires
        s.wf(),
        start + data.len() <= u64::MAX,
        start <= o < start + data.len(),
        s.held(o) || forall|k: u64| #[trigger] s.ranges.contains_key(k) && start < k ==> o < k,
    ensures
        s.after_frame(start, data).held(o),
{
    law_frame_bytes(s, start, data, o);
    s.lemma_prev(start);
    s.lemma_next(start);
    if s.covered(start, data.len()) {
        if let Some(p) = s.prev(start) {
            assert(s.covers(p, o));
        }
    }
}

/// A frame that comes twice changes nothing the second time.
pub proof fn law_frame_repeated(s: RxState, start: u64, data: Seq<u8>)
    requires
        s.wf(),
        start + data.len() <= u64::MAX,
    ensures
        s.after_frame(start, data).after_frame(start, data) == s.after_frame(start, data),
{
    s.lemma_prev(start);
    s.lemma_next(start);
    let t = s.after_frame(start, data);
    if !s.covered(start, data.len()) {
        t.lemma_prev(start);
        t.lemma_next(start);
        assert(t.ranges.contains_key(start));
        assert(t.is_prev(start, start));
        assert(t.prev(start) == Some(start));
        assert forall|k: u64| start < k implies (#[trigger] t.ranges.contains_key(k)
            <==> s.ranges.contains_key(k)) by {}
        if let Some(n) = s.next(start) {
            assert(t.is_next(start, n));
        }
        assert(t.next(start) == s.next(start));
        assert(t.after_frame(start, data).ranges =~= t.ranges);
    }
}

/// Frames that are cut from one stream leave a buffer whose bytes are those of
/// the stream.
pub proof fn law_frame_agrees(s: RxState, start: u64, data: Seq<u8>, stream: Seq<u8>)
    requires
        s.wf(),
        s.agrees(stream),
        start + data.len() <= u64::MAX,
        start + data.len() <= stream.len(),
        data == stream.subrange(start as int, start + data.len()),
    ensures
        s.after_frame(start, data).agrees(stream),
{
    let t = s.after_frame(start, data);
    s.lemma_next(start);
    assert forall|o: int| #[trigger] t.held(o) implies o < stream.len() && t.byte(o)
        == stream[o] by {
        law_frame_bytes(s, start, data, o);
    }
}

/// Reading drops no byte that has not been read.
pub proof fn law_read_keeps(s: RxState, n: nat, o: int)
    requires
        s.wf(),
        n <= s.available(),
        s.retired + n <= o,
    ensures
        s.after_read(n).held(o) <==> s.held(o),
        s.held(o) ==> s.after_read(n).byte(o) == s.byte(o),
{
    let t = s.after_read(n);
    s.lemma_read_wf(n);
    if s.held(o) {
        let k = choose|k: u64| s.covers(k, o);
        assert(s.covers(k, o));
        assert(t.covers(k, o));
        s.lemma_byte(k, o);
        t.lemma_byte(k, o);
    }
    if t.held(o) {
        let k = choose|k: u64| t.covers(k, o);
        assert(t.covers(k, o));
        assert(s.covers(k, o));
    }
}

/// What is read from a buffer whose bytes are those of a stream is the stream,
/// from the read position on, and the buffer still agrees with the stream.
pub proof fn law_read_agrees(s: RxState, n: nat, stream: Seq<u8>)
    requires
        s.wf(),
        s.agrees(stream),
        n <= s.available(),
    ensures
        n > 0 ==> s.retired + n <= stream.len(),
        n > 0 ==> s.front(n) == stream.subrange(s.retired as int, (s.retired + n) as int),
        s.after_read(n).agrees(stream),
{
    s.lemma_run_held(s.retired as int);
    s.lemma_read_wf(n);
    let t = s.after_read(n);
    assert forall|o: int| #[trigger] t.held(o) implies o < stream.len() && t.byte(o)
        == stream[o] by {
        let k = choose|k: u64| t.covers(k, o);
        assert(t.covers(k, o));
        assert(s.covers(k, o));
        s.lemma_byte(k, o);
        t.lemma_byte(k, o);
    }
    if n > 0 {
        assert(s.held(s.retired + n - 1));
        assert forall|i: int| 0 <= i < n implies #[trigger] s.byte(s.retired + i)
            == stream[s.retired + i] by {
            assert(s.held(s.retired + i));
        }
        assert(s.front(n) =~= stream.subrange(s.retired as int, (s.retired + n) as int));
    }
}

/// The run at a later offset of a run is what is left of it.
proof fn lemma_run_rest(s: RxState, t: RxState, o: int, n: nat)
    requires
        n <= s.run(o),
        forall|i: int| o + n <= i ==> (#[trigger] t.held(i) <==> s.held(i)),
    ensures
        t.run(o + n) == s.run(o) - n,
    decreases s.run(o),
{
    if n > 0 {
        lemma_run_rest(s, t, o + 1, (n - 1) as nat);
    } else if s.run(o) > 0 {
        assert(t.held(o));
        lemma_run_rest(s, t, o + 1, 0);
    } else {
        assert(t.held(o) <==> s.held(o));
    }
}

/// Two reads give together what one read into a buffer of both sizes gives, and
/// leave the same behind.
pub proof fn law_read_twice(s: RxState, first: nat, second: nat)
    requires
        s.wf(),
    ensures
        ({
            let n = s.read_len(first);
            let t = s.after_read(n);
            let m = t.read_len(second);
            &&& s.read_len(first + second) == n + m
            &&& s.front(n + m) == s.front(n) + t.front(m)
            &&& s.after_read(n + m) == t.after_read(m)
        }),
{
    let n = s.read_len(first);
    let t = s.after_read(n);
    let m = t.read_len(second);
    assert forall|o: int| s.retired + n <= o implies (#[trigger] t.held(o) <==> s.held(o)) by {
        law_read_keeps(s, n, o);
    }
    lemma_run_rest(s, t, s.retired as int, n);
    s.lemma_read_wf(n);
    t.lemma_run_held(t.retired as int);
    assert forall|i: int| 0 <= i < m implies #[trigger] t.byte(t.retired + i) == s.byte(
        s.retired + n + i,
    ) by {
        assert(t.held(t.retired + i));
        law_read_keeps(s, n, t.retired + i);
    }
    assert(s.front(n + m) =~= s.front(n) + t.front(m));
    assert(s.after_read(n + m) =~= t.after_read(m)) by {
        assert forall|k: u64| #[trigger]
            s.after_read(n + m).ranges.contains_key(k) <==> t.after_read(m).ranges.contains_key(
                k,
            ) by {
            assert(t.ranges.contains_key(k) ==> t.ranges[k] == s.ranges[k]);
        }
        assert(s.after_read(n + m).ranges =~= t.after_read(m).ranges);
    }
}

/// Each byte that is read is one byte less that is buffered.
pub proof fn law_read_buffered(s: RxState, n: nat)
    requires
        s.wf(),
        n <= s.available(),
    ensures
        s.after_read(n).buffered() == s.buffered() - n,
{
    let t = s.after_read(n);
    s.lemma_run_held(s.retired as int);
    s.lemma_read_wf(n);
    t.lemma_unread();
    let front = vstd::set_lib::set_int_range(s.retired as int, (s.retired + n) as int);
    vstd::set_lib::lemma_int_range(s.retired as int, (s.retired + n) as int);
    assert(s.unread() =~= t.unread() + front) by {
        assert forall|o: int| s.unread().contains(o) <==> (t.unread() + front).contains(o) by {
            if s.retired + n <= o {
                law_read_keeps(s, n, o);
            } else if s.retired <= o {
                assert(s.held(o));
            }
        }
    }
    assert(t.unread().disjoint(front));
    vstd::set_lib::lemma_set_disjoint_lens(t.unread(), front);
}

/// The unread offsets after a frame are those before it and those of the part
/// of the frame that is kept. So a frame never makes fewer bytes buffered.
pub proof fn law_frame_buffered(s: RxState, start: u64, data: Seq<u8>)
    requires
        s.wf(),
        start + data.len() <= u64::MAX,
    ensures
        s.after_frame(start, data).unread() == s.unread() + Set::new(
            |o: int|
                s.retired <= o && !s.covered(start, data.len()) && start <= o < start + s.kept(
                    start,
                    data.len(),
                ),
        ),
        s.buffered() <= s.after_frame(start, data).buffered(),
{
    let t = s.after_frame(start, data);
    let taken = Set::new(
        |o: int|
            s.retired <= o && !s.covered(start, data.len()) && start <= o < start + s.kept(
                start,
                data.len(),
            ),
    );
    assert forall|o: int| t.unread().contains(o) <==> (s.unread() + taken).contains(o) by {
        law_frame_bytes(s, start, data, o);
    }
    assert(t.unread() =~= s.unread() + taken);
    s.lemma_frame_wf(start, data);
    t.lemma_unread();
    vstd::set_lib::lemma_len_subset(s.unread(), t.unread());
}

/// A frame of which nothing was read or held, and that ends before the next
/// range, makes as many more bytes buffered as it has.
pub proof fn law_new_frame_buffered(s: RxState, start: u64, data: Seq<u8>)
    requires
        s.wf(),
        start + data.len() <= u64::MAX,
        s.retired <= start,
        forall|o: int| start <= o < start + data.len() ==> !#[trigger] s.held(o),
        forall|k: u64| #[trigger]
            s.ranges.contains_key(k) && start < k ==> start + data.len() <= k,
    ensures
        s.after_frame(start, data).buffered() == s.buffered() + data.len(),
{
    law_frame_buffered(s, start, data);
    s.lemma_prev(start);
    s.lemma_next(start);
    s.lemma_unread();
    let t = s.after_frame(start, data);
    let new = vstd::set_lib::set_int_range(start as int, start + data.len());
    vstd::set_lib::lemma_int_range(start as int, start + data.len());
    if s.covered(start, data.len()) && data.len() > 0 {
        if let Some(p) = s.prev(start) {
            assert(s.covers(p, start as int));
            assert(s.held(start as int));
        }
    }
    assert(t.unread() =~= s.unread() + new);
    assert(s.unread().disjoint(new));
    vstd::set_lib::lemma_set_disjoint_lens(s.unread(), new);
}

/// A frame makes data ready just if it does not start above the read position.
pub proof fn law_frame_ready(s: RxState, start: u64, data: Seq<u8>)
    ensures
        s.after_frame(start, data).data_ready() <==> s.data_ready() || start <= s.retired,
{
    s.lemma_prev(start);
    let t = s.after_frame(start, data);
    if s.data_ready() {
        let k = choose|k: u64| #[trigger] s.ranges.contains_key(k) && k <= s.retired;
        assert(t.ranges.contains_key(k));
    }
    if start <= s.retired {
        if !s.covered(start, data.len()) {
            assert(t.ranges.contains_key(start));
        } else if let Some(p) = s.prev(start) {
            assert(s.ranges.contains_key(p));
        }
    }
    if t.data_ready() {
        let k = choose|k: u64| #[trigger] t.ranges.contains_key(k) && k <= t.retired;
        assert(k == start || s.ranges.contains_key(k));
    }
}

/// While no data is ready nothing can be read. Where every range has bytes that
/// are still to be read, data is ready just if something can be read.
pub proof fn law_ready_available(s: RxState)
    requires
        s.wf(),
    ensures
        s.available() > 0 ==> s.data_ready(),
        s.pending() && s.data_ready() ==> s.available() > 0,
{
    let o = s.retired as int;
    if s.available() > 0 {
        let k = choose|k: u64| s.covers(k, o);
        assert(s.ranges.contains_key(k));
    }
    if s.pending() && s.data_ready() {
        let k = choose|k: u64| #[trigger] s.ranges.contains_key(k) && k <= s.retired;
        assert(s.covers(k, o));
    }
}

/// After any read every range that is left has bytes that are still to be read,
/// so that data is ready just if something can be read.
pub proof fn law_read_ready(s: RxState, cap: nat)
    requires
        s.wf(),
    ensures
        ({
            let t = s.after_read(s.read_len(cap));
            t.pending() && (t.data_ready() <==> t.available() > 0)
        }),
{
    s.lemma_read_wf(s.read_len(cap));
    law_ready_available(s.after_read(s.read_len(cap)));
}

/// A read into a buffer that is large enough leaves a gap at the read position:
/// nothing can be read after it, and no data is ready.
pub proof fn law_read_all(s: RxState, cap: nat)
    requires
        s.wf(),
        s.available() <= cap,
    ensures
        s.after_read(s.read_len(cap)).available() == 0,
        !s.after_read(s.read_len(cap)).data_ready(),
{
    let n = s.read_len(cap);
    let t = s.after_read(n);
    assert forall|o: int| s.retired + n <= o implies (#[trigger] t.held(o) <==> s.held(o)) by {
        law_read_keeps(s, n, o);
    }
    lemma_run_rest(s, t, s.retired as int, n);
    law_read_ready(s, cap);
}

/// A frame that starts at the read position of a buffer that holds nothing is
/// read back whole.
pub proof fn law_write_read(s: RxState, data: Seq<u8>, cap: nat)
    requires
        s.wf(),
        forall|k: u64| !#[trigger] s.ranges.contains_key(k),
        s.retired + data.len() <= u64::MAX,
        data.len() <= cap,
    ensures
        ({
            let t = s.after_frame(s.retired as u64, data);
            &&& t.read_len(cap) == data.len()
            &&& t.front(data.len()) == data
            &&& t.after_read(data.len()).ranges == Map::<u64, Seq<u8>>::empty()
        }),
{
    let start = s.retired as u64;
    let t = s.after_frame(start, data);
    s.lemma_prev(start);
    s.lemma_next(start);
    s.lemma_frame_wf(start, data);
    assert(data.take(data.len() as int) =~= data);
    assert forall|o: int| #[trigger] t.held(o) <==> start <= o < start + data.len() by {
        law_frame_bytes(s, start, data, o);
    }
    t.lemma_run(start as int, data.len(), cap);
    assert forall|i: int| 0 <= i < data.len() implies #[trigger] t.byte(t.retired + i)
        == data[i] by {
        law_frame_bytes(s, start, data, start + i);
    }
    assert(t.front(data.len()) =~= data);
    assert(t.after_read(data.len()).ranges =~= Map::<u64, Seq<u8>>::empty());
}

/// No range reaches past the highest offset.
pub proof fn law_highest_bounds(s: RxState, k: u64)
    requires
        s.wf(),
        s.ranges.contains_key(k),
    ensures
        s.end(k) <= s.highest(),
{
    s.lemma_highest();
    if let Some(last) = s.prev(u64::MAX) {
        assert(k <= last);
    }
}

/// A frame never lowers the highest offset of a buffer that holds something.
/// Neither does it where nothing is held, if it ends at or past the read
/// position.
pub proof fn law_frame_highest(s: RxState, start: u64, data: Seq<u8>)
    requires
        s.wf(),
        start + data.len() <= u64::MAX,
        s.retired <= start + data.len() || exists|k: u64| s.ranges.contains_key(k),
    ensures
        s.highest() <= s.after_frame(start, data).highest(),
{
    let t = s.after_frame(start, data);
    s.lemma_frame_wf(start, data);
    s.lemma_prev(start);
    s.lemma_next(start);
    s.lemma_highest();
    t.lemma_highest();
    if !s.covered(start, data.len()) {
        assert(t.ranges.contains_key(start));
        law_highest_bounds(t, start);
        if let Some(last) = s.prev(u64::MAX) {
            assert(s.ranges.contains_key(last));
            assert(t.ranges.contains_key(last));
            law_highest_bounds(t, last);
            if let Some(p) = s.prev(start) {
                if p == last {
                    assert(s.next(start) is None);
                }
            }
        }
    }
}

/// Reading does not move the highest offset of a buffer that has bytes up to or
/// past the read position, or that holds nothing.
pub proof fn law_read_highest(s: RxState, n: nat)
    requires
        s.wf(),
        n <= s.available(),
        s.retired <= s.highest(),
    ensures
        s.after_read(n).highest() == s.highest(),
{
    let t = s.after_read(n);
    s.lemma_read_wf(n);
    s.lemma_run_held(s.retired as int);
    s.lemma_highest();
    t.lemma_highest();
    if n > 0 {
        let o = s.retired + n - 1;
        assert(s.held(o));
        let k = choose|k: u64| s.covers(k, o);
        assert(s.covers(k, o));
        law_highest_bounds(s, k);
    }
    if let Some(last) = s.prev(u64::MAX) {
        if s.retired + n < s.end(last) {
            assert(t.ranges.contains_key(last));
            assert(t.is_last(last));
        } else {
            assert forall|k: u64| !#[trigger] t.ranges.contains_key(k) by {
                if s.ranges.contains_key(k) {
                    law_highest_bounds(s, k);
                }
            }
        }
    }
}

/// As many bytes can be read as there are held offsets from the read position
/// on.
pub proof fn law_held_available(s: RxState, n: nat)
    requires
        s.wf(),
        forall|o: int| s.retired <= o < s.retired + n ==> #[trigger] s.held(o),
    ensures
        n <= s.available(),
        s.read_len(n) == n,
{
    s.lemma_run(s.retired as int, n, n);
}

/// Something that happens to a receive buffer.
pub enum Step {
    /// A frame with these bytes at this offset comes in.
    Frame(u64, Seq<u8>),
    /// The application reads into a buffer of this size.
    Read(nat),
}

/// The buffer after `steps`, which started with an empty one.
pub open spec fn after_steps(steps: Seq<Step>) -> RxState
    decreases steps.len(),
{
    if steps.len() == 0 {
        RxState::empty()
    } else {
        let s = after_steps(steps.drop_last());
        match steps.last() {
            Step::Frame(start, data) => s.after_frame(start, data),
            Step::Read(cap) => s.after_read(s.read_len(cap)),
        }
    }
}

/// All that the reads among `steps` gave, in order.
pub open spec fn output(steps: Seq<Step>) -> Seq<u8>
    decreases steps.len(),
{
    if steps.len() == 0 {
        Seq::empty()
    } else {
        let s = after_steps(steps.drop_last());
        match steps.last() {
            Step::Frame(_, _) => output(steps.drop_last()),
            Step::Read(cap) => output(steps.drop_last()) + s.front(s.read_len(cap)),
        }
    }
}

/// The frame with the bytes `data` at `start` is cut from `stream`.
pub open spec fn cut_from(stream: Seq<u8>, start: u64, data: Seq<u8>) -> bool {
    start + data.len() <= stream.len() && data == stream.subrange(start as int, start + data.len())
}

/// Whatever frames of a stream come in, in whatever order, how often and with
/// whatever overlaps, and however they are read in between: what the reads give,
/// put together, is the beginning of the stream.
pub proof fn law_reads_give_stream(steps: Seq<Step>, stream: Seq<u8>)
    requires
        stream.len() <= u64::MAX,
        forall|i: int|
            0 <= i < steps.len() ==> (#[trigger] steps[i] matches Step::Frame(start, data)
                ==> cut_from(stream, start, data)),
    ensures
        after_steps(steps).wf(),
        after_steps(steps).agrees(stream),
        after_steps(steps).retired <= stream.len(),
        output(steps) == stream.take(after_steps(steps).retired as int),
    decreases steps.len(),
{
    if steps.len() == 0 {
        assert(output(steps) =~= stream.take(0));
    } else {
        let before = steps.drop_last();
        assert forall|i: int| 0 <= i < before.len() implies (#[trigger] before[i] matches
            Step::Frame(start, data) ==> cut_from(stream, start, data)) by {
            assert(before[i] == steps[i]);
        }
        law_reads_give_stream(before, stream);
        let s = after_steps(before);
        assert(steps.last() == steps[steps.len() - 1]);
        match steps.last() {
            Step::Frame(start, data) => {
                s.lemma_frame_wf(start, data);
                law_frame_agrees(s, start, data, stream);
            },
            Step::Read(cap) => {
                let n = s.read_len(cap);
                s.lemma_read_wf(n);
                law_read_agrees(s, n, stream);
                assert(output(steps) =~= stream.take((s.retired + n) as int));
            },
        }
    }
}

/// A read into a buffer with room gives something just if something can be read.
pub proof fn law_available_read(s: RxState, cap: nat)
    requires
        cap > 0,
    ensures
        s.read_len(cap) > 0 <==> s.available() > 0,
{
}

/// A frame takes nothing away that can be read. One that has the byte at the
/// read position makes it readable, if no range starts between the two, and one
/// that does not have that byte makes nothing readable that was not.
pub proof fn law_frame_available(s: RxState, start: u64, data: Seq<u8>)
    requires
        s.wf(),
        start + data.len() <= u64::MAX,
    ensures
        s.available() > 0 ==> s.after_frame(start, data).available() > 0,
        start <= s.retired < start + data.len() && (forall|k: u64| #[trigger]
            s.ranges.contains_key(k) && start < k ==> s.retired < k) ==> s.after_frame(
            start,
            data,
        ).available() > 0,
        !(start <= s.retired < start + data.len()) && s.after_frame(start, data).available() > 0
            ==> s.available() > 0,
{
    let o = s.retired as int;
    let t = s.after_frame(start, data);
    s.lemma_next(start);
    s.lemma_frame_wf(start, data);
    law_frame_bytes(s, start, data, o);
    if s.held(o) {
        let k = choose|k: u64| s.covers(k, o);
        assert(s.covers(k, o));
    }
    if t.held(o) {
        let k = choose|k: u64| t.covers(k, o);
        assert(t.covers(k, o));
    }
    if start <= o < start + data.len() && (forall|k: u64| #[trigger]
        s.ranges.contains_key(k) && start < k ==> s.retired < k) {
        law_frame_delivers(s, start, data, o);
    }
}

/// The frames that come in among `steps`.
pub open spec fn frames(steps: Seq<Step>) -> Set<(u64, Seq<u8>)> {
    Set::new(|f: (u64, Seq<u8>)| steps.contains(Step::Frame(f.0, f.1)))
}

/// Any two of the frames are the same, or one ends before the other starts.
pub open spec fn fit_together(frames: Set<(u64, Seq<u8>)>) -> bool {
    forall|f: (u64, Seq<u8>), g: (u64, Seq<u8>)| #[trigger]
        frames.contains(f) && #[trigger] frames.contains(g) ==> f == g || f.0 + f.1.len() <= g.0
            || g.0 + g.1.len() <= f.0
}

/// A frame has the byte at offset `o`.
pub open spec fn frame_has(f: (u64, Seq<u8>), o: int) -> bool {
    f.0 <= o < f.0 + f.1.len()
}

/// One of the frames has the byte at offset `o`.
pub open spec fn brings(frames: Set<(u64, Seq<u8>)>, o: int) -> bool {
    exists|f: (u64, Seq<u8>)| frames.contains(f) && #[trigger] frame_has(f, o)
}

/// The frames have all of the first `len` offsets.
pub open spec fn cover(frames: Set<(u64, Seq<u8>)>, len: nat) -> bool {
    forall|o: int| 0 <= o < len ==> #[trigger] brings(frames, o)
}

/// Every range is one of the frames.
pub open spec fn made_of(s: RxState, frames: Set<(u64, Seq<u8>)>) -> bool {
    forall|k: u64| #[trigger] s.ranges.contains_key(k) ==> frames.contains((k, s.ranges[k]))
}

/// Where frames fit together, one more of them is held whole and leaves the
/// others as they are.
pub proof fn law_fitting_frame(
    s: RxState,
    frames: Set<(u64, Seq<u8>)>,
    start: u64,
    data: Seq<u8>,
)
    requires
        s.wf(),
        start + data.len() <= u64::MAX,
        fit_together(frames),
        made_of(s, frames),
        frames.contains((start, data)),
    ensures
        made_of(s.after_frame(start, data), frames),
        forall|o: int| #[trigger]
            s.after_frame(start, data).held(o) <==> s.held(o) || frame_has((start, data), o),
{
    let t = s.after_frame(start, data);
    s.lemma_prev(start);
    s.lemma_next(start);
    if let Some(n) = s.next(start) {
        assert(frames.contains((n, s.ranges[n])));
    }
    if let Some(p) = s.prev(start) {
        assert(frames.contains((p, s.ranges[p])));
    }
    assert(data.take(data.len() as int) =~= data);
    assert forall|k: u64| #[trigger] t.ranges.contains_key(k) implies frames.contains(
        (k, t.ranges[k]),
    ) by {
        if k != start {
            assert(s.ranges.contains_key(k));
        }
    }
    assert forall|o: int| #[trigger] t.held(o) <==> s.held(o) || frame_has((start, data), o) by {
        law_frame_bytes(s, start, data, o);
        if frame_has((start, data), o) {
            law_frame_delivers(s, start, data, o);
        }
    }
}

/// Reading leaves ranges that are frames.
pub proof fn law_read_made_of(s: RxState, frames: Set<(u64, Seq<u8>)>, n: nat)
    requires
        made_of(s, frames),
    ensures
        made_of(s.after_read(n), frames),
{
    let t = s.after_read(n);
    assert forall|k: u64| #[trigger] t.ranges.contains_key(k) implies frames.contains(
        (k, t.ranges[k]),
    ) by {
        assert(s.ranges.contains_key(k));
    }
}

/// After steps whose frames are among frames that fit together, each offset of
/// a frame that came in has been read or is held.
proof fn lemma_delivered(steps: Seq<Step>, all: Set<(u64, Seq<u8>)>, stream: Seq<u8>)
    requires
        stream.len() <= u64::MAX,
        forall|i: int|
            0 <= i < steps.len() ==> (#[trigger] steps[i] matches Step::Frame(start, data)
                ==> cut_from(stream, start, data)),
        fit_together(all),
        frames(steps).subset_of(all),
    ensures
        made_of(after_steps(steps), all),
        forall|f: (u64, Seq<u8>), o: int|
            frames(steps).contains(f) && #[trigger] frame_has(f, o) ==> o < after_steps(
                steps,
            ).retired || after_steps(steps).held(o),
    decreases steps.len(),
{
    if steps.len() > 0 {
        let before = steps.drop_last();
        let s = after_steps(before);
        let t = after_steps(steps);
        let step = steps[steps.len() - 1];
        assert forall|i: int| 0 <= i < before.len() implies (#[trigger] before[i] matches
            Step::Frame(start, data) ==> cut_from(stream, start, data)) by {
            assert(before[i] == steps[i]);
        }
        assert forall|f: (u64, Seq<u8>)| frames(before).contains(f) implies all.contains(f) by {
            let i = before.index_of(Step::Frame(f.0, f.1));
            assert(steps[i] == before[i]);
            assert(frames(steps).contains(f));
        }
        law_reads_give_stream(before, stream);
        lemma_delivered(before, all, stream);
        match step {
            Step::Frame(start, data) => {
                assert(frames(steps).contains((start, data)));
                law_fitting_frame(s, all, start, data);
            },
            Step::Read(cap) => {
                law_read_made_of(s, all, s.read_len(cap));
            },
        }
        assert forall|f: (u64, Seq<u8>), o: int|
            frames(steps).contains(f) && #[trigger] frame_has(f, o) implies o < t.retired || t.held(
            o,
        ) by {
            let i = steps.index_of(Step::Frame(f.0, f.1));
            if i < before.len() {
                assert(before[i] == Step::Frame(f.0, f.1));
                assert(frames(before).contains(f));
                assert(o < s.retired || s.held(o));
                if let Step::Read(cap) = step {
                    if t.retired <= o {
                        law_read_keeps(s, s.read_len(cap), o);
                    }
                }
            } else {
                assert(step == Step::Frame(f.0, f.1));
            }
        }
    }
}

/// Where every offset of a stream has been read or is held, all that is left of
/// it can be read.
pub proof fn law_all_available(s: RxState, stream: Seq<u8>)
    requires
        s.wf(),
        s.agrees(stream),
        s.retired <= stream.len(),
        forall|o: int| s.retired <= o < stream.len() ==> #[trigger] s.held(o),
    ensures
        s.available() == stream.len() - s.retired,
{
    let n = (stream.len() - s.retired) as nat;
    assert(!s.held((s.retired + n) as int));
    s.lemma_run(s.retired as int, n, n + 1);
}

/// Frames that are cut from one stream, that fit together and that have all of
/// its bytes are read back whole: whatever the order in which they come in, how
/// often each does and however they are read in between, one more read into a
/// buffer with enough room completes the stream.
pub proof fn law_frames_read_back(steps: Seq<Step>, stream: Seq<u8>, cap: nat)
    requires
        stream.len() <= u64::MAX,
        forall|i: int|
            0 <= i < steps.len() ==> (#[trigger] steps[i] matches Step::Frame(start, data)
                ==> cut_from(stream, start, data)),
        fit_together(frames(steps)),
        cover(frames(steps), stream.len()),
        stream.len() <= after_steps(steps).retired + cap,
    ensures
        output(steps.push(Step::Read(cap))) == stream,
        after_steps(steps.push(Step::Read(cap))).retired == stream.len(),
{
    let s = after_steps(steps);
    let more = steps.push(Step::Read(cap));
    law_reads_give_stream(steps, stream);
    lemma_delivered(steps, frames(steps), stream);
    assert forall|o: int| s.retired <= o < stream.len() implies #[trigger] s.held(o) by {
        assert(brings(frames(steps), o));
        let f = choose|f: (u64, Seq<u8>)|
            frames(steps).contains(f) && #[trigger] frame_has(f, o);
        assert(frame_has(f, o));
    }
    law_all_available(s, stream);
    assert(more.drop_last() =~= steps);
    law_reads_give_stream(more, stream);
    assert(output(more) =~= stream);
}

/// An offset is held just if it lies in one of the ranges.
pub proof fn law_held(s: RxState, o: int)
    ensures
        s.held(o) <==> exists|k: u64| #[trigger]
            s.ranges.contains_key(k) && k <= o < k + s.ranges[k].len(),
{
    if s.held(o) {
        let k = choose|k: u64| s.covers(k, o);
        assert(s.covers(k, o));
        assert(s.ranges.contains_key(k));
    }
    if exists|k: u64| #[trigger] s.ranges.contains_key(k) && k <= o < k + s.ranges[k].len() {
        let k = choose|k: u64| #[trigger]
            s.ranges.contains_key(k) && k <= o < k + s.ranges[k].len();
        assert(s.covers(k, o));
    }
}

/// The byte at a held offset is the one that the range around it has there.
pub proof fn law_byte(s: RxState, k: u64, o: int)
    requires
        s.wf(),
        s.ranges.contains_key(k),
        k <= o < k + s.ranges[k].len(),
    ensures
        s.byte(o) == s.ranges[k][o - k],
{
    assert(s.covers(k, o));
    s.lemma_byte(k, o);
}

/// What can be read goes up to the first offset that is not held.
pub proof fn law_available(s: RxState)
    requires
        s.wf(),
    ensures
        forall|o: int|
            s.retired <= o < s.retired + s.available() ==> #[trigger] s.held(o),
        !s.held((s.retired + s.available()) as int),
{
    s.lemma_run_held(s.retired as int);
}

/// A read stops where its buffer is full or where nothing more can be read.
pub proof fn law_read_len(s: RxState, cap: nat)
    ensures
        s.read_len(cap) <= cap,
        s.read_len(cap) <= s.available(),
        s.read_len(cap) == cap || s.read_len(cap) == s.available(),
{
}

/// The bytes that a read gives are those from the read position on, in order.
pub proof fn law_front(s: RxState, n: nat, i: int)
    requires
        0 <= i < n,
    ensures
        s.front(n).len() == n,
        s.front(n)[i] == s.byte(s.retired + i),
{
}

/// A read moves the read position past what it gave, and drops just the ranges
/// that end there or before.
pub proof fn law_read_ranges(s: RxState, n: nat, k: u64)
    ensures
        s.after_read(n).retired == s.retired + n,
        s.after_read(n).ranges.contains_key(k) <==> s.ranges.contains_key(k) && s.retired + n < k
            + s.ranges[k].len(),
        s.after_read(n).ranges.contains_key(k) ==> s.after_read(n).ranges[k] == s.ranges[k],
{
}

/// What is buffered is what is held at or above the read position, each offset
/// once.
pub proof fn law_buffered(s: RxState, o: int)
    requires
        s.wf(),
    ensures
        s.buffered() == s.unread().len(),
        s.unread().finite(),
        s.unread().contains(o) <==> s.retired <= o && s.held(o),
{
    s.lemma_unread();
}

/// Data is ready just if a range starts at or below the read position.
pub proof fn law_ready(s: RxState)
    ensures
        s.data_ready() <==> exists|k: u64| #[trigger] s.ranges.contains_key(k) && k <= s.retired,
{
}

/// The highest offset is the end of some range and not below that of any, or it
/// is the read position of a buffer without ranges.
pub proof fn law_highest(s: RxState)
    requires
        s.wf(),
    ensures
        forall|k: u64| #[trigger]
            s.ranges.contains_key(k) ==> k + s.ranges[k].len() <= s.highest(),
        (exists|k: u64| #[trigger] s.ranges.contains_key(k)) ==> exists|k: u64| #[trigger]
            s.ranges.contains_key(k) && k + s.ranges[k].len() == s.highest(),
        (forall|k: u64| !#[trigger] s.ranges.contains_key(k)) ==> s.highest() == s.retired,
{
    s.lemma_highest();
    assert forall|k: u64| #[trigger] s.ranges.contains_key(k) implies k + s.ranges[k].len()
        <= s.highest() by {
        law_highest_bounds(s, k);
    }
    if let Some(last) = s.prev(u64::MAX) {
        assert(s.ranges.contains_key(last));
    }
}

/// A new buffer has no range, and nothing of its stream has been read.
pub proof fn law_empty(k: u64)
    ensures
        RxState::empty().wf(),
        RxState::empty().retired == 0,
        !RxState::empty().ranges.contains_key(k),
{
}

/// Some range that starts at or below a frame already has all of it.
pub open spec fn contained(s: RxState, start: u64, len: nat) -> bool {
    exists|k: u64| #[trigger]
        s.ranges.contains_key(k) && k <= start && start + len <= k + s.ranges[k].len()
}

/// What a frame does to each range. One that some range has already changes
/// nothing. Of any other, the bytes up to the next range become a range of their
/// own. A range that reaches into the frame from below is cut off where the frame
/// starts, and all others stay. The read position stays in any case.
pub proof fn law_frame_ranges(s: RxState, start: u64, data: Seq<u8>)
    requires
        s.wf(),
        start + data.len() <= u64::MAX,
    ensures
        s.after_frame(start, data).retired == s.retired,
        contained(s, start, data.len()) ==> s.after_frame(start, data) == s,
        !contained(s, start, data.len()) ==> ({
            let t = s.after_frame(start, data);
            let n = t.ranges[start].len();
            &&& t.ranges.contains_key(start)
            &&& n <= data.len()
            &&& t.ranges[start] == data.take(n as int)
            &&& n < data.len() ==> s.ranges.contains_key((start + n) as u64) && n > 0
            &&& forall|k: u64| #[trigger] s.ranges.contains_key(k) && start < k ==> start + n <= k
            &&& forall|k: u64|
                k != start ==> (#[trigger] t.ranges.contains_key(k) <==> s.ranges.contains_key(k))
            &&& forall|k: u64| #[trigger]
                s.ranges.contains_key(k) && k != start ==> t.ranges[k] == if k < start && start < k
                    + s.ranges[k].len() {
                    s.ranges[k].take(start - k)
                } else {
                    s.ranges[k]
                }
        }),
{
    s.lemma_prev(start);
    s.lemma_next(start);
    if contained(s, start, data.len()) {
        let k = choose|k: u64| #[trigger]
            s.ranges.contains_key(k) && k <= start && start + data.len() <= k + s.ranges[k].len();
        if let Some(p) = s.prev(start) {
            assert(k <= p);
            assert(k < p ==> s.end(k) <= p);
        }
        assert(s.covered(start, data.len()));
    } else {
        if let Some(p) = s.prev(start) {
            assert(s.ranges.contains_key(p));
        }
        assert(!s.covered(start, data.len()));
        let t = s.after_frame(start, data);
        assert forall|k: u64| #[trigger] s.ranges.contains_key(k) && k != start implies t.ranges[k]
            == if k < start && start < k + s.ranges[k].len() {
            s.ranges[k].take(start - k)
        } else {
            s.ranges[k]
        } by {
            if k < start {
                if let Some(p) = s.prev(start) {
                    assert(k <= p);
                    assert(k < p ==> s.end(k) <= p);
                }
            }
        }
    }
}

/// Whose bytes are held after a frame. Outside the frame nothing changes. Inside
/// it, a range that has all of the frame or that starts after it keeps its bytes.
/// Any other range that reached in gives way to the frame, and so does a gap,
/// unless a range starts between the frame's start and the gap.
pub proof fn law_frame_precedence(s: RxState, start: u64, data: Seq<u8>, o: int)
    requires
        s.wf(),
        start + data.len() <= u64::MAX,
    ensures
        ({
            let t = s.after_frame(start, data);
            let inside = start <= o < start + data.len();
            let behind = exists|k: u64| #[trigger] s.ranges.contains_key(k) && start < k <= o;
            let old = !inside || behind || contained(s, start, data.len());
            &&& old ==> (t.held(o) <==> s.held(o))
            &&& old && s.held(o) ==> t.byte(o) == s.byte(o)
            &&& !old ==> t.held(o) && t.byte(o) == data[o - start]
        }),
{
    law_frame_ranges(s, start, data);
    law_frame_bytes(s, start, data, o);
    s.lemma_prev(start);
    s.lemma_next(start);
    let inside = start <= o < start + data.len();
    let behind = exists|k: u64| #[trigger] s.ranges.contains_key(k) && start < k <= o;
    if contained(s, start, data.len()) {
    } else {
        if let Some(p) = s.prev(start) {
            assert(s.ranges.contains_key(p));
        }
        if behind {
            let k = choose|k: u64| #[trigger] s.ranges.contains_key(k) && start < k <= o;
            assert(s.ranges.contains_key(k));
        } else if inside {
            if let Some(n) = s.next(start) {
                assert(s.ranges.contains_key(n));
            }
        }
    }
}

/// A frame that starts at or below the first gap carries what can be read up to
/// its own end, if each of its offsets from the gap on is held or lies below
/// every range that starts after the frame. Where no range does, nothing more
/// becomes readable.
pub proof fn law_frame_extends(s: RxState, start: u64, data: Seq<u8>)
    requires
        s.wf(),
        start + data.len() <= u64::MAX,
        start <= s.retired + s.available(),
        forall|o: int, k: u64|
            s.retired + s.available() <= o < start + data.len() && #[trigger]
            s.ranges.contains_key(k) && start < k <= o ==> #[trigger] s.held(o),
    ensures
        ({
            let t = s.after_frame(start, data);
            let gap = s.retired + s.available();
            let end = start + data.len();
            let reach = t.retired + t.available();
            &&& reach >= gap
            &&& reach >= end
            &&& (forall|k: u64| #[trigger] s.ranges.contains_key(k) ==> k <= start) ==> reach == gap
                || reach == end
        }),
{
    let t = s.after_frame(start, data);
    let gap = (s.retired + s.available()) as int;
    let end = start + data.len();
    let upto = if gap < end { end } else { gap };
    law_frame_ranges(s, start, data);
    s.lemma_frame_wf(start, data);
    law_available(s);
    law_available(t);
    assert forall|o: int| s.retired <= o < upto implies #[trigger] t.held(o) by {
        law_frame_bytes(s, start, data, o);
        if gap <= o {
            if !s.held(o) {
                assert forall|k: u64| #[trigger] s.ranges.contains_key(k) && start < k implies o
                    < k by {}
            }
            law_frame_delivers(s, start, data, o);
        } else {
            assert(s.held(o));
        }
    }
    law_held_available(t, (upto - s.retired) as nat);
    if forall|k: u64| #[trigger] s.ranges.contains_key(k) ==> k <= start {
        assert(!t.held(upto)) by {
            law_frame_bytes(s, start, data, upto);
            s.lemma_next(start);
            if s.held(upto) {
                let k = choose|k: u64| s.covers(k, upto);
                assert(s.covers(k, upto));
                assert(s.ranges.contains_key(k));
                assert(s.covers(k, gap));
            }
        }
    }
}

/// A read leaves just what it did not give.
pub proof fn law_read_rest(s: RxState, n: nat)
    requires
        s.wf(),
        n <= s.available(),
    ensures
        s.after_read(n).available() == s.available() - n,
{
    let t = s.after_read(n);
    assert forall|o: int| s.retired + n <= o implies (#[trigger] t.held(o) <==> s.held(o)) by {
        law_read_keeps(s, n, o);
    }
    lemma_run_rest(s, t, s.retired as int, n);
}

} // verus!
