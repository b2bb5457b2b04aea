//! What holds of the receiving side of a stream over several steps.
use vstd::prelude::*;

use crate::recv_state::{RecvState, RX_STREAM_DATA_WINDOW};
use crate::rx_state::RxState;

verus! {

/// A frame that is rejected changes nothing.
pub proof fn law_rejected_frame(s: RecvState, fin: bool, start: u64, data: Seq<u8>)
    requires
        s.rejects(fin, start, data.len()),
    ensures
        s.after_frame(fin, start, data) == s,
{
}

/// The size of a stream is where the frame that carried its end ended.
pub proof fn law_fin_sets_size(s: RecvState, start: u64, data: Seq<u8>)
    requires
        start + data.len() <= u64::MAX,
        !s.rejects(true, start, data.len()),
    ensures
        s.after_frame(true, start, data).final_size matches Some(size) && size == start
            + data.len(),
{
}

/// Once the size of a stream is known, it stays.
pub proof fn law_size_stays(s: RecvState, fin: bool, start: u64, data: Seq<u8>, n: nat)
    requires
        s.final_size is Some,
    ensures
        s.after_frame(fin, start, data).final_size == s.final_size,
        s.after_read(n).final_size == s.final_size,
        s.after_update().final_size == s.final_size,
{
}

/// Only a frame that carries the end of the stream makes its size known.
pub proof fn law_size_unknown(s: RecvState, start: u64, data: Seq<u8>, n: nat)
    requires
        s.final_size is None,
    ensures
        !s.rejects(false, start, data.len()),
        s.after_frame(false, start, data).final_size is None,
        s.after_read(n).final_size is None,
        s.after_update().final_size is None,
{
}

/// The size that a frame gives is not below the read position, where the
/// highest offset seen is not.
pub proof fn law_size_above_read(s: RecvState, start: u64, data: Seq<u8>)
    requires
        s.final_size is None,
        start + data.len() <= u64::MAX,
        s.rx.retired <= s.rx.highest(),
        !s.rejects(true, start, data.len()),
    ensures
        s.after_frame(true, start, data).final_size matches Some(size) && s.rx.retired <= size,
{
}

/// No read goes past the end of the stream.
pub proof fn law_read_within_size(s: RecvState, n: nat)
    requires
        s.wf(),
        n <= s.rx.available(),
    ensures
        s.final_size matches Some(size) ==> s.rx.retired <= size ==> s.after_read(n).rx.retired
            <= size,
{
    s.rx.lemma_run_held(s.rx.retired as int);
    if n > 0 {
        let o = s.rx.retired + n - 1;
        assert(s.rx.held(o));
        let k = choose|k: u64| s.rx.covers(k, o);
        assert(s.rx.covers(k, o));
    }
}

/// A stream that has been read to its end has nothing more to read, and each
/// read says again that the end was reached.
pub proof fn law_end_stays(s: RecvState, cap: nat)
    requires
        s.wf(),
        s.at_end(),
    ensures
        s.rx.available() == 0,
        s.rx.buffered() == 0,
        s.rx.read_len(cap) == 0,
        s.after_read(s.rx.read_len(cap)).at_end(),
{
    assert forall|o: int| s.rx.retired <= o implies !#[trigger] s.rx.held(o) by {
        if s.rx.held(o) {
            let k = choose|k: u64| s.rx.covers(k, o);
            assert(s.rx.covers(k, o));
        }
    }
    assert(!s.rx.held(s.rx.retired as int));
    assert(s.rx.unread() =~= Set::empty());
}

/// No frame takes a stream that has been read to its end away from there.
pub proof fn law_end_stays_after_frame(s: RecvState, fin: bool, start: u64, data: Seq<u8>)
    requires
        s.at_end(),
    ensures
        s.after_frame(fin, start, data).at_end(),
{
    law_size_stays(s, fin, start, data, 0);
}

/// A read into a buffer that is large enough reaches the end of a stream just if
/// all that was left of it is held.
pub proof fn law_read_reaches_end(s: RecvState, cap: nat)
    requires
        s.wf(),
        s.rx.available() <= cap,
        s.final_size matches Some(size) && s.rx.retired <= size,
    ensures
        s.final_size matches Some(size) && (s.after_read(s.rx.read_len(cap)).at_end() <==> (forall|
            o: int,
        |
            s.rx.retired <= o < size ==> #[trigger] s.rx.held(o))),
{
    if let Some(size) = s.final_size {
        let n = s.rx.available();
        s.rx.lemma_run_held(s.rx.retired as int);
        law_read_within_size(s, n);
        if forall|o: int| s.rx.retired <= o < size ==> #[trigger] s.rx.held(o) {
            if s.rx.retired + n < size {
                assert(s.rx.held((s.rx.retired + n) as int));
            }
        }
    }
}

/// Once the sender has been told, it need not be told again.
pub proof fn law_update_once(s: RecvState)
    ensures
        !s.after_update().wants_update(),
{
}

/// What the sender is told is more than it was told before, by over half of the
/// window, and one window past the read position.
pub proof fn law_update_raises(s: RecvState)
    requires
        s.wants_update(),
    ensures
        s.after_update().rx_window == s.rx.retired + RX_STREAM_DATA_WINDOW,
        s.after_update().rx_window > s.rx_window + RX_STREAM_DATA_WINDOW / 2,
{
}

/// Where the sender may send one window past the read position, it is told
/// again when over half of a window has been read, and not before.
pub proof fn law_update_after_half(s: RecvState, n: nat)
    requires
        s.final_size is None,
        s.rx_window == s.new_window(),
    ensures
        s.after_read(n).wants_update() <==> n > RX_STREAM_DATA_WINDOW / 2,
{
}

/// Telling the sender leaves a well-formed stream well-formed, and does not
/// touch what was received.
pub proof fn law_update_keeps(s: RecvState)
    requires
        s.wf(),
    ensures
        s.after_update().wf(),
        s.after_update().rx == s.rx,
{
}

/// Something that happens to the receiving side of a stream.
pub enum RecvStep {
    /// A frame comes in that says whether the stream ends with it, with these
    /// bytes at this offset.
    Frame(bool, u64, Seq<u8>),
    /// The application reads into a buffer of this size.
    Read(nat),
    /// The sender is told how far it may send, if it should be.
    Update,
}

/// The stream after one more step.
pub open spec fn after_step(s: RecvState, step: RecvStep) -> RecvState {
    match step {
        RecvStep::Frame(fin, start, data) => s.after_frame(fin, start, data),
        RecvStep::Read(cap) => s.after_read(s.rx.read_len(cap)),
        RecvStep::Update => s.after_update(),
    }
}

/// Nothing moves the read position back, or takes back what the sender was
/// allowed to send.
pub proof fn law_no_step_back(s: RecvState, step: RecvStep)
    ensures
        s.rx.retired <= after_step(s, step).rx.retired,
        s.rx_window <= after_step(s, step).rx_window,
{
}

/// The stream after `steps`, which started with a new one.
pub open spec fn after_steps(steps: Seq<RecvStep>) -> RecvState
    decreases steps.len(),
{
    if steps.len() == 0 {
        RecvState::initial(RX_STREAM_DATA_WINDOW as nat)
    } else {
        after_step(after_steps(steps.drop_last()), steps.last())
    }
}

/// All that the reads among `steps` gave, in order.
pub open spec fn output(steps: Seq<RecvStep>) -> Seq<u8>
    decreases steps.len(),
{
    if steps.len() == 0 {
        Seq::empty()
    } else {
        let s = after_steps(steps.drop_last());
        match steps.last() {
            RecvStep::Read(cap) => output(steps.drop_last()) + s.rx.front(s.rx.read_len(cap)),
            _ => output(steps.drop_last()),
        }
    }
}

/// A frame is cut from `stream`, and the stream ends with it if it says so.
pub open spec fn honest(stream: Seq<u8>, step: RecvStep) -> bool {
    step matches RecvStep::Frame(fin, start, data) ==> crate::rx_laws::cut_from(stream, start, data)
        && (fin ==> start + data.len() == stream.len())
}

/// The state that honest steps lead to: what is held and known is right.
spec fn sound(s: RecvState, stream: Seq<u8>) -> bool {
    &&& s.wf()
    &&& s.rx.agrees(stream)
    &&& s.rx.retired <= stream.len()
    &&& forall|k: u64| #[trigger] s.rx.ranges.contains_key(k) ==> s.rx.end(k) <= stream.len()
    &&& s.final_size matches Some(size) ==> size == stream.len()
}

/// In a sound state the highest offset is within the stream.
proof fn lemma_sound_highest(s: RecvState, stream: Seq<u8>)
    requires
        sound(s, stream),
    ensures
        s.rx.highest() <= stream.len(),
{
    s.rx.lemma_highest();
    if let Some(last) = s.rx.prev(u64::MAX) {
        assert(s.rx.ranges.contains_key(last));
    }
}

/// An honest step leads from a sound state to a sound state.
proof fn lemma_sound_step(s: RecvState, stream: Seq<u8>, step: RecvStep)
    requires
        sound(s, stream),
        stream.len() <= u64::MAX,
        honest(stream, step),
    ensures
        sound(after_step(s, step), stream),
{
    match step {
        RecvStep::Frame(fin, start, data) => {
            let t = s.after_frame(fin, start, data);
            s.lemma_frame_wf(fin, start, data);
            s.rx.lemma_prev(start);
            s.rx.lemma_next(start);
            crate::rx_laws::law_frame_agrees(s.rx, start, data, stream);
            assert forall|k: u64| #[trigger] t.rx.ranges.contains_key(k) implies t.rx.end(k)
                <= stream.len() by {
                if k != start {
                    assert(s.rx.ranges.contains_key(k));
                    assert(t.rx.end(k) <= s.rx.end(k));
                }
            }
        },
        RecvStep::Read(cap) => {
            let n = s.rx.read_len(cap);
            let t = s.after_read(n);
            s.lemma_read_wf(n);
            crate::rx_laws::law_read_agrees(s.rx, n, stream);
            assert forall|k: u64| #[trigger] t.rx.ranges.contains_key(k) implies t.rx.end(k)
                <= stream.len() by {
                assert(s.rx.ranges.contains_key(k));
            }
        },
        RecvStep::Update => {},
    }
}

/// Honest steps lead from a new stream to a sound state, and the reads give the
/// beginning of the stream.
proof fn lemma_sound_steps(steps: Seq<RecvStep>, stream: Seq<u8>)
    requires
        stream.len() <= u64::MAX,
        forall|i: int| 0 <= i < steps.len() ==> honest(stream, #[trigger] steps[i]),
    ensures
        sound(after_steps(steps), stream),
        output(steps) == stream.take(after_steps(steps).rx.retired as int),
    decreases steps.len(),
{
    if steps.len() == 0 {
        assert(output(steps) =~= stream.take(0));
        assert forall|o: int| !#[trigger] RxState::empty().held(o) by {}
    } else {
        let before = steps.drop_last();
        let s = after_steps(before);
        let step = steps[steps.len() - 1];
        assert forall|i: int| 0 <= i < before.len() implies honest(
            stream,
            #[trigger] before[i],
        ) by {
            assert(before[i] == steps[i]);
        }
        lemma_sound_steps(before, stream);
        lemma_sound_step(s, stream, step);
        if let RecvStep::Read(cap) = step {
            let n = s.rx.read_len(cap);
            crate::rx_laws::law_read_agrees(s.rx, n, stream);
            assert(output(steps) =~= stream.take((s.rx.retired + n) as int));
        }
    }
}

/// Whatever frames of a stream come in, in whatever order, how often and with
/// whatever overlaps, and however they are read in between: no frame is
/// rejected, what the reads give is the beginning of the stream, and it is the
/// whole of it once a read says that the end was reached.
pub proof fn law_stream_received(
    steps: Seq<RecvStep>,
    stream: Seq<u8>,
    fin: bool,
    start: u64,
    data: Seq<u8>,
)
    requires
        stream.len() <= u64::MAX,
        forall|i: int| 0 <= i < steps.len() ==> honest(stream, #[trigger] steps[i]),
        honest(stream, RecvStep::Frame(fin, start, data)),
    ensures
        after_steps(steps).wf(),
        !after_steps(steps).rejects(fin, start, data.len()),
        after_steps(steps).rx.retired <= stream.len(),
        output(steps) == stream.take(after_steps(steps).rx.retired as int),
        after_steps(steps).at_end() ==> output(steps) == stream,
{
    lemma_sound_steps(steps, stream);
    lemma_sound_highest(after_steps(steps), stream);
    if after_steps(steps).at_end() {
        assert(output(steps) =~= stream);
    }
}

/// The frames that come in among `steps`.
pub open spec fn frames(steps: Seq<RecvStep>) -> Set<(u64, Seq<u8>)> {
    Set::new(|f: (u64, Seq<u8>)| exists|fin: bool| steps.contains(RecvStep::Frame(fin, f.0, f.1)))
}

/// A frame that carries the end of the stream comes in among `steps`.
pub open spec fn ended(steps: Seq<RecvStep>) -> bool {
    exists|i: int|
        0 <= i < steps.len() && (#[trigger] steps[i] matches RecvStep::Frame(fin, _, _) && fin)
}

/// After honest steps whose frames are among frames that fit together, each
/// offset of a frame that came in has been read or is held, and the size is
/// known if the end came in.
proof fn lemma_delivered(steps: Seq<RecvStep>, all: Set<(u64, Seq<u8>)>, stream: Seq<u8>)
    requires
        stream.len() <= u64::MAX,
        forall|i: int| 0 <= i < steps.len() ==> honest(stream, #[trigger] steps[i]),
        crate::rx_laws::fit_together(all),
        frames(steps).subset_of(all),
    ensures
        crate::rx_laws::made_of(after_steps(steps).rx, all),
        forall|f: (u64, Seq<u8>), o: int|
            frames(steps).contains(f) && #[trigger] crate::rx_laws::frame_has(f, o) ==> o
                < after_steps(steps).rx.retired || after_steps(steps).rx.held(o),
        ended(steps) ==> after_steps(steps).final_size is Some,
    decreases steps.len(),
{
    if steps.len() > 0 {
        let before = steps.drop_last();
        let s = after_steps(before);
        let t = after_steps(steps);
        let step = steps[steps.len() - 1];
        assert forall|i: int| 0 <= i < before.len() implies honest(
            stream,
            #[trigger] before[i],
        ) by {
            assert(before[i] == steps[i]);
        }
        assert forall|f: (u64, Seq<u8>)| frames(before).contains(f) implies all.contains(f) by {
            let fin = choose|fin: bool| before.contains(RecvStep::Frame(fin, f.0, f.1));
            let i = before.index_of(RecvStep::Frame(fin, f.0, f.1));
            assert(steps[i] == before[i]);
            assert(steps.contains(RecvStep::Frame(fin, f.0, f.1)));
            assert(frames(steps).contains(f));
        }
        lemma_sound_steps(before, stream);
        lemma_sound_highest(s, stream);
        lemma_delivered(before, all, stream);
        match step {
            RecvStep::Frame(fin, start, data) => {
                let f = (start, data);
                assert(steps.contains(RecvStep::Frame(fin, f.0, f.1)));
                assert(frames(steps).contains(f));
                crate::rx_laws::law_fitting_frame(s.rx, all, start, data);
            },
            RecvStep::Read(cap) => {
                crate::rx_laws::law_read_made_of(s.rx, all, s.rx.read_len(cap));
            },
            RecvStep::Update => {},
        }
        assert forall|f: (u64, Seq<u8>), o: int|
            frames(steps).contains(f) && #[trigger] crate::rx_laws::frame_has(f, o) implies o
            < t.rx.retired || t.rx.held(o) by {
            let fin = choose|fin: bool| steps.contains(RecvStep::Frame(fin, f.0, f.1));
            let i = steps.index_of(RecvStep::Frame(fin, f.0, f.1));
            if i < before.len() {
                assert(before[i] == RecvStep::Frame(fin, f.0, f.1));
                assert(before.contains(RecvStep::Frame(fin, f.0, f.1)));
                assert(frames(before).contains(f));
                assert(o < s.rx.retired || s.rx.held(o));
                if let RecvStep::Read(cap) = step {
                    if t.rx.retired <= o {
                        crate::rx_laws::law_read_keeps(s.rx, s.rx.read_len(cap), o);
                    }
                }
            } else {
                assert(step == RecvStep::Frame(fin, f.0, f.1));
            }
        }
        if ended(steps) {
            let i = choose|i: int|
                0 <= i < steps.len() && (#[trigger] steps[i] matches RecvStep::Frame(fin, _, _)
                    && fin);
            if i < before.len() {
                assert(before[i] == steps[i]);
                assert(ended(before));
            }
        }
    }
}

/// Frames that are cut from one stream, that fit together and that have all of
/// its bytes are read back whole: whatever the order in which they come in, how
/// often each does and however they are read in between, one more read into a
/// buffer with enough room completes the stream, and reports the end if a frame
/// carried it.
pub proof fn law_frames_read_back(steps: Seq<RecvStep>, stream: Seq<u8>, cap: nat)
    requires
        stream.len() <= u64::MAX,
        forall|i: int| 0 <= i < steps.len() ==> honest(stream, #[trigger] steps[i]),
        crate::rx_laws::fit_together(frames(steps)),
        crate::rx_laws::cover(frames(steps), stream.len()),
        stream.len() <= after_steps(steps).rx.retired + cap,
    ensures
        output(steps.push(RecvStep::Read(cap))) == stream,
        after_steps(steps.push(RecvStep::Read(cap))).rx.retired == stream.len(),
        after_steps(steps.push(RecvStep::Read(cap))).at_end() <==> ended(steps),
{
    let s = after_steps(steps);
    let more = steps.push(RecvStep::Read(cap));
    lemma_sound_steps(steps, stream);
    lemma_delivered(steps, frames(steps), stream);
    assert forall|o: int| s.rx.retired <= o < stream.len() implies #[trigger] s.rx.held(o) by {
        assert(crate::rx_laws::brings(frames(steps), o));
        let f = choose|f: (u64, Seq<u8>)|
            frames(steps).contains(f) && #[trigger] crate::rx_laws::frame_has(f, o);
        assert(crate::rx_laws::frame_has(f, o));
    }
    crate::rx_laws::law_all_available(s.rx, stream);
    assert(more.drop_last() =~= steps);
    assert forall|i: int| 0 <= i < more.len() implies honest(stream, #[trigger] more[i]) by {
        if i < steps.len() {
            assert(more[i] == steps[i]);
        }
    }
    lemma_sound_steps(more, stream);
    assert(output(more) =~= stream);
    if !ended(steps) {
        lemma_not_ended(steps);
    }
}

/// The size is not known before the end comes in.
proof fn lemma_not_ended(steps: Seq<RecvStep>)
    requires
        !ended(steps),
    ensures
        after_steps(steps).final_size is None,
    decreases steps.len(),
{
    if steps.len() > 0 {
        let before = steps.drop_last();
        assert forall|i: int| 0 <= i < before.len() implies before[i] == #[trigger] steps[i] by {}
        assert(!ended(before)) by {
            if ended(before) {
                let i = choose|i: int|
                    0 <= i < before.len() && (#[trigger] before[i] matches RecvStep::Frame(
                        fin,
                        _,
                        _,
                    ) && fin);
                assert(steps[i] == before[i]);
            }
        }
        lemma_not_ended(before);
        assert(steps.last() == steps[steps.len() - 1]);
    }
}

/// Where the size of the stream is known, just those frames are rejected that
/// reach past it, or that carry an end elsewhere, whatever their offset.
pub proof fn law_rejects_known_size(s: RecvState, fin: bool, start: u64, len: nat, size: u64)
    requires
        s.final_size == Some(size),
    ensures
        start + len > size ==> s.rejects(fin, start, len),
        fin && start + len != size ==> s.rejects(fin, start, len),
        !fin && start + len <= size ==> !s.rejects(fin, start, len),
        start + len == size ==> !s.rejects(fin, start, len),
{
}

/// Where the size is not known, just those frames are rejected that carry an end
/// below the end of some range, or below the read position of a buffer without
/// ranges.
pub proof fn law_rejects_unknown_size(s: RecvState, fin: bool, start: u64, len: nat)
    requires
        s.wf(),
        s.final_size is None,
    ensures
        s.rejects(fin, start, len) <==> fin && ((exists|k: u64| #[trigger]
            s.rx.ranges.contains_key(k) && start + len < k + s.rx.ranges[k].len()) || ((forall|
            k: u64,
        |
            !#[trigger] s.rx.ranges.contains_key(k)) && start + len < s.rx.retired)),
{
    crate::rx_laws::law_highest(s.rx);
}

/// A frame that is not rejected goes to the receive buffer as it is, sets the
/// size if it carries the end, and does not touch what the sender was told.
pub proof fn law_accepted_frame(s: RecvState, fin: bool, start: u64, data: Seq<u8>)
    requires
        start + data.len() <= u64::MAX,
        !s.rejects(fin, start, data.len()),
    ensures
        s.after_frame(fin, start, data).rx == s.rx.after_frame(start, data),
        s.after_frame(fin, start, data).rx_window == s.rx_window,
        fin ==> (s.after_frame(fin, start, data).final_size matches Some(size) && size == start
            + data.len()),
        !fin ==> s.after_frame(fin, start, data).final_size == s.final_size,
{
}

/// After a frame that is not rejected each of its offsets is held that was held
/// before, or that lies below every range that starts after the frame. Nothing
/// that was held is lost. A byte that was not held before is that of the frame.
pub proof fn law_accepted_frame_delivers(
    s: RecvState,
    fin: bool,
    start: u64,
    data: Seq<u8>,
    o: int,
)
    requires
        s.wf(),
        start + data.len() <= u64::MAX,
        !s.rejects(fin, start, data.len()),
    ensures
        s.rx.held(o) ==> s.after_frame(fin, start, data).rx.held(o),
        start <= o < start + data.len() && (forall|k: u64| #[trigger]
            s.rx.ranges.contains_key(k) && start < k ==> o < k) ==> s.after_frame(
            fin,
            start,
            data,
        ).rx.held(o),
        !s.rx.held(o) && s.after_frame(fin, start, data).rx.held(o) ==> start <= o < start
            + data.len() && s.after_frame(fin, start, data).rx.byte(o) == data[o - start],
        s.after_frame(fin, start, data).rx.retired == s.rx.retired,
{
    crate::rx_laws::law_frame_precedence(s.rx, start, data, o);
    crate::rx_laws::law_frame_ranges(s.rx, start, data);
    crate::rx_laws::law_frame_bytes(s.rx, start, data, o);
    if start <= o < start + data.len() && (forall|k: u64| #[trigger]
        s.rx.ranges.contains_key(k) && start < k ==> o < k) {
        crate::rx_laws::law_frame_delivers(s.rx, start, data, o);
    }
}

/// A frame that is not rejected and that starts at or below the first gap
/// carries what can be read up to its own end, if each of its offsets from the
/// gap on is held or lies below every range that starts after the frame. This
/// holds however the frame overlaps what is held.
pub proof fn law_accepted_frame_extends(s: RecvState, fin: bool, start: u64, data: Seq<u8>)
    requires
        s.wf(),
        start + data.len() <= u64::MAX,
        !s.rejects(fin, start, data.len()),
        start <= s.rx.retired + s.rx.available(),
        forall|o: int, k: u64|
            s.rx.retired + s.rx.available() <= o < start + data.len() && #[trigger]
            s.rx.ranges.contains_key(k) && start < k <= o ==> #[trigger] s.rx.held(o),
    ensures
        ({
            let t = s.after_frame(fin, start, data);
            &&& t.rx.retired + t.rx.available() >= s.rx.retired + s.rx.available()
            &&& t.rx.retired + t.rx.available() >= start + data.len()
        }),
{
    crate::rx_laws::law_frame_extends(s.rx, start, data);
}

/// The stream has been read to its end just if its size is known and that many
/// bytes have been read.
pub proof fn law_at_end(s: RecvState)
    ensures
        s.at_end() <==> exists|size: u64| s.final_size == Some(size) && size == s.rx.retired,
{
}

/// A read touches nothing but the receive buffer.
pub proof fn law_read_only_buffer(s: RecvState, n: nat)
    ensures
        s.after_read(n).rx == s.rx.after_read(n),
        s.after_read(n).final_size == s.final_size,
        s.after_read(n).rx_window == s.rx_window,
{
}

/// A new stream has received nothing, its size is not known, and the sender may
/// send the first `window` bytes.
pub proof fn law_initial(window: nat)
    ensures
        RecvState::initial(window).final_size is None,
        RecvState::initial(window).rx_window == window,
        RecvState::initial(window).rx == RxState::empty(),
{
}

/// The sender is told just if the size is not known and over half of a window of
/// what it may send has been read. The offset it is told is one window past the
/// read position, which is the one that is recorded, and nothing else changes.
pub proof fn law_update(s: RecvState)
    ensures
        s.wants_update() <==> s.final_size is None && s.rx.retired + RX_STREAM_DATA_WINDOW
            - s.rx_window > RX_STREAM_DATA_WINDOW / 2,
        s.new_window() == s.rx.retired + RX_STREAM_DATA_WINDOW,
        s.wants_update() ==> s.after_update().rx_window == s.rx.retired + RX_STREAM_DATA_WINDOW,
        !s.wants_update() ==> s.after_update().rx_window == s.rx_window,
        s.after_update().final_size == s.final_size,
        s.after_update().rx == s.rx,
{
}

/// Two times that the sender is told, with `n` bytes read in between: the second
/// offset is `n` above the first.
pub proof fn law_updates_follow_reads(s: RecvState, n: nat)
    requires
        s.wants_update(),
        s.after_update().after_read(n).wants_update(),
    ensures
        s.after_update().after_read(n).new_window() == s.new_window() + n,
        s.after_update().after_read(n).after_update().rx_window == s.after_update().rx_window + n,
        n > RX_STREAM_DATA_WINDOW / 2,
{
    crate::rx_laws::law_read_ranges(s.rx, n, 0);
}

/// How far the frames among `steps` reach.
pub open spec fn reached(steps: Seq<RecvStep>) -> int
    decreases steps.len(),
{
    if steps.len() == 0 {
        0
    } else {
        let before = reached(steps.drop_last());
        match steps.last() {
            RecvStep::Frame(_, start, data) => if before < start + data.len() {
                start + data.len()
            } else {
                before
            },
            _ => before,
        }
    }
}

/// The greatest offset at which a frame among `steps` starts.
pub open spec fn latest(steps: Seq<RecvStep>) -> int
    decreases steps.len(),
{
    if steps.len() == 0 {
        0
    } else {
        let before = latest(steps.drop_last());
        match steps.last() {
            RecvStep::Frame(_, start, _) => if before < start {
                start as int
            } else {
                before
            },
            _ => before,
        }
    }
}

/// Each frame among `steps` starts at or below what the frames before it reach.
/// One that reaches further than they do starts below none of them. They may
/// overlap in any way, and any part of what was reached may come again.
pub open spec fn chained(steps: Seq<RecvStep>) -> bool
    decreases steps.len(),
{
    steps.len() > 0 ==> chained(steps.drop_last()) && (steps.last() matches RecvStep::Frame(
        _,
        start,
        data,
    ) ==> start <= reached(steps.drop_last()) && (latest(steps.drop_last()) <= start || start
        + data.len() <= reached(steps.drop_last())))
}

/// Where frames are chained, what has been read and what can be read is all that
/// they reach.
proof fn lemma_chained(steps: Seq<RecvStep>, stream: Seq<u8>)
    requires
        stream.len() <= u64::MAX,
        forall|i: int| 0 <= i < steps.len() ==> honest(stream, #[trigger] steps[i]),
        chained(steps),
    ensures
        after_steps(steps).rx.retired + after_steps(steps).rx.available() == reached(steps),
        reached(steps) <= stream.len(),
        forall|k: u64| #[trigger]
            after_steps(steps).rx.ranges.contains_key(k) ==> k <= latest(steps),
    decreases steps.len(),
{
    if steps.len() == 0 {
        assert forall|o: int| !#[trigger] RxState::empty().held(o) by {}
        assert(!RxState::empty().held(0));
    } else {
        let before = steps.drop_last();
        let s = after_steps(before);
        let t = after_steps(steps);
        let step = steps[steps.len() - 1];
        assert forall|i: int| 0 <= i < before.len() implies honest(
            stream,
            #[trigger] before[i],
        ) by {
            assert(before[i] == steps[i]);
        }
        lemma_chained(before, stream);
        lemma_sound_steps(before, stream);
        lemma_sound_highest(s, stream);
        match step {
            RecvStep::Frame(fin, start, data) => {
                assert(honest(stream, step));
                law_accepted_frame(s, fin, start, data);
                crate::rx_laws::law_frame_ranges(s.rx, start, data);
                crate::rx_laws::law_frame_extends(s.rx, start, data);
                if start + data.len() <= reached(before) {
                    let gap = reached(before);
                    crate::rx_laws::law_available(s.rx);
                    law_accepted_frame_delivers(s, fin, start, data, gap);
                    crate::rx_laws::law_available(t.rx);
                    assert(!t.rx.held(gap));
                }
                assert forall|k: u64| #[trigger] t.rx.ranges.contains_key(k) implies k <= latest(
                    steps,
                ) by {
                    if k != start {
                        assert(s.rx.ranges.contains_key(k));
                    }
                }
            },
            RecvStep::Read(cap) => {
                let n = s.rx.read_len(cap);
                crate::rx_laws::law_read_rest(s.rx, n);
                assert forall|k: u64| #[trigger] t.rx.ranges.contains_key(k) implies k <= latest(
                    before,
                ) by {
                    assert(s.rx.ranges.contains_key(k));
                }
            },
            RecvStep::Update => {},
        }
    }
}

/// Frames of one stream that are chained, overlaps and all, are read back up to
/// the greatest offset that any of them reaches: whatever is read in between, one
/// more read into a buffer with enough room completes that much of the stream.
pub proof fn law_chained_frames_read_back(steps: Seq<RecvStep>, stream: Seq<u8>, cap: nat)
    requires
        stream.len() <= u64::MAX,
        forall|i: int| 0 <= i < steps.len() ==> honest(stream, #[trigger] steps[i]),
        chained(steps),
        reached(steps) <= after_steps(steps).rx.retired + cap,
    ensures
        output(steps.push(RecvStep::Read(cap))) == stream.take(reached(steps)),
        after_steps(steps.push(RecvStep::Read(cap))).rx.retired == reached(steps),
{
    let more = steps.push(RecvStep::Read(cap));
    lemma_chained(steps, stream);
    assert(more.drop_last() =~= steps);
    assert forall|i: int| 0 <= i < more.len() implies honest(stream, #[trigger] more[i]) by {
        if i < steps.len() {
            assert(more[i] == steps[i]);
        }
    }
    lemma_sound_steps(more, stream);
}

/// The model of a stream is made of its fields.
pub proof fn law_stream_fields(
    s: crate::recv_stream::RecvStream,
    t: crate::send_stream::SendStream,
    b: crate::bidi_stream::BidiStream,
)
    ensures
        s@.final_size == s.final_size,
        s@.rx_window == s.rx_window,
        s@.rx == s.rx_orderer@,
        crate::recv_stream::Recvable::recv_state(&s) == s@,
        crate::send_stream::Sendable::send_state(&t) == t.tx_buffer@,
        crate::recv_stream::Recvable::recv_state(&b) == b.rx@,
        crate::send_stream::Sendable::send_state(&b) == b.tx.tx_buffer@,
{
}

} // verus!
