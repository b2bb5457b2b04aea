//! Reassembly of a received stream from frames in any order.
use std::collections::BTreeMap;

use vstd::prelude::*;

use crate::error::Res;
use crate::rx_state::RxState;

verus! {

/// `s` lists the entries of `m` by increasing key.
spec fn lists(m: Map<u64, Vec<u8>>, s: Seq<(&u64, &Vec<u8>)>) -> bool {
    &&& forall|i: int, j: int|
        0 <= i < j < s.len() ==> *(#[trigger] s[i]).0 < *(#[trigger] s[j]).0
    &&& forall|i: int|
        0 <= i < s.len() ==> m.contains_key(*(#[trigger] s[i]).0) && m[*s[i].0] == *s[i].1
    &&& forall|k: u64| #[trigger]
        m.contains_key(k) ==> exists|i: int| 0 <= i < s.len() && *(#[trigger] s[i]).0 == k
}

/// The entries of `m` by increasing key.
fn entries(m: &BTreeMap<u64, Vec<u8>>) -> (it: std::collections::btree_map::Iter<'_, u64, Vec<u8>>)
    ensures
        lists(m@, vstd::std_specs::iter::IteratorSpec::remaining(&it)),
        vstd::std_specs::iter::IteratorSpec::obeys_prophetic_iter_laws(&it),
        vstd::std_specs::iter::IteratorSpec::initial_value_relation(&it, &it),
        vstd::std_specs::iter::IteratorSpec::decrease(&it) is Some,
{
    broadcast use vstd::laws_cmp::group_laws_cmp;

    let it = m.iter();
    proof {
        let s = vstd::std_specs::iter::IteratorSpec::remaining(&it);
        let keys = s.map_values(|kv: (&u64, &Vec<u8>)| *kv.0);
        assert(vstd::std_specs::btree::increasing_seq(keys));
        assert(vstd::laws_cmp::obeys_cmp::<u64>());
        assert forall|i: int, j: int| 0 <= i < j < s.len() implies *(#[trigger] s[i]).0
            < *(#[trigger] s[j]).0 by {
            assert(keys[i] == *s[i].0 && keys[j] == *s[j].0);
            assert(vstd::std_specs::cmp::OrdSpec::cmp_spec(&keys[i], &keys[j]) is Less);
        }
        assert forall|k: u64| #[trigger] m@.contains_key(k) implies exists|i: int|
            0 <= i < s.len() && *(#[trigger] s[i]).0 == k by {
            assert(s.contains((&k, &m@[k])));
            let i = choose|i: int| 0 <= i < s.len() && s[i] == (&k, &m@[k]);
            assert(*s[i].0 == k);
        }
    }
    it
}

/// The unread offsets in the first `n` ranges of the list `s`.
spec fn unread_in(state: RxState, s: Seq<(&u64, &Vec<u8>)>, n: int) -> Set<int> {
    Set::new(
        |o: int|
            state.retired <= o && exists|i: int|
                0 <= i < n && state.covers(*(#[trigger] s[i]).0, o),
    )
}

/// One more range adds its unread offsets.
proof fn lemma_unread_in(state: RxState, m: Map<u64, Vec<u8>>, s: Seq<(&u64, &Vec<u8>)>, n: int)
    requires
        state.wf(),
        state.ranges == m.map_values(|data: Vec<u8>| data@),
        lists(m, s),
        0 <= n < s.len(),
        unread_in(state, s, n).finite(),
    ensures
        unread_in(state, s, n + 1).finite(),
        unread_in(state, s, n + 1).len() <= u64::MAX,
        unread_in(state, s, n + 1).len() == unread_in(state, s, n).len()
            + if state.end(*s[n].0) <= state.retired {
            0
        } else if *s[n].0 < state.retired {
            state.end(*s[n].0) - state.retired
        } else {
            s[n].1@.len() as int
        },
{
    let k = *s[n].0;
    assert(state.ranges.contains_key(k));
    let lo = if state.end(k) <= state.retired {
        state.end(k)
    } else if k < state.retired {
        state.retired as int
    } else {
        k as int
    };
    let now = vstd::set_lib::set_int_range(lo, state.end(k));
    vstd::set_lib::lemma_int_range(lo, state.end(k));
    let before = unread_in(state, s, n);
    let after = unread_in(state, s, n + 1);
    assert(after =~= before + now) by {
        assert forall|o: int| now.contains(o) implies after.contains(o) by {
            assert(state.covers(*s[n].0, o));
        }
    }
    assert(before.disjoint(now)) by {
        assert forall|o: int| before.contains(o) implies !now.contains(o) by {
            let i = choose|i: int| 0 <= i < n && state.covers(*(#[trigger] s[i]).0, o);
            assert(state.end(*s[i].0) <= k);
        }
    }
    vstd::set_lib::lemma_set_disjoint_lens(before, now);
    state.lemma_unread();
    assert forall|o: int| after.contains(o) implies state.unread().contains(o) by {}
    vstd::set_lib::lemma_len_subset(after, state.unread());
}

/// Copies `n` bytes of `data`, from `from` on, into `buf` at `at`.
fn copy_bytes(buf: &mut [u8], at: usize, data: &[u8], from: usize, n: usize)
    requires
        at + n <= old(buf)@.len(),
        from + n <= data@.len(),
    ensures
        final(buf)@ == old(buf)@.take(at as int) + data@.subrange(from as int, from + n)
            + old(buf)@.skip(at + n),
{
    let ghost buf0 = buf@;
    assert(at + n <= buf.len() && from + n <= data.len());
    for i in 0..n
        invariant
            at + n <= usize::MAX,
            from + n <= usize::MAX,
            at + n <= buf0.len(),
            buf0.len() == buf@.len(),
            from + n <= data@.len(),
            buf@ == buf0.take(at as int) + data@.subrange(from as int, from + i) + buf0.skip(
                at + i,
            ),
    {
        buf[at + i] = data[from + i];
        assert(buf@ =~= buf0.take(at as int) + data@.subrange(from as int, from + i + 1)
            + buf0.skip(at + i + 1));
    }
}

/// The frames of a stream that have been received but not read to the end,
/// without overlaps.
#[derive(Debug, PartialEq)]
pub struct RxStreamOrderer {
    data_ranges: BTreeMap<u64, Vec<u8>>,
    retired: u64,
}

impl View for RxStreamOrderer {
    type V = RxState;

    closed spec fn view(&self) -> RxState {
        RxState {
            ranges: self.data_ranges@.map_values(|data: Vec<u8>| data@),
            retired: self.retired as nat,
        }
    }
}

impl Default for RxStreamOrderer {
    fn default() -> (res: Self)
        ensures
            res.wf(),
            res@ == RxState::empty(),
    {
        let res = RxStreamOrderer { data_ranges: BTreeMap::new(), retired: 0 };
        assert(res@ =~= RxState::empty());
        res
    }
}

impl RxStreamOrderer {
    /// No two ranges overlap, and all offsets fit in 64 bits.
    pub open spec fn wf(&self) -> bool {
        self@.wf()
    }

    pub fn new() -> (res: Self)
        ensures
            res.wf(),
            res@ == RxState::empty(),
    {
        Self::default()
    }

    /// The start of the range at or before `start`.
    fn prev_start(&self, start: u64) -> (res: Option<u64>)
        ensures
            res == self@.prev(start),
    {
        let mut res: Option<u64> = None;
        for (k, _data) in it: entries(&self.data_ranges)
            invariant_except_break
                match res {
                    Some(k) => it.index() > 0 && k == *it.seq()[it.index() - 1].0 && k <= start,
                    None => it.index() == 0,
                },
            invariant
                lists(self.data_ranges@, it.seq()),
            ensures
                match res {
                    Some(k) => self@.is_prev(start, k),
                    None => forall|j: u64| #[trigger] self@.ranges.contains_key(j) ==> start < j,
                },
        {
            if *k > start {
                break;
            }
            res = Some(*k);
        }
        proof {
            self@.lemma_prev(start);
        }
        res
    }

    /// The start of the range after `start`.
    fn next_start(&self, start: u64) -> (res: Option<u64>)
        ensures
            res == self@.next(start),
    {
        let mut res: Option<u64> = None;
        for (k, _data) in it: entries(&self.data_ranges)
            invariant_except_break
                res is None,
                forall|i: int| 0 <= i < it.index() ==> *(#[trigger] it.seq()[i]).0 <= start,
            invariant
                lists(self.data_ranges@, it.seq()),
            ensures
                match res {
                    Some(k) => self@.is_next(start, k),
                    None => forall|j: u64| #[trigger] self@.ranges.contains_key(j) ==> j <= start,
                },
        {
            if *k > start {
                res = Some(*k);
                break;
            }
        }
        proof {
            self@.lemma_next(start);
        }
        res
    }

    /// How many bytes the range that starts at `start` has.
    fn range_len(&self, start: u64) -> (len: usize)
        requires
            self@.ranges.contains_key(start),
        ensures
            len == self@.ranges[start].len(),
    {
        match self.data_ranges.get(&start) {
            Some(data) => data.len(),
            None => 0,
        }
    }

    /// Process an incoming stream frame off the wire. This may result in data
    /// being available to upper layers if the frame is not out of order or if
    /// the frame fills a gap.
    pub fn inbound_frame(&mut self, new_start: u64, new_data: Vec<u8>) -> (res: Res<()>)
        requires
            old(self).wf(),
            new_start + new_data@.len() <= u64::MAX,
            new_start < u64::MAX,
        ensures
            res == Ok::<(), crate::error::Error>(()),
            final(self).wf(),
            final(self)@ == old(self)@.after_frame(new_start, new_data@),
    {
        let ghost before = self@;
        let ghost old_data = new_data@;
        proof {
            before.lemma_prev(new_start);
            before.lemma_next(new_start);
            before.lemma_frame_wf(new_start, new_data@);
        }
        let mut new_data = new_data;
        let new_end = new_start + new_data.len() as u64;
        let prev = self.prev_start(new_start);
        let next = self.next_start(new_start);
        if let Some(prev_start) = prev {
            let prev_end = prev_start + self.range_len(prev_start) as u64;
            if new_end <= prev_end {
                // PPPPPP    ->  PPPPPP
                //   NNNN
                // All of the new bytes are here already.
                return Ok(());
            }
            if new_start > prev_start && new_start < prev_end {
                // PPPPPP    ->  PP
                //   NNNNNN        NNNNNN
                // Cut the previous range off where the new one starts. (Frames
                // that arrive in order do not overlap.)
                if let Some(mut prev_data) = self.data_ranges.remove(&prev_start) {
                    prev_data.truncate((new_start - prev_start) as usize);
                    self.data_ranges.insert(prev_start, prev_data);
                }
            }
            // PPPP      ->  NNNNNN
            // NNNNNN
            // A range that starts where the new one does is replaced by it.
        }
        assert(self@.ranges =~= before.trimmed(new_start));
        if let Some(next_start) = next {
            //     QQQQ  ->      QQQQ
            // NNNNNN        NNNN
            // Keep what the next range has, and what comes before it.
            if new_end > next_start {
                new_data.truncate((next_start - new_start) as usize);
            }
        }
        assert(new_data@ =~= old_data.take(before.kept(new_start, old_data.len()) as int));
        self.data_ranges.insert(new_start, new_data);
        assert(self@.ranges =~= before.after_frame(new_start, old_data).ranges);
        Ok(())
    }

    /// Whether a range starts at or below the read position.
    pub fn data_ready(&self) -> (res: bool)
        ensures
            res == self@.data_ready(),
    {
        proof {
            self@.lemma_prev(self.retired);
        }
        self.prev_start(self.retired).is_some()
    }

    /// Whether there are bytes that can be read.
    pub fn bytes_ready(&self) -> (res: bool)
        requires
            self.wf(),
        ensures
            res == (self@.available() > 0),
    {
        proof {
            self@.lemma_prev(self.retired);
            self@.lemma_available();
        }
        match self.prev_start(self.retired) {
            Some(start) => self.retired < start + self.range_len(start) as u64,
            None => false,
        }
    }

    /// The number of bytes that the application has read.
    pub fn retired(&self) -> (res: u64)
        ensures
            res == self@.retired,
    {
        self.retired
    }

    /// The number of bytes that are held and have not been read.
    pub fn buffered(&self) -> (res: u64)
        requires
            self.wf(),
        ensures
            res == self@.buffered(),
    {
        let mut total: u64 = 0;
        let list = entries(&self.data_ranges);
        let ghost s = vstd::std_specs::iter::IteratorSpec::remaining(&list);
        assert(unread_in(self@, s, 0) =~= Set::empty());
        assert(unread_in(self@, s, s.len() as int) =~= self@.unread()) by {
            assert forall|o: int| self@.unread().contains(o) implies unread_in(
                self@,
                s,
                s.len() as int,
            ).contains(o) by {
                let k = choose|k: u64| self@.covers(k, o);
                assert(self.data_ranges@.contains_key(k));
            }
        }
        for (k, data) in it: list
            invariant
                it.seq() == s,
                self.wf(),
                lists(self.data_ranges@, it.seq()),
                unread_in(self@, it.seq(), it.index()).finite(),
                total == unread_in(self@, it.seq(), it.index()).len(),
        {
            proof {
                lemma_unread_in(self@, self.data_ranges@, it.seq(), it.index());
                assert(self@.ranges.contains_key(*k));
            }
            total = total + (data.len() as u64).saturating_sub(self.retired.saturating_sub(*k));
        }
        total
    }

    /// The offset just past the last range, or the read position if nothing is
    /// held.
    pub fn highest_seen_offset(&self) -> (res: u64)
        requires
            self.wf(),
        ensures
            res == self@.highest(),
    {
        proof {
            self@.lemma_highest();
        }
        match self.prev_start(u64::MAX) {
            Some(last) => last + self.range_len(last) as u64,
            None => self.retired,
        }
    }

    /// Drops the ranges that have been read to the end.
    fn drop_consumed(&mut self)
        requires
            old(self).wf(),
        ensures
            final(self)@ == old(self)@.after_read(0),
    {
        let ghost before = self@;
        let ghost m0 = self.data_ranges@;
        let mut consumed: Vec<u64> = Vec::new();
        for (start, data) in it: entries(&self.data_ranges)
            invariant_except_break
                consumed@.len() == it.index(),
            invariant
                before.wf(),
                before == self@,
                lists(self.data_ranges@, it.seq()),
                forall|i: int|
                    0 <= i < consumed@.len() ==> before.ranges.contains_key(
                        #[trigger] consumed@[i],
                    ) && before.end(consumed@[i]) <= before.retired,
                forall|i: int|
                    0 <= i < consumed@.len() ==> consumed@[i] == *(#[trigger] it.seq()[i]).0,
            ensures
                forall|k: u64| #[trigger]
                    before.ranges.contains_key(k) && before.end(k) <= before.retired
                        ==> consumed@.contains(k),
        {
            assert(before.ranges.contains_key(*start));
            if self.retired < *start + data.len() as u64 {
                proof {
                    assert forall|k: u64| #[trigger]
                        before.ranges.contains_key(k) && before.end(k)
                            <= before.retired implies consumed@.contains(k) by {
                        let i = choose|i: int|
                            0 <= i < it.seq().len() && *(#[trigger] it.seq()[i]).0 == k;
                        if i >= consumed@.len() {
                            assert(*start <= k);
                        } else {
                            assert(consumed@[i] == k);
                        }
                    }
                }
                break;
            }
            consumed.push(*start);
        }
        for i in 0..consumed.len()
            invariant
                self.retired == before.retired,
                forall|k: u64| #[trigger]
                    self.data_ranges@.contains_key(k) <==> m0.contains_key(k)
                        && !consumed@.take(i as int).contains(k),
                forall|k: u64| #[trigger]
                    self.data_ranges@.contains_key(k) ==> self.data_ranges@[k] == m0[k],
        {
            broadcast use vstd::seq_lib::group_seq_properties;

            self.data_ranges.remove(&consumed[i]);
            assert(consumed@.take(i + 1) =~= consumed@.take(i as int).push(consumed@[i as int]));
        }
        assert(consumed@.take(consumed@.len() as int) =~= consumed@);
        assert forall|k: u64| #[trigger]
            self@.ranges.contains_key(k) <==> before.after_read(0).ranges.contains_key(k) by {
            assert(m0.contains_key(k) <==> before.ranges.contains_key(k));
            assert(self@.ranges.contains_key(k) <==> self.data_ranges@.contains_key(k));
        }
        assert(self@.ranges =~= before.after_read(0).ranges);
        assert(self@ =~= before.after_read(0));
    }

    /// Caller has been told data is available on a stream, and they want to
    /// retrieve it. Returns bytes copied.
    pub fn read(&mut self, buf: &mut [u8]) -> (res: Res<u64>)
        requires
            old(self).wf(),
        ensures
            final(self).wf(),
            res matches Ok(n) && n == old(self)@.read_len(old(buf)@.len()),
            final(self)@ == old(self)@.after_read(old(self)@.read_len(old(buf)@.len())),
            final(buf)@ == old(self)@.front(old(self)@.read_len(old(buf)@.len())) + old(buf)@.skip(
                old(self)@.read_len(old(buf)@.len()) as int,
            ),
    {
        let ghost before = self@;
        let ghost buf0 = buf@;
        let mut copied: usize = 0;
        let mut retired: u64 = self.retired;
        assert(buf@ =~= before.front(0) + buf0.skip(0));
        for (start, data) in it: entries(&self.data_ranges)
            invariant_except_break
                copied == buf0.len() || forall|i: int|
                    0 <= i < it.index() ==> before.end(*(#[trigger] it.seq()[i]).0) <= retired,
            invariant
                before.wf(),
                before.ranges == self.data_ranges@.map_values(|data: Vec<u8>| data@),
                lists(self.data_ranges@, it.seq()),
                retired == before.retired + copied,
                copied <= buf0.len(),
                buf0.len() == buf@.len(),
                buf@ == before.front(copied as nat) + buf0.skip(copied as int),
                forall|o: int| before.retired <= o < retired ==> #[trigger] before.held(o),
            ensures
                copied == buf0.len() || !before.held(retired as int),
        {
            assert(before.ranges.contains_key(*start) && before.ranges[*start] == data@);
            if *start > retired {
                break;
            }
            // Move past the bytes that have been read. The rest of the range, if
            // there is any, is contiguous with them.
            let past = retired - *start;
            if past < data.len() as u64 {
                let ghost from = retired;
                let copy_offset = past as usize;
                let left = data.len() - copy_offset;
                let room = buf.len() - copied;
                let n = if left < room {
                    left
                } else {
                    room
                };
                copy_bytes(buf, copied, data.as_slice(), copy_offset, n);
                copied = copied + n;
                retired = retired + n as u64;
                proof {
                    assert forall|o: int| from <= o < retired implies #[trigger] before.held(
                        o,
                    ) by {
                        before.lemma_byte(*start, o);
                    }
                    assert forall|o: int| from <= o < retired implies #[trigger] before.byte(o)
                        == data@[o - *start] by {
                        before.lemma_byte(*start, o);
                    }
                    assert(buf@ =~= before.front(copied as nat) + buf0.skip(copied as int));
                }
            }
        }
        proof {
            before.lemma_run(before.retired as int, copied as nat, buf0.len());
            before.lemma_read_wf(copied as nat);
        }
        self.retired = retired;
        self.drop_consumed();
        assert(self@ =~= before.after_read(copied as nat));
        Ok(copied as u64)
    }
}

} // verus!
