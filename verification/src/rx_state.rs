//! The mathematical model of a receive buffer: which parts of a stream are
//! held, and how far the stream has been read.
use vstd::prelude::*;

verus! {

/// What a receive buffer holds. `ranges` gives, for each start offset, the
/// bytes of one contiguous piece of the stream. `retired` is the number of
/// bytes that the application has read.
#[verifier::ext_equal]
pub struct RxState {
    pub ranges: Map<u64, Seq<u8>>,
    pub retired: nat,
}

impl RxState {
    /// A buffer that holds nothing, of a stream that has not been read.
    pub open spec fn empty() -> Self {
        RxState { ranges: Map::empty(), retired: 0 }
    }

    /// The offset just past the range that starts at `k`.
    pub open spec fn end(self, k: u64) -> int {
        k + self.ranges[k].len()
    }

    /// Offsets fit in 64 bits, and no range reaches into the one after it.
    pub open spec fn wf(self) -> bool {
        &&& self.retired <= u64::MAX
        &&& self.ranges.dom().finite()
        &&& forall|k: u64| #[trigger] self.ranges.contains_key(k) ==> self.end(k) <= u64::MAX
        &&& forall|j: u64, k: u64| #[trigger]
            self.ranges.contains_key(j) && #[trigger] self.ranges.contains_key(k) && j < k
                ==> self.end(j) <= k
    }

    /// Every range has bytes that are still to be read.
    pub open spec fn pending(self) -> bool {
        forall|k: u64| #[trigger] self.ranges.contains_key(k) ==> self.retired < self.end(k)
    }

    /// The range that starts at `k` has the byte at offset `o`.
    pub open spec fn covers(self, k: u64, o: int) -> bool {
        self.ranges.contains_key(k) && k <= o < self.end(k)
    }

    /// Some range has the byte at offset `o`.
    pub open spec fn held(self, o: int) -> bool {
        exists|k: u64| self.covers(k, o)
    }

    /// The byte that is held at offset `o`.
    pub open spec fn byte(self, o: int) -> u8
        recommends
            self.held(o),
    {
        let k = choose|k: u64| self.covers(k, o);
        self.ranges[k][o - k]
    }

    /// Every byte that is held is the one that `stream` has at its offset.
    pub open spec fn agrees(self, stream: Seq<u8>) -> bool {
        forall|o: int| #[trigger]
            self.held(o) ==> o < stream.len() && self.byte(o) == stream[o]
    }

    /// How many offsets from `o` on are held without a gap.
    pub open spec fn run(self, o: int) -> nat
        decreases u64::MAX - o,
    {
        if o < u64::MAX && self.held(o) {
            1 + self.run(o + 1)
        } else {
            0
        }
    }

    /// How many bytes can be read before the first gap.
    pub open spec fn available(self) -> nat {
        self.run(self.retired as int)
    }

    /// The first `n` bytes that are to be read.
    pub open spec fn front(self, n: nat) -> Seq<u8> {
        Seq::new(n, |i: int| self.byte(self.retired + i))
    }

    /// How many bytes a read into a buffer of `cap` bytes gives.
    pub open spec fn read_len(self, cap: nat) -> nat {
        if self.available() < cap {
            self.available()
        } else {
            cap
        }
    }

    /// Some range starts at or below the read position.
    pub open spec fn data_ready(self) -> bool {
        exists|k: u64| #[trigger] self.ranges.contains_key(k) && k <= self.retired
    }

    /// The offsets that are held and have not been read.
    pub open spec fn unread(self) -> Set<int> {
        Set::new(|o: int| self.retired <= o && self.held(o))
    }

    /// How many bytes are held and have not been read.
    pub open spec fn buffered(self) -> nat {
        self.unread().len()
    }

    /// The range that starts at `k` is the last one.
    pub open spec fn is_last(self, k: u64) -> bool {
        &&& self.ranges.contains_key(k)
        &&& forall|j: u64| #[trigger] self.ranges.contains_key(j) ==> j <= k
    }

    /// The offset just past the last range, or the read position if nothing is
    /// held.
    pub open spec fn highest(self) -> int {
        if exists|k: u64| self.is_last(k) {
            self.end(choose|k: u64| self.is_last(k))
        } else {
            self.retired as int
        }
    }

    /// `k` is the greatest start offset that is not above `start`.
    pub open spec fn is_prev(self, start: u64, k: u64) -> bool {
        &&& self.ranges.contains_key(k)
        &&& k <= start
        &&& forall|j: u64| #[trigger] self.ranges.contains_key(j) && j <= start ==> j <= k
    }

    /// `k` is the least start offset above `start`.
    pub open spec fn is_next(self, start: u64, k: u64) -> bool {
        &&& self.ranges.contains_key(k)
        &&& start < k
        &&& forall|j: u64| #[trigger] self.ranges.contains_key(j) && start < j ==> k <= j
    }

    /// The start of the range at or before `start`.
    pub open spec fn prev(self, start: u64) -> Option<u64> {
        if exists|k: u64| self.is_prev(start, k) {
            Some(choose|k: u64| self.is_prev(start, k))
        } else {
            None
        }
    }

    /// The start of the range after `start`.
    pub open spec fn next(self, start: u64) -> Option<u64> {
        if exists|k: u64| self.is_next(start, k) {
            Some(choose|k: u64| self.is_next(start, k))
        } else {
            None
        }
    }

    /// The range before a frame already has all of the frame's bytes.
    pub open spec fn covered(self, start: u64, len: nat) -> bool {
        self.prev(start) matches Some(p) && start + len <= self.end(p)
    }

    /// How many bytes of a frame come before the range after it.
    pub open spec fn kept(self, start: u64, len: nat) -> nat {
        match self.next(start) {
            Some(n) => if n < start + len {
                (n - start) as nat
            } else {
                len
            },
            None => len,
        }
    }

    /// The ranges once the one before a frame has been cut off where the frame
    /// starts.
    pub open spec fn trimmed(self, start: u64) -> Map<u64, Seq<u8>> {
        match self.prev(start) {
            Some(p) => if p < start && start < self.end(p) {
                self.ranges.insert(p, self.ranges[p].take(start - p))
            } else {
                self.ranges
            },
            None => self.ranges,
        }
    }

    /// The buffer after a frame with the bytes `data` at offset `start`. A frame
    /// whose bytes are all in the range before it changes nothing. Of any other
    /// frame the bytes up to the next range become a range, which replaces what
    /// the range before it had from `start` on.
    pub open spec fn after_frame(self, start: u64, data: Seq<u8>) -> Self {
        if self.covered(start, data.len()) {
            self
        } else {
            RxState {
                ranges: self.trimmed(start).insert(
                    start,
                    data.take(self.kept(start, data.len()) as int),
                ),
                retired: self.retired,
            }
        }
    }

    /// The buffer after `n` bytes have been read: the ranges that have bytes
    /// left stay.
    pub open spec fn after_read(self, n: nat) -> Self {
        RxState {
            ranges: Map::new(
                |k: u64| self.ranges.contains_key(k) && self.retired + n < self.end(k),
                |k: u64| self.ranges[k],
            ),
            retired: self.retired + n,
        }
    }

    /// The ranges at most `start` have a last one unless there are none.
    pub proof fn lemma_prev(self, start: u64)
        ensures
            match self.prev(start) {
                Some(p) => self.is_prev(start, p),
                None => forall|j: u64| #[trigger] self.ranges.contains_key(j) ==> start < j,
            },
        decreases start,
    {
        if self.ranges.contains_key(start) {
            assert(self.is_prev(start, start));
        } else if start > 0 {
            let below = (start - 1) as u64;
            self.lemma_prev(below);
            if let Some(p) = self.prev(below) {
                assert(self.is_prev(start, p));
            }
        }
    }

    /// The ranges above `start` have a first one unless there are none.
    pub proof fn lemma_next(self, start: u64)
        ensures
            match self.next(start) {
                Some(n) => self.is_next(start, n),
                None => forall|j: u64| #[trigger] self.ranges.contains_key(j) ==> j <= start,
            },
        decreases u64::MAX - start,
    {
        if start < u64::MAX {
            let above = (start + 1) as u64;
            if self.ranges.contains_key(above) {
                assert(self.is_next(start, above));
            } else {
                self.lemma_next(above);
                if let Some(n) = self.next(above) {
                    assert(self.is_next(start, n));
                }
            }
        }
    }

    /// The highest offset is that past the last range, whichever way the last
    /// range was found.
    pub proof fn lemma_highest(self)
        ensures
            match self.prev(u64::MAX) {
                Some(p) => self.is_last(p) && self.highest() == self.end(p),
                None => self.highest() == self.retired && forall|j: u64|
                    !#[trigger] self.ranges.contains_key(j),
            },
    {
        self.lemma_prev(u64::MAX);
        if let Some(p) = self.prev(u64::MAX) {
            assert(self.is_last(p));
            let k = choose|k: u64| self.is_last(k);
            assert(k == p);
        }
    }

    /// Only one range has the byte at a given offset.
    pub proof fn lemma_byte(self, k: u64, o: int)
        requires
            self.wf(),
            self.covers(k, o),
        ensures
            self.held(o),
            self.byte(o) == self.ranges[k][o - k],
    {
        let c = choose|c: u64| self.covers(c, o);
        assert(self.covers(c, o));
        assert(c == k);
    }

    /// A stretch of held offsets that ends at a limit or at a gap is as much of
    /// a run as the limit allows.
    pub proof fn lemma_run(self, o: int, n: nat, limit: nat)
        requires
            self.wf(),
            n <= limit,
            forall|i: int| o <= i < o + n ==> #[trigger] self.held(i),
            n == limit || !self.held(o + n),
        ensures
            n == if self.run(o) < limit { self.run(o) } else { limit },
        decreases n,
    {
        if n > 0 {
            assert(self.held(o));
            let k = choose|k: u64| self.covers(k, o);
            assert(self.covers(k, o));
            self.lemma_run(o + 1, (n - 1) as nat, (limit - 1) as nat);
        }
    }

    /// A run is made of held offsets and ends at one that is not held.
    pub proof fn lemma_run_held(self, o: int)
        requires
            self.wf(),
        ensures
            forall|i: int| o <= i < o + self.run(o) ==> #[trigger] self.held(i),
            !self.held(o + self.run(o)),
        decreases u64::MAX - o,
    {
        if o < u64::MAX && self.held(o) {
            self.lemma_run_held(o + 1);
        } else if self.held(o) {
            let k = choose|k: u64| self.covers(k, o);
            assert(self.covers(k, o));
        }
    }

    /// The unread offsets are finitely many, and their number fits in 64 bits.
    pub proof fn lemma_unread(self)
        requires
            self.wf(),
        ensures
            self.unread().finite(),
            self.buffered() <= u64::MAX,
    {
        let all = vstd::set_lib::set_int_range(0, u64::MAX as int);
        vstd::set_lib::lemma_int_range(0, u64::MAX as int);
        assert forall|o: int| self.unread().contains(o) implies all.contains(o) by {
            let k = choose|k: u64| self.covers(k, o);
            assert(self.covers(k, o));
        }
        vstd::set_lib::lemma_len_subset(self.unread(), all);
    }

    /// A frame leaves a well-formed buffer well-formed.
    pub proof fn lemma_frame_wf(self, start: u64, data: Seq<u8>)
        requires
            self.wf(),
            start + data.len() <= u64::MAX,
        ensures
            self.after_frame(start, data).wf(),
    {
        self.lemma_prev(start);
        self.lemma_next(start);
        let t = self.after_frame(start, data);
        if !self.covered(start, data.len()) {
            assert(self.trimmed(start).dom() =~= self.ranges.dom());
            assert forall|j: u64, k: u64| #[trigger]
                t.ranges.contains_key(j) && #[trigger] t.ranges.contains_key(k) && j
                    < k implies t.end(j) <= k by {
                if j == start {
                    assert(self.ranges.contains_key(k));
                } else if k == start {
                    assert(self.ranges.contains_key(j));
                    if let Some(p) = self.prev(start) {
                        assert(j <= p);
                        if j < p {
                            assert(self.end(j) <= p);
                        }
                    }
                } else {
                    assert(self.ranges.contains_key(j));
                    assert(self.ranges.contains_key(k));
                }
            }
        }
    }

    /// Reading leaves a well-formed buffer well-formed, and the ranges that stay
    /// have bytes left.
    pub proof fn lemma_read_wf(self, n: nat)
        requires
            self.wf(),
            n <= self.available(),
        ensures
            self.after_read(n).wf(),
            self.after_read(n).pending(),
    {
        let t = self.after_read(n);
        assert(t.ranges.dom().subset_of(self.ranges.dom()));
        vstd::set_lib::lemma_len_subset(t.ranges.dom(), self.ranges.dom());
        assert forall|k: u64| t.ranges.contains_key(k) implies self.ranges.contains_key(k) by {}
        if n > 0 {
            self.lemma_run_held(self.retired as int);
            let o = self.retired + n - 1;
            assert(self.held(o));
            let k = choose|k: u64| self.covers(k, o);
            assert(self.covers(k, o));
        }
    }

    /// Something can be read just if the range at or before the read position
    /// reaches past it.
    pub proof fn lemma_available(self)
        requires
            self.wf(),
        ensures
            self.available() > 0 <==> (self.prev(self.retired as u64) matches Some(p)
                && self.retired < self.end(p)),
    {
        let o = self.retired as int;
        self.lemma_prev(self.retired as u64);
        if self.held(o) {
            let k = choose|k: u64| self.covers(k, o);
            assert(self.covers(k, o));
            if let Some(p) = self.prev(self.retired as u64) {
                assert(k <= p);
                assert(k < p ==> self.end(k) <= p);
            }
        }
        if let Some(p) = self.prev(self.retired as u64) {
            if self.retired < self.end(p) {
                assert(self.covers(p, o));
            }
        }
    }
}

} // verus!
