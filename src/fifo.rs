//! Per-thread shared trace buffer: a fixed-size byte ring with a bounded
//! window of bytes that writers have reserved but not yet committed.

use vstd::prelude::*;

verus! {

/// Index mask of the ring; the ring holds `RINGBUF_IND_MASK + 1` bytes.
pub const RINGBUF_IND_MASK: usize = 255;

/// Number of cells of the ring.
pub const RINGBUF_SIZE: usize = 256;

/// Upper bound on the bytes that writers may hold reserved at once.
pub const MAX_IN_PROGRESS_BYTES_WRITE: u8 = 80;

/// Bytes that can be popped when reading at `r` with the write frontier at `w`.
pub open spec fn can_pop_spec(r: int, w: int, n: int, index_mask: int) -> bool {
    (w + index_mask + 1 - r) % (index_mask + 1) >= n
}

/// Room for `n` more bytes when writing at `w` with the reader at `r`
/// (one cell always stays empty so that a full ring differs from an empty one).
pub open spec fn can_push_spec(r: int, w: int, n: int, index_mask: int) -> bool {
    (index_mask + r - w) % (index_mask + 1) >= n
}

/// Whether `n` bytes are available to a reader at `r` when the committed
/// writes end at `w`, in a ring of `index_mask + 1` cells.
pub fn can_pop(r: usize, w: usize, n: u8, index_mask: usize) -> (res: bool)
    requires
        r <= index_mask,
        w <= index_mask,
        index_mask <= usize::MAX / 2,
    ensures
        res == can_pop_spec(r as int, w as int, n as int, index_mask as int),
{
    (w + index_mask + 1 - r) % (index_mask + 1) >= n as usize
}

/// Whether `n` more bytes fit when the writer is at `w` and the reader at `r`,
/// in a ring of `index_mask + 1` cells.
pub fn can_push(r: usize, w: usize, n: u8, index_mask: usize) -> (res: bool)
    requires
        r <= index_mask,
        w <= index_mask,
        index_mask <= usize::MAX / 2,
    ensures
        res == can_push_spec(r as int, w as int, n as int, index_mask as int),
{
    (index_mask + r - w) % (index_mask + 1) >= n as usize
}

/// Position `k` cells after `start` in the ring.
pub open spec fn cell_at(start: int, k: int) -> int {
    (start + k) % (RINGBUF_SIZE as int)
}

proof fn lemma_cell_shift(start: int, a: int, b: int)
    requires
        0 <= start < RINGBUF_SIZE,
        0 <= a < RINGBUF_SIZE,
        0 <= b < RINGBUF_SIZE,
    ensures
        cell_at(cell_at(start, a), b) == cell_at(start, a + b),
{
    if start + a >= RINGBUF_SIZE {
        assert(cell_at(start, a) == start + a - RINGBUF_SIZE);
    } else {
        assert(cell_at(start, a) == start + a);
    }
}

proof fn lemma_cells_distinct(start: int, a: int, b: int)
    requires
        0 <= start < RINGBUF_SIZE,
        0 <= a < RINGBUF_SIZE,
        0 <= b < RINGBUF_SIZE,
        a != b,
    ensures
        cell_at(start, a) != cell_at(start, b),
{
}

/// The committed bytes after pushing `v` onto a ring holding `s`, or `None`
/// when there is no room or the reservation would pass the in-progress bound.
pub open spec fn push_outcome(s: Seq<u8>, v: Seq<u8>) -> Option<Seq<u8>> {
    if s.len() + v.len() <= RINGBUF_IND_MASK && v.len() <= MAX_IN_PROGRESS_BYTES_WRITE {
        Some(s + v)
    } else {
        None
    }
}

/// The `n` bytes popped from a ring holding `s` and what it holds afterwards,
/// or `None` when it holds fewer than `n` bytes.
pub open spec fn pop_outcome(s: Seq<u8>, n: int) -> Option<(Seq<u8>, Seq<u8>)> {
    if n <= s.len() {
        Some((s.take(n), s.skip(n)))
    } else {
        None
    }
}

/// Bytes pushed onto an empty ring come back, all of them and unchanged,
/// from a pop of the same length, which leaves the ring empty again.
pub proof fn lemma_push_then_pop(v: Seq<u8>)
    requires
        0 < v.len() <= MAX_IN_PROGRESS_BYTES_WRITE,
    ensures
        push_outcome(Seq::empty(), v) == Some(v),
        pop_outcome(v, v.len() as int) == Some((v, Seq::<u8>::empty())),
{
    assert(Seq::<u8>::empty() + v =~= v);
    assert(v.take(v.len() as int) =~= v);
    assert(v.skip(v.len() as int) =~= Seq::<u8>::empty());
}

/// The ring is first in, first out: after pushing `v` behind the bytes `s`,
/// popping `s.len()` bytes gives `s` back and leaves exactly `v`.
pub proof fn lemma_fifo_order(s: Seq<u8>, v: Seq<u8>)
    requires
        s.len() + v.len() <= RINGBUF_IND_MASK,
        v.len() <= MAX_IN_PROGRESS_BYTES_WRITE,
    ensures
        push_outcome(s, v) == Some(s + v),
        pop_outcome(s + v, s.len() as int) == Some((s, v)),
{
    assert((s + v).take(s.len() as int) =~= s);
    assert((s + v).skip(s.len() as int) =~= v);
}

/// One call on a ring: a push of some bytes, or a pop of some count.
pub enum RingOp {
    Push(Seq<u8>),
    Pop(nat),
}

/// The effect of a sequence of calls on an empty ring, one after another:
/// (bytes held, bytes committed by accepted pushes, bytes popped, pushes refused).
pub open spec fn run(ops: Seq<RingOp>) -> (Seq<u8>, Seq<u8>, Seq<u8>, nat)
    decreases ops.len(),
{
    if ops.len() == 0 {
        (Seq::empty(), Seq::empty(), Seq::empty(), 0)
    } else {
        let (held, committed, popped, refused) = run(ops.drop_last());
        match ops.last() {
            RingOp::Push(v) => match push_outcome(held, v) {
                Some(next) => (next, committed + v, popped, refused),
                None => (held, committed, popped, refused + 1),
            },
            RingOp::Pop(n) => match pop_outcome(held, n as int) {
                Some((out, next)) => (next, committed, popped + out, refused),
                None => (held, committed, popped, refused),
            },
        }
    }
}

/// Number of pushes among `ops`.
pub open spec fn push_count(ops: Seq<RingOp>) -> nat
    decreases ops.len(),
{
    if ops.len() == 0 {
        0
    } else {
        push_count(ops.drop_last()) + if ops.last() is Push { 1nat } else { 0nat }
    }
}

/// Whatever the order of pushes and pops, every committed byte is popped at
/// most once and in commit order: the bytes popped followed by the bytes still
/// held are exactly the bytes committed, so nothing is popped that was not
/// committed; and no more pushes are refused than were made.
pub proof fn lemma_exactly_once(ops: Seq<RingOp>)
    ensures
        run(ops).1 == run(ops).2 + run(ops).0,
        run(ops).2.len() <= run(ops).1.len(),
        run(ops).3 <= push_count(ops),
    decreases ops.len(),
{
    if ops.len() == 0 {
        assert(Seq::<u8>::empty() + Seq::<u8>::empty() =~= Seq::<u8>::empty());
    } else {
        let prev = ops.drop_last();
        lemma_exactly_once(prev);
        let (held, committed, popped, refused) = run(prev);
        match ops.last() {
            RingOp::Push(v) => {
                match push_outcome(held, v) {
                    Some(next) => {
                        assert(committed + v =~= popped + (held + v));
                    },
                    None => {},
                }
            },
            RingOp::Pop(n) => {
                match pop_outcome(held, n as int) {
                    Some((out, next)) => {
                        assert(held =~= out + next);
                        assert(committed =~= (popped + out) + next);
                    },
                    None => {},
                }
            },
        }
    }
}

/// A byte ring written by producers and drained by a single consumer.
///
/// Between calls every reservation has been committed, so the ring holds the
/// bytes from the read index up to the write index.
pub struct AtomicTimestampsRing {
    buf: Vec<u8>,
    write_ind: usize,
    read_ind: usize,
    in_progress: u8,
}

impl AtomicTimestampsRing {
    pub closed spec fn wf(&self) -> bool {
        &&& self.buf@.len() == RINGBUF_SIZE
        &&& self.write_ind <= RINGBUF_IND_MASK
        &&& self.read_ind <= RINGBUF_IND_MASK
        &&& self.in_progress == 0
    }

    /// Number of committed bytes waiting for the consumer.
    pub closed spec fn occupied(&self) -> int {
        (self.write_ind + RINGBUF_SIZE - self.read_ind) % (RINGBUF_SIZE as int)
    }

    /// The committed bytes, oldest first.
    pub closed spec fn view(&self) -> Seq<u8> {
        Seq::new(self.occupied() as nat, |k: int| self.buf@[cell_at(self.read_ind as int, k)])
    }

    /// Bytes reserved by writers and not yet committed.
    pub closed spec fn pending(&self) -> int {
        self.in_progress as int
    }

    /// An empty ring.
    pub fn new() -> (r: Self)
        ensures
            r.wf(),
            r@ == Seq::<u8>::empty(),
            r.pending() == 0,
    {
        let buf: Vec<u8> = vec![0u8; RINGBUF_SIZE];
        let r = AtomicTimestampsRing { buf, write_ind: 0, read_ind: 0, in_progress: 0 };
        assert(r@ =~= Seq::<u8>::empty());
        r
    }

    /// Bytes currently reserved by writers; never above the bound.
    pub fn in_progress(&self) -> (r: u8)
        requires
            self.wf(),
        ensures
            r as int == self.pending(),
            r <= MAX_IN_PROGRESS_BYTES_WRITE,
    {
        self.in_progress
    }

    /// Appends all of `v` or nothing. It succeeds exactly when the ring has room
    /// for `v` (one cell always stays free) and the reservation stays within
    /// the in-progress bound.
    pub fn try_push(&mut self, v: &[u8]) -> (r: Option<()>)
        requires
            old(self).wf(),
            v@.len() <= 255,
        ensures
            final(self).wf(),
            final(self).pending() == 0,
            r is Some <==> push_outcome(old(self)@, v@) is Some,
            r is Some ==> final(self)@ == push_outcome(old(self)@, v@)->0,
            r is None ==> *final(self) == *old(self),
    {
        let n = v.len() as u8;
        let fits = can_push(self.read_ind, self.write_ind, n, RINGBUF_IND_MASK);
        proof {
            assert(can_push_spec(self.read_ind as int, self.write_ind as int, n as int, 255)
                <==> self@.len() + n <= 255);
        }
        if !fits || n > MAX_IN_PROGRESS_BYTES_WRITE - self.in_progress {
            return None;
        }
        let start = self.write_ind;
        self.in_progress = self.in_progress + n;
        let ghost before = *self;
        let mut i: usize = 0;
        while i < v.len()
            invariant
                0 <= i <= v@.len(),
                n == v@.len(),
                start == before.write_ind,
                self.buf@.len() == RINGBUF_SIZE,
                self.write_ind == before.write_ind,
                self.read_ind == before.read_ind,
                self.in_progress == n,
                before.buf@.len() == RINGBUF_SIZE,
                before.write_ind <= RINGBUF_IND_MASK,
                before.read_ind <= RINGBUF_IND_MASK,
                before@.len() + n <= 255,
                forall|j: int| 0 <= j < i ==> self.buf@[cell_at(start as int, j)] == v@[j],
                start as int == cell_at(before.read_ind as int, before@.len() as int),
                forall|k: int| 0 <= k < before@.len() ==>
                    self.buf@[#[trigger] cell_at(before.read_ind as int, k)]
                        == before.buf@[cell_at(before.read_ind as int, k)],
            decreases v@.len() - i,
        {
            let idx = (start + i) % RINGBUF_SIZE;
            proof {
                let len = before@.len() as int;
                lemma_cell_shift(before.read_ind as int, len, i as int);
                assert forall|k: int| 0 <= k < len implies
                    cell_at(before.read_ind as int, k) != idx as int
                by {
                    lemma_cells_distinct(before.read_ind as int, k, len + i);
                }
                assert forall|j: int| 0 <= j < i implies cell_at(start as int, j) != idx as int
                by {
                    lemma_cells_distinct(start as int, j, i as int);
                }
            }
            self.buf.set(idx, v[i]);
            i = i + 1;
        }
        self.write_ind = (start + i) % RINGBUF_SIZE;
        self.in_progress = self.in_progress - n;
        proof {
            let len = before@.len() as int;
            assert forall|j: int| 0 <= j < n implies
                self.buf@[cell_at(before.read_ind as int, len + j)] == v@[j]
            by {
                lemma_cell_shift(before.read_ind as int, len, j);
            }
            lemma_cell_shift(before.read_ind as int, len, n as int);
            assert(self.occupied() == len + n);
            assert(self@ =~= before@ + v@);
        }
        Some(())
    }

    /// Removes the `n` oldest bytes and returns them, or returns `None` and
    /// leaves the ring unchanged when fewer than `n` bytes are committed.
    pub fn try_pop(&mut self, n: u8) -> (r: Option<Vec<u8>>)
        requires
            old(self).wf(),
        ensures
            final(self).wf(),
            final(self).pending() == 0,
            r is Some <==> pop_outcome(old(self)@, n as int) is Some,
            r matches Some(bytes) ==> pop_outcome(old(self)@, n as int) == Some((bytes@, final(self)@)),
            r is None ==> *final(self) == *old(self),
    {
        let ok = can_pop(self.read_ind, self.write_ind, n, RINGBUF_IND_MASK);
        if !ok {
            return None;
        }
        let start = self.read_ind;
        assert(n <= self@.len());
        let mut popped: Vec<u8> = Vec::new();
        let mut i: usize = 0;
        while i < n as usize
            invariant
                0 <= i <= n,
                n <= self@.len(),
                self.wf(),
                start == self.read_ind,
                popped@ == self@.take(i as int),
            decreases n - i,
        {
            let b = self.buf[(start + i) % RINGBUF_SIZE];
            assert(b == self@[i as int]);
            popped.push(b);
            i = i + 1;
            assert(popped@ =~= self@.take(i as int));
        }
        let ghost before = *self;
        self.read_ind = (start + i) % RINGBUF_SIZE;
        proof {
            assert forall|k: int| 0 <= k < before@.len() - n implies
                cell_at(self.read_ind as int, k) == cell_at(before.read_ind as int, n + k)
            by {
                lemma_cell_shift(before.read_ind as int, n as int, k);
            }
            assert(self.occupied() == before.occupied() - n);
            assert(self@ =~= before@.skip(n as int));
        }
        Some(popped)
    }
}

} // verus!
