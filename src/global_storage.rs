//! Global staging store: a large byte ring of framed packets, trimmed from the
//! oldest end when it grows past a threshold, and handed to the sender in batches.

use vstd::prelude::*;
use crate::codec::{be_bytes, be_value, le_value, packet_frame, lemma_be_round_trip, u64_to_be, be_to_u64, le_to_u64};
use crate::receiver::header_announces;
use ringbuf::LocalRb;
use ringbuf::storage::Heap;
use ringbuf::traits::{Consumer, Observer, Producer};

verus! {

/// The byte ring of the store; only the trusted functions below look inside.
#[verifier::external_body]
pub struct ByteRing {
    rb: LocalRb<Heap<u8>>,
}

/// The bytes held by a ring, oldest first.
pub uninterp spec fn ring_bytes(rb: ByteRing) -> Seq<u8>;

/// The capacity a ring was created with.
pub uninterp spec fn ring_capacity(rb: ByteRing) -> nat;

/// Relies on `LocalRb::<Heap<u8>>::new`: an empty ring of the given capacity
/// (it panics on a zero capacity).
#[verifier::external_body]
fn ring_new(capacity: usize) -> (r: ByteRing)
    requires
        capacity > 0,
    ensures
        ring_bytes(r) == Seq::<u8>::empty(),
        ring_capacity(r) == capacity,
{
    ByteRing { rb: LocalRb::<Heap<u8>>::new(capacity) }
}

/// Relies on `Observer::occupied_len`: the number of bytes held.
#[verifier::external_body]
fn ring_occupied(rb: &ByteRing) -> (r: usize)
    ensures
        r == ring_bytes(*rb).len(),
        r <= ring_capacity(*rb),
{
    rb.rb.occupied_len()
}

/// Relies on `Producer::push_slice`: appends as many leading bytes of `elems`
/// as there is room for and returns how many.
#[verifier::external_body]
fn ring_push_slice(rb: &mut ByteRing, elems: &[u8]) -> (r: usize)
    ensures
        r == vstd::math::min(elems@.len() as int, ring_capacity(*old(rb)) - ring_bytes(*old(rb)).len() as int),
        ring_bytes(*final(rb)) == ring_bytes(*old(rb)) + elems@.take(r as int),
        ring_capacity(*final(rb)) == ring_capacity(*old(rb)),
{
    rb.rb.push_slice(elems)
}

/// Relies on `Consumer::pop_slice`: removes up to `n` of the oldest bytes and
/// returns them.
#[verifier::external_body]
fn ring_pop(rb: &mut ByteRing, n: usize) -> (r: Vec<u8>)
    ensures
        r@ == ring_bytes(*old(rb)).take(vstd::math::min(n as int, ring_bytes(*old(rb)).len() as int)),
        ring_bytes(*final(rb)) == ring_bytes(*old(rb)).skip(r@.len() as int),
        ring_capacity(*final(rb)) == ring_capacity(*old(rb)),
{
    let mut buf = vec![0u8; n];
    let count = rb.rb.pop_slice(&mut buf);
    buf.truncate(count);
    buf
}

/// Relies on `Consumer::skip`: drops up to `count` of the oldest bytes.
#[verifier::external_body]
fn ring_skip(rb: &mut ByteRing, count: usize) -> (r: usize)
    ensures
        r == vstd::math::min(count as int, ring_bytes(*old(rb)).len() as int),
        ring_bytes(*final(rb)) == ring_bytes(*old(rb)).skip(r as int),
        ring_capacity(*final(rb)) == ring_capacity(*old(rb)),
{
    rb.rb.skip(count)
}

/// Relies on `Consumer::clear`: drops every byte held.
#[verifier::external_body]
fn ring_clear(rb: &mut ByteRing) -> (r: usize)
    ensures
        r == ring_bytes(*old(rb)).len(),
        ring_bytes(*final(rb)) == Seq::<u8>::empty(),
        ring_capacity(*final(rb)) == ring_capacity(*old(rb)),
{
    rb.rb.clear()
}

/// Relies on `Consumer::as_slices`: the held bytes, in order, as two slices.
#[verifier::external_body]
fn ring_slices(rb: &ByteRing) -> (r: (Vec<u8>, Vec<u8>))
    ensures
        r.0@ + r.1@ == ring_bytes(*rb),
{
    let (a, b) = rb.rb.as_slices();
    (a.to_vec(), b.to_vec())
}

/// Capacity of the staging store, in bytes.
pub const GLOBAL_CAPACITY: usize = 500_000_000;

/// Occupancy above which a push starts dropping the oldest packets.
pub const CLEANUP_THRESHOLD: usize = 450_000_000;

/// Occupancy down to which the oldest packets are dropped.
pub const CLEANUP_BOTTOM_THRESHOLD: usize = 350_000_000;

/// Occupancy above which the sender takes a batch.
pub const FLUSH_THRESHOLD: usize = 5_000_000;

/// What the ring holds after appending `frame` to `data`: the bytes that do
/// not fit are lost.
pub open spec fn appended(data: Seq<u8>, frame: Seq<u8>) -> Seq<u8> {
    (data + frame).take(vstd::math::min(GLOBAL_CAPACITY as int, (data.len() + frame.len()) as int))
}

/// The drop pass on `data`: while more than `CLEANUP_BOTTOM_THRESHOLD` bytes
/// remain, remove the oldest packet (eight-byte big-endian header length,
/// header, body). A header ends with its body length as eight little-endian
/// bytes. Returns the removed headers in order and what remains; a frame
/// whose header length cannot be right makes the pass drop everything left.
pub open spec fn trim(data: Seq<u8>) -> (Seq<Seq<u8>>, Seq<u8>)
    decreases data.len(),
{
    if data.len() <= CLEANUP_BOTTOM_THRESHOLD {
        (Seq::empty(), data)
    } else {
        let header_len = be_value(data.take(8)) as int;
        let rest = data.skip(8);
        if header_len < 8 || header_len > rest.len() {
            (Seq::empty(), Seq::empty())
        } else {
            let header = rest.take(header_len);
            let body_len = (le_value(header.subrange(header_len - 8, header_len)) as usize) as int;
            let after = rest.skip(header_len);
            let next = after.skip(vstd::math::min(body_len, after.len() as int));
            (seq![header] + trim(next).0, trim(next).1)
        }
    }
}

/// The drop pass leaves at most `CLEANUP_BOTTOM_THRESHOLD` bytes, and what it
/// leaves is the newest end of what it was given.
pub proof fn lemma_trim_bounded(data: Seq<u8>)
    ensures
        trim(data).1.len() <= CLEANUP_BOTTOM_THRESHOLD,
        trim(data).1 == data.skip(data.len() - trim(data).1.len()),
    decreases data.len(),
{
    if data.len() <= CLEANUP_BOTTOM_THRESHOLD {
        assert(data.skip(0) =~= data);
    } else {
        let header_len = be_value(data.take(8)) as int;
        let rest = data.skip(8);
        if header_len < 8 || header_len > rest.len() {
            assert(data.skip(data.len() as int) =~= Seq::<u8>::empty());
        } else {
            let header = rest.take(header_len);
            let body_len = (le_value(header.subrange(header_len - 8, header_len)) as usize) as int;
            let after = rest.skip(header_len);
            let next = after.skip(vstd::math::min(body_len, after.len() as int));
            lemma_trim_bounded(next);
            let t = trim(next).1;
            assert(next =~= data.skip(data.len() - next.len()));
            assert(t =~= data.skip(data.len() - t.len()));
        }
    }
}

/// A push onto a store that stays at or under `CLEANUP_THRESHOLD` leaves the
/// earlier bytes in place with the new packet's whole frame right behind them.
pub proof fn lemma_push_appends_frame(data: Seq<u8>, header: Seq<u8>, body: Seq<u8>)
    requires
        data.len() + packet_frame(header, body).len() <= CLEANUP_THRESHOLD,
    ensures
        appended(data, packet_frame(header, body)) == data + packet_frame(header, body),
        appended(data, packet_frame(header, body)).skip(data.len() as int)
            == packet_frame(header, body),
{
    let f = packet_frame(header, body);
    assert((data + f).take((data.len() + f.len()) as int) =~= data + f);
    assert((data + f).skip(data.len() as int) =~= f);
}

/// Whether `header` announces the length of `body` in its last eight bytes,
/// as every header the store is given does.
pub open spec fn frame_ok(header: Seq<u8>, body: Seq<u8>) -> bool {
    &&& header_announces(header, body)
    &&& body.len() <= usize::MAX
}

/// The frames of the packets `fs`, one after another.
pub open spec fn frames_concat(fs: Seq<(Seq<u8>, Seq<u8>)>) -> Seq<u8>
    decreases fs.len(),
{
    if fs.len() == 0 {
        Seq::empty()
    } else {
        packet_frame(fs[0].0, fs[0].1) + frames_concat(fs.skip(1))
    }
}

/// The headers of the packets `fs`, in order.
pub open spec fn headers_of(fs: Seq<(Seq<u8>, Seq<u8>)>) -> Seq<Seq<u8>> {
    fs.map_values(|p: (Seq<u8>, Seq<u8>)| p.0)
}

proof fn lemma_frames_concat_push(fs: Seq<(Seq<u8>, Seq<u8>)>, x: (Seq<u8>, Seq<u8>))
    ensures
        frames_concat(fs.push(x)) == frames_concat(fs) + packet_frame(x.0, x.1),
    decreases fs.len(),
{
    if fs.len() == 0 {
        assert(fs.push(x).skip(1) =~= Seq::<(Seq<u8>, Seq<u8>)>::empty());
        assert(frames_concat(Seq::<(Seq<u8>, Seq<u8>)>::empty()) == Seq::<u8>::empty());
        assert(frames_concat(fs.push(x)) == packet_frame(x.0, x.1) + frames_concat(fs.push(x).skip(1)));
        assert(frames_concat(fs.push(x)) =~= packet_frame(x.0, x.1));
    } else {
        lemma_frames_concat_push(fs.skip(1), x);
        assert(fs.push(x).skip(1) =~= fs.skip(1).push(x));
        assert(frames_concat(fs.push(x)) =~= frames_concat(fs) + packet_frame(x.0, x.1));
    }
}

proof fn lemma_trim_step(header: Seq<u8>, body: Seq<u8>, rest: Seq<u8>)
    requires
        frame_ok(header, body),
        (packet_frame(header, body) + rest).len() > CLEANUP_BOTTOM_THRESHOLD,
    ensures
        trim(packet_frame(header, body) + rest) == (seq![header] + trim(rest).0, trim(rest).1),
{
    let data = packet_frame(header, body) + rest;
    lemma_be_round_trip(header.len() as u64);
    assert(data.take(8) =~= be_bytes(header.len() as u64));
    let r = data.skip(8);
    assert(r.take(header.len() as int) =~= header);
    let after = r.skip(header.len() as int);
    assert(after =~= body + rest);
    assert(after.skip(body.len() as int) =~= rest);
}

/// On a store made of whole frames, the drop pass removes a number of whole
/// frames from the front, records exactly their headers in order, and leaves
/// the remaining frames whole.
pub proof fn lemma_trim_drops_whole_frames(fs: Seq<(Seq<u8>, Seq<u8>)>)
    requires
        forall|i: int| 0 <= i < fs.len() ==> frame_ok(#[trigger] fs[i].0, fs[i].1),
    ensures
        exists|k: int| 0 <= k <= fs.len()
            && trim(frames_concat(fs)) == (headers_of(fs.take(k)), frames_concat(fs.skip(k))),
    decreases fs.len(),
{
    let data = frames_concat(fs);
    if data.len() <= CLEANUP_BOTTOM_THRESHOLD {
        assert(headers_of(fs.take(0)) =~= Seq::<Seq<u8>>::empty());
        assert(fs.skip(0) =~= fs);
        assert(trim(data) == (headers_of(fs.take(0)), frames_concat(fs.skip(0))));
    } else {
        assert(fs.len() > 0);
        let (h, b) = fs[0];
        assert(frame_ok(fs[0].0, fs[0].1));
        let tail = fs.skip(1);
        assert forall|i: int| 0 <= i < tail.len() implies frame_ok(#[trigger] tail[i].0, tail[i].1) by {
            assert(tail[i] == fs[i + 1]);
        }
        lemma_trim_drops_whole_frames(tail);
        let k = choose|k: int| 0 <= k <= tail.len()
            && trim(frames_concat(tail)) == (headers_of(tail.take(k)), frames_concat(tail.skip(k)));
        lemma_trim_step(h, b, frames_concat(tail));
        assert(headers_of(fs.take(k + 1)) =~= seq![h] + headers_of(tail.take(k)));
        assert(fs.skip(k + 1) =~= tail.skip(k));
    }
}

/// A push onto a store of whole frames, of a frame that fits in the room the
/// store always keeps, gives whole frames again; if the drop pass runs, it
/// removes whole frames from the front and records exactly their headers, in
/// the order they were pushed.
pub proof fn lemma_push_drops_whole_frames(fs: Seq<(Seq<u8>, Seq<u8>)>, header: Seq<u8>, body: Seq<u8>)
    requires
        forall|i: int| 0 <= i < fs.len() ==> frame_ok(#[trigger] fs[i].0, fs[i].1),
        frame_ok(header, body),
        frames_concat(fs).len() <= CLEANUP_THRESHOLD,
        packet_frame(header, body).len() <= GLOBAL_CAPACITY - CLEANUP_THRESHOLD,
    ensures
        appended(frames_concat(fs), packet_frame(header, body)) == frames_concat(fs.push((header, body))),
        exists|k: int| 0 <= k <= fs.len() + 1
            && trim(appended(frames_concat(fs), packet_frame(header, body)))
                == (headers_of(fs.push((header, body)).take(k)), frames_concat(fs.push((header, body)).skip(k))),
{
    let all = fs.push((header, body));
    lemma_frames_concat_push(fs, (header, body));
    let joined = frames_concat(fs) + packet_frame(header, body);
    assert(joined.take(joined.len() as int) =~= joined);
    assert forall|i: int| 0 <= i < all.len() implies frame_ok(#[trigger] all[i].0, all[i].1) by {
        if i < fs.len() {
            assert(all[i] == fs[i]);
        }
    }
    lemma_trim_drops_whole_frames(all);
}

/// The global staging store: framed packets, oldest first, and the headers of
/// the packets that were dropped to make room.
pub struct GlobalStorage {
    inner: ByteRing,
    skipped_msr_pages_headers: Vec<Vec<u8>>,
}

impl GlobalStorage {
    pub closed spec fn wf(&self) -> bool {
        &&& self.ring_ok()
        &&& ring_bytes(self.inner).len() <= CLEANUP_THRESHOLD
    }

    closed spec fn ring_ok(&self) -> bool {
        &&& ring_capacity(self.inner) == GLOBAL_CAPACITY
        &&& ring_bytes(self.inner).len() <= GLOBAL_CAPACITY
    }

    /// The bytes held, oldest first.
    pub closed spec fn view(&self) -> Seq<u8> {
        ring_bytes(self.inner)
    }

    /// Headers of the dropped packets, oldest first.
    pub closed spec fn skipped(&self) -> Seq<Seq<u8>> {
        self.skipped_msr_pages_headers@.map_values(|h: Vec<u8>| h@)
    }

    /// An empty store.
    pub fn new() -> (r: Self)
        ensures
            r.wf(),
            r@ == Seq::<u8>::empty(),
            r.skipped() == Seq::<Seq<u8>>::empty(),
    {
        let r = GlobalStorage { inner: ring_new(GLOBAL_CAPACITY), skipped_msr_pages_headers: Vec::new() };
        assert(r.skipped() =~= Seq::<Seq<u8>>::empty());
        r
    }

    /// Number of bytes held.
    pub fn occupied_len(&self) -> (r: usize)
        requires
            self.wf(),
        ensures
            r == self@.len(),
    {
        ring_occupied(&self.inner)
    }

    /// Appends the frame of one packet: its serialised header's length as
    /// eight big-endian bytes, the header, then the body. When the store then
    /// holds more than `CLEANUP_THRESHOLD` bytes, the oldest packets are
    /// dropped and their headers recorded, as `trim` describes.
    pub fn push_buf(&mut self, header: &[u8], buf: &[u8])
        requires
            old(self).wf(),
        ensures
            final(self).wf(),
            final(self)@.len() <= CLEANUP_THRESHOLD,
            ({
                let pushed = appended(old(self)@, packet_frame(header@, buf@));
                &&& pushed.len() <= CLEANUP_THRESHOLD ==> final(self)@ == pushed
                    && final(self).skipped() == old(self).skipped()
                &&& pushed.len() > CLEANUP_THRESHOLD ==> final(self)@ == trim(pushed).1
                    && final(self).skipped() == old(self).skipped() + trim(pushed).0
            }),
    {
        let ghost start = self@;
        let header_len = u64_to_be(header.len() as u64);
        ring_push_slice(&mut self.inner, header_len.as_slice());
        ring_push_slice(&mut self.inner, header);
        ring_push_slice(&mut self.inner, buf);
        proof {
            let f = packet_frame(header@, buf@);
            assert(f =~= header_len@ + header@ + buf@);
            assert(self@ =~= appended(start, f));
        }
        if ring_occupied(&self.inner) > CLEANUP_THRESHOLD {
            let ghost pushed = self@;
            let ghost skipped0 = self.skipped();
            while ring_occupied(&self.inner) > CLEANUP_BOTTOM_THRESHOLD
                invariant
                    self.ring_ok(),
                    trim(pushed).1 == trim(self@).1,
                    skipped0 + trim(pushed).0 == self.skipped() + trim(self@).0,
                decreases self@.len(),
            {
                let ghost cur = self@;
                let len_bytes = ring_pop(&mut self.inner, 8);
                assert(len_bytes@ =~= cur.take(8));
                let header_len = be_to_u64(len_bytes.as_slice(), 0);
                assert(len_bytes@.subrange(0, 8) =~= len_bytes@);
                let remaining = ring_occupied(&self.inner);
                if header_len < 8 || header_len > remaining as u64 {
                    ring_clear(&mut self.inner);
                    assert(trim(self@).0 =~= Seq::<Seq<u8>>::empty());
                    assert(self.skipped() + trim(cur).0 =~= self.skipped());
                } else {
                    let hl = header_len as usize;
                    let packet_header = ring_pop(&mut self.inner, hl);
                    let body_len = le_to_u64(packet_header.as_slice(), hl - 8);
                    ring_skip(&mut self.inner, body_len as usize);
                    let ghost before_push = self.skipped();
                    self.skipped_msr_pages_headers.push(packet_header);
                    proof {
                        assert(packet_header@ =~= cur.skip(8).take(hl as int));
                        assert(self.skipped() =~= before_push.push(packet_header@));
                        let next = self@;
                        assert(trim(cur).0 =~= seq![packet_header@] + trim(next).0);
                        assert(before_push + trim(cur).0 =~= self.skipped() + trim(next).0);
                    }
                }
            }
            proof {
                assert(trim(self@).0 =~= Seq::<Seq<u8>>::empty());
                assert(self.skipped() + trim(self@).0 =~= self.skipped());
                lemma_trim_bounded(pushed);
            }
        }
    }

    /// Returns the headers of the dropped packets and forgets them.
    pub fn take_failed_pages(&mut self) -> (r: Vec<Vec<u8>>)
        requires
            old(self).wf(),
        ensures
            final(self).wf(),
            r@.map_values(|h: Vec<u8>| h@) == old(self).skipped(),
            final(self).skipped() == Seq::<Seq<u8>>::empty(),
            final(self)@ == old(self)@,
    {
        let mut r: Vec<Vec<u8>> = Vec::new();
        core::mem::swap(&mut r, &mut self.skipped_msr_pages_headers);
        assert(self.skipped() =~= Seq::<Seq<u8>>::empty());
        r
    }

    /// When more than the flush threshold is held (more than nothing, with
    /// `take_everything`), returns all bytes held as two slices in order and
    /// empties the store; otherwise returns `None` and changes nothing.
    pub fn try_take_buf(&mut self, take_everything: bool) -> (r: Option<(Vec<u8>, Vec<u8>)>)
        requires
            old(self).wf(),
        ensures
            final(self).wf(),
            final(self).skipped() == old(self).skipped(),
            old(self)@.len() <= GLOBAL_CAPACITY,
            r is Some <==> old(self)@.len() > (if take_everything { 0 } else { FLUSH_THRESHOLD }),
            r matches Some(p) ==> p.0@ + p.1@ == old(self)@ && final(self)@ == Seq::<u8>::empty(),
            r is None ==> final(self)@ == old(self)@,
    {
        let threshold: usize = if take_everything { 0 } else { FLUSH_THRESHOLD };
        if ring_occupied(&self.inner) > threshold {
            let slices = ring_slices(&self.inner);
            ring_clear(&mut self.inner);
            Some(slices)
        } else {
            None
        }
    }
}

} // verus!
