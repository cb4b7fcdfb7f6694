//! The sender's decisions: on each tick, what to take from the staging store
//! and which bytes to write to the wire. The caller owns the socket, the timer
//! and the finalize flag, and performs what a tick returns.

use vstd::prelude::*;
use crate::codec::{batch_frame, dropped_frame, encode_batch, encode_dropped, extend};
use crate::global_storage::{GlobalStorage, FLUSH_THRESHOLD};

verus! {

/// Wire frames for the headers of dropped packets, in order.
pub open spec fn dropped_frames(headers: Seq<Seq<u8>>) -> Seq<u8>
    decreases headers.len(),
{
    if headers.len() == 0 {
        Seq::empty()
    } else {
        dropped_frames(headers.drop_last()) + dropped_frame(headers.last())
    }
}

/// Occupancy above which a tick takes a batch.
pub open spec fn flush_threshold(finalizing: bool) -> int {
    if finalizing { 0 } else { FLUSH_THRESHOLD as int }
}

/// What one tick asks the caller to do.
pub struct SenderStep {
    /// Bytes to write to the wire, in order.
    pub bytes: Vec<u8>,
    /// Whether the sender stops after writing them.
    pub stop: bool,
}

/// One tick of the sender. It takes the dropped packets' headers and, above
/// the flush threshold (above zero while finalizing), the staged bytes; it
/// returns the batch frame followed by one dropped-packet frame per header,
/// and stops exactly when finalizing.
pub fn sender_tick(store: &mut GlobalStorage, finalizing: bool) -> (r: SenderStep)
    requires
        old(store).wf(),
    ensures
        final(store).wf(),
        final(store).skipped() == Seq::<Seq<u8>>::empty(),
        r.stop == finalizing,
        old(store)@.len() > flush_threshold(finalizing) ==> final(store)@ == Seq::<u8>::empty()
            && r.bytes@ == batch_frame(old(store)@) + dropped_frames(old(store).skipped()),
        old(store)@.len() <= flush_threshold(finalizing) ==> final(store)@ == old(store)@
            && r.bytes@ == dropped_frames(old(store).skipped()),
{
    let failed = store.take_failed_pages();
    let ghost headers = failed@.map_values(|h: Vec<u8>| h@);
    let slices = store.try_take_buf(finalizing);
    let mut bytes: Vec<u8> = Vec::new();
    match slices {
        Some((a, b)) => {
            bytes = encode_batch(a.as_slice(), b.as_slice());
        },
        None => {},
    }
    let ghost batch = bytes@;
    let mut i: usize = 0;
    while i < failed.len()
        invariant
            0 <= i <= failed@.len(),
            headers == failed@.map_values(|h: Vec<u8>| h@),
            bytes@ == batch + dropped_frames(headers.take(i as int)),
        decreases failed@.len() - i,
    {
        let frame = encode_dropped(failed[i].as_slice());
        extend(&mut bytes, frame.as_slice());
        i = i + 1;
        proof {
            assert(headers.take(i as int).drop_last() =~= headers.take(i - 1));
            assert(headers.take(i as int).last() == failed@[i - 1]@);
        }
    }
    assert(headers.take(i as int) =~= headers);
    assert(Seq::<u8>::empty() + dropped_frames(headers) =~= dropped_frames(headers));
    SenderStep { bytes, stop: finalizing }
}

} // verus!
