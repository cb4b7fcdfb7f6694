//! The receiver's side of the wire: telling frames apart by their tag and
//! splitting a batch payload back into the packets that were staged.

use vstd::prelude::*;
use crate::codec::{be_bytes, be_value, le_value, packet_frame, lemma_be_round_trip, be_to_u64, le_to_u64, TAG_BATCH, TAG_DROPPED};

verus! {

/// The kinds of wire frame.
#[derive(PartialEq, Eq, Structural, Debug, Clone, Copy)]
pub enum FrameKind {
    /// A batch of framed packets.
    Batch,
    /// The header of a dropped packet.
    Dropped,
}

/// The frame kind a tag byte announces; any other tag is a protocol error.
pub fn frame_kind(tag: u8) -> (r: Option<FrameKind>)
    ensures
        r == (if tag == TAG_BATCH {
            Some(FrameKind::Batch)
        } else if tag == TAG_DROPPED {
            Some(FrameKind::Dropped)
        } else {
            None
        }),
{
    if tag == TAG_BATCH {
        Some(FrameKind::Batch)
    } else if tag == TAG_DROPPED {
        Some(FrameKind::Dropped)
    } else {
        None
    }
}

/// `ps` with `acc` in front, when there is a `ps`.
pub open spec fn prepend(acc: Seq<(Seq<u8>, Seq<u8>)>, ps: Option<Seq<(Seq<u8>, Seq<u8>)>>) -> Option<Seq<(Seq<u8>, Seq<u8>)>> {
    match ps {
        Some(ps) => Some(acc + ps),
        None => None,
    }
}

/// The packets (header, body) that a batch payload holds, in order, or `None`
/// when it does not split into whole frames. A header ends with its body
/// length as eight little-endian bytes.
pub open spec fn packets(data: Seq<u8>) -> Option<Seq<(Seq<u8>, Seq<u8>)>>
    decreases data.len(),
{
    if data.len() == 0 {
        Some(Seq::empty())
    } else if data.len() < 8 {
        None
    } else {
        let header_len = be_value(data.take(8)) as int;
        let rest = data.skip(8);
        if header_len < 8 || header_len > rest.len() {
            None
        } else {
            let header = rest.take(header_len);
            let body_len = le_value(header.subrange(header_len - 8, header_len)) as int;
            let after = rest.skip(header_len);
            if body_len > after.len() {
                None
            } else {
                prepend(seq![(header, after.take(body_len))], packets(after.skip(body_len)))
            }
        }
    }
}

/// Whether `header` ends with the length of `body` as eight little-endian bytes.
pub open spec fn header_announces(header: Seq<u8>, body: Seq<u8>) -> bool {
    &&& 8 <= header.len() <= u64::MAX
    &&& le_value(header.subrange(header.len() - 8, header.len() as int)) == body.len()
}

/// Splitting reads back what was framed: a packet frame in front of a payload
/// comes out as that packet in front of the payload's own packets.
pub proof fn lemma_packets_of_frame(header: Seq<u8>, body: Seq<u8>, rest: Seq<u8>)
    requires
        header_announces(header, body),
    ensures
        packets(packet_frame(header, body) + rest) == prepend(seq![(header, body)], packets(rest)),
{
    let data = packet_frame(header, body) + rest;
    lemma_be_round_trip(header.len() as u64);
    assert(data.take(8) =~= be_bytes(header.len() as u64));
    let r = data.skip(8);
    assert(r.take(header.len() as int) =~= header);
    let after = r.skip(header.len() as int);
    assert(after =~= body + rest);
    assert(after.take(body.len() as int) =~= body);
    assert(after.skip(body.len() as int) =~= rest);
}

/// Splits a batch payload into its packets, or returns `None` when it does not
/// split into whole frames.
pub fn split_packets(data: &[u8]) -> (r: Option<Vec<(Vec<u8>, Vec<u8>)>>)
    ensures
        r matches Some(ps) ==> packets(data@) == Some(ps@.map_values(|p: (Vec<u8>, Vec<u8>)| (p.0@, p.1@))),
        r is None ==> packets(data@) is None,
{
    let mut out: Vec<(Vec<u8>, Vec<u8>)> = Vec::new();
    let mut at: usize = 0;
    assert(data@.skip(0) =~= data@);
    assert(out@.map_values(|p: (Vec<u8>, Vec<u8>)| (p.0@, p.1@)) =~= Seq::<(Seq<u8>, Seq<u8>)>::empty());
    proof {
        match packets(data@) {
            Some(ps) => {
                assert(Seq::<(Seq<u8>, Seq<u8>)>::empty() + ps =~= ps);
            },
            None => {},
        }
    }
    while at < data.len()
        invariant
            0 <= at <= data@.len(),
            packets(data@) == prepend(out@.map_values(|p: (Vec<u8>, Vec<u8>)| (p.0@, p.1@)), packets(data@.skip(at as int))),
        decreases data@.len() - at,
    {
        let ghost cur = data@.skip(at as int);
        let ghost acc = out@.map_values(|p: (Vec<u8>, Vec<u8>)| (p.0@, p.1@));
        if data.len() - at < 8 {
            return None;
        }
        let header_len = be_to_u64(data, at);
        assert(data@.subrange(at as int, at + 8) =~= cur.take(8));
        if header_len < 8 || header_len > (data.len() - at - 8) as u64 {
            return None;
        }
        let hl = header_len as usize;
        let hstart = at + 8;
        let body_len = le_to_u64(data, hstart + hl - 8);
        assert(data@.subrange(hstart + hl - 8, hstart + hl as int)
            =~= cur.skip(8).take(hl as int).subrange(hl - 8, hl as int));
        if body_len > (data.len() - hstart - hl) as u64 {
            return None;
        }
        let bl = body_len as usize;
        let bstart = hstart + hl;
        let header = copy_range(data, hstart, bstart);
        let body = copy_range(data, bstart, bstart + bl);
        out.push((header, body));
        at = bstart + bl;
        proof {
            assert(header@ =~= cur.skip(8).take(hl as int));
            assert(body@ =~= cur.skip(8).skip(hl as int).take(bl as int));
            assert(data@.skip(at as int) =~= cur.skip(8).skip(hl as int).skip(bl as int));
            assert(out@.map_values(|p: (Vec<u8>, Vec<u8>)| (p.0@, p.1@)) =~= acc + seq![(header@, body@)]);
            match packets(data@.skip(at as int)) {
                Some(ps) => {
                    assert(acc + (seq![(header@, body@)] + ps) =~= (acc + seq![(header@, body@)]) + ps);
                },
                None => {},
            }
        }
    }
    assert(data@.skip(at as int) =~= Seq::<u8>::empty());
    assert(out@.map_values(|p: (Vec<u8>, Vec<u8>)| (p.0@, p.1@)) + Seq::<(Seq<u8>, Seq<u8>)>::empty()
        =~= out@.map_values(|p: (Vec<u8>, Vec<u8>)| (p.0@, p.1@)));
    Some(out)
}

/// A copy of `data[from..to]`.
fn copy_range(data: &[u8], from: usize, to: usize) -> (r: Vec<u8>)
    requires
        from <= to <= data@.len(),
    ensures
        r@ == data@.subrange(from as int, to as int),
{
    let mut r: Vec<u8> = Vec::new();
    let mut i: usize = from;
    while i < to
        invariant
            from <= i <= to,
            to <= data@.len(),
            r@ == data@.subrange(from as int, i as int),
        decreases to - i,
    {
        r.push(data[i]);
        i = i + 1;
        assert(r@ =~= data@.subrange(from as int, i as int));
    }
    r
}

} // verus!
