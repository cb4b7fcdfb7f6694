//! Fixed-width integer encodings and the frames that carry packets on the
//! staging store and on the wire.

use vstd::prelude::*;

verus! {

/// Tag of a wire frame that carries a batch of framed packets.
pub const TAG_BATCH: u8 = 1;

/// Tag of a wire frame that carries the header of a dropped packet.
pub const TAG_DROPPED: u8 = 2;

/// The eight big-endian bytes of `x`.
pub open spec fn be_bytes(x: u64) -> Seq<u8> {
    seq![
        (x >> 56u64) as u8, (x >> 48u64) as u8, (x >> 40u64) as u8, (x >> 32u64) as u8,
        (x >> 24u64) as u8, (x >> 16u64) as u8, (x >> 8u64) as u8, x as u8,
    ]
}

/// The integer whose big-endian bytes are `s[0..8]`.
pub open spec fn be_value(s: Seq<u8>) -> u64 {
    (s[0] as u64) << 56u64 | (s[1] as u64) << 48u64 | (s[2] as u64) << 40u64
        | (s[3] as u64) << 32u64 | (s[4] as u64) << 24u64 | (s[5] as u64) << 16u64
        | (s[6] as u64) << 8u64 | (s[7] as u64)
}

/// The integer whose little-endian bytes are `s[0..8]`.
pub open spec fn le_value(s: Seq<u8>) -> u64 {
    (s[7] as u64) << 56u64 | (s[6] as u64) << 48u64 | (s[5] as u64) << 40u64
        | (s[4] as u64) << 32u64 | (s[3] as u64) << 24u64 | (s[2] as u64) << 16u64
        | (s[1] as u64) << 8u64 | (s[0] as u64)
}

/// One packet as it lies in the staging store: header length, header, body.
pub open spec fn packet_frame(header: Seq<u8>, body: Seq<u8>) -> Seq<u8> {
    be_bytes(header.len() as u64) + header + body
}

/// A wire frame carrying a batch of staged bytes.
pub open spec fn batch_frame(data: Seq<u8>) -> Seq<u8> {
    seq![TAG_BATCH] + be_bytes(data.len() as u64) + data
}

/// A wire frame carrying the serialised header of a dropped packet.
pub open spec fn dropped_frame(header: Seq<u8>) -> Seq<u8> {
    seq![TAG_DROPPED] + be_bytes(header.len() as u64) + header
}

/// Big-endian bytes of `x`.
pub fn u64_to_be(x: u64) -> (r: Vec<u8>)
    ensures
        r@ == be_bytes(x),
{
    let r: Vec<u8> = vec![
        (x >> 56u64) as u8, (x >> 48u64) as u8, (x >> 40u64) as u8, (x >> 32u64) as u8,
        (x >> 24u64) as u8, (x >> 16u64) as u8, (x >> 8u64) as u8, x as u8,
    ];
    assert(r@ =~= be_bytes(x));
    r
}

/// Reads a big-endian integer from `b[at..at + 8]`.
pub fn be_to_u64(b: &[u8], at: usize) -> (r: u64)
    requires
        at + 8 <= b@.len(),
    ensures
        r == be_value(b@.subrange(at as int, at + 8)),
{
    (b[at] as u64) << 56u64 | (b[at + 1] as u64) << 48u64 | (b[at + 2] as u64) << 40u64
        | (b[at + 3] as u64) << 32u64 | (b[at + 4] as u64) << 24u64 | (b[at + 5] as u64) << 16u64
        | (b[at + 6] as u64) << 8u64 | (b[at + 7] as u64)
}

/// Reads a little-endian integer from `b[at..at + 8]`.
pub fn le_to_u64(b: &[u8], at: usize) -> (r: u64)
    requires
        at + 8 <= b@.len(),
    ensures
        r == le_value(b@.subrange(at as int, at + 8)),
{
    let first = b[at];
    (b[at + 7] as u64) << 56u64 | (b[at + 6] as u64) << 48u64 | (b[at + 5] as u64) << 40u64
        | (b[at + 4] as u64) << 32u64 | (b[at + 3] as u64) << 24u64 | (b[at + 2] as u64) << 16u64
        | (b[at + 1] as u64) << 8u64 | (first as u64)
}

/// Decoding the big-endian bytes of an integer gives the integer back.
pub proof fn lemma_be_round_trip(x: u64)
    ensures
        be_value(be_bytes(x)) == x,
{
    let s = be_bytes(x);
    let (b0, b1, b2, b3) = (s[0], s[1], s[2], s[3]);
    let (b4, b5, b6, b7) = (s[4], s[5], s[6], s[7]);
    assert(b0 == (x >> 56u64) as u8 && b1 == (x >> 48u64) as u8 && b2 == (x >> 40u64) as u8
        && b3 == (x >> 32u64) as u8 && b4 == (x >> 24u64) as u8 && b5 == (x >> 16u64) as u8
        && b6 == (x >> 8u64) as u8 && b7 == x as u8);
    assert(((x >> 56u64) as u8 as u64) << 56u64 | ((x >> 48u64) as u8 as u64) << 48u64
        | ((x >> 40u64) as u8 as u64) << 40u64 | ((x >> 32u64) as u8 as u64) << 32u64
        | ((x >> 24u64) as u8 as u64) << 24u64 | ((x >> 16u64) as u8 as u64) << 16u64
        | ((x >> 8u64) as u8 as u64) << 8u64 | (x as u8 as u64) == x) by (bit_vector);
}

/// Appends `src` to `dst`.
pub fn extend(dst: &mut Vec<u8>, src: &[u8])
    ensures
        final(dst)@ == old(dst)@ + src@,
{
    let mut i: usize = 0;
    while i < src.len()
        invariant
            0 <= i <= src@.len(),
            dst@ == old(dst)@ + src@.take(i as int),
        decreases src@.len() - i,
    {
        dst.push(src[i]);
        i = i + 1;
        assert(src@.take(i as int) =~= src@.take(i - 1) + seq![src@[i - 1]]);
    }
    assert(src@.take(i as int) =~= src@);
}

/// The wire frame for a batch made of `a` followed by `b`.
pub fn encode_batch(a: &[u8], b: &[u8]) -> (r: Vec<u8>)
    requires
        a@.len() + b@.len() <= usize::MAX,
    ensures
        r@ == batch_frame(a@ + b@),
{
    let mut r: Vec<u8> = Vec::new();
    r.push(TAG_BATCH);
    let total = u64_to_be((a.len() + b.len()) as u64);
    extend(&mut r, total.as_slice());
    extend(&mut r, a);
    extend(&mut r, b);
    assert(r@ =~= batch_frame(a@ + b@));
    r
}

/// The wire frame for the serialised header of a dropped packet.
pub fn encode_dropped(header: &[u8]) -> (r: Vec<u8>)
    ensures
        r@ == dropped_frame(header@),
{
    let mut r: Vec<u8> = Vec::new();
    r.push(TAG_DROPPED);
    let len = u64_to_be(header.len() as u64);
    extend(&mut r, len.as_slice());
    extend(&mut r, header);
    assert(r@ =~= dropped_frame(header@));
    r
}

} // verus!
