//! The systematic (k, n) erasure codec, behind trusted wrappers over the
//! `zfec_rs` crate.
//!
//! The codec cuts a message into `k` equal chunks and derives `n - k` parity
//! chunks; any `k` distinct chunks reconstruct the message.  The first `k`
//! chunks of an encoding carry the message bytes unchanged, so a decode that
//! is handed exactly the systematic chunks concatenates them back.

use vstd::prelude::*;

verus! {

/// The `n` chunks that encoding `data` with a systematic `(k, n)` code
/// yields, each of `data.len() / k` bytes.  The encoding is a function of
/// the arguments alone.
pub uninterp spec fn fec_encode_of(k: int, n: int, data: Seq<u8>) -> Seq<Seq<u8>>;

/// The bytes that decoding the given `(index, chunk)` pairs under a `(k, n)`
/// code yields.  The decode is a function of the arguments alone.
pub uninterp spec fn fec_decode_of(k: int, n: int, shards: Seq<(int, Seq<u8>)>) -> Seq<u8>;

/// The view of an indexed shard list.
pub open spec fn shard_views(s: Seq<(usize, Vec<u8>)>) -> Seq<(int, Seq<u8>)> {
    s.map_values(|sh: (usize, Vec<u8>)| (sh.0 as int, sh.1@))
}

/// The chunk payloads of `s`, concatenated in the order they stand in.
pub open spec fn spec_concat_shards(s: Seq<(int, Seq<u8>)>) -> Seq<u8>
    decreases s.len(),
{
    if s.len() == 0 {
        Seq::empty()
    } else {
        s[0].1 + spec_concat_shards(s.drop_first())
    }
}

/// Relies on zfec_rs::Fec::new and Fec::encode: encoding splits the message
/// into `k` chunks of `len / k` bytes (the message bytes unchanged, in
/// order) followed by `n - k` parity chunks of the same width, and the
/// chunk list is a function of `(k, n, data)` alone.  `Fec::new` accepts
/// exactly `1 <= k <= n <= 256`, and `encode` returns a chunk for every
/// index `0..n`.
#[verifier::external_body]
pub(crate) fn fec_encode(k: usize, n: usize, data: &[u8]) -> (r: Vec<Vec<u8>>)
    requires
        1 <= k <= n <= 256,
        data@.len() as int % (k as int) == 0,
        1 <= data@.len() <= 0xffffffff,
    ensures
        r@.len() == n,
        r@.len() == fec_encode_of(k as int, n as int, data@).len(),
        forall|i: int|
            0 <= i < n ==> (#[trigger] r@[i])@ == fec_encode_of(k as int, n as int, data@)[i],
        forall|i: int| 0 <= i < n ==> (#[trigger] r@[i])@.len() == data@.len() as int / (k as int),
        forall|i: int|
            0 <= i < k ==> (#[trigger] r@[i])@ == data@.subrange(
                i * (data@.len() as int / (k as int)),
                (i + 1) * (data@.len() as int / (k as int)),
            ),
{
    let fec = zfec_rs::Fec::new(k, n).unwrap();
    let (chunks, _padding) = fec.encode(data).unwrap();
    chunks.into_iter().map(|c| c.data).collect()
}

/// Each shard of `shards` carries the chunk that its index names in the
/// `(k, n)` encoding of `msg`.
pub open spec fn shards_match_encoding(
    k: int,
    n: int,
    shards: Seq<(int, Seq<u8>)>,
    msg: Seq<u8>,
) -> bool {
    forall|i: int|
        0 <= i < shards.len() ==> (#[trigger] shards[i]).1 == fec_encode_of(k, n, msg)[shards[i].0]
}

/// Relies on zfec_rs::Fec::new and Fec::decode: handed exactly `k` chunks
/// with strictly increasing indices below `n`, all of one width, the decode
/// reconstructs a `k`-chunk message; when those chunks are exactly the
/// systematic ones `0..k` the source concatenates them unchanged; and `k`
/// chunks of an encoding reconstruct the encoded message, whichever `k` were
/// handed over (the crate defines `k` as the number of chunks needed to
/// reconstruct the original message, keyed by chunk index).  The result is a
/// function of `(k, n, shards)` alone.
#[verifier::external_body]
pub(crate) fn fec_decode(k: usize, n: usize, shards: &Vec<(usize, Vec<u8>)>) -> (r: Vec<u8>)
    requires
        1 <= k <= n <= 256,
        shards@.len() == k,
        forall|i: int, j: int|
            0 <= i < j < shards@.len() ==> (#[trigger] shards@[i]).0 < (#[trigger] shards@[j]).0,
        forall|i: int| 0 <= i < shards@.len() ==> (#[trigger] shards@[i]).0 < n,
        forall|i: int|
            0 <= i < shards@.len() ==> (#[trigger] shards@[i]).1@.len() == shards@[0].1@.len(),
        shards@[0].1@.len() >= 1,
    ensures
        r@ == fec_decode_of(k as int, n as int, shard_views(shards@)),
        r@.len() == k * shards@[0].1@.len(),
        (forall|i: int| 0 <= i < k ==> (#[trigger] shards@[i]).0 == i) ==> r@ == spec_concat_shards(
            shard_views(shards@),
        ),
        forall|msg: Seq<u8>|
            msg.len() == k * shards@[0].1@.len() && #[trigger] shards_match_encoding(
                k as int,
                n as int,
                shard_views(shards@),
                msg,
            ) ==> r@ == msg,
{
    let mut chunks: Vec<zfec_rs::Chunk> = Vec::with_capacity(shards.len());
    for sh in shards.iter() {
        chunks.push(zfec_rs::Chunk::new(sh.1.clone(), sh.0));
    }
    let fec = zfec_rs::Fec::new(k, n).unwrap();
    fec.decode(&chunks, 0).unwrap()
}

} // verus!
