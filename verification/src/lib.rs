//! Ground-station receiver core for a low-latency wireless video link.
//!
//! The airborne transmitter fragments JPEG frames into numbered packets,
//! groups them into forward-error-correction blocks and broadcasts them in
//! raw radio frames.  This crate holds the verified reassembly engine: the
//! header codecs, the block store, the block decoder with its sliding
//! window, the frame reassembler and the outbound configuration injector.

pub mod clock;
pub mod fec;
pub mod frame;
pub mod inject;
pub mod packet;
pub mod radio;
pub mod store;
pub mod vtx;

use crate::frame::{Frame, FrameView};
use crate::radio::{parse_radiotap, radiotap_parse};
use crate::vtx::{spec_packet_index_of, spec_vtx_packet_of, Block, BlockView, VtxPacket,
    VtxPacketView, VTX_PACKET_HEADER_SIZE};
use vstd::prelude::*;

verus! {

/// Number of payload bytes in each FEC shard.
pub const FEC_CODEC_MTU: usize = 1470;

/// Byte size of the fixed link-layer header between the radiotap prefix and
/// the VTX packet of every captured frame.
pub const WLAN_IEEE_HEADER_SIZE: usize = 24;

/// What `process_cap_packets` did with one captured frame.
#[derive(Clone, Copy, PartialEq, Eq, Structural, Debug)]
pub enum IngestStatus {
    /// The VTX packet was handed to the block store (a duplicate of an
    /// already-stored packet index is silently discarded there).
    Stored,
    /// The packet index was not below `fec_n`; the packet was dropped.
    OutOfRange,
    /// The capture was too short to hold the headers and payload.
    TooShort,
    /// The capture driver marked the frame as failing its check sequence.
    BadFcs,
    /// The radiotap prefix carried no flags field.
    NoFlags,
    /// The bytes do not parse as a radiotap capture, or their present bitmap
    /// announces a vendor namespace, which the parser cannot be trusted with.
    ParseFailed,
}

/// The key the block store sorts by.
pub open spec fn block_key() -> spec_fn(BlockView) -> u32 {
    |b: BlockView| b.index
}

/// The key the frame store sorts by.
pub open spec fn frame_key() -> spec_fn(FrameView) -> u32 {
    |f: FrameView| f.frame_index
}

/// Counters kept about the capture session.
pub struct ConnectStats {
    pub start_time: std::time::SystemTime,
    pub broken_block_count: u32,
    /// How many frame-part headers arrived with a checksum that did not
    /// match; the parts are kept anyway, this only surfaces the corruption.
    pub crc_mismatch_count: u32,
}

impl ConnectStats {
    pub fn new() -> (r: ConnectStats)
        ensures
            r.broken_block_count == 0,
            r.crc_mismatch_count == 0,
    {
        ConnectStats {
            start_time: crate::clock::system_time_now(),
            broken_block_count: 0,
            crc_mismatch_count: 0,
        }
    }
}

/// A counter after `m` more events, saturating at the counter's maximum.
pub open spec fn spec_saturating_count(c: u32, m: int) -> u32 {
    if c + m > u32::MAX {
        u32::MAX
    } else {
        (c + m) as u32
    }
}

/// Counting saturates the same whether events come in one batch or two.
proof fn lemma_saturating_chain(c: u32, a: int, b: int)
    requires
        a >= 0,
        b >= 0,
    ensures
        spec_saturating_count(spec_saturating_count(c, a), b) == spec_saturating_count(c, a + b),
{
}

/// The mathematical state of the reassembly engine.
#[verifier::ext_equal]
pub struct CapHandlerView {
    pub blocks: Seq<BlockView>,
    pub frames: Seq<FrameView>,
    pub fec_k: u32,
    pub fec_n: u32,
    pub finish_frame_index: u32,
    pub current_process_block_index: u32,
    pub callback: bool,
}

impl CapHandlerView {
    /// The engine invariant: valid FEC parameters, both stores sorted by
    /// their key, and every block and frame well formed.  In particular no
    /// packet index appears twice inside any block.
    pub open spec fn wf(&self) -> bool {
        &&& 1 <= self.fec_k <= self.fec_n <= 256
        &&& store::sorted_by(self.blocks, block_key())
        &&& forall|i: int|
            0 <= i < self.blocks.len() ==> (#[trigger] self.blocks[i]).wf(self.fec_k, self.fec_n)
        &&& store::sorted_by(self.frames, frame_key())
        &&& forall|i: int| 0 <= i < self.frames.len() ==> (#[trigger] self.frames[i]).wf()
    }
}

/// The reassembly engine: ingests captured radio frames, reconstructs block
/// payloads and reassembles application frames.
pub struct CapHandler {
    pub blocks: Vec<Block>,
    pub frames: Vec<Frame>,
    pub fec_k: u32,
    pub fec_n: u32,
    pub finish_frame_index: u32,
    pub current_process_block_index: u32,
    pub callback: bool,
    pub stats: ConnectStats,
}

impl View for CapHandler {
    type V = CapHandlerView;

    open spec fn view(&self) -> CapHandlerView {
        CapHandlerView {
            blocks: self.blocks@.map_values(|b: Block| b@),
            frames: self.frames@.map_values(|f: Frame| f@),
            fec_k: self.fec_k,
            fec_n: self.fec_n,
            finish_frame_index: self.finish_frame_index,
            current_process_block_index: self.current_process_block_index,
            callback: self.callback,
        }
    }
}

/// What one captured frame classifies as, given the FEC shard count.  A
/// capture that announces a vendor namespace is rejected before parsing.
pub open spec fn spec_ingest_status(d: Seq<u8>, fec_n: u32) -> IngestStatus {
    if radio::spec_vendor_ns_announced(d) {
        IngestStatus::ParseFailed
    } else {
        match radiotap_parse(d) {
            Option::None => IngestStatus::ParseFailed,
            Option::Some(info) => match info.1 {
                Option::None => IngestStatus::NoFlags,
                Option::Some(fl) => {
                    if fl.0 {
                        IngestStatus::BadFcs
                    } else if d.len() < info.0 + WLAN_IEEE_HEADER_SIZE + VTX_PACKET_HEADER_SIZE + (
                    if fl.1 {
                        4int
                    } else {
                        0int
                    }) {
                        IngestStatus::TooShort
                    } else if spec_packet_index_of(
                        d.skip(info.0 + WLAN_IEEE_HEADER_SIZE as int),
                    ) >= fec_n {
                        IngestStatus::OutOfRange
                    } else {
                        IngestStatus::Stored
                    }
                },
            },
        }
    }
}

/// The VTX packet a stored capture carries.
pub open spec fn spec_ingest_packet(d: Seq<u8>) -> VtxPacketView
    recommends
        radiotap_parse(d) is Some,
{
    let info = radiotap_parse(d)->Some_0;
    let fcs = info.1->Some_0.1;
    spec_vtx_packet_of(d.skip(info.0 + WLAN_IEEE_HEADER_SIZE as int), fcs)
}

/// The block store after one packet is filed: the packet joins its block,
/// on-demand created, and a packet index already held by that block is
/// discarded.
pub open spec fn spec_store_packet(
    blocks: Seq<BlockView>,
    p: VtxPacketView,
    fec_k: u32,
) -> Seq<BlockView> {
    let bi = p.block_index();
    if store::has_key(blocks, bi, block_key()) {
        let pos = store::index_of_key(blocks, bi, block_key());
        blocks.update(pos, blocks[pos].spec_insert(p, fec_k))
    } else {
        let nb = BlockView { packets: Seq::empty(), fec_packets: Seq::empty(), index: bi }
            .spec_insert(p, fec_k);
        store::sorted_insert(blocks, nb, block_key())
    }
}

/// The block store after one captured frame: unchanged unless the frame
/// classifies as `Stored`.
pub open spec fn spec_ingest_blocks(
    blocks: Seq<BlockView>,
    d: Seq<u8>,
    fec_k: u32,
    fec_n: u32,
) -> Seq<BlockView> {
    if spec_ingest_status(d, fec_n) == IngestStatus::Stored {
        spec_store_packet(blocks, spec_ingest_packet(d), fec_k)
    } else {
        blocks
    }
}

impl CapHandler {
    /// A fresh engine for a `(fec_k, fec_n)` code.  The bounds are the ones
    /// the FEC codec itself accepts.
    pub fn new(fec_k: u32, fec_n: u32) -> (r: CapHandler)
        requires
            1 <= fec_k <= fec_n <= 256,
        ensures
            r@.wf(),
            r@.blocks.len() == 0,
            r@.frames.len() == 0,
            r@.fec_k == fec_k,
            r@.fec_n == fec_n,
            r@.finish_frame_index == 0,
            r@.current_process_block_index == 0,
            r@.callback == false,
            r.stats.broken_block_count == 0,
            r.stats.crc_mismatch_count == 0,
    {
        CapHandler {
            blocks: Vec::new(),
            frames: Vec::new(),
            fec_k,
            fec_n,
            finish_frame_index: 0,
            current_process_block_index: 0,
            callback: false,
            stats: ConnectStats::new(),
        }
    }

    /// Registers the completion sink: from now on a completed frame is
    /// handed out by `process_air2ground_packets` and the frame store is
    /// cleared, instead of completed frames accumulating for polling.
    pub fn do_when_recv_new_frame(&mut self)
        ensures
            *final(self) == (CapHandler { callback: true, ..*old(self) }),
    {
        self.callback = true;
    }

    /// Ingests one captured radio frame: parses the radiotap prefix, strips
    /// it and the link-layer header, and files the VTX packet behind them
    /// into the block store.  A capture whose present bitmap announces a
    /// vendor namespace is rejected before the parser sees it.  Every
    /// failure is reported, never raised: the caller decides which ones are
    /// fatal.
    pub fn process_cap_packets(&mut self, data: &[u8]) -> (r: IngestStatus)
        requires
            old(self)@.wf(),
        ensures
            final(self)@.wf(),
            forall|i: int|
                0 <= i < final(self)@.blocks.len() ==> (
                #[trigger] final(self)@.blocks[i]).no_duplicate_indices(),
            r == spec_ingest_status(data@, old(self)@.fec_n),
            final(self)@.blocks == spec_ingest_blocks(
                old(self)@.blocks,
                data@,
                old(self)@.fec_k,
                old(self)@.fec_n,
            ),
            final(self)@ == (CapHandlerView { blocks: final(self)@.blocks, ..old(self)@ }),
            final(self).stats == old(self).stats,
    {
        if radio::vendor_ns_announced(data) {
            return IngestStatus::ParseFailed;
        }
        let info = parse_radiotap(data);
        let (rt_len, flags) = match info {
            Option::None => {
                return IngestStatus::ParseFailed;
            },
            Option::Some(i) => i,
        };
        let (bad_fcs, fcs) = match flags {
            Option::None => {
                return IngestStatus::NoFlags;
            },
            Option::Some(f) => f,
        };
        if bad_fcs {
            return IngestStatus::BadFcs;
        }
        let fixed = WLAN_IEEE_HEADER_SIZE + VTX_PACKET_HEADER_SIZE + if fcs {
            4usize
        } else {
            0usize
        };
        if data.len() < fixed || rt_len > data.len() - fixed {
            return IngestStatus::TooShort;
        }
        let payload = vstd::slice::slice_subrange(data, rt_len + WLAN_IEEE_HEADER_SIZE, data.len());
        proof {
            assert(payload@ == data@.skip(rt_len + WLAN_IEEE_HEADER_SIZE as int));
        }
        let vtx_packet = VtxPacket::from(payload, fcs, self.fec_n);
        let p = match vtx_packet {
            Option::None => {
                return IngestStatus::OutOfRange;
            },
            Option::Some(p) => p,
        };
        self.store_packet(p);
        proof {
            assert forall|i: int| 0 <= i < self@.blocks.len() implies (
            #[trigger] self@.blocks[i]).no_duplicate_indices() by {
                self@.blocks[i].lemma_wf_no_duplicates(self@.fec_k, self@.fec_n);
            };
        }
        IngestStatus::Stored
    }

    /// Files one parsed VTX packet into its block, creating the block on
    /// demand; a packet index its block already holds is discarded.
    fn store_packet(&mut self, p: VtxPacket)
        requires
            old(self)@.wf(),
            p@.wf(),
            p@.packet_index() < old(self)@.fec_n,
        ensures
            final(self)@.wf(),
            final(self)@.blocks == spec_store_packet(old(self)@.blocks, p@, old(self)@.fec_k),
            final(self)@ == (CapHandlerView { blocks: final(self)@.blocks, ..old(self)@ }),
            final(self).stats == old(self).stats,
    {
        let ghost blocks = self@.blocks;
        let ghost pv = p@;
        let bi = p.header.block_index();
        proof {
            assert forall|j: int| 0 <= j < self.blocks@.len() implies (
            #[trigger] self.blocks@[j]).index == blocks[j].index by {
                assert(blocks[j] == self.blocks@[j]@);
            };
        }
        let mut pos: usize = 0;
        while pos < self.blocks.len() && self.blocks[pos].index < bi
            invariant
                pos <= blocks.len(),
                blocks == self@.blocks,
                blocks == self.blocks@.map_values(|b: Block| b@),
                forall|j: int|
                    0 <= j < self.blocks@.len() ==> (#[trigger] self.blocks@[j]).index
                        == blocks[j].index,
                forall|j: int| 0 <= j < pos ==> (#[trigger] block_key()(blocks[j])) < bi,
            decreases blocks.len() - pos,
        {
            proof {
                assert(blocks[pos as int] == self.blocks@[pos as int]@);
            }
            pos = pos + 1;
        }
        proof {
            assert(pos < blocks.len() ==> blocks[pos as int] == self.blocks@[pos as int]@);
        }
        if pos < self.blocks.len() && self.blocks[pos].index == bi {
            proof {
                store::lemma_sorted_unique(blocks, block_key());
                assert(store::has_key(blocks, bi, block_key()));
                store::lemma_index_of_key(blocks, bi, block_key());
                assert(store::index_of_key(blocks, bi, block_key()) == pos as int) by {
                    let k = store::index_of_key(blocks, bi, block_key());
                    assert(block_key()(blocks[k]) == block_key()(blocks[pos as int]));
                };
            }
            let mut b = self.blocks.remove(pos);
            proof {
                assert(b@ == blocks[pos as int]);
                assert(b@.wf(self@.fec_k, self@.fec_n));
            }
            b.insert(p, self.fec_k, self.fec_n);
            self.blocks.insert(pos, b);
            proof {
                assert(self.blocks@.map_values(|q: Block| q@) =~= blocks.update(
                    pos as int,
                    blocks[pos as int].spec_insert(pv, self@.fec_k),
                ));
                store::lemma_sorted_update_same_key(
                    blocks,
                    blocks[pos as int].spec_insert(pv, self@.fec_k),
                    pos as int,
                    block_key(),
                );
            }
        } else {
            proof {
                assert(pos < blocks.len() ==> block_key()(blocks[pos as int]) > bi);
                assert(!store::has_key(blocks, bi, block_key())) by {
                    if store::has_key(blocks, bi, block_key()) {
                        let j = choose|j: int|
                            0 <= j < blocks.len() && block_key()(blocks[j]) == bi;
                        if j > pos {
                            assert(block_key()(blocks[pos as int]) < block_key()(blocks[j]));
                        }
                    }
                };
            }
            let mut nb = Block::new(bi);
            nb.insert(p, self.fec_k, self.fec_n);
            proof {
                let nbv = (BlockView {
                    packets: Seq::empty(),
                    fec_packets: Seq::empty(),
                    index: bi,
                }).spec_insert(pv, self@.fec_k);
                assert(nb@.packets =~= nbv.packets);
                assert(nb@.fec_packets =~= nbv.fec_packets);
                assert(nb@ == nbv) by {
                    assert(nb@.index == nbv.index);
                };
                assert(block_key()(nb@) == bi) by {
                    assert(nbv.index == bi);
                };
                store::lemma_sorted_insert_at(blocks, nb@, pos as int, block_key());
                store::lemma_sorted_insert_keeps_sorted(blocks, nb@, pos as int, block_key());
            }
            self.blocks.insert(pos, nb);
            proof {
                assert(self.blocks@.map_values(|q: Block| q@) =~= blocks.insert(pos as int, nb@));
            }
        }
    }
}

/// `d` padded with zero bytes to the fixed shard width, or cut to it.
pub open spec fn spec_pad_shard(d: Seq<u8>) -> Seq<u8> {
    if d.len() >= FEC_CODEC_MTU {
        d.take(FEC_CODEC_MTU as int)
    } else {
        d + Seq::new((FEC_CODEC_MTU - d.len()) as nat, |i: int| 0u8)
    }
}

/// The payloads of `s`, concatenated in the order they stand in.
pub open spec fn spec_concat_packets(s: Seq<VtxPacketView>) -> Seq<u8>
    decreases s.len(),
{
    if s.len() == 0 {
        Seq::empty()
    } else {
        s[0].data + spec_concat_packets(s.drop_first())
    }
}

/// Concatenation peels one packet off the back as well as off the front.
pub proof fn lemma_concat_packets_push(s: Seq<VtxPacketView>, p: VtxPacketView)
    ensures
        spec_concat_packets(s.push(p)) == spec_concat_packets(s) + p.data,
    decreases s.len(),
{
    if s.len() == 0 {
        assert(s.push(p).drop_first() =~= s);
        assert(spec_concat_packets(s.push(p)) =~= spec_concat_packets(s) + p.data);
    } else {
        lemma_concat_packets_push(s.drop_first(), p);
        assert(s.push(p).drop_first() =~= s.drop_first().push(p));
        assert(spec_concat_packets(s.push(p)) =~= spec_concat_packets(s) + p.data);
    }
}

/// The key shard lists are sorted by before decoding.
pub open spec fn shard_key() -> spec_fn((int, Seq<u8>)) -> u32 {
    |s: (int, Seq<u8>)| s.0 as u32
}

/// The shards chosen to decode a block, in the order the slots `i..k` are
/// filled: a slot whose systematic packet arrived takes that payload, a slot
/// without one consumes the most recently arrived parity packet left in
/// `fec`.  Every payload is padded to the shard width.
pub open spec fn spec_chosen_shards(
    sys: Seq<VtxPacketView>,
    fec: Seq<VtxPacketView>,
    i: int,
    k: int,
) -> Seq<(int, Seq<u8>)>
    decreases k - i,
{
    if i >= k {
        Seq::empty()
    } else if store::has_key(sys, i as u32, vtx::packet_key()) {
        let q = store::index_of_key(sys, i as u32, vtx::packet_key());
        seq![(i, spec_pad_shard(sys[q].data))] + spec_chosen_shards(sys, fec, i + 1, k)
    } else {
        seq![
            (fec.last().packet_index() as int, spec_pad_shard(fec.last().data)),
        ] + spec_chosen_shards(sys, fec.drop_last(), i + 1, k)
    }
}

/// Choosing shards for slots `i..k` yields one shard per slot.
pub proof fn lemma_chosen_shards_len(
    sys: Seq<VtxPacketView>,
    fec: Seq<VtxPacketView>,
    i: int,
    k: int,
)
    requires
        i <= k,
    ensures
        spec_chosen_shards(sys, fec, i, k).len() == k - i,
    decreases k - i,
{
    if i < k {
        if store::has_key(sys, i as u32, vtx::packet_key()) {
            lemma_chosen_shards_len(sys, fec, i + 1, k);
        } else {
            lemma_chosen_shards_len(sys, fec.drop_last(), i + 1, k);
        }
    }
}

/// `s` reordered by ascending shard index.
pub open spec fn spec_sort_shards(s: Seq<(int, Seq<u8>)>) -> Seq<(int, Seq<u8>)>
    decreases s.len(),
{
    if s.len() == 0 {
        Seq::empty()
    } else {
        store::sorted_insert(spec_sort_shards(s.drop_last()), s.last(), shard_key())
    }
}

/// The sorted shard list handed to the FEC decoder for block `b`.
pub open spec fn spec_block_shards(b: BlockView, k: int) -> Seq<(int, Seq<u8>)> {
    spec_sort_shards(spec_chosen_shards(b.packets, b.fec_packets, 0, k))
}

/// A block can be decoded once it holds at least `k` shards.
pub open spec fn spec_block_decodable(b: BlockView, k: int) -> bool {
    b.packets.len() + b.fec_packets.len() >= k
}

/// Every element of a sorted insertion is the inserted element or one of the
/// original ones.
proof fn lemma_sorted_insert_membership<T>(s: Seq<T>, p: T, key: spec_fn(T) -> u32)
    ensures
        forall|q: int|
            0 <= q < store::sorted_insert(s, p, key).len() ==> (#[trigger] store::sorted_insert(
                s,
                p,
                key,
            )[q]) == p || exists|j: int| 0 <= j < s.len() && store::sorted_insert(s, p, key)[q]
                == s[j],
    decreases s.len(),
{
    let t = store::sorted_insert(s, p, key);
    if s.len() == 0 {
    } else if key(p) < key(s[0]) {
        assert forall|q: int| 0 <= q < t.len() implies (#[trigger] t[q]) == p || exists|j: int|
            0 <= j < s.len() && t[q] == s[j] by {
            if q > 0 {
                assert(t[q] == s[q - 1]);
            }
        };
    } else {
        lemma_sorted_insert_membership(s.drop_first(), p, key);
        let u = store::sorted_insert(s.drop_first(), p, key);
        assert forall|q: int| 0 <= q < t.len() implies (#[trigger] t[q]) == p || exists|j: int|
            0 <= j < s.len() && t[q] == s[j] by {
            if q > 0 {
                assert(t[q] == u[q - 1]);
                if u[q - 1] != p {
                    let j = choose|j: int| 0 <= j < s.drop_first().len() && u[q - 1]
                        == s.drop_first()[j];
                    assert(t[q] == s[j + 1]);
                }
            }
        };
    }
}

/// Every element of the sorted shard list is one of the chosen shards.
proof fn lemma_sort_shards_membership(s: Seq<(int, Seq<u8>)>)
    ensures
        forall|q: int|
            0 <= q < spec_sort_shards(s).len() ==> exists|j: int|
                0 <= j < s.len() && (#[trigger] spec_sort_shards(s)[q]) == s[j],
    decreases s.len(),
{
    if s.len() > 0 {
        lemma_sort_shards_membership(s.drop_last());
        lemma_sorted_insert_membership(spec_sort_shards(s.drop_last()), s.last(), shard_key());
        let t = spec_sort_shards(s);
        assert forall|q: int| 0 <= q < t.len() implies exists|j: int|
            0 <= j < s.len() && (#[trigger] t[q]) == s[j] by {
            if t[q] == s.last() {
                assert(t[q] == s[s.len() - 1]);
            } else {
                let w = choose|w: int|
                    0 <= w < spec_sort_shards(s.drop_last()).len() && t[q] == spec_sort_shards(
                        s.drop_last(),
                    )[w];
                let j = choose|j: int|
                    0 <= j < s.drop_last().len() && spec_sort_shards(s.drop_last())[w]
                        == s.drop_last()[j];
                assert(t[q] == s[j]);
            }
        };
    }
}

/// Every shard chosen for the slots `i..k` carries the chunk of the `(k, n)`
/// encoding of `msg` that its index names, provided every stored payload
/// does.  The cursor `sys_pos` and the counting premise mirror how the
/// decoder walks the systematic store: slots below `i` lie behind the
/// cursor, and enough packets remain to fill every slot left.
proof fn lemma_chosen_shards_match(
    sys: Seq<VtxPacketView>,
    fecs: Seq<VtxPacketView>,
    i: int,
    k: int,
    n: int,
    sys_pos: int,
    msg: Seq<u8>,
)
    requires
        store::sorted_by(sys, vtx::packet_key()),
        0 <= i <= k <= 0xffffffff,
        0 <= sys_pos <= sys.len(),
        forall|j: int| 0 <= j < sys_pos ==> (#[trigger] vtx::packet_key()(sys[j])) < i,
        sys_pos < sys.len() ==> vtx::packet_key()(sys[sys_pos]) >= i,
        sys.len() - sys_pos + fecs.len() >= k - i,
        forall|j: int| 0 <= j < sys.len() ==> (#[trigger] vtx::packet_key()(sys[j])) < k,
        forall|q: int|
            0 <= q < sys.len() ==> (#[trigger] sys[q]).data.len() == FEC_CODEC_MTU as int
                && sys[q].data == fec::fec_encode_of(k, n, msg)[sys[q].packet_index() as int],
        forall|q: int|
            0 <= q < fecs.len() ==> (#[trigger] fecs[q]).data.len() == FEC_CODEC_MTU as int
                && fecs[q].data == fec::fec_encode_of(k, n, msg)[fecs[q].packet_index() as int],
    ensures
        fec::shards_match_encoding(k, n, spec_chosen_shards(sys, fecs, i, k), msg),
    decreases k - i,
{
    if i >= k {
        return ;
    }
    let chosen = spec_chosen_shards(sys, fecs, i, k);
    if store::has_key(sys, i as u32, vtx::packet_key()) {
        let q0 = store::index_of_key(sys, i as u32, vtx::packet_key());
        store::lemma_index_of_key(sys, i as u32, vtx::packet_key());
        assert(q0 >= sys_pos) by {
            if q0 < sys_pos {
                assert(vtx::packet_key()(sys[q0]) < i);
            }
        };
        assert(q0 == sys_pos) by {
            if q0 > sys_pos {
                assert(vtx::packet_key()(sys[sys_pos]) < vtx::packet_key()(sys[q0]));
            }
        };
        assert(sys[q0].data.take(FEC_CODEC_MTU as int) =~= sys[q0].data);
        assert(chosen[0] == (i, sys[q0].data));
        assert(sys[q0].packet_index() as int == i);
        lemma_chosen_shards_match(sys, fecs, i + 1, k, n, sys_pos + 1, msg);
        let rest = spec_chosen_shards(sys, fecs, i + 1, k);
        assert forall|q: int| 0 <= q < chosen.len() implies (#[trigger] chosen[q]).1
            == fec::fec_encode_of(k, n, msg)[chosen[q].0] by {
            if q > 0 {
                assert(chosen[q] == rest[q - 1]);
            }
        };
    } else {
        assert(fecs.len() >= 1) by {
            if fecs.len() == 0 {
                assert(sys.len() - sys_pos >= k - i >= 1);
                assert(vtx::packet_key()(sys[sys_pos]) != i);
                store::lemma_sorted_gap(sys, vtx::packet_key(), sys_pos, sys.len() - 1);
                assert(vtx::packet_key()(sys[sys.len() - 1]) as int >= i + 1 + (sys.len() - 1
                    - sys_pos));
            }
        };
        let last = fecs.last();
        assert(last == fecs[fecs.len() - 1]);
        assert(last.data.take(FEC_CODEC_MTU as int) =~= last.data);
        assert(chosen[0] == (last.packet_index() as int, last.data));
        assert(sys_pos < sys.len() ==> vtx::packet_key()(sys[sys_pos]) >= i + 1);
        assert(forall|q: int| 0 <= q < fecs.drop_last().len() ==> fecs.drop_last()[q] == fecs[q]);
        lemma_chosen_shards_match(sys, fecs.drop_last(), i + 1, k, n, sys_pos, msg);
        let rest = spec_chosen_shards(sys, fecs.drop_last(), i + 1, k);
        assert forall|q: int| 0 <= q < chosen.len() implies (#[trigger] chosen[q]).1
            == fec::fec_encode_of(k, n, msg)[chosen[q].0] by {
            if q > 0 {
                assert(chosen[q] == rest[q - 1]);
            }
        };
    }
}

/// FEC equivalence at the block level: when every packet a decodable block
/// holds carries, at its packet index, the chunk of one `(fec_k, fec_n)`
/// encoding of `msg`, then the shard list handed to the FEC decoder for that
/// block matches that encoding too — whichever subset of shards arrived, and
/// in whatever order the parity was consumed.  Together with the contract of
/// `process_block` this pins the decoded bytes to `msg` itself.
pub proof fn lemma_block_shards_match_encoding(b: BlockView, fec_k: u32, fec_n: u32, msg: Seq<u8>)
    requires
        b.wf(fec_k, fec_n),
        spec_block_decodable(b, fec_k as int),
        forall|q: int|
            0 <= q < b.packets.len() ==> (#[trigger] b.packets[q]).data.len() == FEC_CODEC_MTU
                 as int && b.packets[q].data == fec::fec_encode_of(
                fec_k as int,
                fec_n as int,
                msg,
            )[b.packets[q].packet_index() as int],
        forall|q: int|
            0 <= q < b.fec_packets.len() ==> (#[trigger] b.fec_packets[q]).data.len()
                == FEC_CODEC_MTU as int && b.fec_packets[q].data == fec::fec_encode_of(
                fec_k as int,
                fec_n as int,
                msg,
            )[b.fec_packets[q].packet_index() as int],
    ensures
        fec::shards_match_encoding(
            fec_k as int,
            fec_n as int,
            spec_block_shards(b, fec_k as int),
            msg,
        ),
{
    let kk = fec_k as int;
    let nn = fec_n as int;
    lemma_chosen_shards_match(b.packets, b.fec_packets, 0, kk, nn, 0, msg);
    let chosen = spec_chosen_shards(b.packets, b.fec_packets, 0, kk);
    lemma_sort_shards_membership(chosen);
    let sorted = spec_block_shards(b, kk);
    assert forall|q: int| 0 <= q < sorted.len() implies (#[trigger] sorted[q]).1
        == fec::fec_encode_of(kk, nn, msg)[sorted[q].0] by {
        let j = choose|j: int| 0 <= j < chosen.len() && sorted[q] == chosen[j];
        assert(chosen[j].1 == fec::fec_encode_of(kk, nn, msg)[chosen[j].0]);
    };
}

/// The bytes decoding block `b` yields: when all `k` systematic packets
/// arrived, their payloads concatenated in packet-index order, byte for
/// byte; otherwise the FEC decode of the chosen shards.
pub open spec fn spec_block_output(b: BlockView, k: int, n: int) -> Seq<u8> {
    if b.packets.len() == k {
        spec_concat_packets(b.packets)
    } else {
        fec::fec_decode_of(k, n, spec_block_shards(b, k))
    }
}

/// What `process_block` does to the engine: a decodable block is retired
/// and its bytes are returned; anything else leaves the engine unchanged.
pub open spec fn spec_process_block(v: CapHandlerView, block_index: u32) -> (
    CapHandlerView,
    Option<Seq<u8>>,
) {
    if store::has_key(v.blocks, block_index, block_key()) {
        let pos = store::index_of_key(v.blocks, block_index, block_key());
        let b = v.blocks[pos];
        if spec_block_decodable(b, v.fec_k as int) {
            (
                CapHandlerView {
                    blocks: v.blocks.remove(pos),
                    current_process_block_index: block_index,
                    ..v
                },
                Option::Some(spec_block_output(b, v.fec_k as int, v.fec_n as int)),
            )
        } else {
            (v, Option::None)
        }
    } else {
        (v, Option::None)
    }
}

/// Pads `d` with zero bytes to the fixed shard width, or cuts it to it.
fn pad_shard(d: &Vec<u8>) -> (r: Vec<u8>)
    ensures
        r@ == spec_pad_shard(d@),
        r@.len() == FEC_CODEC_MTU,
{
    let mut r: Vec<u8> = Vec::new();
    let m = if d.len() >= FEC_CODEC_MTU {
        FEC_CODEC_MTU
    } else {
        d.len()
    };
    let mut i: usize = 0;
    while i < m
        invariant
            i <= m,
            m <= d@.len(),
            m <= FEC_CODEC_MTU,
            r@ == d@.take(i as int),
        decreases m - i,
    {
        r.push(d[i]);
        i = i + 1;
        proof {
            assert(r@ =~= d@.take(i as int));
        }
    }
    while r.len() < FEC_CODEC_MTU
        invariant
            m <= r@.len() <= FEC_CODEC_MTU,
            r@.take(m as int) == d@.take(m as int),
            forall|j: int| m <= j < r@.len() ==> r@[j] == 0u8,
        decreases FEC_CODEC_MTU - r@.len(),
    {
        r.push(0u8);
    }
    proof {
        assert forall|j: int| 0 <= j < m implies r@[j] == d@[j] by {
            assert(r@.take(m as int)[j] == d@.take(m as int)[j]);
        };
        assert(r@ =~= spec_pad_shard(d@));
    }
    r
}

/// The payloads of `packets`, concatenated in the order they stand in.
fn concat_packets(packets: &Vec<VtxPacket>) -> (r: Vec<u8>)
    ensures
        r@ == spec_concat_packets(packets@.map_values(|p: VtxPacket| p@)),
{
    let ghost pv = packets@.map_values(|p: VtxPacket| p@);
    let mut r: Vec<u8> = Vec::new();
    let mut i: usize = 0;
    while i < packets.len()
        invariant
            i <= pv.len(),
            pv == packets@.map_values(|p: VtxPacket| p@),
            r@ == spec_concat_packets(pv.take(i as int)),
        decreases pv.len() - i,
    {
        let mut j: usize = 0;
        let part_len = packets[i].data.len();
        while j < part_len
            invariant
                j <= part_len,
                i < pv.len(),
                pv == packets@.map_values(|p: VtxPacket| p@),
                part_len == packets@[i as int].data@.len(),
                r@ == spec_concat_packets(pv.take(i as int)) + packets@[i as int].data@.take(
                    j as int,
                ),
            decreases part_len - j,
        {
            r.push(packets[i].data[j]);
            j = j + 1;
            proof {
                assert(r@ =~= spec_concat_packets(pv.take(i as int))
                    + packets@[i as int].data@.take(j as int));
            }
        }
        proof {
            assert(pv[i as int] == packets@[i as int]@);
            lemma_concat_packets_push(pv.take(i as int), pv[i as int]);
            assert(pv.take(i as int).push(pv[i as int]) =~= pv.take(i + 1));
            assert(packets@[i as int].data@.take(j as int) =~= pv[i as int].data);
            assert(r@ =~= spec_concat_packets(pv.take(i + 1)));
        }
        i = i + 1;
    }
    proof {
        assert(pv.take(pv.len() as int) =~= pv);
    }
    r
}

/// One step of `spec_sort_shards`: sorting one more shard inserts it into
/// the sorted list of the ones before it.
proof fn lemma_step_sort(s: Seq<(int, Seq<u8>)>, i: int)
    requires
        0 <= i < s.len(),
    ensures
        spec_sort_shards(s.take(i + 1)) == store::sorted_insert(
            spec_sort_shards(s.take(i)),
            s[i],
            shard_key(),
        ),
{
    assert(s.take(i + 1).drop_last() =~= s.take(i));
    assert(s.take(i + 1).last() == s[i]);
}

/// Inserts one shard into a list kept sorted by shard index.
fn insert_shard(shards: &mut Vec<(usize, Vec<u8>)>, idx: usize, data: Vec<u8>)
    requires
        store::sorted_by(fec::shard_views(old(shards)@), shard_key()),
        !store::has_key(fec::shard_views(old(shards)@), idx as u32, shard_key()),
        idx <= 0xffffffff,
        forall|q: int| 0 <= q < old(shards)@.len() ==> (#[trigger] old(shards)@[q]).0 <= 0xffffffff,
    ensures
        fec::shard_views(final(shards)@) == store::sorted_insert(
            fec::shard_views(old(shards)@),
            (idx as int, data@),
            shard_key(),
        ),
        store::sorted_by(fec::shard_views(final(shards)@), shard_key()),
        exists|q: int|
            0 <= q <= old(shards)@.len() && final(shards)@ == old(shards)@.insert(
                q,
                final(shards)@[q],
            ) && final(shards)@[q].0 == idx && final(shards)@[q].1@ == data@,
        final(shards)@.len() == old(shards)@.len() + 1,
{
    let ghost views = fec::shard_views(shards@);
    let ghost pair = (idx as int, data@);
    proof {
        assert(shard_key()(pair) == idx as u32);
        assert forall|j: int| 0 <= j < views.len() implies (#[trigger] shard_key()(views[j])) as int
            == shards@[j].0 as int by {
            assert(views[j] == (shards@[j].0 as int, shards@[j].1@));
        };
    }
    let mut qpos: usize = 0;
    while qpos < shards.len() && shards[qpos].0 < idx
        invariant
            qpos <= views.len(),
            views == fec::shard_views(shards@),
            idx <= 0xffffffff,
            forall|q: int| 0 <= q < shards@.len() ==> (#[trigger] shards@[q]).0 <= 0xffffffff,
            forall|j: int|
                0 <= j < views.len() ==> ((#[trigger] shard_key()(views[j])) as int) == (
                shards@[j].0 as int),
            forall|j: int| 0 <= j < qpos ==> ((#[trigger] shard_key()(views[j])) as int) < idx,
        decreases views.len() - qpos,
    {
        qpos = qpos + 1;
    }
    proof {
        assert forall|j: int| 0 <= j < qpos implies shard_key()(#[trigger] views[j]) < shard_key()(
            pair,
        ) by {
            assert((shard_key()(views[j]) as int) < idx);
        };
        if qpos < views.len() {
            assert((shard_key()(views[qpos as int]) as int) == shards@[qpos as int].0 as int);
            assert(shards@[qpos as int].0 >= idx);
            assert(shard_key()(views[qpos as int]) != idx as u32);
            assert(shard_key()(pair) < shard_key()(views[qpos as int]));
        }
        store::lemma_sorted_insert_at(views, pair, qpos as int, shard_key());
        store::lemma_sorted_insert_props(views, pair, shard_key());
    }
    shards.insert(qpos, (idx, data));
    proof {
        assert(fec::shard_views(shards@) =~= views.insert(qpos as int, pair));
        assert(shards@ == old(shards)@.insert(qpos as int, shards@[qpos as int])) by {
            assert(shards@ =~= old(shards)@.insert(qpos as int, shards@[qpos as int]));
        };
        assert(shards@[qpos as int].0 == idx);
    }
}

impl CapHandler {
    /// Assembles the `fec_k` shards of a block that misses some systematic
    /// packets and runs the FEC decoder over them: each systematic slot is
    /// filled by its own packet when it arrived, else by the most recently
    /// arrived parity packet still unused; payloads are padded to the shard
    /// width and the shards sorted by packet index.
    fn decode_block_shards(&self, pos: usize) -> (out: Vec<u8>)
        requires
            self@.wf(),
            pos < self@.blocks.len(),
            self@.blocks[pos as int].packets.len() < self@.fec_k as int,
            spec_block_decodable(self@.blocks[pos as int], self@.fec_k as int),
        ensures
            out@ == spec_block_output(
                self@.blocks[pos as int],
                self@.fec_k as int,
                self@.fec_n as int,
            ),
            out@.len() == self@.fec_k as int * FEC_CODEC_MTU as int,
            forall|msg: Seq<u8>|
                msg.len() == self@.fec_k as int * FEC_CODEC_MTU as int
                    && #[trigger] fec::shards_match_encoding(
                    self@.fec_k as int,
                    self@.fec_n as int,
                    spec_block_shards(self@.blocks[pos as int], self@.fec_k as int),
                    msg,
                ) ==> out@ == msg,
    {
        let ghost bv = self@.blocks[pos as int];
        let ghost sys = bv.packets;
        let ghost fecs = bv.fec_packets;
        let ghost kk = self@.fec_k as int;
        let ghost chosen = spec_chosen_shards(sys, fecs, 0, kk);
        proof {
            assert(bv == self.blocks@[pos as int]@);
            assert(bv.wf(self@.fec_k, self@.fec_n));
            lemma_chosen_shards_len(sys, fecs, 0, kk);
            assert(fecs.take(fecs.len() as int) =~= fecs);
            assert(chosen.skip(0) =~= chosen);
            assert(fec::shard_views(Seq::<(usize, Vec<u8>)>::empty()) =~= Seq::<(
                int,
                Seq<u8>,
            )>::empty());
            assert(spec_sort_shards(chosen.take(0)) =~= Seq::<(int, Seq<u8>)>::empty());
            assert forall|j: int| 0 <= j < self.blocks@[pos as int].packets@.len() implies (
            #[trigger] self.blocks@[pos as int].packets@[j]).header.bytes@.len() == 6 by {
                assert(sys[j] == self.blocks@[pos as int].packets@[j]@);
                assert(sys[j].wf());
            };
            assert forall|j: int| 0 <= j < self.blocks@[pos as int].fec_packets@.len() implies (
            #[trigger] self.blocks@[pos as int].fec_packets@[j]).header.bytes@.len() == 6 by {
                assert(fecs[j] == self.blocks@[pos as int].fec_packets@[j]@);
                assert(fecs[j].wf());
            };
        }
        let mut shards: Vec<(usize, Vec<u8>)> = Vec::new();
        let mut sys_pos: usize = 0;
        let mut fec_left: usize = self.blocks[pos].fec_packets.len();
        let mut i: u32 = 0;
        while i < self.fec_k
            invariant
                self@.wf(),
                pos < self@.blocks.len(),
                bv == self@.blocks[pos as int],
                sys == bv.packets,
                fecs == bv.fec_packets,
                bv.wf(self@.fec_k, self@.fec_n),
                kk == self@.fec_k as int,
                sys.len() < kk,
                chosen == spec_chosen_shards(sys, fecs, 0, kk),
                chosen.len() == kk,
                sys == self.blocks@[pos as int].packets@.map_values(|p: VtxPacket| p@),
                fecs == self.blocks@[pos as int].fec_packets@.map_values(|p: VtxPacket| p@),
                forall|j: int|
                    0 <= j < self.blocks@[pos as int].packets@.len() ==> (
                    #[trigger] self.blocks@[pos as int].packets@[j]).header.bytes@.len() == 6,
                forall|j: int|
                    0 <= j < self.blocks@[pos as int].fec_packets@.len() ==> (
                    #[trigger] self.blocks@[pos as int].fec_packets@[j]).header.bytes@.len() == 6,
                i <= self@.fec_k,
                sys_pos <= sys.len(),
                fec_left <= fecs.len(),
                forall|j: int| 0 <= j < sys_pos ==> (#[trigger] vtx::packet_key()(sys[j])) < i,
                sys_pos < sys.len() ==> sys[sys_pos as int].packet_index() >= i,
                sys_pos as int + fecs.len() - fec_left as int == i as int,
                sys.len() - sys_pos as int + fec_left as int >= kk - i as int,
                chosen.skip(i as int) == spec_chosen_shards(
                    sys,
                    fecs.take(fec_left as int),
                    i as int,
                    kk,
                ),
                fec::shard_views(shards@) == spec_sort_shards(chosen.take(i as int)),
                shards@.len() == i as int,
                store::sorted_by(fec::shard_views(shards@), shard_key()),
                forall|q: int|
                    0 <= q < shards@.len() ==> ((#[trigger] shards@[q]).0 as int) < self@.fec_n
                         as int,
                forall|q: int|
                    0 <= q < shards@.len() && ((#[trigger] shards@[q]).0 as int) < kk ==> ((
                    shards@[q]).0 as int) < i as int,
                forall|q: int, qq: int|
                    0 <= q < shards@.len() && 0 <= qq < fec_left ==> ((
                    #[trigger] shards@[q]).0 as int) != (#[trigger] fecs[qq]).packet_index() as int,
                forall|q: int|
                    0 <= q < shards@.len() ==> (#[trigger] shards@[q]).1@.len() == FEC_CODEC_MTU,
            decreases self@.fec_k - i,
        {
            let ghost shards0 = shards@;
            let have_sys = sys_pos < self.blocks[pos].packets.len()
                && self.blocks[pos].packets[sys_pos].header.packet_index() == i;
            proof {
                if sys_pos < sys.len() {
                    assert(sys[sys_pos as int] == self.blocks@[pos as int].packets@[sys_pos as int]@);
                }
            }
            if have_sys {
                proof {
                    assert(store::has_key(sys, i, vtx::packet_key()));
                    store::lemma_index_of_key(sys, i, vtx::packet_key());
                    store::lemma_sorted_unique(sys, vtx::packet_key());
                    assert(vtx::packet_key()(
                        sys[store::index_of_key(sys, i, vtx::packet_key())],
                    ) == vtx::packet_key()(sys[sys_pos as int]));
                    assert(store::index_of_key(sys, i, vtx::packet_key()) == sys_pos as int);
                }
                let padded = pad_shard(&self.blocks[pos].packets[sys_pos].data);
                let ghost pair = (i as int, spec_pad_shard(sys[sys_pos as int].data));
                proof {
                    assert(chosen.skip(i as int)[0] == pair);
                    assert(chosen[i as int] == pair);
                    assert(!store::has_key(fec::shard_views(shards@), i, shard_key())) by {
                        if store::has_key(fec::shard_views(shards@), i, shard_key()) {
                            let q = choose|q: int|
                                0 <= q < shards@.len() && shard_key()(
                                    fec::shard_views(shards@)[q],
                                ) == i;
                            assert(fec::shard_views(shards@)[q] == (
                                shards@[q].0 as int,
                                shards@[q].1@,
                            ));
                            assert(shards@[q].0 as int == i as int);
                        }
                    };
                }
                insert_shard(&mut shards, i as usize, padded);
                proof {
                    lemma_step_sort(chosen, i as int);
                    assert(spec_pad_shard(sys[sys_pos as int].data).len() == FEC_CODEC_MTU);
                    assert(fec::shard_views(shards@) == spec_sort_shards(chosen.take(i as int + 1)));
                    let w = choose|q: int|
                        0 <= q <= shards0.len() && shards@ == shards0.insert(q, shards@[q])
                            && shards@[q].0 == i as usize && shards@[q].1@ == pair.1;
                    assert forall|q: int| 0 <= q < shards@.len() implies ((
                    #[trigger] shards@[q]).0 as int) < self@.fec_n as int && (((shards@[q]).0
                        as int) < kk ==> ((shards@[q]).0 as int) < i as int + 1) && ((
                    shards@[q]).1@.len() == FEC_CODEC_MTU) by {
                        if q < w {
                            assert(shards@[q] == shards0[q]);
                        } else if q > w {
                            assert(shards@[q] == shards0[q - 1]);
                        }
                    };
                    assert forall|q: int, qq: int|
                        0 <= q < shards@.len() && 0 <= qq < fec_left implies ((
                    #[trigger] shards@[q]).0 as int) != (#[trigger] fecs[qq]).packet_index()
                         as int by {
                        assert(fecs[qq].packet_index() >= self@.fec_k);
                        if q < w {
                            assert(shards@[q] == shards0[q]);
                        } else if q > w {
                            assert(shards@[q] == shards0[q - 1]);
                        }
                    };
                    // cursor facts for the next slot
                    assert(sys_pos as int + 1 < sys.len() ==> vtx::packet_key()(
                        sys[sys_pos as int + 1],
                    ) > vtx::packet_key()(sys[sys_pos as int]));
                    // chosen tail
                    assert(chosen.skip(i as int).drop_first() =~= chosen.skip(i as int + 1));
                }
                sys_pos = sys_pos + 1;
            } else {
                proof {
                    assert(!store::has_key(sys, i, vtx::packet_key())) by {
                        if store::has_key(sys, i, vtx::packet_key()) {
                            let j = choose|j: int|
                                0 <= j < sys.len() && vtx::packet_key()(sys[j]) == i;
                            if j < sys_pos {
                            } else {
                                assert(sys_pos < sys.len());
                                if j > sys_pos {
                                    assert(vtx::packet_key()(sys[sys_pos as int]) < vtx::packet_key()(
                                        sys[j],
                                    ));
                                }
                            }
                        }
                    };
                    assert(fec_left >= 1) by {
                        if fec_left == 0 {
                            assert(sys.len() - sys_pos as int >= kk - i as int >= 1);
                            assert(sys_pos < sys.len());
                            assert(sys[sys_pos as int].packet_index() > i);
                            store::lemma_sorted_gap(
                                sys,
                                vtx::packet_key(),
                                sys_pos as int,
                                sys.len() - 1,
                            );
                            assert(vtx::packet_key()(sys[sys.len() - 1]) < self@.fec_k);
                        }
                    };
                    assert(fecs.take(fec_left as int).last() == fecs[fec_left - 1]);
                    assert(fecs[fec_left - 1] == self.blocks@[pos as int].fec_packets@[fec_left
                        - 1]@);
                }
                let p_idx = self.blocks[pos].fec_packets[fec_left - 1].header.packet_index();
                let padded = pad_shard(&self.blocks[pos].fec_packets[fec_left - 1].data);
                let ghost pair = (p_idx as int, spec_pad_shard(fecs[fec_left - 1].data));
                proof {
                    assert(p_idx == fecs[fec_left - 1].packet_index());
                    assert(self@.fec_k <= p_idx < self@.fec_n);
                    assert(spec_chosen_shards(sys, fecs.take(fec_left as int), i as int, kk)[0]
                        == pair);
                    assert(chosen[i as int] == pair);
                    assert(!store::has_key(fec::shard_views(shards@), p_idx, shard_key())) by {
                        if store::has_key(fec::shard_views(shards@), p_idx, shard_key()) {
                            let q = choose|q: int|
                                0 <= q < shards@.len() && shard_key()(
                                    fec::shard_views(shards@)[q],
                                ) == p_idx;
                            assert(fec::shard_views(shards@)[q] == (
                                shards@[q].0 as int,
                                shards@[q].1@,
                            ));
                            assert(shards@[q].0 as int == p_idx as int);
                        }
                    };
                }
                insert_shard(&mut shards, p_idx as usize, padded);
                proof {
                    lemma_step_sort(chosen, i as int);
                    assert(spec_pad_shard(fecs[fec_left - 1].data).len() == FEC_CODEC_MTU);
                    assert(fec::shard_views(shards@) == spec_sort_shards(chosen.take(i as int + 1)));
                    let w = choose|q: int|
                        0 <= q <= shards0.len() && shards@ == shards0.insert(q, shards@[q])
                            && shards@[q].0 == p_idx as usize && shards@[q].1@ == pair.1;
                    assert forall|q: int| 0 <= q < shards@.len() implies ((
                    #[trigger] shards@[q]).0 as int) < self@.fec_n as int && (((shards@[q]).0
                        as int) < kk ==> ((shards@[q]).0 as int) < i as int + 1) && ((
                    shards@[q]).1@.len() == FEC_CODEC_MTU) by {
                        if q < w {
                            assert(shards@[q] == shards0[q]);
                        } else if q > w {
                            assert(shards@[q] == shards0[q - 1]);
                        }
                    };
                    assert forall|q: int, qq: int|
                        0 <= q < shards@.len() && 0 <= qq < fec_left - 1 implies ((
                    #[trigger] shards@[q]).0 as int) != (#[trigger] fecs[qq]).packet_index()
                         as int by {
                        if q < w {
                            assert(shards@[q] == shards0[q]);
                        } else if q > w {
                            assert(shards@[q] == shards0[q - 1]);
                        }
                    };
                    assert(fecs.take(fec_left as int).drop_last() =~= fecs.take(
                        fec_left as int - 1,
                    ));
                    assert(chosen.skip(i as int).drop_first() =~= chosen.skip(i as int + 1));
                }
                fec_left = fec_left - 1;
            }
            i = i + 1;
        }
        proof {
            assert(chosen.take(kk) =~= chosen);
            assert(fec::shard_views(shards@) == spec_block_shards(bv, kk));
            assert(shards@.len() == kk);
            assert forall|a: int, b: int| 0 <= a < b < shards@.len() implies (
            #[trigger] shards@[a]).0 < (#[trigger] shards@[b]).0 by {
                let va = fec::shard_views(shards@)[a];
                let vb = fec::shard_views(shards@)[b];
                assert(va == (shards@[a].0 as int, shards@[a].1@));
                assert(vb == (shards@[b].0 as int, shards@[b].1@));
                assert(shard_key()(va) < shard_key()(vb));
            };
            assert(shards@[0].1@.len() == FEC_CODEC_MTU);
        }
        let out = fec::fec_decode(self.fec_k as usize, self.fec_n as usize, &shards);
        proof {
            assert(out@ == spec_block_output(bv, kk, self@.fec_n as int));
            assert forall|msg: Seq<u8>|
                msg.len() == kk * FEC_CODEC_MTU as int && #[trigger] fec::shards_match_encoding(
                    kk,
                    self@.fec_n as int,
                    spec_block_shards(bv, kk),
                    msg,
                ) implies out@ == msg by {
                assert(fec::shards_match_encoding(
                    kk,
                    self@.fec_n as int,
                    fec::shard_views(shards@),
                    msg,
                ));
            };
        }
        out
    }

    /// Decodes and retires the block with the given index, if it is present
    /// and decodable: with all `fec_k` systematic packets in, their payloads
    /// are concatenated directly; otherwise `fec_k` shards are assembled
    /// (padded to the shard width and sorted by packet index) and handed to
    /// the FEC decoder.  The FEC path yields `fec_k` slots of the shard
    /// width, and when its shards carry chunks of one encoded message, that
    /// message itself, whichever shards arrived.  A retired block leaves the
    /// store, and `current_process_block_index` moves to it.
    pub fn process_block(&mut self, block_index: u32) -> (r: Option<Vec<u8>>)
        requires
            old(self)@.wf(),
        ensures
            final(self)@.wf(),
            final(self)@ == spec_process_block(old(self)@, block_index).0,
            (r is Some) == (spec_process_block(old(self)@, block_index).1 is Some),
            r matches Some(out) ==> Option::Some(out@) == spec_process_block(
                old(self)@,
                block_index,
            ).1,
            r is Some ==> !store::has_key(final(self)@.blocks, block_index, block_key())
                && final(self)@.current_process_block_index == block_index,
            r matches Some(out) ==> ({
                let b = old(self)@.blocks[store::index_of_key(
                    old(self)@.blocks,
                    block_index,
                    block_key(),
                )];
                b.packets.len() < old(self)@.fec_k as int ==> {
                    &&& out@.len() == old(self)@.fec_k as int * FEC_CODEC_MTU as int
                    &&& forall|msg: Seq<u8>|
                        msg.len() == old(self)@.fec_k as int * FEC_CODEC_MTU as int
                            && #[trigger] fec::shards_match_encoding(
                            old(self)@.fec_k as int,
                            old(self)@.fec_n as int,
                            spec_block_shards(b, old(self)@.fec_k as int),
                            msg,
                        ) ==> out@ == msg
                }
            }),
            final(self)@.frames == old(self)@.frames,
    {
        let ghost v0 = self@;
        let ghost blocks = self@.blocks;
        proof {
            assert forall|j: int| 0 <= j < self.blocks@.len() implies (
            #[trigger] self.blocks@[j]).index == blocks[j].index by {
                assert(blocks[j] == self.blocks@[j]@);
            };
        }
        let mut pos: usize = 0;
        while pos < self.blocks.len() && self.blocks[pos].index < block_index
            invariant
                pos <= blocks.len(),
                blocks == self@.blocks,
                blocks == self.blocks@.map_values(|b: Block| b@),
                forall|j: int|
                    0 <= j < self.blocks@.len() ==> (#[trigger] self.blocks@[j]).index
                        == blocks[j].index,
                forall|j: int| 0 <= j < pos ==> (#[trigger] block_key()(blocks[j])) < block_index,
            decreases blocks.len() - pos,
        {
            pos = pos + 1;
        }
        if !(pos < self.blocks.len() && self.blocks[pos].index == block_index) {
            proof {
                assert(!store::has_key(blocks, block_index, block_key())) by {
                    if store::has_key(blocks, block_index, block_key()) {
                        let j = choose|j: int|
                            0 <= j < blocks.len() && block_key()(blocks[j]) == block_index;
                        if j >= pos {
                            assert(pos < blocks.len());
                            assert(block_key()(blocks[pos as int]) <= block_key()(blocks[j]));
                            assert(blocks[pos as int].index == block_index ==> false);
                            if j > pos {
                                assert(block_key()(blocks[pos as int]) < block_key()(blocks[j]));
                            }
                        }
                    }
                };
            }
            return Option::None;
        }
        proof {
            assert(store::has_key(blocks, block_index, block_key()));
            store::lemma_index_of_key(blocks, block_index, block_key());
            store::lemma_sorted_unique(blocks, block_key());
            assert(store::index_of_key(blocks, block_index, block_key()) == pos as int);
        }
        let ghost bv = blocks[pos as int];
        let k = self.fec_k as usize;
        let sys_len = self.blocks[pos].packets.len();
        let fec_len = self.blocks[pos].fec_packets.len();
        proof {
            assert(bv == self.blocks@[pos as int]@);
            assert(bv.wf(v0.fec_k, v0.fec_n));
            store::lemma_sorted_len_bound(bv.packets, vtx::packet_key(), v0.fec_k as int);
            assert(sys_len <= k);
        }
        let out: Vec<u8>;
        if sys_len == k {
            out = concat_packets(&self.blocks[pos].packets);
            proof {
                assert(out@ == spec_block_output(bv, v0.fec_k as int, v0.fec_n as int));
            }
        } else if fec_len >= k - sys_len {
            out = self.decode_block_shards(pos);
            proof {
                assert(out@ == spec_block_output(bv, v0.fec_k as int, v0.fec_n as int));
            }
        } else {
            proof {
                assert(!spec_block_decodable(bv, v0.fec_k as int));
            }
            return Option::None;
        }
        self.current_process_block_index = block_index;
        let _removed = self.blocks.remove(pos);
        proof {
            assert(self.blocks@.map_values(|b: Block| b@) =~= blocks.remove(pos as int));
            store::lemma_sorted_remove(blocks, pos as int, block_key());
            assert(spec_block_decodable(bv, v0.fec_k as int));
        }
        Option::Some(out)
    }
}

/// The block store left after the sliding window evicts every leading block
/// whose index is at or below `bound`.
pub open spec fn spec_evict(blocks: Seq<BlockView>, bound: u32) -> Seq<BlockView>
    decreases blocks.len(),
{
    if blocks.len() > 0 && blocks[0].index <= bound {
        spec_evict(blocks.drop_first(), bound)
    } else {
        blocks
    }
}

/// The block store after the sliding window ran for `block_index`: blocks
/// with index at most `block_index - 2` are evicted, and nothing is evicted
/// while `block_index < 2`.
pub open spec fn spec_window_blocks(blocks: Seq<BlockView>, block_index: u32) -> Seq<BlockView> {
    if block_index >= 2 {
        spec_evict(blocks, (block_index - 2) as u32)
    } else {
        blocks
    }
}

impl CapHandler {
    /// `process_block` followed by the sliding-window garbage collector:
    /// after decoding, every block with index at most `block_index - 2` is
    /// evicted from the head of the store (no eviction while
    /// `block_index < 2`), so at most two trailing blocks are retained as a
    /// reassembly buffer and memory use stays bounded.
    pub fn process_block_with_fix_buffer(&mut self, block_index: u32) -> (r: Option<Vec<u8>>)
        requires
            old(self)@.wf(),
        ensures
            final(self)@.wf(),
            (r is Some) == (spec_process_block(old(self)@, block_index).1 is Some),
            r matches Some(out) ==> Option::Some(out@) == spec_process_block(
                old(self)@,
                block_index,
            ).1,
            r matches Some(out) ==> ({
                let b = old(self)@.blocks[store::index_of_key(
                    old(self)@.blocks,
                    block_index,
                    block_key(),
                )];
                b.packets.len() < old(self)@.fec_k as int ==> {
                    &&& out@.len() == old(self)@.fec_k as int * FEC_CODEC_MTU as int
                    &&& forall|msg: Seq<u8>|
                        msg.len() == old(self)@.fec_k as int * FEC_CODEC_MTU as int
                            && #[trigger] fec::shards_match_encoding(
                            old(self)@.fec_k as int,
                            old(self)@.fec_n as int,
                            spec_block_shards(b, old(self)@.fec_k as int),
                            msg,
                        ) ==> out@ == msg
                }
            }),
            final(self)@ == (CapHandlerView {
                blocks: spec_window_blocks(
                    spec_process_block(old(self)@, block_index).0.blocks,
                    block_index,
                ),
                ..spec_process_block(old(self)@, block_index).0
            }),
            forall|j: int|
                0 <= j < final(self)@.blocks.len() && block_index >= 2 ==> (
                #[trigger] final(self)@.blocks[j]).index as int > block_index - 2,
            final(self)@.frames == old(self)@.frames,
    {
        let r = self.process_block(block_index);
        let ghost mid = self@.blocks;
        if block_index >= 2 {
            let bound = block_index - 2;
            while self.blocks.len() > 0 && self.blocks[0].index <= bound
                invariant
                    self@.wf(),
                    bound == block_index - 2,
                    spec_evict(self@.blocks, bound) == spec_evict(mid, bound),
                    mid == spec_process_block(old(self)@, block_index).0.blocks,
                    self@ == (CapHandlerView {
                        blocks: self@.blocks,
                        ..spec_process_block(old(self)@, block_index).0
                    }),
                decreases self@.blocks.len(),
            {
                let ghost pre = self@.blocks;
                proof {
                    assert(pre[0] == self.blocks@[0]@);
                    assert(pre[0].index <= bound);
                }
                let _evicted = self.blocks.remove(0);
                proof {
                    assert(self.blocks@.map_values(|b: Block| b@) =~= pre.drop_first());
                    assert(spec_evict(pre, bound) == spec_evict(pre.drop_first(), bound));
                }
            }
            proof {
                assert(spec_evict(self@.blocks, bound) == self@.blocks);
                assert forall|j: int|
                    0 <= j < self@.blocks.len() implies (#[trigger] self@.blocks[j]).index as int
                    > block_index - 2 by {
                    assert(block_key()(self@.blocks[0]) <= block_key()(self@.blocks[j]));
                };
            }
        }
        r
    }
}

/// What consuming a decoded byte stream leaves behind: the frame and block
/// stores, the finish index, the frames completed along the way, and how
/// many slots carried a frame header whose checksum did not match.
#[verifier::ext_equal]
pub struct ConsumeResult {
    pub frames: Seq<FrameView>,
    pub blocks: Seq<BlockView>,
    pub finish_frame_index: u32,
    pub emitted: Seq<FrameView>,
    pub crc_mismatches: int,
}

/// Whether the frame-part header at the front of `chunk` carries the
/// checksum its bytes compute to.
pub open spec fn spec_frame_crc_ok(chunk: Seq<u8>) -> bool {
    packet::spec_parse_video_header(chunk).spec_crc() == packet::spec_parse_video_header(chunk).crc
}

/// One fresh frame for `frame_index`, before any part arrives.
pub open spec fn spec_fresh_frame(frame_index: u32) -> FrameView {
    FrameView { parts: Seq::empty(), frame_index, parts_count: 0 }
}

/// What consuming one fixed-width slot does to the reassembler.  The slot
/// is parsed as one frame part and filed into its frame, on-demand created;
/// the part that carries the last-part mark fixes the frame's part count.  A
/// part of a frame older than the last finished one means the source
/// restarted: all pending blocks and frames are dropped and the finish index
/// resets to zero.  A completed frame moves the finish index; with a
/// completion sink registered it is emitted and the frame store cleared,
/// without one it stays for polling.
#[verifier::opaque]
pub open spec fn spec_consume_step(
    frames: Seq<FrameView>,
    blocks: Seq<BlockView>,
    finish: u32,
    callback: bool,
    chunk: Seq<u8>,
) -> ConsumeResult {
    let pkt = packet::spec_frame_packet_of(chunk);
    let fi = pkt.header.frame_index;
    let miss: int = if spec_frame_crc_ok(chunk) {
        0
    } else {
        1
    };
    if fi < finish {
        ConsumeResult {
            frames: Seq::empty(),
            blocks: Seq::empty(),
            finish_frame_index: 0,
            emitted: Seq::empty(),
            crc_mismatches: miss,
        }
    } else {
        let frames1 = if store::has_key(frames, fi, frame_key()) {
            frames
        } else {
            store::sorted_insert(frames, spec_fresh_frame(fi), frame_key())
        };
        let pos = store::index_of_key(frames1, fi, frame_key());
        let f1 = frames1[pos].spec_insert(pkt);
        let f2 = if pkt.header.spec_last_part() != 0 {
            FrameView { parts_count: (pkt.header.spec_part_index() + 1) as u8, ..f1 }
        } else {
            f1
        };
        if f2.complete() {
            if callback {
                ConsumeResult {
                    frames: Seq::empty(),
                    blocks,
                    finish_frame_index: fi,
                    emitted: seq![f2],
                    crc_mismatches: miss,
                }
            } else {
                ConsumeResult {
                    frames: frames1.update(pos, f2),
                    blocks,
                    finish_frame_index: fi,
                    emitted: Seq::empty(),
                    crc_mismatches: miss,
                }
            }
        } else {
            ConsumeResult {
                frames: frames1.update(pos, f2),
                blocks,
                finish_frame_index: finish,
                emitted: Seq::empty(),
                crc_mismatches: miss,
            }
        }
    }
}

/// What consuming `data`, slot by slot of the fixed shard width, does to the
/// reassembler: each slot acts as `spec_consume_step` says, and a slot that
/// detects a source restart abandons the rest of `data`.
pub open spec fn spec_consume(
    frames: Seq<FrameView>,
    blocks: Seq<BlockView>,
    finish: u32,
    callback: bool,
    data: Seq<u8>,
) -> ConsumeResult
    decreases data.len(),
{
    if data.len() < FEC_CODEC_MTU {
        ConsumeResult {
            frames,
            blocks,
            finish_frame_index: finish,
            emitted: Seq::empty(),
            crc_mismatches: 0,
        }
    } else {
        let chunk = data.take(FEC_CODEC_MTU as int);
        let s = spec_consume_step(frames, blocks, finish, callback, chunk);
        if packet::spec_frame_packet_of(chunk).header.frame_index < finish {
            s
        } else {
            let t = spec_consume(
                s.frames,
                s.blocks,
                s.finish_frame_index,
                callback,
                data.skip(FEC_CODEC_MTU as int),
            );
            ConsumeResult {
                emitted: s.emitted + t.emitted,
                crc_mismatches: s.crc_mismatches + t.crc_mismatches,
                ..t
            }
        }
    }
}

/// Every consumed slot counts zero or one checksum mismatches, so the total
/// is never negative.
proof fn lemma_consume_mismatches_nonneg(
    frames: Seq<FrameView>,
    blocks: Seq<BlockView>,
    finish: u32,
    callback: bool,
    data: Seq<u8>,
)
    ensures
        spec_consume(frames, blocks, finish, callback, data).crc_mismatches >= 0,
    decreases data.len(),
{
    reveal(spec_consume_step);
    if data.len() >= FEC_CODEC_MTU {
        let chunk = data.take(FEC_CODEC_MTU as int);
        let s = spec_consume_step(frames, blocks, finish, callback, chunk);
        if !(packet::spec_frame_packet_of(chunk).header.frame_index < finish) {
            lemma_consume_mismatches_nonneg(
                s.frames,
                s.blocks,
                s.finish_frame_index,
                callback,
                data.skip(FEC_CODEC_MTU as int),
            );
        }
    }
}

/// Whether consuming `data`, slot by slot, hits a slot that detects a
/// source restart: a slot whose frame index lies below the finish index in
/// force when that slot is reached.
pub open spec fn spec_consume_hits_restart(
    frames: Seq<FrameView>,
    blocks: Seq<BlockView>,
    finish: u32,
    callback: bool,
    data: Seq<u8>,
) -> bool
    decreases data.len(),
{
    if data.len() < FEC_CODEC_MTU {
        false
    } else {
        let chunk = data.take(FEC_CODEC_MTU as int);
        if packet::spec_frame_packet_of(chunk).header.frame_index < finish {
            true
        } else {
            let s = spec_consume_step(frames, blocks, finish, callback, chunk);
            spec_consume_hits_restart(
                s.frames,
                s.blocks,
                s.finish_frame_index,
                callback,
                data.skip(FEC_CODEC_MTU as int),
            )
        }
    }
}

/// A source restart detected anywhere while consuming a buffer leaves the
/// block and frame stores empty and the finish index zero: the restart slot
/// clears them and the rest of the buffer is abandoned.
pub proof fn lemma_restart_anywhere_clears(
    frames: Seq<FrameView>,
    blocks: Seq<BlockView>,
    finish: u32,
    callback: bool,
    data: Seq<u8>,
)
    requires
        spec_consume_hits_restart(frames, blocks, finish, callback, data),
    ensures
        spec_consume(frames, blocks, finish, callback, data).blocks == Seq::<BlockView>::empty(),
        spec_consume(frames, blocks, finish, callback, data).frames == Seq::<FrameView>::empty(),
        spec_consume(frames, blocks, finish, callback, data).finish_frame_index == 0,
    decreases data.len(),
{
    reveal(spec_consume_step);
    let chunk = data.take(FEC_CODEC_MTU as int);
    if packet::spec_frame_packet_of(chunk).header.frame_index < finish {
    } else {
        let s = spec_consume_step(frames, blocks, finish, callback, chunk);
        lemma_restart_anywhere_clears(
            s.frames,
            s.blocks,
            s.finish_frame_index,
            callback,
            data.skip(FEC_CODEC_MTU as int),
        );
    }
}

/// A part of a frame older than the last finished one clears all pending
/// blocks and frames and resets the finish index to zero, whatever else is
/// pending, and the rest of the buffer is abandoned.
pub proof fn lemma_restart_clears(
    frames: Seq<FrameView>,
    blocks: Seq<BlockView>,
    finish: u32,
    callback: bool,
    data: Seq<u8>,
)
    requires
        data.len() >= FEC_CODEC_MTU,
        packet::spec_frame_packet_of(
            data.take(FEC_CODEC_MTU as int),
        ).header.frame_index < finish,
    ensures
        spec_consume(frames, blocks, finish, callback, data).blocks == Seq::<BlockView>::empty(),
        spec_consume(frames, blocks, finish, callback, data).finish_frame_index == 0,
        spec_consume(frames, blocks, finish, callback, data).frames == Seq::<FrameView>::empty(),
        spec_consume(frames, blocks, finish, callback, data).emitted == Seq::<FrameView>::empty(),
{
    reveal(spec_consume_step);
}

/// The frame store with a slot for `frame_index` on hand: the store itself
/// when that frame exists, else the store with a fresh frame filed in.
pub open spec fn spec_frames_with(frames: Seq<FrameView>, frame_index: u32) -> Seq<FrameView> {
    if store::has_key(frames, frame_index, frame_key()) {
        frames
    } else {
        store::sorted_insert(frames, spec_fresh_frame(frame_index), frame_key())
    }
}

impl CapHandler {
    /// Takes the frame with the given index out of the store, creating a
    /// fresh one when it is absent.  The position it came from (and goes
    /// back to) is returned beside it.
    fn take_frame(&mut self, frame_index: u32) -> (r: (Frame, usize))
        requires
            old(self)@.wf(),
        ensures
            ({
                let frames1 = spec_frames_with(old(self)@.frames, frame_index);
                &&& 0 <= r.1 < frames1.len()
                &&& r.1 as int == store::index_of_key(frames1, frame_index, frame_key())
                &&& r.0@ == frames1[r.1 as int]
                &&& r.0@.frame_index == frame_index
                &&& r.0@.wf()
                &&& final(self)@.frames == frames1.remove(r.1 as int)
                &&& store::sorted_by(frames1, frame_key())
                &&& (forall|j: int| 0 <= j < frames1.len() ==> (#[trigger] frames1[j]).wf())
                &&& final(self)@ == (CapHandlerView { frames: final(self)@.frames, ..old(self)@ })
            }),
            final(self).stats == old(self).stats,
    {
        let ghost frames0 = self@.frames;
        let ghost frames1 = spec_frames_with(frames0, frame_index);
        proof {
            assert forall|j: int| 0 <= j < self.frames@.len() implies (
            #[trigger] self.frames@[j]).frame_index == frames0[j].frame_index by {
                assert(frames0[j] == self.frames@[j]@);
            };
        }
        let mut pos: usize = 0;
        while pos < self.frames.len() && self.frames[pos].frame_index < frame_index
            invariant
                pos <= frames0.len(),
                frames0 == self@.frames,
                frames0 == self.frames@.map_values(|f: Frame| f@),
                forall|j: int|
                    0 <= j < self.frames@.len() ==> (#[trigger] self.frames@[j]).frame_index
                        == frames0[j].frame_index,
                forall|j: int| 0 <= j < pos ==> (#[trigger] frame_key()(frames0[j])) < frame_index,
            decreases frames0.len() - pos,
        {
            pos = pos + 1;
        }
        if pos < self.frames.len() && self.frames[pos].frame_index == frame_index {
            proof {
                assert(store::has_key(frames0, frame_index, frame_key()));
                assert(frames1 == frames0);
                store::lemma_index_of_key(frames1, frame_index, frame_key());
                store::lemma_sorted_unique(frames1, frame_key());
                assert(store::index_of_key(frames1, frame_index, frame_key()) == pos as int);
            }
            let fr = self.frames.remove(pos);
            proof {
                assert(fr@ == frames1[pos as int]);
                assert(self.frames@.map_values(|f: Frame| f@) =~= frames1.remove(pos as int));
            }
            (fr, pos)
        } else {
            proof {
                assert(pos < frames0.len() ==> frame_key()(frames0[pos as int]) > frame_index);
                assert(!store::has_key(frames0, frame_index, frame_key())) by {
                    if store::has_key(frames0, frame_index, frame_key()) {
                        let j = choose|j: int|
                            0 <= j < frames0.len() && frame_key()(frames0[j]) == frame_index;
                        if j > pos {
                            assert(frame_key()(frames0[pos as int]) < frame_key()(frames0[j]));
                        }
                    }
                };
                store::lemma_sorted_insert_at(
                    frames0,
                    spec_fresh_frame(frame_index),
                    pos as int,
                    frame_key(),
                );
                store::lemma_sorted_insert_props(
                    frames0,
                    spec_fresh_frame(frame_index),
                    frame_key(),
                );
                store::lemma_index_of_key(frames1, frame_index, frame_key());
                store::lemma_sorted_unique(frames1, frame_key());
                assert(frames1[pos as int] == spec_fresh_frame(frame_index));
                assert(frame_key()(frames1[pos as int]) == frame_index);
                assert(store::index_of_key(frames1, frame_index, frame_key()) == pos as int);
                assert(frames0 =~= frames1.remove(pos as int));
                assert forall|j: int| 0 <= j < frames1.len() implies (#[trigger] frames1[j]).wf()
                    by {
                    if j < pos {
                        assert(frames1[j] == frames0[j]);
                    } else if j > pos {
                        assert(frames1[j] == frames0[j - 1]);
                    }
                };
            }
            let fr = Frame::new(frame_index);
            proof {
                assert(fr@ =~= spec_fresh_frame(frame_index));
                assert(fr@ == frames1[pos as int]);
            }
            (fr, pos)
        }
    }
}

impl CapHandler {
    /// Consumes one fixed-width slot of a decoded block payload: parses it
    /// as a frame part and files it, handling restart detection, the part
    /// count and completion.  A header checksum that does not match is
    /// counted in the session stats and the part kept.  Returns the frame
    /// completed by this slot, if one was emitted, and whether a source
    /// restart was detected.
    #[verifier::rlimit(100)]
    fn consume_slot(&mut self, head: Vec<u8>) -> (r: (Option<Frame>, bool))
        requires
            old(self)@.wf(),
            head@.len() == FEC_CODEC_MTU,
        ensures
            final(self)@.wf(),
            ({
                let s = spec_consume_step(
                    old(self)@.frames,
                    old(self)@.blocks,
                    old(self)@.finish_frame_index,
                    old(self)@.callback,
                    head@,
                );
                &&& final(self)@.frames == s.frames
                &&& final(self)@.blocks == s.blocks
                &&& final(self)@.finish_frame_index == s.finish_frame_index
                &&& (match r.0 {
                    Option::Some(f) => s.emitted == seq![f@],
                    Option::None => s.emitted == Seq::<FrameView>::empty(),
                })
                &&& r.1 == (packet::spec_frame_packet_of(head@).header.frame_index < old(
                    self,
                )@.finish_frame_index)
                &&& s.crc_mismatches == (if spec_frame_crc_ok(head@) {
                    0int
                } else {
                    1int
                })
                &&& final(self).stats == (ConnectStats {
                    crc_mismatch_count: spec_saturating_count(
                        old(self).stats.crc_mismatch_count,
                        s.crc_mismatches,
                    ),
                    ..old(self).stats
                })
            }),
            final(self)@.fec_k == old(self)@.fec_k,
            final(self)@.fec_n == old(self)@.fec_n,
            final(self)@.callback == old(self)@.callback,
            final(self)@.current_process_block_index == old(self)@.current_process_block_index,
    {
        proof {
            reveal(spec_consume_step);
        }
        let ghost frames0 = self@.frames;
        let ghost blocks0 = self@.blocks;
        let ghost fin0 = self@.finish_frame_index;
        let ghost chunk = head@;
        let ghost pkt = packet::spec_frame_packet_of(chunk);
        let (packet, crc_ok) = packet::Air2GroundFramePacket::from_bytes(head);
        proof {
            assert(packet@ == pkt);
        }
        if !crc_ok {
            if self.stats.crc_mismatch_count < u32::MAX {
                self.stats.crc_mismatch_count = self.stats.crc_mismatch_count + 1;
            }
        }
        let frame_index = packet.header.frame_index;
        if frame_index < self.finish_frame_index {
            self.blocks.clear();
            self.frames.clear();
            self.finish_frame_index = 0;
            proof {
                assert(self@.blocks =~= Seq::<BlockView>::empty());
                assert(self@.frames =~= Seq::<FrameView>::empty());
            }
            return (Option::None, true);
        }
        let ghost frames1 = spec_frames_with(frames0, frame_index);
        let (mut fr, pos) = self.take_frame(frame_index);
        proof {
            assert(fr@ == frames1[pos as int]);
        }
        let real_part_index = packet.header.part_index();
        let last_part = packet.header.last_part();
        fr.insert_part(packet);
        if last_part != 0 {
            fr.parts_count = real_part_index + 1;
        }
        let ghost f2 = if pkt.header.spec_last_part() != 0 {
            FrameView {
                parts_count: (pkt.header.spec_part_index() + 1) as u8,
                ..frames1[pos as int].spec_insert(pkt)
            }
        } else {
            frames1[pos as int].spec_insert(pkt)
        };
        proof {
            assert(fr@ == f2);
            assert(f2.wf());
            assert(f2.frame_index == frame_index);
        }
        let complete = fr.parts_count != 0 && fr.parts.len() == fr.parts_count as usize;
        proof {
            assert(complete == f2.complete());
        }
        if complete {
            self.finish_frame_index = frame_index;
        }
        if complete && self.callback {
            self.frames.clear();
            proof {
                assert(self@.frames =~= Seq::<FrameView>::empty());
            }
            (Option::Some(fr), false)
        } else {
            proof {
                store::lemma_sorted_update_same_key(frames1, f2, pos as int, frame_key());
            }
            let ghost cur = self@.frames;
            proof {
                assert(cur == frames1.remove(pos as int));
                assert(self.frames@.len() == cur.len());
                assert(pos as int <= cur.len());
            }
            self.frames.insert(pos, fr);
            proof {
                assert(self.frames@.map_values(|f: Frame| f@) =~= cur.insert(pos as int, f2));
                assert(frames1.remove(pos as int).insert(pos as int, f2) =~= frames1.update(
                    pos as int,
                    f2,
                ));
                assert(self@.frames == frames1.update(pos as int, f2));
                assert forall|j: int| 0 <= j < self@.frames.len() implies (
                #[trigger] self@.frames[j]).wf() by {
                    if j != pos {
                        assert(self@.frames[j] == frames1[j]);
                    }
                };
            }
            (Option::None, false)
        }
    }

    /// Consumes one decoded block payload: a whole number of fixed-width
    /// slots, each holding one frame part.  Returns the frames completed by
    /// these bytes when a completion sink is registered (see
    /// `do_when_recv_new_frame`); without one, completed frames stay in the
    /// frame store for polling.
    pub fn process_air2ground_packets(&mut self, data: Vec<u8>) -> (emitted: Vec<Frame>)
        requires
            old(self)@.wf(),
            data@.len() as int % (FEC_CODEC_MTU as int) == 0,
        ensures
            final(self)@.wf(),
            ({
                let r = spec_consume(
                    old(self)@.frames,
                    old(self)@.blocks,
                    old(self)@.finish_frame_index,
                    old(self)@.callback,
                    data@,
                );
                &&& final(self)@.frames == r.frames
                &&& final(self)@.blocks == r.blocks
                &&& final(self)@.finish_frame_index == r.finish_frame_index
                &&& emitted@.map_values(|f: Frame| f@) == r.emitted
                &&& final(self).stats == (ConnectStats {
                    crc_mismatch_count: spec_saturating_count(
                        old(self).stats.crc_mismatch_count,
                        r.crc_mismatches,
                    ),
                    ..old(self).stats
                })
            }),
            final(self)@.fec_k == old(self)@.fec_k,
            final(self)@.fec_n == old(self)@.fec_n,
            final(self)@.callback == old(self)@.callback,
            final(self)@.current_process_block_index == old(self)@.current_process_block_index,
    {
        let ghost v0 = self@;
        let ghost d0 = data@;
        let ghost rt = spec_consume(v0.frames, v0.blocks, v0.finish_frame_index, v0.callback, d0);
        let mut rest_data = data;
        let mut emitted: Vec<Frame> = Vec::new();
        proof {
            lemma_consume_mismatches_nonneg(
                v0.frames,
                v0.blocks,
                v0.finish_frame_index,
                v0.callback,
                d0,
            );
        }
        #[verifier::loop_isolation(false)]
        while rest_data.len() >= FEC_CODEC_MTU
            invariant
                self@.wf(),
                self@.fec_k == v0.fec_k,
                self@.fec_n == v0.fec_n,
                self@.callback == v0.callback,
                self@.current_process_block_index == v0.current_process_block_index,
                rest_data@.len() as int % (FEC_CODEC_MTU as int) == 0,
                ({
                    let rn = spec_consume(
                        self@.frames,
                        self@.blocks,
                        self@.finish_frame_index,
                        v0.callback,
                        rest_data@,
                    );
                    &&& rt.frames == rn.frames
                    &&& rt.blocks == rn.blocks
                    &&& rt.finish_frame_index == rn.finish_frame_index
                    &&& rt.emitted == emitted@.map_values(|f: Frame| f@) + rn.emitted
                    &&& rn.crc_mismatches >= 0
                    &&& rt.crc_mismatches - rn.crc_mismatches >= 0
                    &&& self.stats == (ConnectStats {
                        crc_mismatch_count: spec_saturating_count(
                            old(self).stats.crc_mismatch_count,
                            rt.crc_mismatches - rn.crc_mismatches,
                        ),
                        ..old(self).stats
                    })
                }),
            decreases rest_data@.len(),
        {
            let ghost rest0 = rest_data@;
            let ghost cur_frames = self@.frames;
            let ghost cur_blocks = self@.blocks;
            let ghost cur_fin = self@.finish_frame_index;
            let tail = rest_data.split_off(FEC_CODEC_MTU);
            let head = rest_data;
            rest_data = tail;
            proof {
                assert(head@ == rest0.take(FEC_CODEC_MTU as int));
                assert(rest_data@ == rest0.skip(FEC_CODEC_MTU as int));
            }
            let ghost s = spec_consume_step(cur_frames, cur_blocks, cur_fin, v0.callback, head@);
            let (done, restart) = self.consume_slot(head);
            let ghost emitted_pre = emitted@;
            let ghost done_view: Option<FrameView> = match done {
                Option::Some(ref f) => Option::Some(f@),
                Option::None => Option::None,
            };
            match done {
                Option::Some(f) => {
                    proof {
                        lemma_map_values_push(emitted@, f);
                    }
                    emitted.push(f);
                },
                Option::None => {},
            }
            if restart {
                proof {
                    assert(spec_consume(cur_frames, cur_blocks, cur_fin, v0.callback, rest0) == s);
                    assert(emitted@.map_values(|f: Frame| f@) + Seq::<FrameView>::empty()
                        =~= emitted@.map_values(|f: Frame| f@));
                    lemma_saturating_chain(
                        old(self).stats.crc_mismatch_count,
                        rt.crc_mismatches - s.crc_mismatches,
                        s.crc_mismatches,
                    );
                }
                return emitted;
            }
            proof {
                let rn2 = spec_consume(
                    self@.frames,
                    self@.blocks,
                    self@.finish_frame_index,
                    v0.callback,
                    rest_data@,
                );
                assert(spec_consume(cur_frames, cur_blocks, cur_fin, v0.callback, rest0)
                    == (ConsumeResult {
                    emitted: s.emitted + rn2.emitted,
                    crc_mismatches: s.crc_mismatches + rn2.crc_mismatches,
                    ..rn2
                }));
                lemma_consume_mismatches_nonneg(
                    self@.frames,
                    self@.blocks,
                    self@.finish_frame_index,
                    v0.callback,
                    rest_data@,
                );
                lemma_saturating_chain(
                    old(self).stats.crc_mismatch_count,
                    rt.crc_mismatches - (s.crc_mismatches + rn2.crc_mismatches),
                    s.crc_mismatches,
                );
                match done_view {
                    Option::Some(fv) => {
                        assert(emitted@.map_values(|x: Frame| x@) =~= emitted_pre.map_values(
                            |x: Frame| x@,
                        ).push(fv));
                        assert(emitted_pre.map_values(|x: Frame| x@).push(fv) + rn2.emitted
                            =~= emitted_pre.map_values(|x: Frame| x@) + (seq![fv] + rn2.emitted));
                    },
                    Option::None => {
                        assert(Seq::<FrameView>::empty() + rn2.emitted =~= rn2.emitted);
                    },
                }
            }
        }
        proof {
            assert(emitted@.map_values(|f: Frame| f@) + Seq::<FrameView>::empty()
                =~= emitted@.map_values(|f: Frame| f@));
        }
        emitted
    }
}

/// Mapping a view over a store commutes with appending one element.
proof fn lemma_map_values_push(v: Seq<Frame>, f: Frame)
    ensures
        v.push(f).map_values(|x: Frame| x@) == v.map_values(|x: Frame| x@).push(f@),
{
    assert(v.push(f).map_values(|x: Frame| x@) =~= v.map_values(|x: Frame| x@).push(f@));
}

/// Whether a block meets the given criteria: each count that is given must
/// match; a criterion left out holds of every block.
pub open spec fn spec_block_matches(
    b: BlockView,
    packet_len: Option<u32>,
    fec_packet_len: Option<u32>,
) -> bool {
    &&& (packet_len matches Option::Some(l) ==> b.packets.len() == l as int)
    &&& (fec_packet_len matches Option::Some(l) ==> b.fec_packets.len() == l as int)
}

/// The position of the first block meeting the criteria, if any does.
pub open spec fn spec_find_block(
    blocks: Seq<BlockView>,
    packet_len: Option<u32>,
    fec_packet_len: Option<u32>,
) -> Option<int>
    decreases blocks.len(),
{
    if blocks.len() == 0 {
        Option::None
    } else if spec_block_matches(blocks[0], packet_len, fec_packet_len) {
        Option::Some(0)
    } else {
        match spec_find_block(blocks.drop_first(), packet_len, fec_packet_len) {
            Option::Some(i) => Option::Some(i + 1),
            Option::None => Option::None,
        }
    }
}

/// A scan that saw no match before `j` and a match at `j` found the first.
proof fn lemma_find_block_at(
    blocks: Seq<BlockView>,
    packet_len: Option<u32>,
    fec_packet_len: Option<u32>,
    j: int,
)
    requires
        0 <= j < blocks.len(),
        forall|q: int| 0 <= q < j ==> !spec_block_matches(#[trigger] blocks[q], packet_len, fec_packet_len),
        spec_block_matches(blocks[j], packet_len, fec_packet_len),
    ensures
        spec_find_block(blocks, packet_len, fec_packet_len) == Option::Some(j),
    decreases j,
{
    if j > 0 {
        assert(forall|q: int| 0 <= q < blocks.drop_first().len() ==> blocks.drop_first()[q]
            == blocks[q + 1]);
        lemma_find_block_at(blocks.drop_first(), packet_len, fec_packet_len, j - 1);
    }
}

/// A scan that saw no match anywhere found none.
proof fn lemma_find_block_none(
    blocks: Seq<BlockView>,
    packet_len: Option<u32>,
    fec_packet_len: Option<u32>,
)
    requires
        forall|q: int|
            0 <= q < blocks.len() ==> !spec_block_matches(
                #[trigger] blocks[q],
                packet_len,
                fec_packet_len,
            ),
    ensures
        spec_find_block(blocks, packet_len, fec_packet_len) is None,
    decreases blocks.len(),
{
    if blocks.len() > 0 {
        assert(forall|q: int| 0 <= q < blocks.drop_first().len() ==> blocks.drop_first()[q]
            == blocks[q + 1]);
        lemma_find_block_none(blocks.drop_first(), packet_len, fec_packet_len);
    }
}

/// Finds the first block, in ascending block-index order, whose systematic
/// and parity counts meet the given criteria; a criterion left as `None`
/// matches any count.  Returns the block's index beside it.
pub fn find_block<'a>(
    cap_handler: &'a CapHandler,
    packet_len: Option<u32>,
    fec_packet_len: Option<u32>,
) -> (r: Option<(u32, &'a Block)>)
    ensures
        (r is Some) == (spec_find_block(cap_handler@.blocks, packet_len, fec_packet_len) is Some),
        r matches Some(p) ==> {
            let i = spec_find_block(cap_handler@.blocks, packet_len, fec_packet_len)->Some_0;
            &&& 0 <= i < cap_handler@.blocks.len()
            &&& p.1@ == cap_handler@.blocks[i]
            &&& p.0 == cap_handler@.blocks[i].index
        },
{
    let ghost blocks = cap_handler@.blocks;
    let mut j: usize = 0;
    while j < cap_handler.blocks.len()
        invariant
            j <= blocks.len(),
            blocks == cap_handler@.blocks,
            blocks == cap_handler.blocks@.map_values(|b: Block| b@),
            forall|q: int|
                0 <= q < j ==> !spec_block_matches(#[trigger] blocks[q], packet_len, fec_packet_len),
        decreases blocks.len() - j,
    {
        proof {
            assert(blocks[j as int] == cap_handler.blocks@[j as int]@);
        }
        let b = &cap_handler.blocks[j];
        let mut matched = true;
        match packet_len {
            Option::Some(l) => {
                if b.packets.len() != l as usize {
                    matched = false;
                }
            },
            Option::None => {},
        }
        match fec_packet_len {
            Option::Some(l) => {
                if b.fec_packets.len() != l as usize {
                    matched = false;
                }
            },
            Option::None => {},
        }
        if matched {
            proof {
                assert(spec_block_matches(blocks[j as int], packet_len, fec_packet_len));
                lemma_find_block_at(blocks, packet_len, fec_packet_len, j as int);
            }
            return Option::Some((b.index, b));
        }
        proof {
            assert(!spec_block_matches(blocks[j as int], packet_len, fec_packet_len));
        }
        j = j + 1;
    }
    proof {
        lemma_find_block_none(blocks, packet_len, fec_packet_len);
    }
    Option::None
}

/// Systematic reconstruction: a well-formed block that received all `fec_k`
/// systematic packets decodes to their payloads concatenated in packet-index
/// order, byte for byte — packet `i` stands at position `i` and the output
/// is the concatenation of the stored payloads in that order.
pub proof fn lemma_systematic_reconstruction(b: BlockView, fec_k: u32, fec_n: u32)
    requires
        b.wf(fec_k, fec_n),
        b.packets.len() == fec_k as int,
    ensures
        forall|i: int|
            0 <= i < b.packets.len() ==> (#[trigger] b.packets[i]).packet_index() as int == i,
        spec_block_output(b, fec_k as int, fec_n as int) == spec_concat_packets(b.packets),
{
    store::lemma_sorted_keys_complete(b.packets, vtx::packet_key(), fec_k as int);
    assert forall|i: int| 0 <= i < b.packets.len() implies (
    #[trigger] b.packets[i]).packet_index() as int == i by {
        assert(vtx::packet_key()(b.packets[i]) as int == i);
    };
}

/// Ingesting the same captured frame twice leaves the block store exactly as
/// ingesting it once does: the duplicate packet is discarded by its block.
pub proof fn lemma_ingest_idempotent(blocks: Seq<BlockView>, d: Seq<u8>, fec_k: u32, fec_n: u32)
    requires
        store::sorted_by(blocks, block_key()),
    ensures
        spec_ingest_blocks(spec_ingest_blocks(blocks, d, fec_k, fec_n), d, fec_k, fec_n)
            == spec_ingest_blocks(blocks, d, fec_k, fec_n),
{
    if spec_ingest_status(d, fec_n) == IngestStatus::Stored {
        let p = spec_ingest_packet(d);
        let bi = p.block_index();
        let pi = p.packet_index();
        let once = spec_store_packet(blocks, p, fec_k);
        if store::has_key(blocks, bi, block_key()) {
            let pos = store::index_of_key(blocks, bi, block_key());
            store::lemma_index_of_key(blocks, bi, block_key());
            let b1 = blocks[pos].spec_insert(p, fec_k);
            assert(b1.index == bi);
            store::lemma_sorted_update_same_key(blocks, b1, pos, block_key());
            assert(store::has_key(once, bi, block_key())) by {
                assert(block_key()(once[pos]) == bi);
            };
            let pos2 = store::index_of_key(once, bi, block_key());
            store::lemma_index_of_key(once, bi, block_key());
            store::lemma_sorted_unique(once, block_key());
            assert(pos2 == pos);
            lemma_block_insert_idempotent(blocks[pos], p, fec_k);
            assert(once.update(pos, b1.spec_insert(p, fec_k)) =~= once);
        } else {
            let nb0 = BlockView { packets: Seq::empty(), fec_packets: Seq::empty(), index: bi };
            let nb = nb0.spec_insert(p, fec_k);
            assert(nb.index == bi);
            store::lemma_sorted_insert_props(blocks, nb, block_key());
            assert(store::has_key(once, bi, block_key()));
            let pos = choose|i: int| 0 <= i < once.len() && once[i] == nb;
            assert(block_key()(once[pos]) == bi);
            let pos2 = store::index_of_key(once, bi, block_key());
            store::lemma_index_of_key(once, bi, block_key());
            store::lemma_sorted_unique(once, block_key());
            assert(pos2 == pos);
            lemma_block_insert_idempotent(nb0, p, fec_k);
            assert(once.update(pos2, nb.spec_insert(p, fec_k)) =~= once);
        }
    }
}

/// Filing the same packet into a block twice equals filing it once.
proof fn lemma_block_insert_idempotent(b: BlockView, p: VtxPacketView, fec_k: u32)
    ensures
        b.spec_insert(p, fec_k).spec_insert(p, fec_k) == b.spec_insert(p, fec_k),
{
    let pi = p.packet_index();
    let b1 = b.spec_insert(p, fec_k);
    if pi >= fec_k {
        if store::has_key(b.fec_packets, pi, crate::vtx::packet_key()) {
        } else {
            assert(store::has_key(b1.fec_packets, pi, crate::vtx::packet_key())) by {
                assert(b1.fec_packets[b.fec_packets.len() as int] == p);
                assert(crate::vtx::packet_key()(b1.fec_packets[b.fec_packets.len() as int]) == pi);
            };
        }
    } else {
        if store::has_key(b.packets, pi, crate::vtx::packet_key()) {
        } else {
            lemma_sorted_insert_has_inserted(b.packets, p, crate::vtx::packet_key());
        }
    }
}

/// The boundary parity index is accepted: filing a packet whose index is
/// the last parity slot `fec_n - 1` into a store whose block does not hold
/// that parity index yet leaves that block holding the packet's payload as
/// parity (the block is created on demand).
pub proof fn lemma_last_parity_accepted(
    blocks: Seq<BlockView>,
    p: VtxPacketView,
    fec_k: u32,
    fec_n: u32,
)
    requires
        store::sorted_by(blocks, block_key()),
        fec_k < fec_n,
        p.packet_index() as int == fec_n as int - 1,
        store::has_key(blocks, p.block_index(), block_key()) ==> !store::has_key(
            blocks[store::index_of_key(blocks, p.block_index(), block_key())].fec_packets,
            p.packet_index(),
            vtx::packet_key(),
        ),
    ensures
        ({
            let after = spec_store_packet(blocks, p, fec_k);
            let pos = store::index_of_key(after, p.block_index(), block_key());
            &&& store::has_key(after, p.block_index(), block_key())
            &&& exists|q: int|
                0 <= q < after[pos].fec_packets.len() && (
                #[trigger] after[pos].fec_packets[q]).packet_index() == p.packet_index()
                    && after[pos].fec_packets[q].data == p.data
        }),
{
    let bi = p.block_index();
    let pi = p.packet_index();
    let after = spec_store_packet(blocks, p, fec_k);
    assert(pi >= fec_k);
    if store::has_key(blocks, bi, block_key()) {
        let pos0 = store::index_of_key(blocks, bi, block_key());
        store::lemma_index_of_key(blocks, bi, block_key());
        let b1 = blocks[pos0].spec_insert(p, fec_k);
        assert(b1.fec_packets == blocks[pos0].fec_packets.push(p));
        store::lemma_sorted_update_same_key(blocks, b1, pos0, block_key());
        assert(store::has_key(after, bi, block_key())) by {
            assert(block_key()(after[pos0]) == bi);
        };
        store::lemma_index_of_key(after, bi, block_key());
        store::lemma_sorted_unique(after, block_key());
        let pos = store::index_of_key(after, bi, block_key());
        assert(pos == pos0) by {
            assert(block_key()(after[pos]) == block_key()(after[pos0]));
        };
        let q = b1.fec_packets.len() - 1;
        assert(after[pos].fec_packets[q] == p);
    } else {
        let nb0 = BlockView { packets: Seq::empty(), fec_packets: Seq::empty(), index: bi };
        let nb = nb0.spec_insert(p, fec_k);
        assert(nb.fec_packets == seq![p]) by {
            assert(Seq::<VtxPacketView>::empty().push(p) =~= seq![p]);
        };
        store::lemma_sorted_insert_props(blocks, nb, block_key());
        assert(block_key()(nb) == bi);
        let w = choose|w: int| 0 <= w < after.len() && after[w] == nb;
        store::lemma_index_of_key(after, bi, block_key());
        store::lemma_sorted_unique(after, block_key());
        let pos = store::index_of_key(after, bi, block_key());
        assert(pos == w) by {
            assert(block_key()(after[pos]) == block_key()(after[w]));
        };
        assert(after[pos].fec_packets[0] == p);
    }
}

/// A slot whose header marks the last part with sequence zero makes a
/// one-part frame: with no frame pending under its index and no restart
/// detected, the frame completes on this single slot, the finish index
/// moves to its frame index, and with a completion sink registered it is
/// emitted and the frame store cleared; without one it stays for polling.
pub proof fn lemma_single_part_frame_completes(
    frames: Seq<FrameView>,
    blocks: Seq<BlockView>,
    finish: u32,
    callback: bool,
    chunk: Seq<u8>,
)
    requires
        store::sorted_by(frames, frame_key()),
        packet::spec_frame_packet_of(chunk).header.part_index == 0x80,
        packet::spec_frame_packet_of(chunk).header.frame_index >= finish,
        !store::has_key(
            frames,
            packet::spec_frame_packet_of(chunk).header.frame_index,
            frame_key(),
        ),
    ensures
        ({
            let pkt = packet::spec_frame_packet_of(chunk);
            let fi = pkt.header.frame_index;
            let s = spec_consume_step(frames, blocks, finish, callback, chunk);
            &&& s.finish_frame_index == fi
            &&& s.blocks == blocks
            &&& (callback ==> {
                &&& s.emitted.len() == 1
                &&& s.emitted[0].frame_index == fi
                &&& s.emitted[0].parts_count == 1
                &&& s.emitted[0].parts.len() == 1
                &&& s.emitted[0].parts[0].data == pkt.data
                &&& s.frames == Seq::<FrameView>::empty()
            })
            &&& (!callback ==> s.emitted == Seq::<FrameView>::empty() && store::has_key(
                s.frames,
                fi,
                frame_key(),
            ))
        }),
{
    reveal(spec_consume_step);
    let pkt = packet::spec_frame_packet_of(chunk);
    let fi = pkt.header.frame_index;
    assert(pkt.header.spec_last_part() == 1 && pkt.header.spec_part_index() == 0) by {
        let raw = pkt.header.part_index;
        assert(raw == 0x80 ==> raw >> 7 == 1 && raw & 0x7f == 0) by (bit_vector);
    };
    let fresh = spec_fresh_frame(fi);
    let frames1 = store::sorted_insert(frames, fresh, frame_key());
    store::lemma_sorted_insert_props(frames, fresh, frame_key());
    assert(frame_key()(fresh) == fi);
    let w = choose|w: int| 0 <= w < frames1.len() && frames1[w] == fresh;
    store::lemma_index_of_key(frames1, fi, frame_key());
    store::lemma_sorted_unique(frames1, frame_key());
    let pos = store::index_of_key(frames1, fi, frame_key());
    assert(pos == w) by {
        assert(frame_key()(frames1[pos]) == frame_key()(frames1[w]));
    };
    let f1 = frames1[pos].spec_insert(pkt);
    assert(f1.parts == seq![pkt]) by {
        assert(!store::has_key(fresh.parts, 0, frame::part_key()));
    };
    let f2 = FrameView { parts_count: 1u8, ..f1 };
    assert(f2.complete());
    if !callback {
        let s = spec_consume_step(frames, blocks, finish, callback, chunk);
        assert(s.frames == frames1.update(pos, f2));
        assert(frame_key()(s.frames[pos]) == fi);
    }
}

/// After a sorted insertion the inserted key is present.
proof fn lemma_sorted_insert_has_inserted<T>(s: Seq<T>, p: T, key: spec_fn(T) -> u32)
    ensures
        store::has_key(store::sorted_insert(s, p, key), key(p), key),
    decreases s.len(),
{
    let t = store::sorted_insert(s, p, key);
    if s.len() == 0 {
        assert(key(t[0]) == key(p));
    } else if key(p) < key(s[0]) {
        assert(key(t[0]) == key(p));
    } else {
        lemma_sorted_insert_has_inserted(s.drop_first(), p, key);
        let u = store::sorted_insert(s.drop_first(), p, key);
        let j = choose|j: int| 0 <= j < u.len() && key(u[j]) == key(p);
        assert(t[j + 1] == u[j]);
        assert(key(t[j + 1]) == key(p));
    }
}

} // verus!