//! The outbound injector: builds wire-ready radio frames that carry a
//! configuration record back to the air side, fragmented into the same
//! block, packet and FEC layout the air side uses.
//!
//! Payloads pushed into one block must all have the same size.  The first
//! `fec_k - 1` pushes each leave immediately as one systematic wire packet;
//! the push that completes the block runs the FEC encoder over the staged
//! bytes and emits the last systematic shard together with every parity
//! shard, then advances to the next block.

use crate::fec;
use crate::packet::{spec_config_padded, Ground2Air_Config_Packet, GROUND2AIR_CONFIG_PADDED_SIZE};
use crate::vtx::{spec_vtx_header_bytes, VtxPacketHeader, VTX_PACKET_HEADER_SIZE};
use vstd::prelude::*;

verus! {

/// The fixed radiotap prefix of every injected frame: version 0, length 11,
/// the transmit-flags field set to no-acknowledgement and the data-retries
/// field set to zero.
pub open spec fn spec_inject_radiotap() -> Seq<u8> {
    seq![0x00u8, 0x00, 0x0b, 0x00, 0x00, 0x80, 0x02, 0x00, 0x08, 0x00, 0x00]
}

/// The fixed link-layer header of every injected frame: the ingress
/// fingerprint with its address fields in the reverse direction.
pub open spec fn spec_wlan_ieee_header_ground2air() -> Seq<u8> {
    seq![
        0x08u8,
        0x01,
        0x00,
        0x00,
        0xff,
        0xff,
        0xff,
        0xff,
        0xff,
        0xff,
        0x66,
        0x55,
        0x44,
        0x33,
        0x22,
        0x11,
        0x66,
        0x55,
        0x44,
        0x33,
        0x22,
        0x11,
        0x10,
        0x86,
    ]
}

/// One full injected wire frame: radiotap prefix, link-layer header, VTX
/// header, payload.
pub open spec fn spec_inject_frame(
    block_index: u32,
    packet_index: u32,
    size: u16,
    payload: Seq<u8>,
) -> Seq<u8> {
    spec_inject_radiotap() + spec_wlan_ieee_header_ground2air() + spec_vtx_header_bytes(
        block_index,
        packet_index,
        size,
    ) + payload
}

/// The mathematical state of the injector.
#[verifier::ext_equal]
pub struct InjectHandlerView {
    pub fec_k: u32,
    pub fec_n: u32,
    pub cur_block_index: u32,
    pub packet_cnt: u32,
    pub raw_data: Seq<u8>,
}

impl InjectHandlerView {
    /// Valid FEC parameters and a packet count inside the current block.
    pub open spec fn wf(&self) -> bool {
        &&& 1 <= self.fec_k <= self.fec_n <= 256
        &&& self.packet_cnt < self.fec_k
    }
}

/// What one push does to the injector: the wire frames it emits and the
/// state it leaves.  A push that completes the block encodes the staged
/// bytes and emits shards `fec_k - 1 .. fec_n`; any other push emits its
/// payload as one systematic wire packet and stages it.
pub open spec fn spec_push_data(v: InjectHandlerView, data: Seq<u8>) -> (
    InjectHandlerView,
    Seq<Seq<u8>>,
) {
    if v.packet_cnt == v.fec_k - 1 {
        let staged = v.raw_data + data;
        let chunks = fec::fec_encode_of(v.fec_k as int, v.fec_n as int, staged);
        let frames = Seq::new(
            (v.fec_n - v.fec_k + 1) as nat,
            |i: int|
                spec_inject_frame(
                    v.cur_block_index,
                    (v.fec_k - 1 + i) as u32,
                    chunks[v.fec_k - 1 + i].len() as u16,
                    chunks[v.fec_k - 1 + i],
                ),
        );
        (
            InjectHandlerView {
                cur_block_index: (v.cur_block_index + 1) as u32,
                packet_cnt: 0,
                raw_data: Seq::empty(),
                ..v
            },
            frames,
        )
    } else {
        (
            InjectHandlerView {
                packet_cnt: (v.packet_cnt + 1) as u32,
                raw_data: v.raw_data + data,
                ..v
            },
            seq![
                spec_inject_frame(
                    v.cur_block_index,
                    v.packet_cnt,
                    (data.len() + VTX_PACKET_HEADER_SIZE) as u16,
                    data,
                ),
            ],
        )
    }
}

/// The outbound injector.
pub struct InjectHandler {
    pub fec_k: u32,
    pub fec_n: u32,
    pub cur_block_index: u32,
    pub packet_cnt: u32,
    pub raw_data: Vec<u8>,
}

impl View for InjectHandler {
    type V = InjectHandlerView;

    open spec fn view(&self) -> InjectHandlerView {
        InjectHandlerView {
            fec_k: self.fec_k,
            fec_n: self.fec_n,
            cur_block_index: self.cur_block_index,
            packet_cnt: self.packet_cnt,
            raw_data: self.raw_data@,
        }
    }
}

/// Builds the fixed radiotap prefix of an injected frame.
fn new_raw_radiotap() -> (r: Vec<u8>)
    ensures
        r@ == spec_inject_radiotap(),
{
    let r: Vec<u8> = vec![0x00u8, 0x00, 0x0b, 0x00, 0x00, 0x80, 0x02, 0x00, 0x08, 0x00, 0x00];
    proof {
        assert(r@ =~= spec_inject_radiotap());
    }
    r
}

/// Builds the radiotap prefix and link-layer header of an injected frame.
fn new_inject_packet() -> (r: Vec<u8>)
    ensures
        r@ == spec_inject_radiotap() + spec_wlan_ieee_header_ground2air(),
{
    let mut r = new_raw_radiotap();
    let ieee: Vec<u8> = vec![
        0x08u8,
        0x01,
        0x00,
        0x00,
        0xff,
        0xff,
        0xff,
        0xff,
        0xff,
        0xff,
        0x66,
        0x55,
        0x44,
        0x33,
        0x22,
        0x11,
        0x66,
        0x55,
        0x44,
        0x33,
        0x22,
        0x11,
        0x10,
        0x86,
    ];
    proof {
        assert(ieee@ =~= spec_wlan_ieee_header_ground2air());
    }
    r.extend_from_slice(ieee.as_slice());
    r
}

/// Builds the six VTX header bytes for an injected packet.
fn new_raw_vtx_packet_header(block_index: u32, packet_index: u32, size: u16) -> (r: Vec<u8>)
    requires
        block_index < 0x1000000,
        packet_index < 0x100,
    ensures
        r@ == spec_vtx_header_bytes(block_index, packet_index, size),
{
    let header = VtxPacketHeader::build(block_index, packet_index, size);
    header.bytes
}

impl InjectHandler {
    /// A fresh injector for a `(fec_k, fec_n)` code.  The bounds are the
    /// ones the FEC codec itself accepts.
    pub fn new(fec_k: u32, fec_n: u32) -> (r: InjectHandler)
        requires
            1 <= fec_k <= fec_n <= 256,
        ensures
            r@ == (InjectHandlerView {
                fec_k,
                fec_n,
                cur_block_index: 0,
                packet_cnt: 0,
                raw_data: Seq::empty(),
            }),
            r@.wf(),
    {
        let r = InjectHandler { fec_k, fec_n, cur_block_index: 0, packet_cnt: 0, raw_data: Vec::new() };
        proof {
            assert(r@.raw_data =~= Seq::<u8>::empty());
        }
        r
    }

    /// Stages one payload and returns the wire frames to inject now.  All
    /// payloads of one block must have the same size, so the staged bytes
    /// must measure `packet_cnt` payloads exactly.
    pub fn push_data(&mut self, data: &[u8]) -> (r: Vec<Vec<u8>>)
        requires
            old(self)@.wf(),
            old(self)@.raw_data.len() == old(self)@.packet_cnt * data@.len(),
            1 <= data@.len() <= 0xfff9,
            old(self)@.cur_block_index < 0x1000000,
        ensures
            final(self)@.wf(),
            final(self)@ == spec_push_data(old(self)@, data@).0,
            r@.map_values(|p: Vec<u8>| p@) == spec_push_data(old(self)@, data@).1,
    {
        let ghost v0 = self@;
        if self.packet_cnt == self.fec_k - 1 {
            self.raw_data.extend_from_slice(data);
            let ghost staged = self@.raw_data;
            proof {
                assert(staged == v0.raw_data + data@);
                let kk = v0.fec_k as int;
                let dl = data@.len() as int;
                assert(staged.len() as int == dl * kk) by (nonlinear_arith)
                    requires
                        v0.raw_data.len() as int == (v0.packet_cnt as int) * dl,
                        v0.packet_cnt as int == kk - 1,
                        staged.len() as int == v0.raw_data.len() as int + dl,
                ;
                vstd::arithmetic::div_mod::lemma_mod_multiples_basic(dl, kk);
                vstd::arithmetic::div_mod::lemma_div_by_multiple(dl, kk);
                assert(staged.len() as int % kk == 0);
                assert(staged.len() as int / kk == dl);
                vstd::arithmetic::mul::lemma_mul_upper_bound(dl, 0xfff9, kk, 256);
                assert(staged.len() as int <= 0xfff9 * 256);
            }
            let chunks = fec::fec_encode(
                self.fec_k as usize,
                self.fec_n as usize,
                self.raw_data.as_slice(),
            );
            let ghost chunk_views = fec::fec_encode_of(v0.fec_k as int, v0.fec_n as int, staged);
            let ghost frames = spec_push_data(v0, data@).1;
            let mut ret: Vec<Vec<u8>> = Vec::new();
            let first = self.fec_k as usize - 1;
            let mut i: usize = first;
            proof {
                assert(frames.len() == v0.fec_n - v0.fec_k + 1);
                assert forall|j: int| 0 <= j < frames.len() implies frames[j] == spec_inject_frame(
                    v0.cur_block_index,
                    (v0.fec_k - 1 + j) as u32,
                    chunk_views[v0.fec_k - 1 + j].len() as u16,
                    chunk_views[v0.fec_k - 1 + j],
                ) by {
                    assert(v0.raw_data + data@ == staged);
                };
            }
            #[verifier::loop_isolation(false)]
            while i < self.fec_n as usize
                invariant
                    first == v0.fec_k - 1,
                    first <= i <= v0.fec_n,
                    self@ == (InjectHandlerView { raw_data: staged, ..v0 }),
                    v0.wf(),
                    1 <= data@.len() <= 0xfff9,
                    v0.cur_block_index < 0x1000000,
                    chunks@.len() == v0.fec_n,
                    forall|j: int|
                        0 <= j < v0.fec_n as int ==> (#[trigger] chunks@[j])@ == chunk_views[j],
                    forall|j: int|
                        0 <= j < v0.fec_n as int ==> (#[trigger] chunks@[j])@.len() == data@.len(),
                    frames == spec_push_data(v0, data@).1,
                    frames.len() == v0.fec_n - v0.fec_k + 1,
                    ret@.len() == i - first,
                    forall|j: int|
                        0 <= j < ret@.len() ==> (#[trigger] ret@[j])@ == frames[j],
                decreases v0.fec_n - i,
            {
                let mut packet = new_inject_packet();
                let header = new_raw_vtx_packet_header(
                    self.cur_block_index,
                    i as u32,
                    chunks[i].len() as u16,
                );
                packet.extend_from_slice(header.as_slice());
                packet.extend_from_slice(chunks[i].as_slice());
                proof {
                    assert(packet@ =~= spec_inject_frame(
                        v0.cur_block_index,
                        i as u32,
                        chunks@[i as int]@.len() as u16,
                        chunks@[i as int]@,
                    ));
                    let jj = i as int - first as int;
                    assert(0 <= jj < frames.len());
                    assert(v0.fec_k - 1 + jj == i as int);
                    assert((v0.fec_k - 1 + jj) as u32 == i as u32);
                    assert(chunks@[i as int]@ == chunk_views[i as int]);
                    assert(packet@ == frames[jj]);
                }
                ret.push(packet);
                i = i + 1;
            }
            self.cur_block_index = self.cur_block_index + 1;
            self.packet_cnt = 0;
            self.raw_data.clear();
            proof {
                assert(self@.raw_data =~= Seq::<u8>::empty());
                assert(self@ == spec_push_data(v0, data@).0);
                assert(ret@.map_values(|p: Vec<u8>| p@) =~= frames);
            }
            ret
        } else {
            let mut packet = new_inject_packet();
            let header = new_raw_vtx_packet_header(
                self.cur_block_index,
                self.packet_cnt,
                (data.len() + VTX_PACKET_HEADER_SIZE) as u16,
            );
            packet.extend_from_slice(header.as_slice());
            packet.extend_from_slice(data);
            self.packet_cnt = self.packet_cnt + 1;
            self.raw_data.extend_from_slice(data);
            let ghost frames = spec_push_data(v0, data@).1;
            proof {
                assert(packet@ =~= spec_inject_frame(
                    v0.cur_block_index,
                    v0.packet_cnt,
                    (data@.len() + VTX_PACKET_HEADER_SIZE) as u16,
                    data@,
                ));
                assert(self@ == spec_push_data(v0, data@).0);
            }
            let mut ret: Vec<Vec<u8>> = Vec::new();
            ret.push(packet);
            proof {
                assert(ret@.map_values(|p: Vec<u8>| p@) =~= frames);
            }
            ret
        }
    }

    /// Serialises one configuration record into its 64-byte padded envelope
    /// and stages it for injection.
    pub fn push_ground2air_config_packet(&mut self, packet: &Ground2Air_Config_Packet) -> (r: Vec<
        Vec<u8>,
    >)
        requires
            old(self)@.wf(),
            old(self)@.raw_data.len() == old(self)@.packet_cnt * (
            GROUND2AIR_CONFIG_PADDED_SIZE as int),
            old(self)@.cur_block_index < 0x1000000,
        ensures
            final(self)@.wf(),
            final(self)@ == spec_push_data(old(self)@, spec_config_padded(*packet)).0,
            r@.map_values(|p: Vec<u8>| p@) == spec_push_data(
                old(self)@,
                spec_config_padded(*packet),
            ).1,
    {
        let data = packet.to_bytes();
        self.push_data(data.as_slice())
    }
}

} // verus!
