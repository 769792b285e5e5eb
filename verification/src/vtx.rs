//! The 48-bit VTX packet header and the VTX packets grouped into FEC blocks.
//!
//! The wire header is six bytes in little-endian bit order:
//! `block_index` occupies bits 0..24, `packet_index` bits 24..32 and
//! `size` bits 32..48.  It is decoded with explicit byte arithmetic so the
//! wire order is exact regardless of host endianness.

use vstd::prelude::*;

verus! {

/// Size in bytes of the wire header in front of every VTX packet payload.
pub const VTX_PACKET_HEADER_SIZE: usize = 6;

/// The 24-bit little-endian integer held by the first three bytes of `b`.
pub open spec fn spec_block_index_of(b: Seq<u8>) -> u32
    recommends
        b.len() >= 6,
{
    (b[0] as u32 + b[1] as u32 * 0x100 + b[2] as u32 * 0x10000) as u32
}

/// The 8-bit packet index held by the fourth byte of `b`.
pub open spec fn spec_packet_index_of(b: Seq<u8>) -> u32
    recommends
        b.len() >= 6,
{
    b[3] as u32
}

/// The 16-bit little-endian size field held by the last two bytes of `b`.
pub open spec fn spec_size_of(b: Seq<u8>) -> u16
    recommends
        b.len() >= 6,
{
    (b[4] as u16 + b[5] as u16 * 0x100) as u16
}

/// The six header bytes that encode the given field values.
pub open spec fn spec_vtx_header_bytes(block_index: u32, packet_index: u32, size: u16) -> Seq<u8>
    recommends
        block_index < 0x1000000,
        packet_index < 0x100,
{
    seq![
        (block_index % 0x100) as u8,
        ((block_index / 0x100) % 0x100) as u8,
        ((block_index / 0x10000) % 0x100) as u8,
        (packet_index % 0x100) as u8,
        (size % 0x100) as u8,
        ((size as u32 / 0x100) % 0x100) as u8,
    ]
}

/// The six raw bytes of a VTX packet header, exactly as they stand on the wire.
pub struct VtxPacketHeader {
    pub bytes: Vec<u8>,
}

impl VtxPacketHeader {
    /// A header is well formed when it holds exactly the six wire bytes.
    pub open spec fn wf(&self) -> bool {
        self.bytes@.len() == VTX_PACKET_HEADER_SIZE
    }

    pub open spec fn spec_block_index(&self) -> u32 {
        spec_block_index_of(self.bytes@)
    }

    pub open spec fn spec_packet_index(&self) -> u32 {
        spec_packet_index_of(self.bytes@)
    }

    pub open spec fn spec_size(&self) -> u16 {
        spec_size_of(self.bytes@)
    }

    /// Wraps the first six bytes of `payload` as a header.
    pub fn from_prefix(payload: &[u8]) -> (r: VtxPacketHeader)
        requires
            payload@.len() >= VTX_PACKET_HEADER_SIZE,
        ensures
            r.wf(),
            r.bytes@ == payload@.subrange(0, VTX_PACKET_HEADER_SIZE as int),
    {
        let mut bytes: Vec<u8> = Vec::new();
        let mut i: usize = 0;
        while i < VTX_PACKET_HEADER_SIZE
            invariant
                i <= VTX_PACKET_HEADER_SIZE,
                payload@.len() >= VTX_PACKET_HEADER_SIZE,
                bytes@ == payload@.subrange(0, i as int),
            decreases VTX_PACKET_HEADER_SIZE - i,
        {
            bytes.push(payload[i]);
            i = i + 1;
            proof {
                assert(bytes@ =~= payload@.subrange(0, i as int));
            }
        }
        VtxPacketHeader { bytes }
    }

    /// Builds the header that encodes the given field values.
    pub fn build(block_index: u32, packet_index: u32, size: u16) -> (r: VtxPacketHeader)
        requires
            block_index < 0x1000000,
            packet_index < 0x100,
        ensures
            r.wf(),
            r.bytes@ == spec_vtx_header_bytes(block_index, packet_index, size),
            r.spec_block_index() == block_index,
            r.spec_packet_index() == packet_index,
            r.spec_size() == size,
    {
        let mut bytes: Vec<u8> = Vec::new();
        bytes.push((block_index % 0x100) as u8);
        bytes.push(((block_index / 0x100) % 0x100) as u8);
        bytes.push(((block_index / 0x10000) % 0x100) as u8);
        bytes.push((packet_index % 0x100) as u8);
        bytes.push((size % 0x100) as u8);
        bytes.push(((size as u32 / 0x100) % 0x100) as u8);
        proof {
            assert(bytes@ =~= spec_vtx_header_bytes(block_index, packet_index, size));
            lemma_vtx_header_round_trip(block_index, packet_index, size);
        }
        VtxPacketHeader { bytes }
    }

    pub fn block_index(&self) -> (r: u32)
        requires
            self.wf(),
        ensures
            r == self.spec_block_index(),
    {
        self.bytes[0] as u32 + self.bytes[1] as u32 * 0x100 + self.bytes[2] as u32 * 0x10000
    }

    pub fn packet_index(&self) -> (r: u32)
        requires
            self.wf(),
        ensures
            r == self.spec_packet_index(),
    {
        self.bytes[3] as u32
    }

    pub fn size(&self) -> (r: u16)
        requires
            self.wf(),
        ensures
            r == self.spec_size(),
    {
        self.bytes[4] as u16 + self.bytes[5] as u16 * 0x100
    }
}

/// Decoding the bytes built from given field values gives those values back.
pub proof fn lemma_vtx_header_round_trip(block_index: u32, packet_index: u32, size: u16)
    requires
        block_index < 0x1000000,
        packet_index < 0x100,
    ensures
        spec_block_index_of(spec_vtx_header_bytes(block_index, packet_index, size)) == block_index,
        spec_packet_index_of(spec_vtx_header_bytes(block_index, packet_index, size))
            == packet_index,
        spec_size_of(spec_vtx_header_bytes(block_index, packet_index, size)) == size,
{
    let b = spec_vtx_header_bytes(block_index, packet_index, size);
    assert(b[0] as u32 + b[1] as u32 * 0x100 + b[2] as u32 * 0x10000 == block_index) by {
        assert(block_index % 0x100 + ((block_index / 0x100) % 0x100) * 0x100 + ((block_index
            / 0x10000) % 0x100) * 0x10000 == block_index) by (nonlinear_arith)
            requires
                block_index < 0x1000000,
        ;
    };
    assert(b[4] as u16 + b[5] as u16 * 0x100 == size) by {
        assert(size % 0x100 + ((size as u32 / 0x100) % 0x100) * 0x100 == size) by (nonlinear_arith);
    };
}

/// The mathematical value of a VTX packet: its six header bytes and its
/// payload bytes.
pub struct VtxPacketView {
    pub header: Seq<u8>,
    pub data: Seq<u8>,
}

impl VtxPacketView {
    pub open spec fn wf(&self) -> bool {
        self.header.len() == VTX_PACKET_HEADER_SIZE
    }

    pub open spec fn block_index(&self) -> u32 {
        spec_block_index_of(self.header)
    }

    pub open spec fn packet_index(&self) -> u32 {
        spec_packet_index_of(self.header)
    }
}

/// The key every packet store sorts and deduplicates by.
pub open spec fn packet_key() -> spec_fn(VtxPacketView) -> u32 {
    |p: VtxPacketView| p.packet_index()
}

/// One VTX packet: the parsed wire header and the shard payload behind it.
pub struct VtxPacket {
    pub data: Vec<u8>,
    pub header: VtxPacketHeader,
}

impl View for VtxPacket {
    type V = VtxPacketView;

    open spec fn view(&self) -> VtxPacketView {
        VtxPacketView { header: self.header.bytes@, data: self.data@ }
    }
}

impl VtxPacket {
    /// Parses one captured VTX span: six header bytes, then the payload,
    /// less the four trailing frame-check bytes when the capture kept them.
    /// A packet whose packet index is not below `fec_n` is dropped.
    pub fn from(payload: &[u8], fcs_enable: bool, fec_n: u32) -> (r: Option<VtxPacket>)
        requires
            payload@.len() >= VTX_PACKET_HEADER_SIZE + if fcs_enable {
                4int
            } else {
                0int
            },
        ensures
            r is Some <==> spec_packet_index_of(payload@) < fec_n,
            r matches Some(p) ==> p@ == spec_vtx_packet_of(payload@, fcs_enable),
    {
        let header = VtxPacketHeader::from_prefix(payload);
        if header.packet_index() >= fec_n {
            return None;
        }
        let size = if fcs_enable {
            payload.len() - 4
        } else {
            payload.len()
        };
        let mut data: Vec<u8> = Vec::new();
        let mut i: usize = VTX_PACKET_HEADER_SIZE;
        while i < size
            invariant
                VTX_PACKET_HEADER_SIZE <= i <= size,
                size <= payload@.len(),
                data@ == payload@.subrange(VTX_PACKET_HEADER_SIZE as int, i as int),
            decreases size - i,
        {
            data.push(payload[i]);
            i = i + 1;
            proof {
                assert(data@ =~= payload@.subrange(VTX_PACKET_HEADER_SIZE as int, i as int));
            }
        }
        Some(VtxPacket { data, header })
    }
}

/// The packet that `VtxPacket::from` yields for this captured span.
pub open spec fn spec_vtx_packet_of(payload: Seq<u8>, fcs_enable: bool) -> VtxPacketView
    recommends
        payload.len() >= VTX_PACKET_HEADER_SIZE,
{
    VtxPacketView {
        header: payload.subrange(0, VTX_PACKET_HEADER_SIZE as int),
        data: payload.subrange(
            VTX_PACKET_HEADER_SIZE as int,
            if payload.len() - (if fcs_enable { 4int } else { 0int }) >= VTX_PACKET_HEADER_SIZE {
                payload.len() - (if fcs_enable { 4int } else { 0int })
            } else {
                VTX_PACKET_HEADER_SIZE as int
            },
        ),
    }
}

/// The mathematical value of a block being filled.
pub struct BlockView {
    pub packets: Seq<VtxPacketView>,
    pub fec_packets: Seq<VtxPacketView>,
    pub index: u32,
}

impl BlockView {
    /// Well-formedness: every packet index stands at most once in the whole
    /// block; systematic indices lie below `fec_k` and are kept sorted;
    /// parity indices lie in `fec_k..fec_n`.
    pub open spec fn wf(&self, fec_k: u32, fec_n: u32) -> bool {
        &&& forall|i: int|
            0 <= i < self.packets.len() ==> (#[trigger] self.packets[i]).wf()
                && self.packets[i].packet_index() < fec_k
        &&& crate::store::sorted_by(self.packets, packet_key())
        &&& forall|i: int|
            0 <= i < self.fec_packets.len() ==> (#[trigger] self.fec_packets[i]).wf() && fec_k
                <= self.fec_packets[i].packet_index() < fec_n
        &&& forall|i: int, j: int|
            0 <= i < j < self.fec_packets.len() ==> (
            #[trigger] self.fec_packets[i]).packet_index() != (
            #[trigger] self.fec_packets[j]).packet_index()
    }

    /// No packet index appears twice across systematic and parity packets.
    pub open spec fn no_duplicate_indices(&self) -> bool {
        &&& forall|i: int, j: int|
            0 <= i < j < self.packets.len() ==> (#[trigger] self.packets[i]).packet_index() != (
            #[trigger] self.packets[j]).packet_index()
        &&& forall|i: int, j: int|
            0 <= i < j < self.fec_packets.len() ==> (
            #[trigger] self.fec_packets[i]).packet_index() != (
            #[trigger] self.fec_packets[j]).packet_index()
        &&& forall|i: int, j: int|
            0 <= i < self.packets.len() && 0 <= j < self.fec_packets.len() ==> (
            #[trigger] self.packets[i]).packet_index() != (
            #[trigger] self.fec_packets[j]).packet_index()
    }

    /// A well-formed block never holds the same packet index twice.
    pub proof fn lemma_wf_no_duplicates(&self, fec_k: u32, fec_n: u32)
        requires
            self.wf(fec_k, fec_n),
        ensures
            self.no_duplicate_indices(),
    {
        assert forall|i: int, j: int| 0 <= i < j < self.packets.len() implies (
        #[trigger] self.packets[i]).packet_index() != (#[trigger] self.packets[j]).packet_index()
            by {
            assert(packet_key()(self.packets[i]) < packet_key()(self.packets[j]));
        };
    }

    /// What inserting `p` leaves in the block: a packet index already seen
    /// is dropped, anything else is filed in its place.
    pub open spec fn spec_insert(self, p: VtxPacketView, fec_k: u32) -> BlockView {
        if p.packet_index() >= fec_k {
            if crate::store::has_key(self.fec_packets, p.packet_index(), packet_key()) {
                self
            } else {
                BlockView { fec_packets: self.fec_packets.push(p), ..self }
            }
        } else {
            if crate::store::has_key(self.packets, p.packet_index(), packet_key()) {
                self
            } else {
                BlockView {
                    packets: crate::store::sorted_insert(self.packets, p, packet_key()),
                    ..self
                }
            }
        }
    }
}

/// One FEC block being filled: the systematic packets sorted by packet
/// index, and the parity packets in arrival order.
pub struct Block {
    pub packets: Vec<VtxPacket>,
    pub fec_packets: Vec<VtxPacket>,
    pub index: u32,
}

impl View for Block {
    type V = BlockView;

    open spec fn view(&self) -> BlockView {
        BlockView {
            packets: self.packets@.map_values(|p: VtxPacket| p@),
            fec_packets: self.fec_packets@.map_values(|p: VtxPacket| p@),
            index: self.index,
        }
    }
}

impl Block {
    pub fn new(index: u32) -> (r: Block)
        ensures
            r@.packets.len() == 0,
            r@.fec_packets.len() == 0,
            r@.index == index,
    {
        Block { packets: Vec::new(), fec_packets: Vec::new(), index }
    }

    /// Files one packet into the block, discarding duplicates, so that each
    /// packet index is kept at most once.
    pub fn insert(&mut self, p: VtxPacket, fec_k: u32, fec_n: u32)
        requires
            old(self)@.wf(fec_k, fec_n),
            p@.wf(),
            p@.packet_index() < fec_n,
        ensures
            final(self)@.wf(fec_k, fec_n),
            final(self)@ == old(self)@.spec_insert(p@, fec_k),
    {
        let ghost pv = p@;
        let ghost sys = self@.packets;
        let ghost fec = self@.fec_packets;
        let pi = p.header.packet_index();
        if pi >= fec_k {
            let mut i: usize = 0;
            let mut seen = false;
            while i < self.fec_packets.len()
                invariant
                    i <= fec.len(),
                    self@.wf(fec_k, fec_n),
                    fec == self@.fec_packets,
                    fec == self.fec_packets@.map_values(|q: VtxPacket| q@),
                    seen <==> exists|j: int|
                        0 <= j < i && (#[trigger] fec[j]).packet_index() == pi,
                decreases fec.len() - i,
            {
                proof {
                    assert(fec[i as int] == self.fec_packets@[i as int]@);
                    assert(fec[i as int].wf());
                }
                if self.fec_packets[i].header.packet_index() == pi {
                    seen = true;
                }
                i = i + 1;
            }
            if !seen {
                self.fec_packets.push(p);
                proof {
                    assert(!crate::store::has_key(fec, pi, packet_key()));
                    assert(self.fec_packets@.map_values(|q: VtxPacket| q@) =~= fec.push(pv));
                }
            } else {
                proof {
                    assert(crate::store::has_key(fec, pi, packet_key()));
                }
            }
        } else {
            proof {
                assert forall|j: int| 0 <= j < self.packets@.len() implies (
                #[trigger] self.packets@[j]).header.bytes@.len() == 6 by {
                    assert(sys[j] == self.packets@[j]@);
                    assert(sys[j].wf());
                };
            }
            let mut pos: usize = 0;
            while pos < self.packets.len() && self.packets[pos].header.packet_index() < pi
                invariant
                    pos <= sys.len(),
                    self@.wf(fec_k, fec_n),
                    forall|j: int|
                        0 <= j < self.packets@.len() ==> (
                        #[trigger] self.packets@[j]).header.bytes@.len() == 6,
                    sys == self@.packets,
                    sys == self.packets@.map_values(|q: VtxPacket| q@),
                    forall|j: int| 0 <= j < pos ==> (#[trigger] sys[j]).packet_index() < pi,
                decreases sys.len() - pos,
            {
                proof {
                    assert(sys[pos as int] == self.packets@[pos as int]@);
                    assert(sys[pos as int].wf());
                }
                pos = pos + 1;
            }
            proof {
                assert(pos < sys.len() ==> sys[pos as int] == self.packets@[pos as int]@);
            }
            if pos < self.packets.len() && self.packets[pos].header.packet_index() == pi {
                proof {
                    assert(crate::store::has_key(sys, pi, packet_key()));
                }
                return ;
            }
            proof {
                assert(pos < sys.len() ==> sys[pos as int].packet_index() > pi);
                assert(!crate::store::has_key(sys, pi, packet_key())) by {
                    if crate::store::has_key(sys, pi, packet_key()) {
                        let j = choose|j: int| 0 <= j < sys.len() && packet_key()(sys[j]) == pi;
                        if j > pos {
                            assert(packet_key()(sys[pos as int]) < packet_key()(sys[j]));
                        }
                    }
                };
                crate::store::lemma_sorted_insert_at(sys, pv, pos as int, packet_key());
                crate::store::lemma_sorted_insert_keeps_sorted(sys, pv, pos as int, packet_key());
            }
            self.packets.insert(pos, p);
            proof {
                assert(self.packets@.map_values(|q: VtxPacket| q@) =~= sys.insert(pos as int, pv));
            }
        }
    }
}

} // verus!
