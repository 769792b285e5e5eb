//! One application-layer frame (a JPEG image) being reassembled from its
//! parts.
//!
//! Parts are kept sorted by their seven-bit part index, one slot per index;
//! a part that arrives again overwrites its slot.  `parts_count` stays zero
//! until the last part (high bit of the wire part index) is seen, then holds
//! the number of parts the frame is made of.  A frame is complete when
//! `parts_count` is nonzero and every one of its parts is present.

use crate::packet::{Air2GroundFramePacket, FramePacketView};
use crate::store;
use vstd::prelude::*;

verus! {

/// The key the part store sorts by: the seven-bit part sequence number.
pub open spec fn part_key() -> spec_fn(FramePacketView) -> u32 {
    |p: FramePacketView| p.header.spec_part_index() as u32
}

/// The mathematical value of a frame being reassembled.
#[verifier::ext_equal]
pub struct FrameView {
    pub parts: Seq<FramePacketView>,
    pub frame_index: u32,
    pub parts_count: u8,
}

/// The frame bytes of `parts`, concatenated in the order they stand in.
pub open spec fn spec_concat_parts(parts: Seq<FramePacketView>) -> Seq<u8>
    decreases parts.len(),
{
    if parts.len() == 0 {
        Seq::empty()
    } else {
        parts[0].data + spec_concat_parts(parts.drop_first())
    }
}

/// Concatenation peels one part off the back as well as off the front.
pub proof fn lemma_concat_parts_push(parts: Seq<FramePacketView>, p: FramePacketView)
    ensures
        spec_concat_parts(parts.push(p)) == spec_concat_parts(parts) + p.data,
    decreases parts.len(),
{
    if parts.len() == 0 {
        assert(parts.push(p).drop_first() =~= parts);
        assert(spec_concat_parts(parts.push(p)) =~= spec_concat_parts(parts) + p.data);
    } else {
        lemma_concat_parts_push(parts.drop_first(), p);
        assert(parts.push(p).drop_first() =~= parts.drop_first().push(p));
        assert(spec_concat_parts(parts.push(p)) =~= spec_concat_parts(parts) + p.data);
    }
}

impl FrameView {
    /// Well-formedness: parts sorted strictly by part index, and the part
    /// count never beyond the largest possible part index plus one.
    pub open spec fn wf(&self) -> bool {
        &&& store::sorted_by(self.parts, part_key())
        &&& self.parts_count <= 0x80
    }

    /// A frame is complete when its last part has been seen and every one
    /// of its `parts_count` parts is present.
    pub open spec fn complete(&self) -> bool {
        self.parts_count != 0 && self.parts.len() == self.parts_count as int
    }

    /// What filing `p` leaves in the frame: a fresh part index is inserted
    /// in its place, a part index already present is overwritten.
    pub open spec fn spec_insert(self, p: FramePacketView) -> FrameView {
        if store::has_key(self.parts, p.header.spec_part_index() as u32, part_key()) {
            FrameView {
                parts: self.parts.update(
                    store::index_of_key(self.parts, p.header.spec_part_index() as u32, part_key()),
                    p,
                ),
                ..self
            }
        } else {
            FrameView { parts: store::sorted_insert(self.parts, p, part_key()), ..self }
        }
    }
}

/// One frame being reassembled: its parts sorted by part index.
pub struct Frame {
    pub parts: Vec<Air2GroundFramePacket>,
    pub frame_index: u32,
    pub parts_count: u8,
}

impl View for Frame {
    type V = FrameView;

    open spec fn view(&self) -> FrameView {
        FrameView {
            parts: self.parts@.map_values(|p: Air2GroundFramePacket| p@),
            frame_index: self.frame_index,
            parts_count: self.parts_count,
        }
    }
}

impl Frame {
    pub fn new(frame_index: u32) -> (r: Frame)
        ensures
            r@.parts.len() == 0,
            r@.frame_index == frame_index,
            r@.parts_count == 0,
            r@.wf(),
    {
        Frame { parts: Vec::new(), frame_index, parts_count: 0 }
    }

    /// Files one part into the frame: a fresh part index is inserted in its
    /// place, a part index already present is overwritten.
    pub fn insert_part(&mut self, p: Air2GroundFramePacket)
        requires
            old(self)@.wf(),
        ensures
            final(self)@.wf(),
            final(self)@ == old(self)@.spec_insert(p@),
    {
        let ghost parts = self@.parts;
        let ghost pv = p@;
        let pi = p.header.part_index();
        let mut pos: usize = 0;
        while pos < self.parts.len() && self.parts[pos].header.part_index() < pi
            invariant
                pos <= parts.len(),
                parts == self@.parts,
                parts == self.parts@.map_values(|q: Air2GroundFramePacket| q@),
                forall|j: int| 0 <= j < pos ==> (#[trigger] part_key()(parts[j])) < pi as u32,
            decreases parts.len() - pos,
        {
            proof {
                assert(parts[pos as int] == self.parts@[pos as int]@);
            }
            pos = pos + 1;
        }
        proof {
            assert(pos < parts.len() ==> parts[pos as int] == self.parts@[pos as int]@);
        }
        if pos < self.parts.len() && self.parts[pos].header.part_index() == pi {
            proof {
                store::lemma_sorted_unique(parts, part_key());
                assert(store::has_key(parts, pi as u32, part_key()));
                store::lemma_index_of_key(parts, pi as u32, part_key());
                assert(store::index_of_key(parts, pi as u32, part_key()) == pos as int) by {
                    let k = store::index_of_key(parts, pi as u32, part_key());
                    assert(part_key()(parts[k]) == part_key()(parts[pos as int]));
                };
                store::lemma_sorted_update_same_key(parts, pv, pos as int, part_key());
            }
            self.parts.set(pos, p);
            proof {
                assert(self.parts@.map_values(|q: Air2GroundFramePacket| q@) =~= parts.update(
                    pos as int,
                    pv,
                ));
            }
        } else {
            proof {
                assert(pos < parts.len() ==> part_key()(parts[pos as int]) > pi as u32);
                assert(!store::has_key(parts, pi as u32, part_key())) by {
                    if store::has_key(parts, pi as u32, part_key()) {
                        let j = choose|j: int|
                            0 <= j < parts.len() && part_key()(parts[j]) == pi as u32;
                        if j > pos {
                            assert(part_key()(parts[pos as int]) < part_key()(parts[j]));
                        }
                    }
                };
                store::lemma_sorted_insert_at(parts, pv, pos as int, part_key());
                store::lemma_sorted_insert_keeps_sorted(parts, pv, pos as int, part_key());
            }
            self.parts.insert(pos, p);
            proof {
                assert(self.parts@.map_values(|q: Air2GroundFramePacket| q@) =~= parts.insert(
                    pos as int,
                    pv,
                ));
            }
        }
    }

    /// The reassembled frame bytes: the concatenation of the parts held so
    /// far, in ascending part order.
    pub fn get_jpegdata(&self) -> (r: Vec<u8>)
        ensures
            r@ == spec_concat_parts(self@.parts),
    {
        let ghost parts = self@.parts;
        let mut ret: Vec<u8> = Vec::new();
        let mut i: usize = 0;
        while i < self.parts.len()
            invariant
                i <= parts.len(),
                parts == self@.parts,
                parts == self.parts@.map_values(|q: Air2GroundFramePacket| q@),
                ret@ == spec_concat_parts(parts.take(i as int)),
            decreases parts.len() - i,
        {
            let mut j: usize = 0;
            let part_len = self.parts[i].data.len();
            while j < part_len
                invariant
                    j <= part_len,
                    i < parts.len(),
                    parts == self@.parts,
                    parts == self.parts@.map_values(|q: Air2GroundFramePacket| q@),
                    part_len == self.parts@[i as int].data@.len(),
                    ret@ == spec_concat_parts(parts.take(i as int)) + self.parts@[i as int].data@
                        .take(j as int),
                decreases part_len - j,
            {
                ret.push(self.parts[i].data[j]);
                j = j + 1;
                proof {
                    assert(ret@ =~= spec_concat_parts(parts.take(i as int))
                        + self.parts@[i as int].data@.take(j as int));
                }
            }
            proof {
                assert(parts[i as int] == self.parts@[i as int]@);
                lemma_concat_parts_push(parts.take(i as int), parts[i as int]);
                assert(parts.take(i as int).push(parts[i as int]) =~= parts.take(i + 1));
                assert(self.parts@[i as int].data@.take(j as int) =~= parts[i as int].data);
                assert(ret@ =~= spec_concat_parts(parts.take(i + 1)));
            }
            i = i + 1;
        }
        proof {
            assert(parts.take(parts.len() as int) =~= parts);
        }
        ret
    }
}

/// A complete well-formed frame whose part indices all lie below its part
/// count holds exactly the parts `0..parts_count`, each at its own position,
/// so its frame bytes are the concatenation of those parts in ascending
/// part order.
pub proof fn lemma_complete_frame_parts(f: FrameView)
    requires
        f.wf(),
        f.complete(),
        forall|i: int|
            0 <= i < f.parts.len() ==> ((#[trigger] f.parts[i]).header.spec_part_index() as int) < (
            f.parts_count as int),
    ensures
        forall|i: int|
            0 <= i < f.parts.len() ==> (#[trigger] f.parts[i]).header.spec_part_index() as int == i,
{
    store::lemma_sorted_keys_complete(f.parts, part_key(), f.parts_count as int);
    assert forall|i: int| 0 <= i < f.parts.len() implies (
    #[trigger] f.parts[i]).header.spec_part_index() as int == i by {
        assert(part_key()(f.parts[i]) as int == i);
    };
}

} // verus!
