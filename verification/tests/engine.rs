//! End-to-end tests of the capture pipeline: ingest, block decode, sliding
//! window, frame reassembly, restart handling.

use esp_vtx_gs_rs::packet::AIR2GROUND_VIDEO_HEADER_SIZE;
use esp_vtx_gs_rs::vtx::VtxPacketHeader;
use esp_vtx_gs_rs::{find_block, CapHandler, IngestStatus, FEC_CODEC_MTU};

/// A minimal radiotap prefix with a flags field: 9 bytes.
fn radiotap_prefix(flags_byte: u8) -> Vec<u8> {
    vec![0, 0, 9, 0, 0x02, 0, 0, 0, flags_byte]
}

/// One captured wire frame: radiotap, 24-byte link-layer header, VTX header,
/// payload.
fn wire_frame(block_index: u32, packet_index: u32, payload: &[u8]) -> Vec<u8> {
    let mut v = radiotap_prefix(0x00);
    v.extend_from_slice(&[0u8; 24]);
    let header = VtxPacketHeader::build(
        block_index,
        packet_index,
        (payload.len() + 6) as u16,
    );
    v.extend_from_slice(&header.bytes);
    v.extend_from_slice(payload);
    v
}

/// One 1470-byte frame-part slot with a correct header checksum.
fn video_slot(frame_index: u32, part_index: u8, fill: u8) -> Vec<u8> {
    let mut slot = vec![fill; FEC_CODEC_MTU];
    slot[0] = 0;
    slot[1..5].copy_from_slice(&1457u32.to_le_bytes());
    slot[5] = 0;
    slot[6] = 0;
    slot[7] = 0;
    slot[8] = part_index;
    slot[9..13].copy_from_slice(&frame_index.to_le_bytes());
    let crc = crc::Crc::<u8>::new(&crc::CRC_8_SMBUS).checksum(&slot[0..13]);
    slot[6] = crc;
    slot
}

#[test]
fn packet_index_at_fec_n_is_dropped() {
    let mut cap = CapHandler::new(2, 3);
    let status = cap.process_cap_packets(&wire_frame(1, 3, &[9u8; 100]));
    assert_eq!(status, IngestStatus::OutOfRange);
    assert_eq!(cap.blocks.len(), 0);
}

#[test]
fn packet_index_below_fec_n_is_accepted_as_parity() {
    let mut cap = CapHandler::new(2, 3);
    let status = cap.process_cap_packets(&wire_frame(1, 2, &[9u8; 100]));
    assert_eq!(status, IngestStatus::Stored);
    assert_eq!(cap.blocks.len(), 1);
    assert_eq!(cap.blocks[0].fec_packets.len(), 1);
    assert_eq!(cap.blocks[0].packets.len(), 0);
    assert_eq!(cap.blocks[0].fec_packets[0].header.packet_index(), 2);
}

#[test]
fn bad_fcs_is_reported() {
    let mut cap = CapHandler::new(2, 3);
    let mut frame = radiotap_prefix(0x40);
    frame.extend_from_slice(&[0u8; 40]);
    assert_eq!(cap.process_cap_packets(&frame), IngestStatus::BadFcs);
}

#[test]
fn missing_flags_is_reported() {
    let mut cap = CapHandler::new(2, 3);
    let mut frame = vec![0, 0, 8, 0, 0, 0, 0, 0];
    frame.extend_from_slice(&[0u8; 40]);
    assert_eq!(cap.process_cap_packets(&frame), IngestStatus::NoFlags);
}

#[test]
fn unparsable_radiotap_is_reported() {
    let mut cap = CapHandler::new(2, 3);
    let frame = vec![1, 0, 9, 0, 0x02, 0, 0, 0, 0, 0, 0, 0];
    assert_eq!(cap.process_cap_packets(&frame), IngestStatus::ParseFailed);
}

#[test]
fn vendor_namespace_capture_is_rejected() {
    let mut cap = CapHandler::new(2, 3);
    // Well-formed radiotap header (version 0, length 20) whose only present
    // word has bit 30 set: a vendor namespace with skip length 0xffff, which
    // must be rejected up front rather than parsed.
    let mut frame = vec![0u8, 0, 20, 0, 0, 0, 0, 0x40];
    frame.extend_from_slice(&[0, 0, 0, 0, 0xff, 0xff]);
    frame.resize(20, 0);
    assert_eq!(cap.process_cap_packets(&frame), IngestStatus::ParseFailed);
    assert_eq!(cap.blocks.len(), 0);
}

#[test]
fn vendor_namespace_in_chained_present_word_is_rejected() {
    let mut cap = CapHandler::new(2, 3);
    // First present word only chains (bit 31), the second announces the
    // vendor namespace (bit 30).
    let mut frame = vec![0u8, 0, 24, 0, 0, 0, 0, 0x80, 0, 0, 0, 0x40];
    frame.resize(24, 0);
    assert_eq!(cap.process_cap_packets(&frame), IngestStatus::ParseFailed);
    assert_eq!(cap.blocks.len(), 0);
}

#[test]
fn truncated_capture_is_reported() {
    let mut cap = CapHandler::new(2, 3);
    let mut frame = radiotap_prefix(0x00);
    frame.extend_from_slice(&[0u8; 20]);
    assert_eq!(cap.process_cap_packets(&frame), IngestStatus::TooShort);
}

#[test]
fn fcs_suffix_is_trimmed_from_payload() {
    let mut cap = CapHandler::new(2, 3);
    let mut frame = radiotap_prefix(0x10);
    frame.extend_from_slice(&[0u8; 24]);
    let header = VtxPacketHeader::build(4, 0, 106);
    frame.extend_from_slice(&header.bytes);
    frame.extend_from_slice(&[7u8; 100]);
    frame.extend_from_slice(&[0xde, 0xad, 0xbe, 0xef]);
    assert_eq!(cap.process_cap_packets(&frame), IngestStatus::Stored);
    assert_eq!(cap.blocks[0].packets[0].data.len(), 100);
    assert!(cap.blocks[0].packets[0].data.iter().all(|b| *b == 7));
}

#[test]
fn duplicate_ingest_changes_nothing() {
    let mut cap = CapHandler::new(2, 3);
    let frame = wire_frame(5, 0, &[3u8; 50]);
    assert_eq!(cap.process_cap_packets(&frame), IngestStatus::Stored);
    let blocks_once: Vec<(u32, usize, usize)> = cap
        .blocks
        .iter()
        .map(|b| (b.index, b.packets.len(), b.fec_packets.len()))
        .collect();
    assert_eq!(cap.process_cap_packets(&frame), IngestStatus::Stored);
    let blocks_twice: Vec<(u32, usize, usize)> = cap
        .blocks
        .iter()
        .map(|b| (b.index, b.packets.len(), b.fec_packets.len()))
        .collect();
    assert_eq!(blocks_once, blocks_twice);
    assert_eq!(cap.blocks[0].packets.len(), 1);
}

#[test]
fn incomplete_block_returns_none() {
    let mut cap = CapHandler::new(2, 3);
    cap.process_cap_packets(&wire_frame(9, 0, &[1u8; 50]));
    assert!(cap.process_block(9).is_none());
    assert_eq!(cap.blocks.len(), 1);
}

#[test]
fn systematic_block_decodes_to_concatenation() {
    let mut cap = CapHandler::new(2, 3);
    let p0 = video_slot(5, 0x81, 0xaa);
    let p1 = video_slot(6, 0x00, 0xbb);
    cap.process_cap_packets(&wire_frame(7, 0, &p0));
    cap.process_cap_packets(&wire_frame(7, 1, &p1));
    let out = cap.process_block(7).expect("block must decode");
    let mut expected = p0.clone();
    expected.extend_from_slice(&p1);
    assert_eq!(out, expected);
    assert!(!cap.blocks.iter().any(|b| b.index == 7));
    assert_eq!(cap.current_process_block_index, 7);
}

#[test]
fn single_part_frame_completes() {
    let mut cap = CapHandler::new(2, 3);
    cap.do_when_recv_new_frame();
    let slot = video_slot(5, 0x80, 0x11);
    let emitted = cap.process_air2ground_packets(slot.clone());
    assert_eq!(emitted.len(), 1);
    assert_eq!(emitted[0].frame_index, 5);
    assert_eq!(emitted[0].parts_count, 1);
    assert_eq!(emitted[0].parts.len(), 1);
    assert_eq!(
        emitted[0].get_jpegdata(),
        slot[AIR2GROUND_VIDEO_HEADER_SIZE..].to_vec()
    );
    assert_eq!(cap.finish_frame_index, 5);
    assert_eq!(cap.frames.len(), 0);
}

#[test]
fn decoded_block_completes_frame() {
    let mut cap = CapHandler::new(2, 3);
    cap.do_when_recv_new_frame();
    let p0 = video_slot(5, 0x80, 0xaa);
    let p1 = video_slot(6, 0x00, 0xbb);
    cap.process_cap_packets(&wire_frame(7, 0, &p0));
    cap.process_cap_packets(&wire_frame(7, 1, &p1));
    let out = cap.process_block(7).unwrap();
    let emitted = cap.process_air2ground_packets(out);
    assert_eq!(emitted.len(), 1);
    assert_eq!(emitted[0].frame_index, 5);
    let body = emitted[0].get_jpegdata();
    assert_eq!(body.len(), FEC_CODEC_MTU - AIR2GROUND_VIDEO_HEADER_SIZE);
    assert_eq!(body, p0[AIR2GROUND_VIDEO_HEADER_SIZE..].to_vec());
}

#[test]
fn fec_decode_equals_systematic_case() {
    let mut message: Vec<u8> = video_slot(5, 0x81, 0xaa);
    let p1 = video_slot(6, 0x00, 0xbb);
    message.extend_from_slice(&p1);
    let fec = zfec_rs::Fec::new(2, 3).unwrap();
    let (chunks, padding) = fec.encode(&message).unwrap();
    assert_eq!(padding, 0);
    let q2 = chunks[2].data.clone();
    assert_eq!(q2.len(), FEC_CODEC_MTU);

    let mut cap = CapHandler::new(2, 3);
    cap.process_cap_packets(&wire_frame(7, 0, &message[..FEC_CODEC_MTU]));
    cap.process_cap_packets(&wire_frame(7, 2, &q2));
    let out = cap.process_block(7).expect("one systematic plus one parity decode");
    assert_eq!(out.len(), 2 * FEC_CODEC_MTU);
    assert_eq!(out, message);
}

#[test]
fn sliding_window_evicts_stale_blocks() {
    let mut cap = CapHandler::new(2, 3);
    cap.process_cap_packets(&wire_frame(10, 0, &[1u8; 40]));
    cap.process_cap_packets(&wire_frame(11, 0, &[2u8; 40]));
    cap.process_cap_packets(&wire_frame(12, 0, &[3u8; 40]));
    assert_eq!(cap.blocks.len(), 3);
    let ret = cap.process_block_with_fix_buffer(12);
    assert!(ret.is_none());
    let indices: Vec<u32> = cap.blocks.iter().map(|b| b.index).collect();
    assert_eq!(indices, vec![11, 12]);
}

#[test]
fn stale_frame_index_resets_state() {
    let mut cap = CapHandler::new(2, 3);
    cap.do_when_recv_new_frame();
    let emitted = cap.process_air2ground_packets(video_slot(4, 0x80, 0x22));
    assert_eq!(emitted.len(), 1);
    assert_eq!(cap.finish_frame_index, 4);
    cap.process_cap_packets(&wire_frame(20, 0, &[1u8; 40]));
    assert_eq!(cap.blocks.len(), 1);
    let emitted = cap.process_air2ground_packets(video_slot(1, 0x00, 0x33));
    assert_eq!(emitted.len(), 0);
    assert_eq!(cap.blocks.len(), 0);
    assert_eq!(cap.finish_frame_index, 0);
}

#[test]
fn restart_clears_pending_frames() {
    let mut cap = CapHandler::new(2, 3);
    let emitted = cap.process_air2ground_packets(video_slot(4, 0x80, 0x22));
    assert_eq!(emitted.len(), 0);
    assert_eq!(cap.frames.len(), 1);
    let emitted = cap.process_air2ground_packets(video_slot(6, 0x00, 0x33));
    assert_eq!(emitted.len(), 0);
    assert_eq!(cap.frames.len(), 2);
    cap.process_cap_packets(&wire_frame(20, 0, &[1u8; 40]));
    let emitted = cap.process_air2ground_packets(video_slot(1, 0x00, 0x44));
    assert_eq!(emitted.len(), 0);
    assert_eq!(cap.blocks.len(), 0);
    assert_eq!(cap.frames.len(), 0);
    assert_eq!(cap.finish_frame_index, 0);
}

#[test]
fn header_crc_mismatch_is_counted_and_part_kept() {
    let mut cap = CapHandler::new(2, 3);
    let mut slot = video_slot(4, 0x80, 0x22);
    slot[6] ^= 0xff;
    let emitted = cap.process_air2ground_packets(slot);
    assert_eq!(emitted.len(), 0);
    assert_eq!(cap.stats.crc_mismatch_count, 1);
    assert_eq!(cap.frames.len(), 1);
    assert_eq!(cap.finish_frame_index, 4);
    cap.process_air2ground_packets(video_slot(7, 0x80, 0x11));
    assert_eq!(cap.stats.crc_mismatch_count, 1);
}

#[test]
fn excess_parity_decodes_to_message() {
    let mut message: Vec<u8> = video_slot(5, 0x81, 0xaa);
    let p1 = video_slot(6, 0x00, 0xbb);
    message.extend_from_slice(&p1);
    let fec = zfec_rs::Fec::new(2, 4).unwrap();
    let (chunks, padding) = fec.encode(&message).unwrap();
    assert_eq!(padding, 0);
    let mut cap = CapHandler::new(2, 4);
    cap.process_cap_packets(&wire_frame(7, 0, &message[..FEC_CODEC_MTU]));
    cap.process_cap_packets(&wire_frame(7, 2, &chunks[2].data));
    cap.process_cap_packets(&wire_frame(7, 3, &chunks[3].data));
    let out = cap.process_block(7).expect("two parity shards cover the shortfall");
    assert_eq!(out.len(), 2 * FEC_CODEC_MTU);
    assert_eq!(out, message);
}

#[test]
fn completed_frames_accumulate_without_sink() {
    let mut cap = CapHandler::new(2, 3);
    let emitted = cap.process_air2ground_packets(video_slot(4, 0x80, 0x22));
    assert_eq!(emitted.len(), 0);
    assert_eq!(cap.finish_frame_index, 4);
    assert_eq!(cap.frames.len(), 1);
    assert_eq!(cap.frames[0].frame_index, 4);
}

#[test]
fn find_block_picks_first_match() {
    let mut cap = CapHandler::new(2, 3);
    cap.process_cap_packets(&wire_frame(3, 0, &[1u8; 40]));
    cap.process_cap_packets(&wire_frame(4, 0, &[1u8; 40]));
    cap.process_cap_packets(&wire_frame(4, 1, &[2u8; 40]));
    cap.process_cap_packets(&wire_frame(5, 2, &[3u8; 40]));
    let (idx, block) = find_block(&cap, Some(2), None).expect("one block has two packets");
    assert_eq!(idx, 4);
    assert_eq!(block.packets.len(), 2);
    let (idx, block) = find_block(&cap, Some(0), Some(1)).expect("one block is parity only");
    assert_eq!(idx, 5);
    assert_eq!(block.fec_packets.len(), 1);
    assert!(find_block(&cap, Some(2), Some(1)).is_none());
}

#[test]
fn vtx_header_round_trip() {
    let header = VtxPacketHeader::build(0x123456, 0x78, 0x9abc);
    assert_eq!(header.block_index(), 0x123456);
    assert_eq!(header.packet_index(), 0x78);
    assert_eq!(header.size(), 0x9abc);
    assert_eq!(header.bytes, vec![0x56, 0x34, 0x12, 0x78, 0xbc, 0x9a]);
}

#[test]
fn video_header_crc_check() {
    let slot = video_slot(9, 0x02, 0x44);
    let (packet, crc_ok) =
        esp_vtx_gs_rs::packet::Air2GroundFramePacket::from_bytes(slot.clone());
    assert!(crc_ok);
    assert_eq!(packet.header.frame_index, 9);
    assert_eq!(packet.header.part_index(), 2);
    assert_eq!(packet.header.last_part(), 0);
    assert_eq!(packet.data.len(), FEC_CODEC_MTU - AIR2GROUND_VIDEO_HEADER_SIZE);

    let mut corrupt = slot;
    corrupt[6] ^= 0xff;
    let (_packet, crc_ok) = esp_vtx_gs_rs::packet::Air2GroundFramePacket::from_bytes(corrupt);
    assert!(!crc_ok);
}

#[test]
fn crc_cal_matches_reference_checksum() {
    let mut header = esp_vtx_gs_rs::packet::Air2Ground_Video_Packet {
        packet_type: 0,
        size: 1457,
        pong: 3,
        crc: 0x5a,
        resolution: 1,
        part_index: 0x82,
        frame_index: 77,
    };
    let computed = header.crc_cal();
    let mut zeroed = header;
    zeroed.crc = 0;
    let expected = crc::Crc::<u8>::new(&crc::CRC_8_SMBUS).checksum(&zeroed.to_bytes());
    assert_eq!(computed, expected);
    assert_eq!(header.crc, expected);
}

#[test]
fn duplicate_parity_is_discarded() {
    let mut cap = CapHandler::new(2, 3);
    let frame = wire_frame(6, 2, &[8u8; 60]);
    assert_eq!(cap.process_cap_packets(&frame), IngestStatus::Stored);
    assert_eq!(cap.process_cap_packets(&frame), IngestStatus::Stored);
    assert_eq!(cap.blocks[0].fec_packets.len(), 1);
}

#[test]
fn parts_are_reassembled_in_part_order() {
    let mut cap = CapHandler::new(2, 3);
    cap.do_when_recv_new_frame();
    let second = video_slot(9, 0x81, 0xbb);
    let first = video_slot(9, 0x00, 0xaa);
    let emitted = cap.process_air2ground_packets(second.clone());
    assert_eq!(emitted.len(), 0);
    let emitted = cap.process_air2ground_packets(first.clone());
    assert_eq!(emitted.len(), 1);
    assert_eq!(emitted[0].parts_count, 2);
    let mut expected = first[AIR2GROUND_VIDEO_HEADER_SIZE..].to_vec();
    expected.extend_from_slice(&second[AIR2GROUND_VIDEO_HEADER_SIZE..]);
    assert_eq!(emitted[0].get_jpegdata(), expected);
}
