//! Tests of the outbound side: the configuration record and the injector.

use esp_vtx_gs_rs::inject::InjectHandler;
use esp_vtx_gs_rs::packet::{
    Ground2Air_Config_Packet, GROUND2AIR_CONFIG_PADDED_SIZE, GROUND2AIR_TYPE_CONFIG,
    WIFI_RATE_G_48M_ODFM,
};

#[test]
fn default_config_serialises_to_checked_envelope() {
    let config = Ground2Air_Config_Packet::default();
    let bytes = config.to_bytes();
    assert_eq!(bytes.len(), GROUND2AIR_CONFIG_PADDED_SIZE);
    assert_eq!(bytes[0], GROUND2AIR_TYPE_CONFIG);
    assert_eq!(bytes[7], 20);
    assert_eq!(bytes[8], WIFI_RATE_G_48M_ODFM);
    assert_eq!(bytes[9], 2);
    assert_eq!(bytes[10], 3);
    assert_eq!(&bytes[11..13], &1470u16.to_le_bytes());
    assert_eq!(bytes[16], 8);
    assert_eq!(bytes[20], 0xff);
    let mut zeroed = bytes.clone();
    zeroed[5] = 0;
    let recomputed = crc::Crc::<u8>::new(&crc::CRC_8_SMBUS).checksum(&zeroed);
    assert_eq!(bytes[5], recomputed);
    assert_ne!(recomputed, 0);
}

#[test]
fn early_pushes_emit_one_systematic_packet() {
    let mut inject = InjectHandler::new(2, 3);
    let payload = vec![0x42u8; 64];
    let packets = inject.push_data(&payload);
    assert_eq!(packets.len(), 1);
    let p = &packets[0];
    assert_eq!(p.len(), 11 + 24 + 6 + 64);
    assert_eq!(&p[0..4], &[0x00, 0x00, 0x0b, 0x00]);
    assert_eq!(&p[4..8], &[0x00, 0x80, 0x02, 0x00]);
    assert_eq!(&p[8..11], &[0x08, 0x00, 0x00]);
    assert_eq!(p[11], 0x08);
    assert_eq!(&p[21..27], &[0x66, 0x55, 0x44, 0x33, 0x22, 0x11]);
    let header = &p[35..41];
    assert_eq!(&header[0..3], &[0, 0, 0]);
    assert_eq!(header[3], 0);
    assert_eq!(&header[4..6], &(64u16 + 6).to_le_bytes());
    assert_eq!(&p[41..], &payload[..]);
    assert_eq!(inject.packet_cnt, 1);
    assert_eq!(inject.cur_block_index, 0);
}

#[test]
fn final_push_emits_last_systematic_and_parity() {
    let mut inject = InjectHandler::new(2, 3);
    let a = vec![0x11u8; 64];
    let b = vec![0x22u8; 64];
    inject.push_data(&a);
    let packets = inject.push_data(&b);
    assert_eq!(packets.len(), 2);
    let last_systematic = &packets[0];
    let parity = &packets[1];
    assert_eq!(&last_systematic[41..], &b[..]);
    assert_eq!(last_systematic[38], 1);
    assert_eq!(parity[38], 2);
    let mut staged = a.clone();
    staged.extend_from_slice(&b);
    let fec = zfec_rs::Fec::new(2, 3).unwrap();
    let (chunks, _padding) = fec.encode(&staged).unwrap();
    assert_eq!(&parity[41..], &chunks[2].data[..]);
    assert_eq!(inject.packet_cnt, 0);
    assert_eq!(inject.cur_block_index, 1);
    assert_eq!(inject.raw_data.len(), 0);
}

/// One captured wire frame around a VTX payload, as the ground side sees it.
fn capture_frame(block_index: u32, packet_index: u32, payload: &[u8]) -> Vec<u8> {
    let mut v = vec![0u8, 0, 9, 0, 0x02, 0, 0, 0, 0];
    v.extend_from_slice(&[0u8; 24]);
    let header = esp_vtx_gs_rs::vtx::VtxPacketHeader::build(
        block_index,
        packet_index,
        (payload.len() + 6) as u16,
    );
    v.extend_from_slice(&header.bytes);
    v.extend_from_slice(payload);
    v
}

#[test]
fn injected_block_round_trips_through_the_decoder() {
    let mut inject = InjectHandler::new(2, 3);
    let a = vec![0x11u8; 1470];
    let b = vec![0x22u8; 1470];
    let first = inject.push_data(&a);
    let last = inject.push_data(&b);
    assert_eq!(first.len(), 1);
    assert_eq!(last.len(), 2);
    let d0 = &first[0][41..];
    let q2 = &last[1][41..];

    let mut cap = esp_vtx_gs_rs::CapHandler::new(2, 3);
    assert_eq!(
        cap.process_cap_packets(&capture_frame(0, 0, d0)),
        esp_vtx_gs_rs::IngestStatus::Stored
    );
    assert_eq!(
        cap.process_cap_packets(&capture_frame(0, 2, q2)),
        esp_vtx_gs_rs::IngestStatus::Stored
    );
    let out = cap.process_block(0).expect("systematic plus parity decode");
    let mut expected = a.clone();
    expected.extend_from_slice(&b);
    assert_eq!(out, expected);
}

#[test]
fn config_push_uses_padded_envelope() {
    let mut inject = InjectHandler::new(2, 3);
    let config = Ground2Air_Config_Packet::default();
    let packets = inject.push_ground2air_config_packet(&config);
    assert_eq!(packets.len(), 1);
    assert_eq!(packets[0].len(), 11 + 24 + 6 + 64);
    assert_eq!(&packets[0][41..], &config.to_bytes()[..]);
}
