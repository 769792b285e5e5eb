//! The application-layer records exchanged with the air side.
//!
//! Every 1470-byte slot of a decoded block starts with the packed
//! air-to-ground video header; the rest of the slot is frame data.  The
//! header's `crc` field holds a CRC-8/SMBus computed over the header with
//! that field zeroed.  The layout is addressed byte by byte, so no host
//! padding or field order can leak onto the wire.

use vstd::prelude::*;

verus! {

/// Byte size of the packed air-to-ground video header.
pub const AIR2GROUND_VIDEO_HEADER_SIZE: usize = 13;

/// `packet_type` of a video record.
pub const PACKET_TYPE_VIDEO: u8 = 0;

/// `packet_type` of a telemetry record.
pub const PACKET_TYPE_TELEMETRY: u8 = 1;

/// The CRC-8/SMBus checksum of `d`: polynomial 0x07, initial value 0x00, no
/// reflection, no final exclusive-or.  It is a function of the bytes alone.
pub uninterp spec fn crc8_smbus_of(d: Seq<u8>) -> u8;

/// Relies on crc::Crc built over crc::CRC_8_SMBUS: `checksum` returns the
/// CRC-8/SMBus of the bytes, a function of the bytes alone.
#[verifier::external_body]
pub(crate) fn crc8_smbus(data: &[u8]) -> (r: u8)
    ensures
        r == crc8_smbus_of(data@),
{
    crc::Crc::<u8>::new(&crc::CRC_8_SMBUS).checksum(data)
}

/// The 32-bit little-endian integer held by bytes `i..i+4` of `b`.
pub open spec fn spec_u32_le_of(b: Seq<u8>, i: int) -> u32
    recommends
        0 <= i,
        i + 4 <= b.len(),
{
    (b[i] as u32 + b[i + 1] as u32 * 0x100 + b[i + 2] as u32 * 0x10000 + b[i + 3] as u32
        * 0x1000000) as u32
}

/// The four little-endian bytes of `v`.
pub open spec fn spec_u32_le_bytes(v: u32) -> Seq<u8> {
    seq![
        (v % 0x100) as u8,
        ((v / 0x100) % 0x100) as u8,
        ((v / 0x10000) % 0x100) as u8,
        ((v / 0x1000000) % 0x100) as u8,
    ]
}

/// The packed header in front of every video frame part.
///
/// `part_index` keeps its wire shape: the low seven bits are the part's
/// sequence number inside the frame, the high bit marks the last part.
#[derive(Clone, Copy, PartialEq, Eq, Structural, Debug)]
#[allow(non_camel_case_types)]
pub struct Air2Ground_Video_Packet {
    pub packet_type: u8,
    pub size: u32,
    pub pong: u8,
    pub crc: u8,
    pub resolution: u8,
    pub part_index: u8,
    pub frame_index: u32,
}

/// The thirteen wire bytes of a video header.
pub open spec fn spec_video_header_bytes(h: Air2Ground_Video_Packet) -> Seq<u8> {
    seq![h.packet_type] + spec_u32_le_bytes(h.size) + seq![h.pong, h.crc, h.resolution, h.part_index
    ] + spec_u32_le_bytes(h.frame_index)
}

/// The header whose wire bytes stand at the front of `b`.
pub open spec fn spec_parse_video_header(b: Seq<u8>) -> Air2Ground_Video_Packet
    recommends
        b.len() >= AIR2GROUND_VIDEO_HEADER_SIZE,
{
    Air2Ground_Video_Packet {
        packet_type: b[0],
        size: spec_u32_le_of(b, 1),
        pong: b[5],
        crc: b[6],
        resolution: b[7],
        part_index: b[8],
        frame_index: spec_u32_le_of(b, 9),
    }
}

impl Air2Ground_Video_Packet {
    /// The part's sequence number inside its frame: the low seven bits.
    pub open spec fn spec_part_index(&self) -> u8 {
        self.part_index & 0x7f
    }

    /// Nonzero exactly when the header marks the last part of its frame.
    pub open spec fn spec_last_part(&self) -> u8 {
        self.part_index >> 7
    }

    pub fn part_index(&self) -> (r: u8)
        ensures
            r == self.spec_part_index(),
            r < 0x80,
    {
        proof {
            let raw = self.part_index;
            assert(raw & 0x7f < 0x80) by (bit_vector);
        }
        self.part_index & 0x7f
    }

    pub fn last_part(&self) -> (r: u8)
        ensures
            r == self.spec_last_part(),
    {
        self.part_index >> 7
    }

    /// Serialises the header into its thirteen wire bytes.
    pub fn to_bytes(&self) -> (r: Vec<u8>)
        ensures
            r@ == spec_video_header_bytes(*self),
    {
        let mut b: Vec<u8> = Vec::new();
        b.push(self.packet_type);
        b.push((self.size % 0x100) as u8);
        b.push(((self.size / 0x100) % 0x100) as u8);
        b.push(((self.size / 0x10000) % 0x100) as u8);
        b.push(((self.size / 0x1000000) % 0x100) as u8);
        b.push(self.pong);
        b.push(self.crc);
        b.push(self.resolution);
        b.push(self.part_index);
        b.push((self.frame_index % 0x100) as u8);
        b.push(((self.frame_index / 0x100) % 0x100) as u8);
        b.push(((self.frame_index / 0x10000) % 0x100) as u8);
        b.push(((self.frame_index / 0x1000000) % 0x100) as u8);
        proof {
            assert(b@ =~= spec_video_header_bytes(*self));
        }
        b
    }

    /// The CRC-8/SMBus a well-formed header carries: computed over the
    /// thirteen header bytes with the `crc` field zeroed.
    pub open spec fn spec_crc(&self) -> u8 {
        crc8_smbus_of(spec_video_header_bytes(Air2Ground_Video_Packet { crc: 0, ..*self }))
    }

    /// Recomputes the header checksum, stores it in the `crc` field and
    /// returns it.
    pub fn crc_cal(&mut self) -> (r: u8)
        ensures
            r == old(self).spec_crc(),
            *final(self) == (Air2Ground_Video_Packet { crc: r, ..*old(self) }),
    {
        self.crc = 0;
        let bytes = self.to_bytes();
        let c = crc8_smbus(bytes.as_slice());
        self.crc = c;
        proof {
            assert(spec_video_header_bytes(Air2Ground_Video_Packet { crc: 0, ..*old(self) })
                =~= bytes@);
        }
        c
    }

    /// Recomputes the checksum and compares it against the one the header
    /// carried; the recomputed value stays in the `crc` field.
    pub fn crc_check(&mut self) -> (r: bool)
        ensures
            r <==> old(self).spec_crc() == old(self).crc,
            *final(self) == (Air2Ground_Video_Packet { crc: old(self).spec_crc(), ..*old(self) }),
    {
        let origin_crc = self.crc;
        let c = self.crc_cal();
        c == origin_crc
    }
}

/// The mathematical value of a frame-part packet.
pub struct FramePacketView {
    pub header: Air2Ground_Video_Packet,
    pub data: Seq<u8>,
}

/// One frame part cut out of a decoded block: the parsed header and the
/// frame bytes behind it.
pub struct Air2GroundFramePacket {
    pub header: Air2Ground_Video_Packet,
    pub data: Vec<u8>,
}

impl View for Air2GroundFramePacket {
    type V = FramePacketView;

    open spec fn view(&self) -> FramePacketView {
        FramePacketView { header: self.header, data: self.data@ }
    }
}

/// The packet `Air2GroundFramePacket::from_bytes` yields: the header parsed
/// from the first thirteen bytes, with its `crc` field replaced by the
/// recomputed checksum, and the remaining bytes as frame data.
#[verifier::opaque]
pub open spec fn spec_frame_packet_of(b: Seq<u8>) -> FramePacketView
    recommends
        b.len() >= AIR2GROUND_VIDEO_HEADER_SIZE,
{
    FramePacketView {
        header: Air2Ground_Video_Packet {
            crc: spec_parse_video_header(b).spec_crc(),
            ..spec_parse_video_header(b)
        },
        data: b.subrange(AIR2GROUND_VIDEO_HEADER_SIZE as int, b.len() as int),
    }
}

impl Air2GroundFramePacket {
    /// Splits one decoded slot into header and frame data.  The checksum is
    /// recomputed into the header's `crc` field; a mismatch is tolerated
    /// here, the caller decides what to log.
    pub fn from_bytes(origin_data: Vec<u8>) -> (r: (Air2GroundFramePacket, bool))
        requires
            origin_data@.len() >= AIR2GROUND_VIDEO_HEADER_SIZE,
        ensures
            r.0@ == spec_frame_packet_of(origin_data@),
            r.1 <==> spec_parse_video_header(origin_data@).spec_crc() == spec_parse_video_header(
                origin_data@,
            ).crc,
    {
        proof {
            reveal(spec_frame_packet_of);
        }
        let b = &origin_data;
        let mut header = Air2Ground_Video_Packet {
            packet_type: b[0],
            size: b[1] as u32 + b[2] as u32 * 0x100 + b[3] as u32 * 0x10000 + b[4] as u32
                * 0x1000000,
            pong: b[5],
            crc: b[6],
            resolution: b[7],
            part_index: b[8],
            frame_index: b[9] as u32 + b[10] as u32 * 0x100 + b[11] as u32 * 0x10000 + b[12] as u32
                * 0x1000000,
        };
        let crc_ok = header.crc_check();
        let mut data: Vec<u8> = Vec::new();
        let mut i: usize = AIR2GROUND_VIDEO_HEADER_SIZE;
        while i < origin_data.len()
            invariant
                AIR2GROUND_VIDEO_HEADER_SIZE <= i <= origin_data@.len(),
                data@ == origin_data@.subrange(AIR2GROUND_VIDEO_HEADER_SIZE as int, i as int),
            decreases origin_data@.len() - i,
        {
            data.push(origin_data[i]);
            i = i + 1;
            proof {
                assert(data@ =~= origin_data@.subrange(AIR2GROUND_VIDEO_HEADER_SIZE as int,
                i as int));
            }
        }
        (Air2GroundFramePacket { header, data }, crc_ok)
    }
}


/// `type_` of a ground-to-air configuration record.
pub const GROUND2AIR_TYPE_CONFIG: u8 = 1;

/// The 48 Mbit OFDM wifi rate, the default for the link.
pub const WIFI_RATE_G_48M_ODFM: u8 = 12;

/// Camera resolutions, by their wire value.
pub const RESOLUTION_QVGA: u8 = 0;

pub const RESOLUTION_CIF: u8 = 1;

pub const RESOLUTION_HVGA: u8 = 2;

pub const RESOLUTION_VGA: u8 = 3;

pub const RESOLUTION_SVGA: u8 = 4;

pub const RESOLUTION_XGA: u8 = 5;

pub const RESOLUTION_SXGA: u8 = 6;

pub const RESOLUTION_UXGA: u8 = 7;

/// Byte size of the serialised configuration record, before padding.
pub const GROUND2AIR_CONFIG_SIZE: usize = 41;

/// Byte size of the padded configuration envelope put on the wire.
pub const GROUND2AIR_CONFIG_PADDED_SIZE: usize = 64;

/// The common header in front of every ground-to-air record.
#[derive(Clone, Copy, PartialEq, Eq, Structural, Debug)]
#[allow(non_camel_case_types)]
pub struct Ground2Air_Header {
    pub type_: u8,
    pub size: u32,
    pub crc: u8,
}

impl Default for Ground2Air_Header {
    /// A configuration header with size and checksum still unset.
    fn default() -> (r: Ground2Air_Header)
        ensures
            r == (Ground2Air_Header { type_: GROUND2AIR_TYPE_CONFIG, size: 0, crc: 0 }),
    {
        Ground2Air_Header { type_: GROUND2AIR_TYPE_CONFIG, size: 0, crc: 0 }
    }
}

/// The camera settings carried by a configuration record.
#[derive(Clone, Copy, PartialEq, Eq, Structural, Debug)]
#[allow(non_camel_case_types)]
pub struct Ground2Air_Config_Packet_Camera {
    pub resolution: u8,
    pub fps_limit: u8,
    pub quality: u8,
    pub brightness: i8,
    pub contrast: i8,
    pub saturation: i8,
    pub sharpness: i8,
    pub denoise: u8,
    pub special_effect: u8,
    pub awb: bool,
    pub awb_gain: bool,
    pub wb_mode: u8,
    pub aec: bool,
    pub aec2: bool,
    pub ae_level: i8,
    pub aec_value: u16,
    pub agc: bool,
    pub agc_gain: i8,
    pub gainceiling: u8,
    pub bpc: bool,
    pub wpc: bool,
    pub raw_gma: bool,
    pub lenc: bool,
    pub hmirror: bool,
    pub vflip: bool,
    pub dcw: bool,
}

impl Default for Ground2Air_Config_Packet_Camera {
    fn default() -> (r: Ground2Air_Config_Packet_Camera)
        ensures
            r == spec_default_camera(),
    {
        Ground2Air_Config_Packet_Camera {
            resolution: RESOLUTION_QVGA,
            fps_limit: 0,
            quality: 8,
            brightness: 0,
            contrast: 0,
            saturation: 0,
            sharpness: -1,
            denoise: 0,
            special_effect: 0,
            awb: true,
            awb_gain: true,
            wb_mode: 0,
            aec: true,
            aec2: true,
            ae_level: 0,
            aec_value: 0,
            agc: true,
            agc_gain: 0,
            gainceiling: 0,
            bpc: true,
            wpc: true,
            raw_gma: false,
            lenc: true,
            hmirror: false,
            vflip: false,
            dcw: true,
        }
    }
}

/// The default camera settings.
pub open spec fn spec_default_camera() -> Ground2Air_Config_Packet_Camera {
    Ground2Air_Config_Packet_Camera {
        resolution: RESOLUTION_QVGA,
        fps_limit: 0,
        quality: 8,
        brightness: 0,
        contrast: 0,
        saturation: 0,
        sharpness: -1i8,
        denoise: 0,
        special_effect: 0,
        awb: true,
        awb_gain: true,
        wb_mode: 0,
        aec: true,
        aec2: true,
        ae_level: 0,
        aec_value: 0,
        agc: true,
        agc_gain: 0,
        gainceiling: 0,
        bpc: true,
        wpc: true,
        raw_gma: false,
        lenc: true,
        hmirror: false,
        vflip: false,
        dcw: true,
    }
}

/// One bool as its wire byte.
pub open spec fn spec_bool_byte(b: bool) -> u8 {
    if b {
        1u8
    } else {
        0u8
    }
}

/// One bool as its wire byte.
fn bool_byte(b: bool) -> (r: u8)
    ensures
        r == spec_bool_byte(b),
{
    if b {
        1u8
    } else {
        0u8
    }
}

/// The configuration record sent back to the air side.
#[derive(Clone, Copy, PartialEq, Eq, Structural, Debug)]
#[allow(non_camel_case_types)]
pub struct Ground2Air_Config_Packet {
    pub _base: Ground2Air_Header,
    pub ping: u8,
    pub wifi_power: i8,
    pub wifi_rate: u8,
    pub fec_codec_k: u8,
    pub fec_codec_n: u8,
    pub fec_codec_mtu: u16,
    pub dvr_record: bool,
    pub camera: Ground2Air_Config_Packet_Camera,
}

/// The 27 wire bytes of the camera settings.
pub open spec fn spec_camera_bytes(c: Ground2Air_Config_Packet_Camera) -> Seq<u8> {
    seq![
        c.resolution,
        c.fps_limit,
        c.quality,
        c.brightness as u8,
        c.contrast as u8,
        c.saturation as u8,
        c.sharpness as u8,
        c.denoise,
        c.special_effect,
        spec_bool_byte(c.awb),
        spec_bool_byte(c.awb_gain),
        c.wb_mode,
        spec_bool_byte(c.aec),
        spec_bool_byte(c.aec2),
        c.ae_level as u8,
        (c.aec_value % 0x100) as u8,
        ((c.aec_value as u32 / 0x100) % 0x100) as u8,
        spec_bool_byte(c.agc),
        c.agc_gain as u8,
        c.gainceiling,
        spec_bool_byte(c.bpc),
        spec_bool_byte(c.wpc),
        spec_bool_byte(c.raw_gma),
        spec_bool_byte(c.lenc),
        spec_bool_byte(c.hmirror),
        spec_bool_byte(c.vflip),
        spec_bool_byte(c.dcw),
    ]
}

/// The 41 wire bytes of a configuration record, before padding.
pub open spec fn spec_config_bytes(p: Ground2Air_Config_Packet) -> Seq<u8> {
    seq![
        p._base.type_,
        (p._base.size % 0x100) as u8,
        ((p._base.size / 0x100) % 0x100) as u8,
        ((p._base.size / 0x10000) % 0x100) as u8,
        ((p._base.size / 0x1000000) % 0x100) as u8,
        p._base.crc,
        p.ping,
        p.wifi_power as u8,
        p.wifi_rate,
        p.fec_codec_k,
        p.fec_codec_n,
        (p.fec_codec_mtu % 0x100) as u8,
        ((p.fec_codec_mtu as u32 / 0x100) % 0x100) as u8,
        spec_bool_byte(p.dvr_record),
    ] + spec_camera_bytes(p.camera)
}

/// The 64-byte envelope a configuration record occupies on the wire: the
/// record's bytes padded with zeros.
pub open spec fn spec_config_padded(p: Ground2Air_Config_Packet) -> Seq<u8> {
    spec_config_bytes(p) + Seq::new(
        (GROUND2AIR_CONFIG_PADDED_SIZE - GROUND2AIR_CONFIG_SIZE) as nat,
        |i: int| 0u8,
    )
}

/// Serialises the camera settings into their 27 wire bytes.
fn camera_to_bytes(c: &Ground2Air_Config_Packet_Camera) -> (r: Vec<u8>)
    ensures
        r@ == spec_camera_bytes(*c),
        r@.len() == 27,
{
    let b: Vec<u8> = vec![
        c.resolution,
        c.fps_limit,
        c.quality,
        c.brightness as u8,
        c.contrast as u8,
        c.saturation as u8,
        c.sharpness as u8,
        c.denoise,
        c.special_effect,
        bool_byte(c.awb),
        bool_byte(c.awb_gain),
        c.wb_mode,
        bool_byte(c.aec),
        bool_byte(c.aec2),
        c.ae_level as u8,
        (c.aec_value % 0x100) as u8,
        ((c.aec_value as u32 / 0x100) % 0x100) as u8,
        bool_byte(c.agc),
        c.agc_gain as u8,
        c.gainceiling,
        bool_byte(c.bpc),
        bool_byte(c.wpc),
        bool_byte(c.raw_gma),
        bool_byte(c.lenc),
        bool_byte(c.hmirror),
        bool_byte(c.vflip),
        bool_byte(c.dcw),
    ];
    proof {
        assert(b@ =~= spec_camera_bytes(*c));
    }
    b
}

impl Ground2Air_Config_Packet {
    /// The CRC-8/SMBus a well-formed record carries: computed over the whole
    /// padded envelope with the `crc` field zeroed.
    pub open spec fn spec_crc(&self) -> u8 {
        crc8_smbus_of(
            spec_config_padded(
                Ground2Air_Config_Packet {
                    _base: Ground2Air_Header { crc: 0, ..self._base },
                    ..*self
                },
            ),
        )
    }

    /// Serialises the record into its 64-byte padded wire envelope.
    #[verifier::rlimit(100)]
    pub fn to_bytes(&self) -> (r: Vec<u8>)
        ensures
            r@ == spec_config_padded(*self),
            r@.len() == GROUND2AIR_CONFIG_PADDED_SIZE,
    {
        let mut b: Vec<u8> = Vec::new();
        b.push(self._base.type_);
        b.push((self._base.size % 0x100) as u8);
        b.push(((self._base.size / 0x100) % 0x100) as u8);
        b.push(((self._base.size / 0x10000) % 0x100) as u8);
        b.push(((self._base.size / 0x1000000) % 0x100) as u8);
        b.push(self._base.crc);
        b.push(self.ping);
        b.push(self.wifi_power as u8);
        b.push(self.wifi_rate);
        b.push(self.fec_codec_k);
        b.push(self.fec_codec_n);
        b.push((self.fec_codec_mtu % 0x100) as u8);
        b.push(((self.fec_codec_mtu as u32 / 0x100) % 0x100) as u8);
        b.push(bool_byte(self.dvr_record));
        let cam = camera_to_bytes(&self.camera);
        b.extend_from_slice(cam.as_slice());
        proof {
            assert(b@ =~= spec_config_bytes(*self));
            assert(b@.take(GROUND2AIR_CONFIG_SIZE as int) =~= b@);
        }
        let mut i: usize = GROUND2AIR_CONFIG_SIZE;
        while i < GROUND2AIR_CONFIG_PADDED_SIZE
            invariant
                GROUND2AIR_CONFIG_SIZE <= i <= GROUND2AIR_CONFIG_PADDED_SIZE,
                b@.len() == i,
                b@.take(GROUND2AIR_CONFIG_SIZE as int) == spec_config_bytes(*self),
                forall|j: int| GROUND2AIR_CONFIG_SIZE <= j < i ==> b@[j] == 0u8,
            decreases GROUND2AIR_CONFIG_PADDED_SIZE - i,
        {
            b.push(0u8);
            i = i + 1;
        }
        proof {
            assert forall|j: int| 0 <= j < GROUND2AIR_CONFIG_SIZE implies b@[j]
                == spec_config_bytes(*self)[j] by {
                assert(b@.take(GROUND2AIR_CONFIG_SIZE as int)[j] == spec_config_bytes(*self)[j]);
            };
            assert(b@ =~= spec_config_padded(*self));
        }
        b
    }

    /// Recomputes the record checksum over the padded envelope with the
    /// `crc` field zeroed, and stores it in that field.
    pub fn update_crc(&mut self)
        ensures
            *final(self) == (Ground2Air_Config_Packet {
                _base: Ground2Air_Header { crc: old(self).spec_crc(), ..old(self)._base },
                ..*old(self)
            }),
    {
        self._base.crc = 0;
        let bytes = self.to_bytes();
        let c = crc8_smbus(bytes.as_slice());
        self._base.crc = c;
    }
}

impl Default for Ground2Air_Config_Packet {
    /// The default configuration: the link and camera defaults, with the
    /// checksum filled in.
    fn default() -> (r: Ground2Air_Config_Packet)
        ensures
            r == (Ground2Air_Config_Packet {
                _base: Ground2Air_Header {
                    crc: spec_default_config_base().spec_crc(),
                    ..spec_default_config_base()._base
                },
                ..spec_default_config_base()
            }),
    {
        let mut ret = Ground2Air_Config_Packet {
            _base: Ground2Air_Header { type_: GROUND2AIR_TYPE_CONFIG, size: 0, crc: 0 },
            ping: 0,
            wifi_power: 20,
            wifi_rate: WIFI_RATE_G_48M_ODFM,
            fec_codec_k: 2,
            fec_codec_n: 3,
            fec_codec_mtu: 1470,
            dvr_record: false,
            camera: Ground2Air_Config_Packet_Camera::default(),
        };
        ret.update_crc();
        ret
    }
}

/// The default configuration record before its checksum is filled in.
pub open spec fn spec_default_config_base() -> Ground2Air_Config_Packet {
    Ground2Air_Config_Packet {
        _base: Ground2Air_Header { type_: GROUND2AIR_TYPE_CONFIG, size: 0, crc: 0 },
        ping: 0,
        wifi_power: 20,
        wifi_rate: WIFI_RATE_G_48M_ODFM,
        fec_codec_k: 2,
        fec_codec_n: 3,
        fec_codec_mtu: 1470,
        dvr_record: false,
        camera: spec_default_camera(),
    }
}
} // verus!
