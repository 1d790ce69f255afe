use opennow_streamer::bitreader::{BitReader, BitstreamError};
use opennow_streamer::hevc::{slice_address_bits, HevcParser};
use opennow_streamer::nal::{find_nal_units, remove_emulation_prevention, HevcNalType, HevcNalUnit};

/// Writes bits most significant first, for building test bitstreams.
struct BitWriter {
    bytes: Vec<u8>,
    used: u32,
}

impl BitWriter {
    fn new() -> Self {
        BitWriter { bytes: Vec::new(), used: 0 }
    }

    fn bit(&mut self, b: u32) {
        if self.used % 8 == 0 {
            self.bytes.push(0);
        }
        if b != 0 {
            let last = self.bytes.len() - 1;
            self.bytes[last] |= 0x80 >> (self.used % 8);
        }
        self.used += 1;
    }

    fn bits(&mut self, v: u64, n: u32) {
        for i in (0..n).rev() {
            self.bit(((v >> i) & 1) as u32);
        }
    }

    fn ue(&mut self, k: u64) {
        let m = k + 1;
        let len = 64 - m.leading_zeros();
        self.bits(0, len - 1);
        self.bits(m, len);
    }

    fn se(&mut self, v: i64) {
        let k = if v > 0 { (2 * v - 1) as u64 } else { (-2 * v) as u64 };
        self.ue(k);
    }

    /// Stop bit and zero padding to a whole byte.
    fn finish(mut self) -> Vec<u8> {
        self.bit(1);
        while self.used % 8 != 0 {
            self.bit(0);
        }
        self.bytes
    }
}

fn unit(nal_type: HevcNalType, header: [u8; 2], payload: Vec<u8>) -> HevcNalUnit {
    let mut data = header.to_vec();
    data.extend(payload);
    HevcNalUnit { nal_type, layer_id: 0, temporal_id: 1, data, offset: 0 }
}

fn sps_1080p() -> HevcNalUnit {
    let mut w = BitWriter::new();
    w.bits(0, 4); // vps id
    w.bits(0, 3); // one sub-layer
    w.bit(1);
    w.bits(0, 96); // profile, tier, level
    w.ue(0); // sps id
    w.ue(1); // 4:2:0
    w.ue(1920);
    w.ue(1080);
    w.bit(0); // no conformance window
    w.ue(2); // 10-bit luma
    w.ue(2); // 10-bit chroma
    w.ue(4); // log2_max_poc_lsb = 8
    w.bit(1);
    w.ue(4);
    w.ue(0);
    w.ue(0);
    w.ue(0); // min coding block 8
    w.ue(3); // coding tree block 64
    w.ue(0);
    w.ue(3);
    w.ue(0);
    w.ue(0);
    w.bit(0); // no scaling list
    w.bit(0);
    w.bit(1);
    w.bit(0); // no pcm
    w.ue(0); // no short-term sets
    w.bit(0); // no long-term pictures
    w.bit(1);
    w.bit(1);
    unit(HevcNalType::SpsNut, [0x42, 0x01], w.finish())
}

fn pps_0() -> HevcNalUnit {
    let mut w = BitWriter::new();
    w.ue(0); // pps id
    w.ue(0); // sps id
    w.bit(0);
    w.bit(0);
    w.bits(0, 3);
    w.bit(0);
    w.bit(0);
    w.ue(2); // three l0 references
    w.ue(0);
    w.se(0);
    w.bit(0);
    w.bit(0);
    w.bit(0);
    w.se(0);
    w.se(0);
    for _ in 0..6 {
        w.bit(0);
    }
    w.bit(1); // loop filter across slices
    w.bit(0); // no deblocking control
    w.bit(0);
    w.ue(0);
    w.bit(0);
    unit(HevcNalType::PpsNut, [0x44, 0x01], w.finish())
}

#[test]
fn test_nal_type_parsing() {
    assert_eq!(HevcNalType::from(32), HevcNalType::VpsNut);
    assert_eq!(HevcNalType::from(33), HevcNalType::SpsNut);
    assert_eq!(HevcNalType::from(34), HevcNalType::PpsNut);
    assert_eq!(HevcNalType::from(19), HevcNalType::IdrWRadl);
    assert!(HevcNalType::IdrWRadl.is_idr());
    assert!(HevcNalType::IdrWRadl.is_rap());
}

#[test]
fn hevc_parser_test_bit_reader() {
    let data = [0b10110100, 0b01100000];
    let mut reader = BitReader::new(&data);

    assert_eq!(reader.read_bit().unwrap(), 1);
    assert_eq!(reader.read_bit().unwrap(), 0);
    assert_eq!(reader.read_bits(4).unwrap(), 0b1101);
}

#[test]
fn hevc_parser_test_exp_golomb() {
    let data = [0b10000000];
    let mut reader = BitReader::new(&data);
    assert_eq!(reader.read_ue().unwrap(), 0);

    let data = [0b01000000];
    let mut reader = BitReader::new(&data);
    assert_eq!(reader.read_ue().unwrap(), 1);

    let data = [0b01100000];
    let mut reader = BitReader::new(&data);
    assert_eq!(reader.read_ue().unwrap(), 2);
}

#[test]
fn nal_type_classes() {
    assert!(HevcNalType::TrailR.is_vcl());
    assert!(HevcNalType::TrailR.is_slice());
    assert!(!HevcNalType::SpsNut.is_vcl());
    assert!(!HevcNalType::Unknown.is_vcl());
    assert!(HevcNalType::BlaNLp.is_bla() && HevcNalType::BlaNLp.is_rap());
    assert!(HevcNalType::CraNut.is_cra() && HevcNalType::CraNut.is_rap());
    assert!(!HevcNalType::TrailN.is_rap());
    assert_eq!(HevcNalType::from(12), HevcNalType::Unknown);
    assert_eq!(HevcNalType::from(21), HevcNalType::CraNut);
}

#[test]
fn exp_golomb_round_trip_many_values() {
    for k in (0u64..5000).chain([65535, 1 << 20, 4294967294]) {
        let mut w = BitWriter::new();
        w.ue(k);
        let bytes = w.finish();
        let mut reader = BitReader::new(&bytes);
        assert_eq!(reader.read_ue().unwrap() as u64, k);
    }
}

#[test]
fn signed_exp_golomb_alternates() {
    let mut w = BitWriter::new();
    for k in [0, 1, 2, 3, 4] {
        w.ue(k);
    }
    let bytes = w.finish();
    let mut reader = BitReader::new(&bytes);
    let got: Vec<i32> = (0..5).map(|_| reader.read_se().unwrap()).collect();
    assert_eq!(got, vec![0, 1, -1, 2, -2]);
}

#[test]
fn exp_golomb_too_many_zeros_is_malformed() {
    let data = [0u8, 0, 0, 0, 0x80];
    let mut reader = BitReader::new(&data);
    assert_eq!(reader.read_ue(), Err(BitstreamError::MalformedCode));
}

#[test]
fn reading_past_the_end_fails() {
    let data = [0xffu8];
    let mut reader = BitReader::new(&data);
    assert_eq!(reader.read_bits(8).unwrap(), 255);
    assert!(!reader.has_more_data());
    assert_eq!(reader.position(), 8);
    assert_eq!(reader.read_bit(), Err(BitstreamError::EndOfData));
    let mut reader = BitReader::new(&data);
    assert_eq!(reader.skip_bits(9), Err(BitstreamError::EndOfData));
    let truncated = [0b00000001u8];
    let mut reader = BitReader::new(&truncated);
    assert_eq!(reader.read_ue(), Err(BitstreamError::EndOfData));
}

#[test]
fn scan_finds_units_behind_both_start_codes() {
    let units: Vec<Vec<u8>> = vec![
        vec![0x40, 0x01, 0x0c, 0x01],
        vec![0x42, 0x01, 0x01, 0x60],
        vec![0x44, 0x01, 0xc1],
        vec![0x26, 0x01, 0xaf, 0x05, 0x38],
        vec![0x02, 0x0b, 0x10],
    ];
    let mut stream = Vec::new();
    for (i, u) in units.iter().enumerate() {
        if i % 2 == 0 {
            stream.extend([0, 0, 0, 1]);
        } else {
            stream.extend([0, 0, 1]);
        }
        stream.extend(u);
    }
    let parser = HevcParser::new();
    let found = parser.find_nal_units(&stream);
    assert_eq!(found.len(), 5);
    let types: Vec<HevcNalType> = found.iter().map(|n| n.nal_type).collect();
    assert_eq!(
        types,
        vec![
            HevcNalType::VpsNut,
            HevcNalType::SpsNut,
            HevcNalType::PpsNut,
            HevcNalType::IdrWRadl,
            HevcNalType::TrailR,
        ]
    );
    for (n, u) in found.iter().zip(units.iter()) {
        assert_eq!(&n.data, u);
    }
    assert_eq!(found[0].offset, 0);
    assert_eq!(found[1].offset, 8);
    assert_eq!(found[4].layer_id, 1);
    assert_eq!(found[4].temporal_id, 3);
    assert_eq!(found[0].temporal_id, 1);
}

#[test]
fn scan_drops_units_shorter_than_the_header() {
    let stream = [0u8, 0, 1, 0x40, 0, 0, 1, 0x42, 0x01, 0x77];
    let found = find_nal_units(&stream);
    assert_eq!(found.len(), 1);
    assert_eq!(found[0].nal_type, HevcNalType::SpsNut);
    assert!(find_nal_units(&[]).is_empty());
    assert!(find_nal_units(&[1, 2, 3, 4]).is_empty());
}

#[test]
fn emulation_prevention_removed_once_per_triple() {
    assert_eq!(remove_emulation_prevention(&[0, 0, 3, 1]), vec![0, 0, 1]);
    assert_eq!(remove_emulation_prevention(&[0, 0, 3, 0, 0, 3]), vec![0, 0, 0, 0]);
    assert_eq!(remove_emulation_prevention(&[5, 0, 0, 3]), vec![5, 0, 0]);
    let clean = [1u8, 0, 0, 1, 0, 2, 3, 0, 0];
    let once = remove_emulation_prevention(&clean);
    assert_eq!(once, clean.to_vec());
    assert_eq!(remove_emulation_prevention(&once), once);
}

#[test]
fn vps_is_parsed_and_filed_under_its_id() {
    let mut parser = HevcParser::new();
    let vps = unit(HevcNalType::VpsNut, [0x40, 0x01], vec![0x1c, 0x01]);
    assert_eq!(parser.parse_vps(&vps), Ok(1));
    let stored = parser.vps[1].as_ref().unwrap();
    assert_eq!(stored.vps_id, 1);
    assert_eq!(stored.max_layers, 1);
    assert_eq!(stored.max_sub_layers, 1);
    assert!(stored.temporal_id_nesting);
    assert_eq!(stored.raw_data, vps.data);
    let short = unit(HevcNalType::VpsNut, [0x40, 0x01], vec![0x1c]);
    assert_eq!(parser.parse_vps(&short), Err(BitstreamError::EndOfData));
}

#[test]
fn sps_pps_and_slice_header() {
    let mut parser = HevcParser::new();
    assert_eq!(parser.get_dimensions(), None);
    assert_eq!(parser.process_nal(&sps_1080p()), Ok(()));
    let sps = parser.sps[0].as_ref().unwrap();
    assert_eq!((sps.pic_width, sps.pic_height), (1920, 1080));
    assert_eq!(sps.bit_depth_luma, 10);
    assert_eq!(sps.log2_max_poc_lsb, 8);
    assert_eq!(sps.log2_min_luma_coding_block_size, 3);
    assert_eq!(sps.log2_diff_max_min_luma_coding_block_size, 3);
    assert!(sps.sample_adaptive_offset_enabled);
    assert_eq!(parser.get_dimensions(), Some((1920, 1080, true)));

    let mut w = BitWriter::new();
    w.bit(1); // first slice
    w.ue(0); // pps 0
    w.ue(1); // P slice
    w.bits(5, 8); // poc lsb
    w.bit(1);
    let slice = unit(HevcNalType::TrailR, [0x02, 0x01], w.finish());
    assert_eq!(parser.parse_slice_header(&slice).unwrap_err(), BitstreamError::ParameterSetNotFound);

    assert_eq!(parser.parse_pps(&pps_0()), Ok(0));
    assert_eq!(parser.pps[0].as_ref().unwrap().num_ref_idx_l0_default_active, 3);
    assert!(parser.get_sps_for_pps(0).is_some());
    assert!(parser.get_sps_for_pps(1).is_none());
    assert!(parser.get_vps_for_sps(0).is_none());

    let header = parser.parse_slice_header(&slice).unwrap();
    assert!(header.first_slice_in_pic);
    assert_eq!(header.pps_id, 0);
    assert_eq!(header.slice_type, 1);
    assert_eq!(header.pic_order_cnt_lsb, 5);
    assert!(header.pic_output);
    assert!(header.short_term_ref_pic_set_sps_flag);
    assert_eq!(header.num_ref_idx_l0_active, 3);

    let mut w = BitWriter::new();
    w.bit(1);
    w.bit(0); // no_output_of_prior_pics
    w.ue(0);
    w.ue(2); // I slice
    let idr = unit(HevcNalType::IdrWRadl, [0x26, 0x01], w.finish());
    let header = parser.parse_slice_header(&idr).unwrap();
    assert_eq!(header.slice_type, 2);
    assert_eq!(header.pic_order_cnt_lsb, 0);
}

#[test]
fn sps_with_oversized_id_is_rejected() {
    let mut w = BitWriter::new();
    w.bits(0, 4);
    w.bits(0, 3);
    w.bit(1);
    w.bits(0, 96);
    w.ue(16); // sps id out of range
    let bad = unit(HevcNalType::SpsNut, [0x42, 0x01], w.finish());
    let mut parser = HevcParser::new();
    assert_eq!(parser.parse_sps(&bad), Err(BitstreamError::ValueOutOfRange));
    assert!(parser.sps.iter().all(|s| s.is_none()));
}

#[test]
fn slice_address_width_is_ceil_log2_of_ctb_count() {
    // 1920x1080 in 64x64 blocks: 30 x 17 = 510 blocks.
    assert_eq!(slice_address_bits(1920, 1080, 3, 3), 9);
    // 512 blocks need exactly 9 bits; a single block needs none.
    assert_eq!(slice_address_bits(512, 64, 3, 3), 3);
    assert_eq!(slice_address_bits(64, 64, 3, 3), 0);
    assert_eq!(slice_address_bits(2048, 1024, 3, 3), 9);
}

#[test]
fn sps_with_reference_sets_pcm_and_long_term_pictures() {
    let mut w = BitWriter::new();
    w.bits(2, 4); // vps 2
    w.bits(1, 3); // two sub-layers
    w.bit(1);
    w.bits(0, 96);
    w.bit(1); // sub-layer 0 profile present
    w.bit(0);
    w.bits(0, 2 * 7); // reserved pairs up to eight
    w.bits(0, 88);
    w.ue(3); // sps id
    w.ue(1);
    w.ue(1280);
    w.ue(720);
    w.bit(1); // conformance window
    for _ in 0..4 {
        w.ue(0);
    }
    w.ue(0);
    w.ue(0);
    w.ue(0); // 4-bit POC lsb
    w.bit(1); // ordering for both sub-layers
    for _ in 0..6 {
        w.ue(1);
    }
    w.ue(1);
    w.ue(2);
    w.ue(0);
    w.ue(2);
    w.ue(1);
    w.ue(1);
    w.bit(1); // scaling lists on
    w.bit(0); // no explicit data
    w.bit(1);
    w.bit(0);
    w.bit(1); // pcm
    w.bits(7, 4);
    w.bits(7, 4);
    w.ue(0);
    w.ue(1);
    w.bit(1);
    w.ue(2); // two short-term sets
    w.ue(1); // set 0: one negative picture
    w.ue(0);
    w.ue(0);
    w.bit(1);
    w.bit(0); // set 1: explicit
    w.ue(0);
    w.ue(1); // one positive picture
    w.ue(2);
    w.bit(0);
    w.bit(1); // long-term pictures
    w.ue(2);
    w.bits(5, 4);
    w.bit(1);
    w.bits(9, 4);
    w.bit(0);
    w.bit(0);
    w.bit(1);
    let sps = unit(HevcNalType::SpsNut, [0x42, 0x01], w.finish());
    let mut parser = HevcParser::new();
    assert_eq!(parser.parse_sps(&sps), Ok(3));
    let s = parser.sps[3].as_ref().unwrap();
    assert_eq!(s.vps_id, 2);
    assert_eq!(s.max_sub_layers, 2);
    assert_eq!((s.pic_width, s.pic_height), (1280, 720));
    assert!(s.scaling_list_enabled && s.pcm_enabled);
    assert_eq!(s.pcm_sample_bit_depth_luma, 8);
    assert_eq!(s.num_short_term_ref_pic_sets, 2);
    assert!(s.long_term_ref_pics_present);
    assert_eq!(s.num_long_term_ref_pics_sps, 2);
    assert!(!s.temporal_mvp_enabled);
    assert!(s.strong_intra_smoothing_enabled);
    assert_eq!(parser.get_dimensions(), Some((1280, 720, false)));
}

fn sps_head(w: &mut BitWriter, sub_layers: u64) {
    w.bits(0, 4);
    w.bits(sub_layers - 1, 3);
    w.bit(1);
    w.bits(0, 96);
    for _ in 0..sub_layers - 1 {
        w.bit(0);
        w.bit(0);
    }
    if sub_layers > 1 {
        for _ in sub_layers - 1..8 {
            w.bits(0, 2);
        }
    }
    w.ue(5); // sps id
    w.ue(1);
    w.ue(640);
    w.ue(480);
    w.bit(0);
    w.ue(0);
    w.ue(0);
    w.ue(4); // 8-bit POC lsb
    w.bit(0); // ordering for the highest sub-layer only
    w.ue(1);
    w.ue(0);
    w.ue(0);
    w.ue(0);
    w.ue(3);
    w.ue(0);
    w.ue(3);
    w.ue(0);
    w.ue(0);
    w.bit(0);
    w.bit(0);
    w.bit(1);
    w.bit(0);
}

fn sps_tail(w: &mut BitWriter) {
    w.bit(0); // no long-term pictures
    w.bit(1);
    w.bit(1);
}

#[test]
fn sps_with_a_predicted_reference_set() {
    let mut w = BitWriter::new();
    sps_head(&mut w, 1);
    w.ue(3); // three sets
    w.ue(1); // set 0: one negative picture
    w.ue(0);
    w.ue(0);
    w.bit(1);
    w.bit(1); // set 1: predicted from set 0
    w.bit(0);
    w.ue(0);
    w.bit(1); // entry 0 used
    w.bit(0); // entry 1 not used ...
    w.bit(1); // ... but kept
    w.bit(1); // set 2: predicted from set 1 (two pictures, three entries)
    w.bit(1);
    w.ue(1);
    w.bit(0);
    w.bit(0);
    w.bit(1);
    w.bit(0);
    w.bit(1);
    sps_tail(&mut w);
    let sps = unit(HevcNalType::SpsNut, [0x42, 0x01], w.finish());
    let mut parser = HevcParser::new();
    assert_eq!(parser.parse_sps(&sps), Ok(5));
    let s = parser.sps[5].as_ref().unwrap();
    assert_eq!(s.num_short_term_ref_pic_sets, 3);
    assert!(!s.long_term_ref_pics_present);
    assert!(s.temporal_mvp_enabled && s.strong_intra_smoothing_enabled);
}

#[test]
fn sps_with_eight_sub_layers_skips_sixteen_padding_bits() {
    let mut w = BitWriter::new();
    sps_head(&mut w, 8);
    w.ue(0);
    sps_tail(&mut w);
    let sps = unit(HevcNalType::SpsNut, [0x42, 0x01], w.finish());
    let mut parser = HevcParser::new();
    assert_eq!(parser.parse_sps(&sps), Ok(5));
    let s = parser.sps[5].as_ref().unwrap();
    assert_eq!(s.max_sub_layers, 8);
    assert_eq!((s.pic_width, s.pic_height), (640, 480));
    assert!(s.strong_intra_smoothing_enabled);
}
