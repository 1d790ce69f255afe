use opennow_streamer::bitreader::BitstreamError;
use opennow_streamer::h264::{
    session_profile, H264Profile,
    find_slice_offsets, h264_nal_units, parse_h264_poc_lsb, parse_h264_pps, parse_h264_sps,
};
use opennow_streamer::session::{DecodeSession, DecodeStep};

struct Bits {
    bytes: Vec<u8>,
    used: u32,
}

impl Bits {
    fn new(header: u8) -> Self {
        Bits { bytes: vec![header], used: 8 }
    }

    fn bit(&mut self, b: u32) {
        if self.used % 8 == 0 {
            self.bytes.push(0);
        }
        if b != 0 {
            let last = self.bytes.len() - 1;
            self.bytes[last] |= 0x80 >> (self.used % 8);
        }
        self.used += 1;
    }

    fn bits(&mut self, v: u64, n: u32) {
        for i in (0..n).rev() {
            self.bit(((v >> i) & 1) as u32);
        }
    }

    fn ue(&mut self, k: u64) {
        let m = k + 1;
        let len = 64 - m.leading_zeros();
        self.bits(0, len - 1);
        self.bits(m, len);
    }

    fn finish(mut self) -> Vec<u8> {
        self.bit(1);
        while self.used % 8 != 0 {
            self.bit(0);
        }
        self.bytes
    }
}

fn sps() -> Vec<u8> {
    let mut b = Bits::new(0x67);
    b.bits(66, 8);
    b.bits(0xc0, 8);
    b.bits(31, 8);
    b.ue(0);
    b.ue(0); // frame_num in 4 bits
    b.ue(0); // POC type 0
    b.ue(0); // POC lsb in 4 bits
    b.ue(1);
    b.bit(0);
    b.ue(119);
    b.ue(67);
    b.bit(1);
    b.bit(1);
    b.bit(1);
    b.ue(0);
    b.ue(0);
    b.ue(0);
    b.ue(4);
    b.bit(0);
    b.finish()
}

fn pps() -> Vec<u8> {
    let mut b = Bits::new(0x68);
    b.ue(0);
    b.ue(0);
    b.bit(0);
    b.bit(0);
    b.ue(0);
    b.ue(0);
    b.ue(0);
    b.bit(0);
    b.bits(0, 2);
    b.ue(0);
    b.ue(0);
    b.ue(0);
    b.bit(1);
    b.bit(0);
    b.bit(0);
    b.finish()
}

fn idr_slice() -> Vec<u8> {
    let mut b = Bits::new(0x65);
    b.ue(0);
    b.ue(7);
    b.ue(0);
    b.bits(0, 4);
    b.ue(0);
    b.bits(0, 4);
    b.finish()
}

fn p_slice(frame_num: u64, lsb: u64) -> Vec<u8> {
    let mut b = Bits::new(0x41);
    b.ue(0);
    b.ue(5);
    b.ue(0);
    b.bits(frame_num, 4);
    b.bits(lsb, 4);
    b.finish()
}

fn access_unit(units: &[Vec<u8>]) -> Vec<u8> {
    let mut au = Vec::new();
    for u in units {
        au.extend([0, 0, 0, 1]);
        au.extend(u);
    }
    au
}

#[test]
fn h264_parameter_sets_parse() {
    let s = parse_h264_sps(&sps()).unwrap();
    assert_eq!(s.profile_idc, 66);
    assert_eq!(s.level_idc, 31);
    assert_eq!(s.seq_parameter_set_id, 0);
    assert_eq!(s.chroma_format_idc, 1);
    assert_eq!(s.pic_width_in_mbs_minus1, 119);
    assert_eq!(s.pic_height_in_map_units_minus1, 67);
    assert!(s.frame_mbs_only_flag && s.frame_cropping_flag);
    assert_eq!(s.frame_crop_bottom_offset, 4);
    assert_eq!(s.raw_data, sps());
    let p = parse_h264_pps(&pps()).unwrap();
    assert_eq!(p.pic_parameter_set_id, 0);
    assert!(p.deblocking_filter_control_present_flag);
    assert_eq!(parse_h264_sps(&[0x67, 66, 0]).unwrap_err(), BitstreamError::EndOfData);
    let mut groups = Bits::new(0x68);
    groups.ue(0);
    groups.ue(0);
    groups.bit(0);
    groups.bit(0);
    groups.ue(1);
    assert_eq!(parse_h264_pps(&groups.finish()).unwrap_err(), BitstreamError::Unsupported);
}

#[test]
fn h264_units_and_slice_offsets() {
    let au = access_unit(&[sps(), pps(), idr_slice()]);
    let units = h264_nal_units(&au);
    let types: Vec<u8> = units.iter().map(|u| u.0).collect();
    assert_eq!(types, vec![7, 8, 5]);
    assert_eq!(units[2].1, 3);
    assert_eq!(units[0].2, 4);
    assert_eq!(&au[units[0].2..units[0].3], &sps()[..]);
    let idr_at = 4 + sps().len() + 4 + pps().len();
    assert_eq!(find_slice_offsets(&au), vec![idr_at as u32]);
    assert_eq!(find_slice_offsets(&access_unit(&[sps()])), vec![0]);
}

#[test]
fn h264_poc_lsb_is_read_from_the_slice_header() {
    let s = parse_h264_sps(&sps()).unwrap();
    assert_eq!(parse_h264_poc_lsb(&p_slice(1, 6), &s, false), Ok(6));
    assert_eq!(parse_h264_poc_lsb(&idr_slice(), &s, true), Ok(0));
    assert_eq!(parse_h264_poc_lsb(&[0x41], &s, false), Err(BitstreamError::EndOfData));
}

#[test]
fn session_waits_then_decodes_and_recycles() {
    let mut session = DecodeSession::new(17);
    assert!(matches!(session.prepare(&[], 1 << 20, 256), DecodeStep::NoFrame));
    assert!(matches!(
        session.prepare(&access_unit(&[idr_slice()]), 1 << 20, 256),
        DecodeStep::AwaitingParameters
    ));
    let au = access_unit(&[sps(), pps(), idr_slice()]);
    let job = match session.prepare(&au, 1 << 20, 256) {
        DecodeStep::Submit(job) => job,
        other => panic!("expected a submission, got {:?}", other),
    };
    assert!(job.push_parameters);
    assert!(job.plan.is_idr);
    assert!(job.is_reference);
    assert_eq!(job.plan.dst_slot, 0);
    assert_eq!(job.plan.pic_order_cnt, 0);
    assert_eq!(job.upload_len, 256);
    session.complete(&job);
    assert_eq!(session.get_stats().frames_decoded, 1);
    assert_eq!(session.get_stats().dpb_size, 17);

    let job = match session.prepare(&access_unit(&[p_slice(1, 2)]), 1 << 20, 256) {
        DecodeStep::Submit(job) => job,
        other => panic!("expected a submission, got {:?}", other),
    };
    assert!(!job.push_parameters);
    assert_eq!(job.plan.dst_slot, 1);
    assert_eq!(job.plan.references, vec![0]);
    assert_eq!(job.plan.pic_order_cnt, 2);
    session.complete(&job);

    assert!(matches!(session.prepare(&au, 16, 16), DecodeStep::TooLarge));
    assert!(matches!(
        session.prepare(&access_unit(&[vec![0x41]]), 1 << 20, 256),
        DecodeStep::Malformed(BitstreamError::EndOfData)
    ));
    assert!(matches!(session.prepare(&access_unit(&[pps()]), 1 << 20, 256), DecodeStep::NoFrame));
}

#[test]
fn h264_high_profile_sps_with_scaling_lists() {
    let mut b = Bits::new(0x67);
    b.bits(100, 8);
    b.bits(0, 8);
    b.bits(40, 8);
    b.ue(1); // sps id
    b.ue(1); // 4:2:0
    b.ue(2); // 10-bit luma
    b.ue(2);
    b.bit(0);
    b.bit(1); // scaling matrices present
    b.bit(1); // first list explicit: one delta that ends it
    b.ue(16); // delta -8: next scale 0
    for _ in 1..8 {
        b.bit(0);
    }
    b.ue(2); // frame_num in 6 bits
    b.ue(1); // POC type 1
    b.bit(0);
    b.ue(0);
    b.ue(0);
    b.ue(2);
    b.ue(1);
    b.ue(2);
    b.ue(4);
    b.bit(0);
    b.ue(79);
    b.ue(44);
    b.bit(1);
    b.bit(1);
    b.bit(0);
    let s = parse_h264_sps(&b.finish()).unwrap();
    assert_eq!(s.profile_idc, 100);
    assert_eq!(s.seq_parameter_set_id, 1);
    assert_eq!(s.bit_depth_luma_minus8, 2);
    assert_eq!(s.log2_max_frame_num_minus4, 2);
    assert_eq!(s.pic_order_cnt_type, 1);
    assert_eq!(s.max_num_ref_frames, 4);
    assert_eq!(s.pic_width_in_mbs_minus1, 79);
    assert_eq!(s.pic_height_in_map_units_minus1, 44);
    assert!(!s.frame_cropping_flag);
}

#[test]
fn session_profile_follows_profile_idc() {
    assert_eq!(session_profile(66), H264Profile::Baseline);
    assert_eq!(session_profile(77), H264Profile::Main);
    assert_eq!(session_profile(100), H264Profile::High);
    assert_eq!(session_profile(0), H264Profile::High);
}
