use opennow_streamer::bitreader::BitReader;
use opennow_streamer::dpb::{DpbManager, MAX_DPB_SLOTS};
use opennow_streamer::frame::{upload_size, VulkanVideoCodec, VulkanVideoConfig};

#[test]
fn test_default_config() {
    let config = VulkanVideoConfig::default();
    assert_eq!(config.width, 1920);
    assert_eq!(config.height, 1080);
    assert_eq!(config.codec, VulkanVideoCodec::H264);
}

#[test]
fn vulkan_video_test_bit_reader() {
    let data = [0b10110100, 0b01010101];
    let mut reader = BitReader::new(&data);
    assert_eq!(reader.read_bits(1).unwrap(), 1);
    assert_eq!(reader.read_bits(1).unwrap(), 0);
    assert_eq!(reader.read_bits(2).unwrap(), 0b11);
}

#[test]
fn vulkan_video_test_exp_golomb() {
    let data = [0b10100110];
    let mut reader = BitReader::new(&data);
    assert_eq!(reader.read_ue().unwrap(), 0);
    assert_eq!(reader.read_ue().unwrap(), 1);
    assert_eq!(reader.read_ue().unwrap(), 2);
}

fn decode(dpb: &mut DpbManager, is_idr: bool, lsb: u32, is_reference: bool) -> (i32, usize, Vec<usize>) {
    let plan = dpb.plan_picture(is_idr, lsb, 4).unwrap();
    dpb.commit_picture(&plan, is_reference);
    (plan.pic_order_cnt, plan.dst_slot, plan.references.clone())
}

#[test]
fn poc_follows_lsb_wrap() {
    let mut dpb = DpbManager::new(MAX_DPB_SLOTS);
    assert_eq!(decode(&mut dpb, true, 0, true).0, 0);
    let mut pocs = Vec::new();
    for lsb in [4, 8, 12, 15, 0, 3, 7] {
        pocs.push(decode(&mut dpb, false, lsb, true).0);
    }
    assert_eq!(pocs, vec![4, 8, 12, 15, 16, 19, 23]);
    assert!(pocs.windows(2).all(|w| w[0] < w[1]));
}

#[test]
fn poc_steps_back_across_the_wrap() {
    let mut dpb = DpbManager::new(MAX_DPB_SLOTS);
    decode(&mut dpb, true, 0, true);
    assert_eq!(decode(&mut dpb, false, 2, true).0, 2);
    // 2 -> 14 is a step back of 4 across the wrap.
    assert_eq!(decode(&mut dpb, false, 14, true).0, -2);
    // An IDR resets the count.
    assert_eq!(decode(&mut dpb, true, 9, true).0, 0);
}

#[test]
fn dpb_slots_recycle_round_robin() {
    let mut dpb = DpbManager::new(MAX_DPB_SLOTS);
    assert!((0..MAX_DPB_SLOTS).all(|i| !dpb.slot(i).in_use));
    let (_, dst, refs) = decode(&mut dpb, true, 0, true);
    assert_eq!(dst, 0);
    assert!(refs.is_empty());
    for n in 1..20usize {
        let (_, dst, refs) = decode(&mut dpb, false, (n % 8) as u32, true);
        assert_eq!(dst, n % 17);
        let live: Vec<usize> = (0..17).filter(|&i| i != dst && n.min(17) > i).collect();
        assert_eq!(refs, live);
    }
    assert_eq!(dpb.frame_count(), 20);
    assert!((0..MAX_DPB_SLOTS).all(|i| dpb.slot(i).in_use));
    let frames: Vec<u64> = (0..MAX_DPB_SLOTS).map(|i| dpb.slot(i).frame_num).collect();
    let mut sorted = frames.clone();
    sorted.sort();
    sorted.dedup();
    assert_eq!(sorted.len(), MAX_DPB_SLOTS);
    assert_eq!(sorted, (3..20).collect::<Vec<u64>>());
    // After an IDR every other slot is free again.
    let (_, dst, refs) = decode(&mut dpb, true, 0, true);
    assert_eq!(dst, 0);
    assert!(refs.is_empty());
    assert!((1..MAX_DPB_SLOTS).all(|i| !dpb.slot(i).in_use));
}

#[test]
fn non_reference_pictures_free_their_slot() {
    let mut dpb = DpbManager::new(MAX_DPB_SLOTS);
    decode(&mut dpb, true, 0, true);
    let (_, dst, refs) = decode(&mut dpb, false, 1, false);
    assert_eq!(dst, 1);
    assert_eq!(refs, vec![0]);
    assert!(!dpb.slot(1).in_use);
    let (_, dst, refs) = decode(&mut dpb, false, 2, true);
    assert_eq!(dst, 2);
    assert_eq!(refs, vec![0]);
}

#[test]
fn upload_is_padded_never_cut() {
    assert_eq!(upload_size(100, 64, 1000), Some(128));
    assert_eq!(upload_size(128, 64, 1000), Some(128));
    assert_eq!(upload_size(0, 64, 1000), Some(0));
    assert_eq!(upload_size(1000, 64, 1000), None);
    assert_eq!(upload_size(960, 64, 960), Some(960));
}
