use crate::bitreader::{
    bits_at, bits_val, codes_at, flag_at, nbits, se_range_at, ue_decode, ue_max_at, BitReader,
    BitstreamError,
};
use crate::nal::{is_start_code, rbsp, remove_emulation_prevention, unit_end};
use vstd::prelude::*;

verus! {

/// H.264 NAL unit types this decoder acts on.
pub const H264_NAL_SLICE: u8 = 1;

pub const H264_NAL_IDR_SLICE: u8 = 5;

pub const H264_NAL_SPS: u8 = 7;

pub const H264_NAL_PPS: u8 = 8;

/// H.264 sequence parameter set: the fields a decode session needs.
#[derive(Debug, Clone)]
pub struct H264Sps {
    pub profile_idc: u8,
    pub level_idc: u8,
    pub seq_parameter_set_id: u8,
    pub chroma_format_idc: u8,
    pub separate_colour_plane_flag: bool,
    pub bit_depth_luma_minus8: u8,
    pub bit_depth_chroma_minus8: u8,
    pub log2_max_frame_num_minus4: u8,
    pub pic_order_cnt_type: u8,
    pub log2_max_pic_order_cnt_lsb_minus4: u8,
    pub max_num_ref_frames: u8,
    pub pic_width_in_mbs_minus1: u16,
    pub pic_height_in_map_units_minus1: u16,
    pub frame_mbs_only_flag: bool,
    pub direct_8x8_inference_flag: bool,
    pub frame_cropping_flag: bool,
    pub frame_crop_left_offset: u16,
    pub frame_crop_right_offset: u16,
    pub frame_crop_top_offset: u16,
    pub frame_crop_bottom_offset: u16,
    /// The whole NAL unit, for upload to the hardware.
    pub raw_data: Vec<u8>,
}

/// H.264 picture parameter set.
#[derive(Debug, Clone)]
pub struct H264Pps {
    pub pic_parameter_set_id: u8,
    pub seq_parameter_set_id: u8,
    pub entropy_coding_mode_flag: bool,
    pub bottom_field_pic_order_in_frame_present_flag: bool,
    pub num_slice_groups_minus1: u8,
    pub num_ref_idx_l0_default_active_minus1: u8,
    pub num_ref_idx_l1_default_active_minus1: u8,
    pub weighted_pred_flag: bool,
    pub weighted_bipred_idc: u8,
    pub pic_init_qp_minus26: i8,
    pub pic_init_qs_minus26: i8,
    pub chroma_qp_index_offset: i8,
    pub deblocking_filter_control_present_flag: bool,
    pub constrained_intra_pred_flag: bool,
    pub redundant_pic_cnt_present_flag: bool,
    /// The whole NAL unit, for upload to the hardware.
    pub raw_data: Vec<u8>,
}

/// The profile a hardware decode session is set up for.
#[derive(Debug, Clone, Copy, PartialEq, Eq, Structural)]
pub enum H264Profile {
    Baseline,
    Main,
    High,
}

/// The session profile for an SPS `profile_idc`: Baseline for 66, Main for
/// 77, High for any other.
pub fn session_profile(profile_idc: u8) -> (r: H264Profile)
    ensures
        profile_idc == 66 ==> r == H264Profile::Baseline,
        profile_idc == 77 ==> r == H264Profile::Main,
        profile_idc != 66 && profile_idc != 77 ==> r == H264Profile::High,
{
    if profile_idc == 66 {
        H264Profile::Baseline
    } else if profile_idc == 77 {
        H264Profile::Main
    } else {
        H264Profile::High
    }
}

/// The payload after the one-byte header, emulation prevention removed.
pub open spec fn h264_rbsp(data: Seq<u8>) -> Seq<u8> {
    rbsp(data.subrange(1, data.len() as int))
}

/// An H.264 start code that the access-unit scan accepts at `i`: it needs a
/// byte after it.
pub open spec fn scan_start(d: Seq<u8>, i: int) -> Option<int> {
    if 0 <= i && i + 3 < d.len() && d[i] == 0 && d[i + 1] == 0 {
        if d[i + 2] == 1 {
            Some(i + 3)
        } else if i + 4 < d.len() && d[i + 2] == 0 && d[i + 3] == 1 {
            Some(i + 4)
        } else {
            None
        }
    } else {
        None
    }
}

#[via_fn]
proof fn h264_scan_decreases(d: Seq<u8>, i: int) {
    crate::nal::lemma_unit_end_bounds(d, i + 3);
    crate::nal::lemma_unit_end_bounds(d, i + 4);
}

/// Start and end of each unit of an access unit, from byte `i` on.
pub open spec fn h264_scan(d: Seq<u8>, i: int) -> Seq<(int, int)>
    decreases d.len() - i,
    via h264_scan_decreases
{
    if i < 0 || i >= d.len() {
        Seq::empty()
    } else {
        match scan_start(d, i) {
            Some(s) => seq![(s, unit_end(d, s))] + h264_scan(d, unit_end(d, s)),
            None => h264_scan(d, i + 1),
        }
    }
}

pub open spec fn h264_type(b: u8) -> u8 {
    b & 0x1fu8
}

pub open spec fn h264_ref_idc(b: u8) -> u8 {
    (b >> 5u8) & 3u8
}

/// A unit entry describes the unit at `e` of `d`.
pub open spec fn entry_matches(u: (u8, u8, usize, usize), d: Seq<u8>, e: (int, int)) -> bool {
    &&& u.2 == e.0
    &&& u.3 == e.1
    &&& 0 <= e.0 < d.len()
    &&& u.0 == h264_type(d[e.0])
    &&& u.1 == h264_ref_idc(d[e.0])
}

proof fn lemma_unit_end_tail_h264(d: Seq<u8>, j: int)
    requires
        0 <= j,
        j + 3 > d.len(),
    ensures
        unit_end(d, j) == d.len(),
    decreases d.len() - j,
{
    if j < d.len() {
        lemma_unit_end_tail_h264(d, j + 1);
    }
}

/// Every unit the scan reports from `i` on lies within the buffer, its start
/// not after its end.
pub proof fn lemma_h264_scan_bounds(d: Seq<u8>, i: int)
    requires
        0 <= i,
    ensures
        forall|k: int|
            0 <= k < h264_scan(d, i).len() ==> i <= #[trigger] h264_scan(d, i)[k].0 <= h264_scan(
                d,
                i,
            )[k].1 <= d.len(),
    decreases d.len() - i,
{
    if i < d.len() {
        match scan_start(d, i) {
            Some(s) => {
                crate::nal::lemma_unit_end_bounds(d, s);
                let e = unit_end(d, s);
                lemma_h264_scan_bounds(d, e);
                let rest = h264_scan(d, e);
                assert(h264_scan(d, i) == seq![(s, e)] + rest);
                assert forall|k: int| 0 <= k < h264_scan(d, i).len() implies i <= #[trigger] h264_scan(
                    d,
                    i,
                )[k].0 <= h264_scan(d, i)[k].1 <= d.len() by {
                    if k > 0 {
                        assert(h264_scan(d, i)[k] == rest[k - 1]);
                    }
                }
            },
            None => {
                lemma_h264_scan_bounds(d, i + 1);
                assert(h264_scan(d, i) == h264_scan(d, i + 1));
            },
        }
    }
}

/// The units of an access unit: type, reference indicator, and where each
/// starts and ends.
pub fn h264_nal_units(data: &[u8]) -> (r: Vec<(u8, u8, usize, usize)>)
    ensures
        r@.len() == h264_scan(data@, 0).len(),
        forall|k: int|
            0 <= k < r@.len() ==> entry_matches(#[trigger] r@[k], data@, h264_scan(data@, 0)[k]),
{
    let ghost d = data@;
    let mut units: Vec<(u8, u8, usize, usize)> = Vec::new();
    let ghost mut found: Seq<(int, int)> = Seq::empty();
    let mut i: usize = 0;
    let len = data.len();
    while i < len
        invariant
            d == data@,
            len == data@.len(),
            i <= len,
            h264_scan(d, 0) == found + h264_scan(d, i as int),
            units@.len() == found.len(),
            forall|k: int|
                0 <= k < units@.len() ==> entry_matches(#[trigger] units@[k], d, found[k]),
        decreases len - i,
    {
        let start: Option<usize> = if len - i > 3 && data[i] == 0 && data[i + 1] == 0 {
            if data[i + 2] == 1 {
                Some(i + 3)
            } else if len - i > 4 && data[i + 2] == 0 && data[i + 3] == 1 {
                Some(i + 4)
            } else {
                None
            }
        } else {
            None
        };
        match start {
            None => {
                i = i + 1;
            },
            Some(nal_start) => {
                let mut nal_end: usize = len;
                let mut j: usize = nal_start;
                while len - j >= 3
                    invariant_except_break
                        nal_end == len,
                    invariant
                        d == data@,
                        len == data@.len(),
                        nal_start <= j <= len,
                        unit_end(d, nal_start as int) == unit_end(d, j as int),
                    ensures
                        (nal_end == j && is_start_code(d, j as int)) || (nal_end == len && j + 3
                            > len),
                    decreases len - j,
                {
                    if data[j] == 0 && data[j + 1] == 0 && (data[j + 2] == 1 || (len - j > 3
                        && data[j + 2] == 0 && data[j + 3] == 1)) {
                        nal_end = j;
                        break;
                    }
                    j = j + 1;
                }
                proof {
                    if !(nal_end == j && is_start_code(d, j as int)) {
                        lemma_unit_end_tail_h264(d, j as int);
                    }
                    crate::nal::lemma_unit_end_bounds(d, nal_start as int);
                }
                let header = data[nal_start];
                let ghost old_found = found;
                proof {
                    found = found.push((nal_start as int, nal_end as int));
                    assert(h264_scan(d, i as int) == seq![(nal_start as int, nal_end as int)]
                        + h264_scan(d, nal_end as int));
                    assert(h264_scan(d, 0) == found + h264_scan(d, nal_end as int));
                }
                units.push((header & 0x1f, (header >> 5) & 3, nal_start, nal_end));
                proof {
                    assert forall|k: int| 0 <= k < units@.len() implies entry_matches(
                        #[trigger] units@[k],
                        d,
                        found[k],
                    ) by {
                        if k < old_found.len() {
                            assert(found[k] == old_found[k]);
                        }
                    }
                }
                i = nal_end;
            },
        }
    }
    proof {
        assert(h264_scan(d, i as int) == Seq::<(int, int)>::empty());
        assert(found + Seq::<(int, int)>::empty() =~= found);
    }
    units
}

/// Offsets of the start codes of slice units (types 1 and 5), scanning from
/// byte `i`; after a start code the scan goes on from the unit's second byte.
pub open spec fn slice_offsets_from(d: Seq<u8>, i: int) -> Seq<int>
    decreases d.len() - i,
{
    if i < 0 || i + 4 >= d.len() {
        Seq::empty()
    } else if d[i] == 0 && d[i + 1] == 0 && (d[i + 2] == 1 || (d[i + 2] == 0 && d[i + 3] == 1)) {
        let s = if d[i + 2] == 1 {
            i + 3
        } else {
            i + 4
        };
        let t = h264_type(d[s]);
        if t == H264_NAL_SLICE || t == H264_NAL_IDR_SLICE {
            seq![i] + slice_offsets_from(d, s + 1)
        } else {
            slice_offsets_from(d, s + 1)
        }
    } else {
        slice_offsets_from(d, i + 1)
    }
}

/// Offsets of the slice units' start codes in an access unit, for the
/// hardware's slice table; `[0]` when there is none.
pub fn find_slice_offsets(data: &[u8]) -> (r: Vec<u32>)
    requires
        data@.len() <= u32::MAX,
    ensures
        slice_offsets_from(data@, 0).len() == 0 ==> r@ == seq![0u32],
        slice_offsets_from(data@, 0).len() > 0 ==> r@.len() == slice_offsets_from(data@, 0).len()
            && forall|k: int| 0 <= k < r@.len() ==> r@[k] == slice_offsets_from(data@, 0)[k],
{
    let ghost d = data@;
    let len = data.len();
    let mut offsets: Vec<u32> = Vec::new();
    let ghost mut found: Seq<int> = Seq::empty();
    let mut i: usize = 0;
    while len >= 4 && i < len - 4
        invariant
            d == data@,
            len == data@.len(),
            len <= u32::MAX,
            slice_offsets_from(d, 0) == found + slice_offsets_from(d, i as int),
            offsets@.len() == found.len(),
            forall|k: int| 0 <= k < offsets@.len() ==> offsets@[k] == found[k],
        decreases len - i,
    {
        if data[i] == 0 && data[i + 1] == 0 && (data[i + 2] == 1 || (data[i + 2] == 0 && data[i
            + 3] == 1)) {
            let nal_start = if data[i + 2] == 1 {
                i + 3
            } else {
                i + 4
            };
            let t = data[nal_start] & 0x1f;
            if t == H264_NAL_SLICE || t == H264_NAL_IDR_SLICE {
                let ghost old_found = found;
                proof {
                    found = found.push(i as int);
                    assert(slice_offsets_from(d, i as int) == seq![i as int] + slice_offsets_from(
                        d,
                        nal_start + 1,
                    ));
                    assert(slice_offsets_from(d, 0) == found + slice_offsets_from(
                        d,
                        nal_start + 1,
                    ));
                }
                offsets.push(i as u32);
                proof {
                    assert forall|k: int| 0 <= k < offsets@.len() implies offsets@[k] == found[k] by {
                        if k < old_found.len() {
                            assert(found[k] == old_found[k]);
                        }
                    }
                }
            }
            i = nal_start + 1;
        } else {
            i = i + 1;
        }
    }
    proof {
        assert(slice_offsets_from(d, i as int) == Seq::<int>::empty());
        assert(found + Seq::<int>::empty() =~= found);
    }
    if offsets.len() == 0 {
        offsets.push(0);
        proof {
            assert(offsets@ =~= seq![0u32]);
        }
    }
    offsets
}

/// Position after the rest of a `scaling_list()` from coefficient `j` at
/// `p`, with the running `last` and `next` scales: a delta is read while the
/// next scale is not zero.
pub open spec fn scaling_list_from(d: Seq<u8>, p: int, j: nat, size: nat, last: int, next: int) -> Result<
    int,
    BitstreamError,
>
    decreases size - j,
{
    if j >= size {
        Ok(p)
    } else if next != 0 {
        match se_range_at(d, p, -128, 127) {
            Err(e) => Err(e),
            Ok((delta, q)) => {
                let n2 = (last + delta + 256) % 256;
                scaling_list_from(d, q, j + 1, size, if n2 != 0 {
                    n2
                } else {
                    last
                }, n2)
            },
        }
    } else {
        scaling_list_from(d, p, j + 1, size, last, next)
    }
}

/// Skips one `scaling_list()` of `size` coefficients: deltas are read until
/// the list ends or a delta makes the next scale zero.
fn skip_scaling_list(reader: &mut BitReader, size: u32) -> (r: Result<(), BitstreamError>)
    requires
        old(reader).wf(),
    ensures
        final(reader).wf(),
        final(reader).bytes() == old(reader).bytes(),
        match scaling_list_from(old(reader).bytes(), old(reader).pos(), 0, size as nat, 8, 8) {
            Ok(q) => r is Ok && final(reader).pos() == q,
            Err(e) => r == Err::<(), BitstreamError>(e),
        },
{
    let mut last_scale: i32 = 8;
    let mut next_scale: i32 = 8;
    let mut j: u32 = 0;
    while j < size
        invariant
            reader.wf(),
            reader.bytes() == old(reader).bytes(),
            j <= size,
            0 <= last_scale < 256,
            0 <= next_scale < 256,
            scaling_list_from(old(reader).bytes(), old(reader).pos(), 0, size as nat, 8, 8)
                == scaling_list_from(
                reader.bytes(),
                reader.pos(),
                j as nat,
                size as nat,
                last_scale as int,
                next_scale as int,
            ),
        decreases size - j,
    {
        if next_scale != 0 {
            let delta = reader.read_se_range(-128, 127)?;
            next_scale = (last_scale + delta + 256) % 256;
        }
        if next_scale != 0 {
            last_scale = next_scale;
        }
        j = j + 1;
    }
    Ok(())
}

/// Position after the `count` optional scaling lists from the `k`-th at `p`.
pub open spec fn scaling_lists_from(d: Seq<u8>, p: int, k: nat, count: nat) -> Result<int, BitstreamError>
    decreases count - k,
{
    if k >= count {
        Ok(p)
    } else {
        match flag_at(d, p) {
            Err(e) => Err(e),
            Ok((present, q)) => match (if present {
                scaling_list_from(d, q, 0, if k < 6 {
                    16
                } else {
                    64
                }, 8, 8)
            } else {
                Ok(q)
            }) {
                Err(e) => Err(e),
                Ok(q2) => scaling_lists_from(d, q2, k + 1, count),
            },
        }
    }
}

fn skip_scaling_lists(reader: &mut BitReader, count: u32) -> (r: Result<(), BitstreamError>)
    requires
        old(reader).wf(),
    ensures
        final(reader).wf(),
        final(reader).bytes() == old(reader).bytes(),
        match scaling_lists_from(old(reader).bytes(), old(reader).pos(), 0, count as nat) {
            Ok(q) => r is Ok && final(reader).pos() == q,
            Err(e) => r == Err::<(), BitstreamError>(e),
        },
{
    let mut k: u32 = 0;
    while k < count
        invariant
            reader.wf(),
            reader.bytes() == old(reader).bytes(),
            k <= count,
            scaling_lists_from(old(reader).bytes(), old(reader).pos(), 0, count as nat)
                == scaling_lists_from(reader.bytes(), reader.pos(), k as nat, count as nat),
        decreases count - k,
    {
        let present = reader.read_flag()?;
        if present {
            let size: u32 = if k < 6 {
                16
            } else {
                64
            };
            skip_scaling_list(reader, size)?;
        }
        k = k + 1;
    }
    Ok(())
}

/// Profiles whose SPS carries chroma format, bit depths and scaling matrices.
pub open spec fn is_high_profile(p: nat) -> bool {
    p == 100 || p == 110 || p == 122 || p == 244 || p == 44 || p == 83 || p == 86 || p == 118
        || p == 128
}

/// The H.264 SPS fields up to the scaling matrices: profile, SPS id, chroma
/// format and the position after them.
pub open spec fn h264_sps_head(d: Seq<u8>) -> Result<(nat, nat, nat, int), BitstreamError> {
    if 24 > nbits(d) {
        Err(BitstreamError::EndOfData)
    } else {
        let profile = bits_val(d, 0, 8);
        match ue_max_at(d, 24, 31) {
            Err(e) => Err(e),
            Ok((sps_id, p1)) => if !is_high_profile(profile) {
                Ok((profile, sps_id, 1nat, p1))
            } else {
                match ue_max_at(d, p1, 3) {
                    Err(e) => Err(e),
                    Ok((chroma, p2)) => match (if chroma == 3 {
                        match flag_at(d, p2) {
                            Err(e) => Err(e),
                            Ok((_, q)) => Ok(q),
                        }
                    } else {
                        Ok(p2)
                    }) {
                        Err(e) => Err(e),
                        Ok(p3) => match ue_max_at(d, p3, 6) {
                            Err(e) => Err(e),
                            Ok((_, p4)) => match ue_max_at(d, p4, 6) {
                                Err(e) => Err(e),
                                Ok((_, p5)) => match bits_at(d, p5, 1) {
                                    Err(e) => Err(e),
                                    Ok((_, p6)) => match flag_at(d, p6) {
                                        Err(e) => Err(e),
                                        Ok((matrix, p7)) => match (if matrix {
                                            scaling_lists_from(d, p7, 0, if chroma != 3 {
                                                8
                                            } else {
                                                12
                                            })
                                        } else {
                                            Ok(p7)
                                        }) {
                                            Err(e) => Err(e),
                                            Ok(p8) => Ok((profile, sps_id, chroma, p8)),
                                        },
                                    },
                                },
                            },
                        },
                    },
                }
            },
        }
    }
}

/// Position after the POC fields at `p`: the type, then for type 0 the LSB
/// width, for type 1 a flag, two offsets and a counted list of offsets.
pub open spec fn h264_poc_fields(d: Seq<u8>, p: int) -> Result<(nat, nat, int), BitstreamError> {
    match ue_max_at(d, p, 2) {
        Err(e) => Err(e),
        Ok((poc_type, q)) => if poc_type == 0 {
            match ue_max_at(d, q, 12) {
                Err(e) => Err(e),
                Ok((lsb, a)) => Ok((0nat, lsb, a)),
            }
        } else if poc_type == 1 {
            match flag_at(d, q) {
                Err(e) => Err(e),
                Ok((_, a)) => match codes_at(d, a, 2) {
                    Err(e) => Err(e),
                    Ok(b) => match ue_max_at(d, b, 255) {
                        Err(e) => Err(e),
                        Ok((num, c)) => match codes_at(d, c, num) {
                            Err(e) => Err(e),
                            Ok(e2) => Ok((1nat, 0nat, e2)),
                        },
                    },
                },
            }
        } else {
            Ok((poc_type, 0nat, q))
        },
    }
}

/// The H.264 SPS fields from `log2_max_frame_num_minus4` to the cropping
/// window at `p`: that field, the POC type and LSB width (minus 4), the
/// picture size in macroblocks (minus 1), `frame_mbs_only_flag`, and the
/// position after.
pub open spec fn h264_sps_tail(d: Seq<u8>, p: int) -> Result<
    (nat, nat, nat, nat, nat, bool, int),
    BitstreamError,
> {
    match ue_max_at(d, p, 12) {
        Err(e) => Err(e),
        Ok((frame_num, p1)) => match h264_poc_fields(d, p1) {
            Err(e) => Err(e),
            Ok((poc_type, lsb, p2)) => match ue_max_at(d, p2, 255) {
                Err(e) => Err(e),
                Ok((_, p3)) => match bits_at(d, p3, 1) {
                    Err(e) => Err(e),
                    Ok((_, p4)) => match ue_max_at(d, p4, 65535) {
                        Err(e) => Err(e),
                        Ok((width, p5)) => match ue_max_at(d, p5, 65535) {
                            Err(e) => Err(e),
                            Ok((height, p6)) => match flag_at(d, p6) {
                                Err(e) => Err(e),
                                Ok((frame_mbs_only, p7)) => match (if frame_mbs_only {
                                    Ok(p7)
                                } else {
                                    match bits_at(d, p7, 1) {
                                        Err(e) => Err(e),
                                        Ok((_, q)) => Ok(q),
                                    }
                                }) {
                                    Err(e) => Err(e),
                                    Ok(p8) => match bits_at(d, p8, 1) {
                                        Err(e) => Err(e),
                                        Ok((_, p9)) => match flag_at(d, p9) {
                                            Err(e) => Err(e),
                                            Ok((cropping, p10)) => if !cropping {
                                                Ok((frame_num, poc_type, lsb, width, height, frame_mbs_only, p10))
                                            } else {
                                                match ue_max_at(d, p10, 65535) {
                                                    Err(e) => Err(e),
                                                    Ok((_, a)) => match ue_max_at(d, a, 65535) {
                                                        Err(e) => Err(e),
                                                        Ok((_, b)) => match ue_max_at(d, b, 65535) {
                                                            Err(e) => Err(e),
                                                            Ok((_, c)) => match ue_max_at(d, c, 65535) {
                                                                Err(e) => Err(e),
                                                                Ok((_, e2)) => Ok(
                                                                    (frame_num, poc_type, lsb, width, height, frame_mbs_only, e2),
                                                                ),
                                                            },
                                                        },
                                                    },
                                                }
                                            },
                                        },
                                    },
                                },
                            },
                        },
                    },
                },
            },
        },
    }
}

/// The stored H.264 SPS holds the fields that were coded.
pub open spec fn h264_sps_fields_match(s: H264Sps, d: Seq<u8>) -> bool {
    h264_sps_head(d) matches Ok((_, _, _, p)) && h264_sps_tail(d, p) matches Ok(
        (frame_num, poc_type, lsb, width, height, frame_mbs_only, _),
    ) && s.log2_max_frame_num_minus4 == frame_num && s.pic_order_cnt_type == poc_type
        && s.log2_max_pic_order_cnt_lsb_minus4 == lsb && s.pic_width_in_mbs_minus1 == width
        && s.pic_height_in_map_units_minus1 == height && s.frame_mbs_only_flag == frame_mbs_only
}

/// An H.264 SPS payload read in full: its id, or why it cannot be read.
pub open spec fn h264_sps_syntax(d: Seq<u8>) -> Result<nat, BitstreamError> {
    match h264_sps_head(d) {
        Err(e) => Err(e),
        Ok((_, sps_id, _, p)) => match h264_sps_tail(d, p) {
            Err(e) => Err(e),
            Ok(_) => Ok(sps_id),
        },
    }
}

#[verifier::rlimit(100)]
fn read_h264_sps_head(reader: &mut BitReader, raw_data: Vec<u8>) -> (r: Result<H264Sps, BitstreamError>)
    requires
        old(reader).wf(),
        old(reader).pos() == 0,
    ensures
        final(reader).wf(),
        final(reader).bytes() == old(reader).bytes(),
        match h264_sps_head(old(reader).bytes()) {
            Ok((profile, sps_id, chroma, q)) => {
                &&& final(reader).pos() == q
                &&& r matches Ok(s)
                &&& s.profile_idc == profile
                &&& s.level_idc == bits_val(old(reader).bytes(), 16, 8)
                &&& s.seq_parameter_set_id == sps_id
                &&& s.chroma_format_idc == chroma
                &&& s.raw_data == raw_data
            },
            Err(e) => r == Err::<H264Sps, BitstreamError>(e),
        },
{
    let profile_idc = reader.read_bits(8)?;
    let _constraint_flags = reader.read_bits(8)?;
    let level_idc = reader.read_bits(8)?;
    proof {
        vstd::arithmetic::power2::lemma2_to64();
    }
    let seq_parameter_set_id = reader.read_ue_max(31)? as u8;
    let profile = profile_idc as u8;
    let mut chroma_format_idc: u8 = 1;
    let mut separate_colour_plane_flag = false;
    let mut bit_depth_luma_minus8: u8 = 0;
    let mut bit_depth_chroma_minus8: u8 = 0;
    if profile == 100 || profile == 110 || profile == 122 || profile == 244 || profile == 44
        || profile == 83 || profile == 86 || profile == 118 || profile == 128 {
        chroma_format_idc = reader.read_ue_max(3)? as u8;
        if chroma_format_idc == 3 {
            separate_colour_plane_flag = reader.read_flag()?;
        }
        bit_depth_luma_minus8 = reader.read_ue_max(6)? as u8;
        bit_depth_chroma_minus8 = reader.read_ue_max(6)? as u8;
        let _qpprime_y_zero_transform_bypass = reader.read_flag()?;
        let scaling_matrix_present = reader.read_flag()?;
        if scaling_matrix_present {
            let count: u32 = if chroma_format_idc != 3 {
                8
            } else {
                12
            };
            skip_scaling_lists(reader, count)?;
        }
    }
    Ok(
        H264Sps {
            profile_idc: profile,
            level_idc: level_idc as u8,
            seq_parameter_set_id,
            chroma_format_idc,
            separate_colour_plane_flag,
            bit_depth_luma_minus8,
            bit_depth_chroma_minus8,
            log2_max_frame_num_minus4: 0,
            pic_order_cnt_type: 0,
            log2_max_pic_order_cnt_lsb_minus4: 0,
            max_num_ref_frames: 0,
            pic_width_in_mbs_minus1: 0,
            pic_height_in_map_units_minus1: 0,
            frame_mbs_only_flag: true,
            direct_8x8_inference_flag: false,
            frame_cropping_flag: false,
            frame_crop_left_offset: 0,
            frame_crop_right_offset: 0,
            frame_crop_top_offset: 0,
            frame_crop_bottom_offset: 0,
            raw_data,
        },
    )
}

#[verifier::rlimit(100)]
fn read_h264_poc_fields(reader: &mut BitReader, sps: &mut H264Sps) -> (r: Result<(), BitstreamError>)
    requires
        old(reader).wf(),
    ensures
        final(reader).wf(),
        final(reader).bytes() == old(reader).bytes(),
        final(sps).seq_parameter_set_id == old(sps).seq_parameter_set_id,
        final(sps).profile_idc == old(sps).profile_idc,
        final(sps).level_idc == old(sps).level_idc,
        final(sps).chroma_format_idc == old(sps).chroma_format_idc,
        final(sps).log2_max_frame_num_minus4 == old(sps).log2_max_frame_num_minus4,
        final(sps).raw_data == old(sps).raw_data,
        match h264_poc_fields(old(reader).bytes(), old(reader).pos()) {
            Ok((poc_type, lsb, q)) => {
                &&& r is Ok
                &&& final(reader).pos() == q
                &&& final(sps).pic_order_cnt_type == poc_type
                &&& final(sps).log2_max_pic_order_cnt_lsb_minus4 == lsb
                &&& final(sps).pic_order_cnt_type <= 2
                &&& final(sps).log2_max_pic_order_cnt_lsb_minus4 <= 12
            },
            Err(e) => r == Err::<(), BitstreamError>(e),
        },
{
    let pic_order_cnt_type = reader.read_ue_max(2)?;
    let mut lsb_minus4: u32 = 0;
    if pic_order_cnt_type == 0 {
        lsb_minus4 = reader.read_ue_max(12)?;
    } else if pic_order_cnt_type == 1 {
        let _delta_pic_order_always_zero = reader.read_flag()?;
        reader.skip_codes(2)?;
        let num = reader.read_ue_max(255)?;
        reader.skip_codes(num)?;
    }
    sps.pic_order_cnt_type = pic_order_cnt_type as u8;
    sps.log2_max_pic_order_cnt_lsb_minus4 = lsb_minus4 as u8;
    Ok(())
}

#[verifier::rlimit(100)]
fn read_h264_sps_tail(reader: &mut BitReader, sps: &mut H264Sps) -> (r: Result<(), BitstreamError>)
    requires
        old(reader).wf(),
    ensures
        final(reader).wf(),
        final(reader).bytes() == old(reader).bytes(),
        final(sps).seq_parameter_set_id == old(sps).seq_parameter_set_id,
        final(sps).profile_idc == old(sps).profile_idc,
        final(sps).level_idc == old(sps).level_idc,
        final(sps).chroma_format_idc == old(sps).chroma_format_idc,
        final(sps).raw_data == old(sps).raw_data,
        match h264_sps_tail(old(reader).bytes(), old(reader).pos()) {
            Ok((frame_num, poc_type, lsb, width, height, frame_mbs_only, _)) => {
                &&& r is Ok
                &&& h264_sps_valid(*final(sps))
                &&& final(sps).log2_max_frame_num_minus4 == frame_num
                &&& final(sps).pic_order_cnt_type == poc_type
                &&& final(sps).log2_max_pic_order_cnt_lsb_minus4 == lsb
                &&& final(sps).pic_width_in_mbs_minus1 == width
                &&& final(sps).pic_height_in_map_units_minus1 == height
                &&& final(sps).frame_mbs_only_flag == frame_mbs_only
            },
            Err(e) => r == Err::<(), BitstreamError>(e),
        },
{
    let log2_max_frame_num_minus4 = reader.read_ue_max(12)?;
    sps.log2_max_frame_num_minus4 = log2_max_frame_num_minus4 as u8;
    read_h264_poc_fields(reader, sps)?;
    let max_num_ref_frames = reader.read_ue_max(255)?;
    let _gaps_in_frame_num_allowed = reader.read_flag()?;
    let width = reader.read_ue_max(65535)?;
    let height = reader.read_ue_max(65535)?;
    let frame_mbs_only_flag = reader.read_flag()?;
    if !frame_mbs_only_flag {
        let _mb_adaptive_frame_field = reader.read_flag()?;
    }
    let direct_8x8_inference_flag = reader.read_flag()?;
    let frame_cropping_flag = reader.read_flag()?;
    let mut left: u32 = 0;
    let mut right: u32 = 0;
    let mut top: u32 = 0;
    let mut bottom: u32 = 0;
    if frame_cropping_flag {
        left = reader.read_ue_max(65535)?;
        right = reader.read_ue_max(65535)?;
        top = reader.read_ue_max(65535)?;
        bottom = reader.read_ue_max(65535)?;
    }
    sps.max_num_ref_frames = max_num_ref_frames as u8;
    sps.pic_width_in_mbs_minus1 = width as u16;
    sps.pic_height_in_map_units_minus1 = height as u16;
    sps.frame_mbs_only_flag = frame_mbs_only_flag;
    sps.direct_8x8_inference_flag = direct_8x8_inference_flag;
    sps.frame_cropping_flag = frame_cropping_flag;
    sps.frame_crop_left_offset = left as u16;
    sps.frame_crop_right_offset = right as u16;
    sps.frame_crop_top_offset = top as u16;
    sps.frame_crop_bottom_offset = bottom as u16;
    Ok(())
}

/// Parses an H.264 SPS unit, header byte included. It succeeds exactly when
/// the payload reads as an SPS up to its cropping window.
pub fn parse_h264_sps(data: &[u8]) -> (r: Result<H264Sps, BitstreamError>)
    ensures
        data@.len() < 4 ==> r == Err::<H264Sps, BitstreamError>(BitstreamError::EndOfData),
        data@.len() >= 4 ==> match h264_sps_syntax(h264_rbsp(data@)) {
            Ok(id) => r matches Ok(s) && s.seq_parameter_set_id == id,
            Err(e) => r == Err::<H264Sps, BitstreamError>(e),
        },
        r matches Ok(s) ==> {
            let rb = h264_rbsp(data@);
            &&& s.raw_data@ == data@
            &&& s.profile_idc == bits_val(rb, 0, 8)
            &&& s.level_idc == bits_val(rb, 16, 8)
            &&& s.seq_parameter_set_id <= 31
            &&& s.chroma_format_idc <= 3
            &&& h264_sps_valid(s)
            &&& h264_sps_fields_match(s, rb)
        },
{
    if data.len() < 4 {
        return Err(BitstreamError::EndOfData);
    }
    let payload = copy_range(data, 1, data.len());
    let rb = remove_emulation_prevention(payload.as_slice());
    let mut reader = BitReader::new(rb.as_slice());
    let raw_data = copy_range(data, 0, data.len());
    proof {
        assert(data@.subrange(0, data@.len() as int) =~= data@);
    }
    let mut sps = read_h264_sps_head(&mut reader, raw_data)?;
    read_h264_sps_tail(&mut reader, &mut sps)?;
    Ok(sps)
}

/// `data[from..to]` as a new vector.
pub(crate) fn copy_range(data: &[u8], from: usize, to: usize) -> (r: Vec<u8>)
    requires
        from <= to <= data@.len(),
    ensures
        r@ == data@.subrange(from as int, to as int),
{
    let mut out: Vec<u8> = Vec::new();
    let mut i: usize = from;
    while i < to
        invariant
            from <= i <= to <= data@.len(),
            out@ == data@.subrange(from as int, i as int),
        decreases to - i,
    {
        out.push(data[i]);
        i = i + 1;
        proof {
            assert(out@ =~= data@.subrange(from as int, i as int));
        }
    }
    out
}

/// An H.264 PPS payload read in full: its id and its SPS id, or why it
/// cannot be read (slice groups are not supported).
pub open spec fn h264_pps_syntax(d: Seq<u8>) -> Result<(nat, nat), BitstreamError> {
    match ue_max_at(d, 0, 255) {
        Err(e) => Err(e),
        Ok((pps_id, p1)) => match ue_max_at(d, p1, 31) {
            Err(e) => Err(e),
            Ok((sps_id, p2)) => match bits_at(d, p2, 2) {
                Err(e) => Err(e),
                Ok((_, p3)) => match ue_max_at(d, p3, 7) {
                    Err(e) => Err(e),
                    Ok((groups, p4)) => if groups > 0 {
                        Err(BitstreamError::Unsupported)
                    } else {
                        match ue_max_at(d, p4, 31) {
                            Err(e) => Err(e),
                            Ok((_, p5)) => match ue_max_at(d, p5, 31) {
                                Err(e) => Err(e),
                                Ok((_, p6)) => match bits_at(d, p6, 3) {
                                    Err(e) => Err(e),
                                    Ok((_, p7)) => match se_range_at(d, p7, -128, 127) {
                                        Err(e) => Err(e),
                                        Ok((_, p8)) => match se_range_at(d, p8, -128, 127) {
                                            Err(e) => Err(e),
                                            Ok((_, p9)) => match se_range_at(d, p9, -128, 127) {
                                                Err(e) => Err(e),
                                                Ok((_, p10)) => match bits_at(d, p10, 3) {
                                                    Err(e) => Err(e),
                                                    Ok(_) => Ok((pps_id, sps_id)),
                                                },
                                            },
                                        },
                                    },
                                },
                            },
                        }
                    },
                },
            },
        },
    }
}

/// Parses an H.264 PPS unit, header byte included. Slice groups are not
/// supported.
#[verifier::rlimit(100)]
pub fn parse_h264_pps(data: &[u8]) -> (r: Result<H264Pps, BitstreamError>)
    ensures
        data@.len() < 2 ==> r == Err::<H264Pps, BitstreamError>(BitstreamError::EndOfData),
        data@.len() >= 2 ==> match h264_pps_syntax(h264_rbsp(data@)) {
            Ok((id, sps_id)) => r matches Ok(p) && p.pic_parameter_set_id == id
                && p.seq_parameter_set_id == sps_id,
            Err(e) => r == Err::<H264Pps, BitstreamError>(e),
        },
        r matches Ok(p) ==> {
            &&& p.raw_data@ == data@
            &&& ue_decode(h264_rbsp(data@), 0) matches Ok((id, _))
            &&& p.pic_parameter_set_id == id
            &&& p.seq_parameter_set_id <= 31
            &&& p.num_slice_groups_minus1 == 0
        },
{
    if data.len() < 2 {
        return Err(BitstreamError::EndOfData);
    }
    let payload = copy_range(data, 1, data.len());
    let rb = remove_emulation_prevention(payload.as_slice());
    let mut reader = BitReader::new(rb.as_slice());
    let pic_parameter_set_id = reader.read_ue_max(255)? as u8;
    let seq_parameter_set_id = reader.read_ue_max(31)? as u8;
    let entropy_coding_mode_flag = reader.read_flag()?;
    let bottom_field_pic_order_in_frame_present_flag = reader.read_flag()?;
    let num_slice_groups_minus1 = reader.read_ue_max(7)? as u8;
    if num_slice_groups_minus1 > 0 {
        return Err(BitstreamError::Unsupported);
    }
    let num_ref_idx_l0_default_active_minus1 = reader.read_ue_max(31)? as u8;
    let num_ref_idx_l1_default_active_minus1 = reader.read_ue_max(31)? as u8;
    let weighted_pred_flag = reader.read_flag()?;
    let bipred = reader.read_bits(2)?;
    proof {
        vstd::arithmetic::power2::lemma2_to64();
    }
    let pic_init_qp_minus26 = reader.read_se_range(-128, 127)? as i8;
    let pic_init_qs_minus26 = reader.read_se_range(-128, 127)? as i8;
    let chroma_qp_index_offset = reader.read_se_range(-128, 127)? as i8;
    let deblocking_filter_control_present_flag = reader.read_flag()?;
    let constrained_intra_pred_flag = reader.read_flag()?;
    let redundant_pic_cnt_present_flag = reader.read_flag()?;
    let raw_data = copy_range(data, 0, data.len());
    proof {
        assert(data@.subrange(0, data@.len() as int) =~= data@);
    }
    Ok(
        H264Pps {
            pic_parameter_set_id,
            seq_parameter_set_id,
            entropy_coding_mode_flag,
            bottom_field_pic_order_in_frame_present_flag,
            num_slice_groups_minus1,
            num_ref_idx_l0_default_active_minus1,
            num_ref_idx_l1_default_active_minus1,
            weighted_pred_flag,
            weighted_bipred_idc: bipred as u8,
            pic_init_qp_minus26,
            pic_init_qs_minus26,
            chroma_qp_index_offset,
            deblocking_filter_control_present_flag,
            constrained_intra_pred_flag,
            redundant_pic_cnt_present_flag,
            raw_data,
        },
    )
}

/// What a decode session relies on in a stored SPS.
pub open spec fn h264_sps_valid(s: H264Sps) -> bool {
    &&& s.log2_max_frame_num_minus4 <= 12
    &&& s.pic_order_cnt_type <= 2
    &&& s.log2_max_pic_order_cnt_lsb_minus4 <= 12
}

/// Position after the field-coding flags at `p`: none for frame-only
/// streams, else `field_pic_flag` and, when set, `bottom_field_flag`.
pub open spec fn after_field_flags(d: Seq<u8>, p: int, frame_mbs_only: bool) -> Result<
    int,
    BitstreamError,
> {
    if frame_mbs_only {
        Ok(p)
    } else {
        match flag_at(d, p) {
            Err(e) => Err(e),
            Ok((field, q)) => if field {
                match flag_at(d, q) {
                    Err(e) => Err(e),
                    Ok((_, q2)) => Ok(q2),
                }
            } else {
                Ok(q)
            },
        }
    }
}

/// The `pic_order_cnt_lsb` of a slice payload `d` (emulation prevention
/// removed), or why it cannot be read.
pub open spec fn slice_poc_lsb(d: Seq<u8>, sps: H264Sps, is_idr: bool) -> Result<nat, BitstreamError> {
    match ue_decode(d, 0) {
        Err(e) => Err(e),
        Ok((_, p1)) => match ue_max_at(d, p1, 9) {
            Err(e) => Err(e),
            Ok((_, p2)) => match ue_max_at(d, p2, 255) {
                Err(e) => Err(e),
                Ok((_, p3)) => {
                    let p4 = if sps.separate_colour_plane_flag {
                        p3 + 2
                    } else {
                        p3
                    };
                    let p5 = p4 + sps.log2_max_frame_num_minus4 + 4;
                    if p4 > nbits(d) || p5 > nbits(d) {
                        Err(BitstreamError::EndOfData)
                    } else {
                        match after_field_flags(d, p5, sps.frame_mbs_only_flag) {
                            Err(e) => Err(e),
                            Ok(p6) => {
                                let p7 = if is_idr {
                                    match ue_decode(d, p6) {
                                        Err(e) => Err(e),
                                        Ok((_, q)) => Ok(q),
                                    }
                                } else {
                                    Ok(p6)
                                };
                                match p7 {
                                    Err(e) => Err(e),
                                    Ok(p7) => if sps.pic_order_cnt_type != 0 {
                                        Ok(0)
                                    } else {
                                        let n = (sps.log2_max_pic_order_cnt_lsb_minus4 + 4) as nat;
                                        if p7 + n > nbits(d) {
                                            Err(BitstreamError::EndOfData)
                                        } else {
                                            Ok(bits_val(d, p7, n))
                                        }
                                    },
                                }
                            },
                        }
                    }
                },
            },
        },
    }
}

/// The `pic_order_cnt_lsb` of a slice unit (header byte included): read
/// after `first_mb_in_slice`, `slice_type`, the PPS id, the colour plane,
/// `frame_num`, the field flags and, on IDR pictures, `idr_pic_id`. It is 0
/// when the SPS does not code POC least significant bits.
pub fn parse_h264_poc_lsb(data: &[u8], sps: &H264Sps, is_idr: bool) -> (r: Result<
    u32,
    BitstreamError,
>)
    requires
        h264_sps_valid(*sps),
    ensures
        data@.len() < 2 ==> r == Err::<u32, BitstreamError>(BitstreamError::EndOfData),
        data@.len() >= 2 ==> match slice_poc_lsb(h264_rbsp(data@), *sps, is_idr) {
            Ok(v) => r == Ok::<u32, BitstreamError>(v as u32) && v <= u32::MAX,
            Err(e) => r == Err::<u32, BitstreamError>(e),
        },
        r matches Ok(v) ==> (sps.pic_order_cnt_type == 0 ==> v < vstd::arithmetic::power2::pow2(
            (sps.log2_max_pic_order_cnt_lsb_minus4 + 4) as nat,
        )) && (sps.pic_order_cnt_type != 0 ==> v == 0),
{
    if data.len() < 2 {
        return Err(BitstreamError::EndOfData);
    }
    let payload = copy_range(data, 1, data.len());
    let rb = remove_emulation_prevention(payload.as_slice());
    let mut reader = BitReader::new(rb.as_slice());
    reader.read_ue()?;
    reader.read_ue_max(9)?;
    reader.read_ue_max(255)?;
    if sps.separate_colour_plane_flag {
        reader.skip_bits(2)?;
    }
    reader.skip_bits((sps.log2_max_frame_num_minus4 + 4) as u32)?;
    if !sps.frame_mbs_only_flag {
        let field_pic = reader.read_bit()?;
        if field_pic != 0 {
            reader.read_bit()?;
        }
    }
    if is_idr {
        reader.read_ue()?;
    }
    if sps.pic_order_cnt_type == 0 {
        let lsb = reader.read_bits(sps.log2_max_pic_order_cnt_lsb_minus4 + 4)?;
        proof {
            vstd::arithmetic::power2::lemma2_to64();
            vstd::arithmetic::power2::lemma_pow2_strictly_increases(
                (sps.log2_max_pic_order_cnt_lsb_minus4 + 4) as nat,
                32,
            );
        }
        Ok(lsb)
    } else {
        Ok(0)
    }
}

} // verus!
