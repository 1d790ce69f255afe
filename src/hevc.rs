use crate::bitreader::{
    bit_at, bits_at, bits_val, codes_at, flag_at, nbits, se_range_at, ue_decode, ue_max_at,
    BitReader, BitstreamError,
};
use crate::nal::{find_nal_units, rbsp, remove_emulation_prevention, HevcNalType, HevcNalUnit};
use vstd::arithmetic::power2::pow2;
use vstd::prelude::*;

verus! {

/// Number of video and sequence parameter set ids.
pub const MAX_VPS_SPS: usize = 16;

/// Largest picture width or height accepted from an SPS (the largest any
/// level allows).
pub const MAX_PIC_DIMENSION: u32 = 16888;

/// Number of picture parameter set ids.
pub const MAX_PPS: usize = 64;

/// Video parameter set: the fields session setup needs.
#[derive(Debug, Clone)]
pub struct HevcVps {
    pub vps_id: u8,
    pub max_layers: u8,
    pub max_sub_layers: u8,
    pub temporal_id_nesting: bool,
    /// The whole NAL unit, for upload to the hardware.
    pub raw_data: Vec<u8>,
}

/// Sequence parameter set.
#[derive(Debug, Clone)]
pub struct HevcSps {
    pub sps_id: u8,
    pub vps_id: u8,
    pub max_sub_layers: u8,
    pub chroma_format_idc: u8,
    pub separate_colour_plane: bool,
    pub pic_width: u32,
    pub pic_height: u32,
    pub bit_depth_luma: u8,
    pub bit_depth_chroma: u8,
    pub log2_max_poc_lsb: u8,
    pub num_short_term_ref_pic_sets: u8,
    pub long_term_ref_pics_present: bool,
    pub num_long_term_ref_pics_sps: u8,
    pub temporal_mvp_enabled: bool,
    pub strong_intra_smoothing_enabled: bool,
    pub scaling_list_enabled: bool,
    pub amp_enabled: bool,
    pub sample_adaptive_offset_enabled: bool,
    pub pcm_enabled: bool,
    pub pcm_sample_bit_depth_luma: u8,
    pub pcm_sample_bit_depth_chroma: u8,
    pub log2_min_pcm_luma_coding_block_size: u8,
    pub log2_diff_max_min_pcm_luma_coding_block_size: u8,
    pub pcm_loop_filter_disabled: bool,
    pub log2_min_luma_coding_block_size: u8,
    pub log2_diff_max_min_luma_coding_block_size: u8,
    pub log2_min_luma_transform_block_size: u8,
    pub log2_diff_max_min_luma_transform_block_size: u8,
    pub max_transform_hierarchy_depth_inter: u8,
    pub max_transform_hierarchy_depth_intra: u8,
    /// The whole NAL unit, for upload to the hardware.
    pub raw_data: Vec<u8>,
}

/// Picture parameter set.
#[derive(Debug, Clone)]
pub struct HevcPps {
    pub pps_id: u8,
    pub sps_id: u8,
    pub dependent_slice_segments_enabled: bool,
    pub output_flag_present: bool,
    pub num_extra_slice_header_bits: u8,
    pub sign_data_hiding_enabled: bool,
    pub cabac_init_present: bool,
    pub num_ref_idx_l0_default_active: u8,
    pub num_ref_idx_l1_default_active: u8,
    pub init_qp: i8,
    pub constrained_intra_pred: bool,
    pub transform_skip_enabled: bool,
    pub cu_qp_delta_enabled: bool,
    pub diff_cu_qp_delta_depth: u8,
    pub cb_qp_offset: i8,
    pub cr_qp_offset: i8,
    pub slice_chroma_qp_offsets_present: bool,
    pub weighted_pred: bool,
    pub weighted_bipred: bool,
    pub transquant_bypass_enabled: bool,
    pub tiles_enabled: bool,
    pub entropy_coding_sync_enabled: bool,
    pub num_tile_columns: u16,
    pub num_tile_rows: u16,
    pub uniform_spacing: bool,
    pub loop_filter_across_tiles_enabled: bool,
    pub loop_filter_across_slices_enabled: bool,
    pub deblocking_filter_control_present: bool,
    pub deblocking_filter_override_enabled: bool,
    pub deblocking_filter_disabled: bool,
    pub beta_offset: i8,
    pub tc_offset: i8,
    pub lists_modification_present: bool,
    pub log2_parallel_merge_level: u8,
    pub slice_segment_header_extension_present: bool,
    /// The whole NAL unit, for upload to the hardware.
    pub raw_data: Vec<u8>,
}

/// The leading part of a slice segment header.
#[derive(Debug, Clone, Copy)]
pub struct HevcSliceHeader {
    pub first_slice_in_pic: bool,
    pub no_output_of_prior_pics: bool,
    pub pps_id: u8,
    pub dependent_slice_segment: bool,
    pub slice_segment_address: u32,
    /// 0 = B, 1 = P, 2 = I.
    pub slice_type: u8,
    pub pic_output: bool,
    pub colour_plane_id: u8,
    pub pic_order_cnt_lsb: u16,
    pub short_term_ref_pic_set_sps_flag: bool,
    pub short_term_ref_pic_set_idx: u8,
    pub num_ref_idx_l0_active: u8,
    pub num_ref_idx_l1_active: u8,
}

/// The payload of a unit after its two header bytes, emulation prevention
/// removed.
pub open spec fn payload_rbsp(nal_data: Seq<u8>) -> Seq<u8> {
    rbsp(nal_data.subrange(2, nal_data.len() as int))
}

/// The four fields at the head of a VPS payload, or `None` when it is shorter
/// than they are.
pub open spec fn vps_head(rb: Seq<u8>) -> Option<(nat, nat, nat, bool)> {
    if nbits(rb) < 16 {
        None
    } else {
        Some((bits_val(rb, 0, 4), bits_val(rb, 6, 6) + 1, bits_val(rb, 12, 3) + 1, bit_at(rb, 15)))
    }
}

/// Least `b`, from `from` on, with `2^b >= n`.
pub open spec fn ceil_log2_from(n: nat, from: nat) -> nat
    decreases 64 - from,
{
    if from >= 64 || pow2(from) >= n {
        from
    } else {
        ceil_log2_from(n, from + 1)
    }
}

/// `ceil(log2(n))`: the width of an index below `n`.
pub open spec fn ceil_log2(n: nat) -> nat {
    ceil_log2_from(n, 0)
}

/// Where the slice's PPS id sits: after the first-slice flag, and after the
/// no-output flag on random access points.
pub open spec fn pps_id_pos(nal_type: HevcNalType) -> int {
    if nal_type.spec_is_rap() {
        2
    } else {
        1
    }
}

/// Number of coding tree blocks in a picture: width and height rounded up to
/// whole blocks of `2^log2_ctb` samples.
pub open spec fn ctb_count(width: nat, height: nat, log2_ctb: nat) -> nat {
    let c = pow2(log2_ctb);
    ((width + c - 1) / c as int) as nat * ((height + c - 1) / c as int) as nat
}

/// Bits in `slice_segment_address`: `ceil(log2(n))` for the picture's `n`
/// coding tree blocks.
pub fn slice_address_bits(width: u32, height: u32, log2_min_cb: u8, log2_diff_cb: u8) -> (r: u8)
    requires
        width <= MAX_PIC_DIMENSION,
        height <= MAX_PIC_DIMENSION,
        3 <= log2_min_cb <= 6,
        log2_diff_cb <= 3,
    ensures
        r as nat == ceil_log2(ctb_count(width as nat, height as nat, (log2_min_cb + log2_diff_cb) as nat)),
        r <= 32,
{
    let log2_ctb: u8 = log2_min_cb + log2_diff_cb;
    let mut ctb: u32 = 1;
    let mut k: u8 = 0;
    proof {
        vstd::arithmetic::power2::lemma2_to64();
    }
    while k < log2_ctb
        invariant
            k <= log2_ctb <= 9,
            ctb as nat == pow2(k as nat),
        decreases log2_ctb - k,
    {
        proof {
            vstd::arithmetic::power2::lemma_pow2_unfold((k + 1) as nat);
            vstd::arithmetic::power2::lemma_pow2_strictly_increases((k + 1) as nat, 10);
            vstd::arithmetic::power2::lemma2_to64();
        }
        ctb = ctb * 2;
        k = k + 1;
    }
    proof {
        vstd::arithmetic::power2::lemma_pow2_pos(log2_ctb as nat);
        if log2_ctb < 9 {
            vstd::arithmetic::power2::lemma_pow2_strictly_increases(log2_ctb as nat, 9);
        }
    }
    let w: u32 = (width + ctb - 1) / ctb;
    let h: u32 = (height + ctb - 1) / ctb;
    proof {
        assert(w <= 17399) by (nonlinear_arith)
            requires
                w == (width + ctb - 1) / ctb as int,
                ctb >= 1,
                width <= 16888,
                ctb <= 512,
        ;
        assert(h <= 17399) by (nonlinear_arith)
            requires
                h == (height + ctb - 1) / ctb as int,
                ctb >= 1,
                height <= 16888,
                ctb <= 512,
        ;
        assert(w * h <= 17399 * 17399) by (nonlinear_arith)
            requires
                w <= 17399,
                h <= 17399,
        ;
        assert(pow2(29) == 536870912) by {
            vstd::arithmetic::power2::lemma2_to64();
        }
    }
    let n: u64 = w as u64 * h as u64;
    let mut bits: u8 = 0;
    let mut p: u64 = 1;
    while p < n
        invariant
            bits <= 29,
            p as nat == pow2(bits as nat),
            n <= 17399 * 17399,
            pow2(29) == 536870912,
            ceil_log2(n as nat) == ceil_log2_from(n as nat, bits as nat),
        decreases 64 - bits,
    {
        proof {
            vstd::arithmetic::power2::lemma_pow2_unfold((bits + 1) as nat);
            if bits > 28 {
                if bits > 29 {
                    vstd::arithmetic::power2::lemma_pow2_strictly_increases(29, bits as nat);
                }
                assert(false);
            }
        }
        p = p * 2;
        bits = bits + 1;
    }
    bits
}

/// The slice header fields after the PPS id at `p`: whether the segment is
/// dependent, the slice type and the POC least significant bits (0 where
/// absent), or why they cannot be read.
pub open spec fn slice_rest(
    d: Seq<u8>,
    p: int,
    first: bool,
    pps: HevcPps,
    sps: HevcSps,
    idr: bool,
) -> Result<(bool, nat, nat), BitstreamError> {
    match (if !first && pps.dependent_slice_segments_enabled {
        flag_at(d, p)
    } else {
        Ok((false, p))
    }) {
        Err(e) => Err(e),
        Ok((dependent, q1)) => match (if !first {
            match bits_at(
                d,
                q1,
                ceil_log2(
                    ctb_count(
                        sps.pic_width as nat,
                        sps.pic_height as nat,
                        (sps.log2_min_luma_coding_block_size
                            + sps.log2_diff_max_min_luma_coding_block_size) as nat,
                    ),
                ),
            ) {
                Err(e) => Err(e),
                Ok((_, q)) => Ok(q),
            }
        } else {
            Ok(q1)
        }) {
            Err(e) => Err(e),
            Ok(q2) => if dependent {
                Ok((true, 0nat, 0nat))
            } else {
                match bits_at(d, q2, pps.num_extra_slice_header_bits as nat) {
                    Err(e) => Err(e),
                    Ok((_, q3)) => match ue_max_at(d, q3, 2) {
                        Err(e) => Err(e),
                        Ok((slice_type, q4)) => match (if pps.output_flag_present {
                            match flag_at(d, q4) {
                                Err(e) => Err(e),
                                Ok((_, q)) => Ok(q),
                            }
                        } else {
                            Ok(q4)
                        }) {
                            Err(e) => Err(e),
                            Ok(q5) => match (if sps.separate_colour_plane {
                                match bits_at(d, q5, 2) {
                                    Err(e) => Err(e),
                                    Ok((_, q)) => Ok(q),
                                }
                            } else {
                                Ok(q5)
                            }) {
                                Err(e) => Err(e),
                                Ok(q6) => if idr {
                                    Ok((false, slice_type, 0nat))
                                } else {
                                    match bits_at(d, q6, sps.log2_max_poc_lsb as nat) {
                                        Err(e) => Err(e),
                                        Ok((lsb, q7)) => match flag_at(d, q7) {
                                            Err(e) => Err(e),
                                            Ok(_) => Ok((false, slice_type, lsb)),
                                        },
                                    }
                                },
                            },
                        },
                    },
                }
            },
        },
    }
}

#[verifier::rlimit(80)]
fn read_slice_rest(
    reader: &mut BitReader,
    pps: &HevcPps,
    sps: &HevcSps,
    first_slice_in_pic: bool,
    no_output_of_prior_pics: bool,
    pps_id: u8,
    idr: bool,
) -> (r: Result<HevcSliceHeader, BitstreamError>)
    requires
        old(reader).wf(),
        sps_valid(*sps),
    ensures
        match slice_rest(old(reader).bytes(), old(reader).pos(), first_slice_in_pic, *pps, *sps, idr) {
            Ok((dependent, slice_type, lsb)) => {
                &&& r matches Ok(h)
                &&& h.first_slice_in_pic == first_slice_in_pic
                &&& h.pps_id == pps_id
                &&& h.dependent_slice_segment == dependent
                &&& h.slice_type == slice_type
                &&& h.pic_order_cnt_lsb == lsb
                &&& !dependent ==> h.num_ref_idx_l0_active == pps.num_ref_idx_l0_default_active
                    && h.num_ref_idx_l1_active == pps.num_ref_idx_l1_default_active
                    && (!pps.output_flag_present ==> h.pic_output)
                &&& !first_slice_in_pic ==> h.slice_segment_address < pow2(
                    ceil_log2(
                        ctb_count(
                            sps.pic_width as nat,
                            sps.pic_height as nat,
                            (sps.log2_min_luma_coding_block_size
                                + sps.log2_diff_max_min_luma_coding_block_size) as nat,
                        ),
                    ),
                )
                &&& first_slice_in_pic ==> h.slice_segment_address == 0
            },
            Err(e) => r == Err::<HevcSliceHeader, BitstreamError>(e),
        },
{
    let mut header = HevcSliceHeader {
        first_slice_in_pic,
        no_output_of_prior_pics,
        pps_id,
        dependent_slice_segment: false,
        slice_segment_address: 0,
        slice_type: 0,
        pic_output: false,
        colour_plane_id: 0,
        pic_order_cnt_lsb: 0,
        short_term_ref_pic_set_sps_flag: false,
        short_term_ref_pic_set_idx: 0,
        num_ref_idx_l0_active: 0,
        num_ref_idx_l1_active: 0,
    };
    if !first_slice_in_pic {
        if pps.dependent_slice_segments_enabled {
            header.dependent_slice_segment = reader.read_flag()?;
        }
        let address_bits = slice_address_bits(
            sps.pic_width,
            sps.pic_height,
            sps.log2_min_luma_coding_block_size,
            sps.log2_diff_max_min_luma_coding_block_size,
        );
        header.slice_segment_address = reader.read_bits(address_bits)?;
    }
    if !header.dependent_slice_segment {
        reader.skip_bits(pps.num_extra_slice_header_bits as u32)?;
        header.slice_type = reader.read_ue_max(2)? as u8;
        if pps.output_flag_present {
            header.pic_output = reader.read_flag()?;
        } else {
            header.pic_output = true;
        }
        if sps.separate_colour_plane {
            let id = reader.read_bits(2)?;
            proof {
                vstd::arithmetic::power2::lemma2_to64();
            }
            header.colour_plane_id = id as u8;
        }
        if !idr {
            let lsb = reader.read_bits(sps.log2_max_poc_lsb)?;
            proof {
                vstd::arithmetic::power2::lemma_pow2_strictly_increases(
                    sps.log2_max_poc_lsb as nat,
                    17,
                );
                vstd::arithmetic::power2::lemma2_to64();
            }
            header.pic_order_cnt_lsb = lsb as u16;
            header.short_term_ref_pic_set_sps_flag = reader.read_flag()?;
        }
        header.num_ref_idx_l0_active = pps.num_ref_idx_l0_default_active;
        header.num_ref_idx_l1_active = pps.num_ref_idx_l1_default_active;
    }
    Ok(header)
}

/// Parameter sets by id: the most recently parsed set for each id.
pub struct HevcParser {
    pub vps: Vec<Option<HevcVps>>,
    pub sps: Vec<Option<HevcSps>>,
    pub pps: Vec<Option<HevcPps>>,
}

/// Bits of the sub-layer profile and level entries of the first `j`
/// sub-layers, whose presence flags come in pairs from `p`.
pub open spec fn sub_layer_bits(d: Seq<u8>, p: int, j: nat) -> nat
    decreases j,
{
    if j == 0 {
        0
    } else {
        let i = j - 1;
        sub_layer_bits(d, p, (j - 1) as nat) + (if bit_at(d, p + 2 * i) {
            88nat
        } else {
            0nat
        }) + (if bit_at(d, p + 2 * i + 1) {
            8nat
        } else {
            0nat
        })
    }
}

proof fn lemma_sub_layer_bits_grow(d: Seq<u8>, p: int, j: nat, n: nat)
    requires
        j <= n,
    ensures
        sub_layer_bits(d, p, j) <= sub_layer_bits(d, p, n),
    decreases n - j,
{
    if j < n {
        lemma_sub_layer_bits_grow(d, p, j, (n - 1) as nat);
    }
}

/// Position after `profile_tier_level` at `p`: the general profile (when
/// present), a pair of presence flags for each sub-layer but the highest,
/// padding to eight pairs, then the entries the flags announce.
pub open spec fn ptl_end(d: Seq<u8>, p: int, profile_present: bool, max_sub_layers: nat) -> Result<
    int,
    BitstreamError,
> {
    let p1 = if profile_present {
        p + 96
    } else {
        p
    };
    let n = (max_sub_layers - 1) as nat;
    let p2 = if max_sub_layers > 1 {
        p1 + 16
    } else {
        p1
    };
    if p2 > nbits(d) {
        Err(BitstreamError::EndOfData)
    } else if p2 + sub_layer_bits(d, p1, n) > nbits(d) {
        Err(BitstreamError::EndOfData)
    } else {
        Ok(p2 + sub_layer_bits(d, p1, n))
    }
}

/// Skips `profile_tier_level`, whose width depends on the sub-layer count.
fn skip_profile_tier_level(reader: &mut BitReader, profile_present: bool, max_sub_layers: u8) -> (r:
    Result<(), BitstreamError>)
    requires
        old(reader).wf(),
        1 <= max_sub_layers <= 8,
    ensures
        final(reader).wf(),
        final(reader).bytes() == old(reader).bytes(),
        match ptl_end(old(reader).bytes(), old(reader).pos(), profile_present, max_sub_layers as nat) {
            Ok(q) => r is Ok && final(reader).pos() == q,
            Err(e) => r == Err::<(), BitstreamError>(e),
        },
{
    let ghost d = reader.bytes();
    let ghost p1 = if profile_present {
        old(reader).pos() + 96
    } else {
        old(reader).pos()
    };
    let n = max_sub_layers - 1;
    let ghost p2 = if max_sub_layers > 1 {
        p1 + 16
    } else {
        p1
    };
    if profile_present {
        reader.skip_bits(96)?;
    }
    let mut sub_layer_profile_present: Vec<bool> = Vec::new();
    let mut sub_layer_level_present: Vec<bool> = Vec::new();
    let mut i: u8 = 0;
    while i < n
        invariant
            reader.wf(),
            reader.bytes() == d,
            d == old(reader).bytes(),
            p1 == (if profile_present {
                old(reader).pos() + 96
            } else {
                old(reader).pos()
            }),
            i <= n,
            n == max_sub_layers - 1,
            1 <= max_sub_layers <= 8,
            p2 >= p1 + 2 * n,
            p2 == (if max_sub_layers > 1 {
                p1 + 16
            } else {
                p1
            }),
            reader.pos() == p1 + 2 * i,
            sub_layer_profile_present@.len() == i,
            sub_layer_level_present@.len() == i,
            forall|k: int| 0 <= k < i ==> sub_layer_profile_present@[k] == bit_at(d, p1 + 2 * k),
            forall|k: int| 0 <= k < i ==> sub_layer_level_present@[k] == bit_at(d, p1 + 2 * k + 1),
        decreases n - i,
    {
        let p = reader.read_flag()?;
        let l = reader.read_flag()?;
        sub_layer_profile_present.push(p);
        sub_layer_level_present.push(l);
        i = i + 1;
    }
    if max_sub_layers > 1 {
        let mut k: u8 = n;
        while k < 8
            invariant
                reader.wf(),
                reader.bytes() == d,
                d == old(reader).bytes(),
                p1 == (if profile_present {
                    old(reader).pos() + 96
                } else {
                    old(reader).pos()
                }),
                n == max_sub_layers - 1,
                1 < max_sub_layers <= 8,
                n <= k <= 8,
                reader.pos() == p1 + 2 * k,
                p2 == p1 + 16,
            decreases 8 - k,
        {
            reader.skip_bits(2)?;
            k = k + 1;
        }
    }
    proof {
        lemma_sub_layer_bits_grow(d, p1, 0, n as nat);
        reader.lemma_pos_bound();
        assert(reader.pos() == p2);
    }
    let mut j: usize = 0;
    while j < n as usize
        invariant
            reader.wf(),
            reader.bytes() == d,
            d == old(reader).bytes(),
            p1 == (if profile_present {
                old(reader).pos() + 96
            } else {
                old(reader).pos()
            }),
            n == max_sub_layers - 1,
            1 <= max_sub_layers <= 8,
            p2 == (if max_sub_layers > 1 {
                p1 + 16
            } else {
                p1
            }),
            j <= n,
            p2 <= nbits(d),
            sub_layer_profile_present@.len() == n,
            sub_layer_level_present@.len() == n,
            forall|k: int| 0 <= k < n ==> sub_layer_profile_present@[k] == bit_at(d, p1 + 2 * k),
            forall|k: int| 0 <= k < n ==> sub_layer_level_present@[k] == bit_at(d, p1 + 2 * k + 1),
            reader.pos() == p2 + sub_layer_bits(d, p1, j as nat),
        decreases n - j,
    {
        proof {
            lemma_sub_layer_bits_grow(d, p1, (j + 1) as nat, n as nat);
        }
        if sub_layer_profile_present[j] {
            reader.skip_bits(88)?;
        }
        if sub_layer_level_present[j] {
            reader.skip_bits(8)?;
        }
        j = j + 1;
    }
    proof {
        reader.lemma_pos_bound();
    }
    Ok(())
}

/// `sizeId` of the `m`-th of the twenty scaling matrices.
pub open spec fn matrix_size(m: nat) -> nat {
    if m < 18 {
        m / 6
    } else {
        3
    }
}

pub open spec fn coef_count(size: nat) -> nat {
    if size == 0 {
        16
    } else {
        64
    }
}

/// Position after one scaling matrix of size `size` at `p`: a prediction
/// mode flag, then either a delta or the (DC and) coefficient deltas.
pub open spec fn matrix_at(d: Seq<u8>, p: int, size: nat) -> Result<int, BitstreamError> {
    match flag_at(d, p) {
        Err(e) => Err(e),
        Ok((explicit, q)) => if !explicit {
            codes_at(d, q, 1)
        } else if size > 1 {
            codes_at(d, q, coef_count(size) + 1)
        } else {
            codes_at(d, q, coef_count(size))
        },
    }
}

/// Position after the scaling matrices from the `m`-th on.
pub open spec fn scaling_from(d: Seq<u8>, p: int, m: nat) -> Result<int, BitstreamError>
    decreases 20 - m,
{
    if m >= 20 {
        Ok(p)
    } else {
        match matrix_at(d, p, matrix_size(m)) {
            Err(e) => Err(e),
            Ok(q) => scaling_from(d, q, m + 1),
        }
    }
}

/// Skips `scaling_list_data`.
fn skip_scaling_list_data(reader: &mut BitReader) -> (r: Result<(), BitstreamError>)
    requires
        old(reader).wf(),
    ensures
        final(reader).wf(),
        final(reader).bytes() == old(reader).bytes(),
        match scaling_from(old(reader).bytes(), old(reader).pos(), 0) {
            Ok(q) => r is Ok && final(reader).pos() == q,
            Err(e) => r == Err::<(), BitstreamError>(e),
        },
{
    let mut m: u32 = 0;
    while m < 20
        invariant
            reader.wf(),
            reader.bytes() == old(reader).bytes(),
            m <= 20,
            scaling_from(old(reader).bytes(), old(reader).pos(), 0) == scaling_from(
                reader.bytes(),
                reader.pos(),
                m as nat,
            ),
        decreases 20 - m,
    {
        let size_id: u32 = if m < 18 {
            m / 6
        } else {
            3
        };
        let coef_num: u32 = if size_id == 0 {
            16
        } else {
            64
        };
        let explicit = reader.read_flag()?;
        if !explicit {
            reader.skip_codes(1)?;
        } else if size_id > 1 {
            reader.skip_codes(coef_num + 1)?;
        } else {
            reader.skip_codes(coef_num)?;
        }
        m = m + 1;
    }
    Ok(())
}

/// Position after `n` (delta, used-flag) pairs from `p`.
pub open spec fn pairs_at(d: Seq<u8>, p: int, n: nat) -> Result<int, BitstreamError>
    decreases n,
{
    if n == 0 {
        Ok(p)
    } else {
        match ue_decode(d, p) {
            Err(e) => Err(e),
            Ok((_, q)) => match flag_at(d, q) {
                Err(e) => Err(e),
                Ok((_, r)) => pairs_at(d, r, (n - 1) as nat),
            },
        }
    }
}

/// Reading `n` more (`used_by_curr_pic_flag`, `use_delta_flag`) entries of a
/// predicted set at `p`, `kept` of the entries so far kept: the position
/// after them and the number kept. `use_delta_flag` is present only when the
/// used flag is 0; a used entry is kept.
pub open spec fn kept_from(d: Seq<u8>, p: int, n: nat, kept: nat) -> Result<(int, nat), BitstreamError>
    decreases n,
{
    if n == 0 {
        Ok((p, kept))
    } else {
        match flag_at(d, p) {
            Err(e) => Err(e),
            Ok((used, q)) => if used {
                kept_from(d, q, (n - 1) as nat, kept + 1)
            } else {
                match flag_at(d, q) {
                    Err(e) => Err(e),
                    Ok((use_delta, q2)) => kept_from(d, q2, (n - 1) as nat, if use_delta {
                        kept + 1
                    } else {
                        kept
                    }),
                }
            },
        }
    }
}

/// Most pictures an explicit set lists in each direction.
pub const MAX_SET_PICTURES: u32 = 16;

/// `st_ref_pic_set(idx)` of an SPS at `p`, where the set before it holds
/// `ref_count` pictures: the position after it and the pictures it holds.
/// A set predicted from the previous one has an entry for each of that set's
/// pictures and one for the previous set's own picture; it holds the entries
/// it keeps. That count is `NumDeltaPocs` whenever no kept entry has a zero
/// POC delta (the derivation drops such an entry; encoders do not keep one).
/// An explicit set lists its negative and positive pictures, at most
/// `MAX_SET_PICTURES` each.
pub open spec fn st_rps_at(d: Seq<u8>, p: int, idx: nat, ref_count: nat) -> Result<
    (int, nat),
    BitstreamError,
> {
    match (if idx > 0 {
        flag_at(d, p)
    } else {
        Ok((false, p))
    }) {
        Err(e) => Err(e),
        Ok((inter, q)) => if inter {
            match flag_at(d, q) {
                Err(e) => Err(e),
                Ok((_, a)) => match ue_decode(d, a) {
                    Err(e) => Err(e),
                    Ok((_, b)) => kept_from(d, b, ref_count + 1, 0),
                },
            }
        } else {
            match ue_max_at(d, q, MAX_SET_PICTURES as nat) {
                Err(e) => Err(e),
                Ok((neg, a)) => match ue_max_at(d, a, MAX_SET_PICTURES as nat) {
                    Err(e) => Err(e),
                    Ok((pos, b)) => match pairs_at(d, b, neg) {
                        Err(e) => Err(e),
                        Ok(c) => match pairs_at(d, c, pos) {
                            Err(e) => Err(e),
                            Ok(e2) => Ok((e2, neg + pos)),
                        },
                    },
                },
            }
        },
    }
}

/// Position after the sets from the `i`-th to the last of `num`, the set
/// before the `i`-th holding `count` pictures.
pub open spec fn st_rps_from(d: Seq<u8>, p: int, i: nat, num: nat, count: nat) -> Result<
    int,
    BitstreamError,
>
    decreases num - i,
{
    if i >= num {
        Ok(p)
    } else {
        match st_rps_at(d, p, i, count) {
            Err(e) => Err(e),
            Ok((q, c)) => st_rps_from(d, q, i + 1, num, c),
        }
    }
}

fn skip_pairs(reader: &mut BitReader, n: u32) -> (r: Result<(), BitstreamError>)
    requires
        old(reader).wf(),
    ensures
        final(reader).wf(),
        final(reader).bytes() == old(reader).bytes(),
        match pairs_at(old(reader).bytes(), old(reader).pos(), n as nat) {
            Ok(q) => r is Ok && final(reader).pos() == q,
            Err(e) => r == Err::<(), BitstreamError>(e),
        },
{
    let mut i: u32 = 0;
    while i < n
        invariant
            reader.wf(),
            reader.bytes() == old(reader).bytes(),
            i <= n,
            pairs_at(old(reader).bytes(), old(reader).pos(), n as nat) == pairs_at(
                reader.bytes(),
                reader.pos(),
                (n - i) as nat,
            ),
        decreases n - i,
    {
        reader.read_ue()?;
        reader.read_flag()?;
        i = i + 1;
    }
    Ok(())
}

/// Skips the entries of a predicted set; returns how many it keeps.
fn skip_kept_entries(reader: &mut BitReader, n: u32) -> (r: Result<u32, BitstreamError>)
    requires
        old(reader).wf(),
    ensures
        final(reader).wf(),
        final(reader).bytes() == old(reader).bytes(),
        match kept_from(old(reader).bytes(), old(reader).pos(), n as nat, 0) {
            Ok((q, k)) => r == Ok::<u32, BitstreamError>(k as u32) && k <= n && final(reader).pos()
                == q,
            Err(e) => r == Err::<u32, BitstreamError>(e),
        },
{
    let mut kept: u32 = 0;
    let mut i: u32 = 0;
    while i < n
        invariant
            reader.wf(),
            reader.bytes() == old(reader).bytes(),
            i <= n,
            kept <= i,
            kept_from(old(reader).bytes(), old(reader).pos(), n as nat, 0) == kept_from(
                reader.bytes(),
                reader.pos(),
                (n - i) as nat,
                kept as nat,
            ),
        decreases n - i,
    {
        let used = reader.read_flag()?;
        if used {
            kept = kept + 1;
        } else {
            let use_delta = reader.read_flag()?;
            if use_delta {
                kept = kept + 1;
            }
        }
        i = i + 1;
    }
    proof {
        lemma_kept_bound(reader.bytes(), reader.pos(), 0, kept as nat);
    }
    Ok(kept)
}

proof fn lemma_kept_bound(d: Seq<u8>, p: int, n: nat, kept: nat)
    ensures
        kept_from(d, p, n, kept) matches Ok((_, k)) ==> kept <= k <= kept + n,
    decreases n,
{
    if n > 0 {
        match flag_at(d, p) {
            Err(_) => {},
            Ok((used, q)) => {
                lemma_kept_bound(d, q, (n - 1) as nat, kept + 1);
                lemma_kept_bound(d, q, (n - 1) as nat, kept);
                match flag_at(d, q) {
                    Err(_) => {},
                    Ok((_, q2)) => {
                        lemma_kept_bound(d, q2, (n - 1) as nat, kept + 1);
                        lemma_kept_bound(d, q2, (n - 1) as nat, kept);
                    },
                }
            },
        }
    }
}

/// Skips one `st_ref_pic_set(idx)` of an SPS, the set before it holding
/// `ref_count` pictures; returns how many pictures this set holds.
fn skip_short_term_ref_pic_set(reader: &mut BitReader, idx: u8, ref_count: u32) -> (r: Result<
    u32,
    BitstreamError,
>)
    requires
        old(reader).wf(),
        ref_count < u32::MAX,
    ensures
        final(reader).wf(),
        final(reader).bytes() == old(reader).bytes(),
        match st_rps_at(old(reader).bytes(), old(reader).pos(), idx as nat, ref_count as nat) {
            Ok((q, c)) => r == Ok::<u32, BitstreamError>(c as u32) && c <= ref_count + 1 + 2
                * MAX_SET_PICTURES && final(reader).pos() == q,
            Err(e) => r == Err::<u32, BitstreamError>(e),
        },
{
    let inter_ref_pic_set_prediction = if idx > 0 {
        reader.read_flag()?
    } else {
        false
    };
    if inter_ref_pic_set_prediction {
        reader.read_flag()?;
        reader.read_ue()?;
        skip_kept_entries(reader, ref_count + 1)
    } else {
        let num_negative = reader.read_ue_max(MAX_SET_PICTURES)?;
        let num_positive = reader.read_ue_max(MAX_SET_PICTURES)?;
        skip_pairs(reader, num_negative)?;
        skip_pairs(reader, num_positive)?;
        Ok(num_negative + num_positive)
    }
}

/// What the decoder relies on in a stored SPS.
pub open spec fn sps_valid(s: HevcSps) -> bool {
    &&& s.sps_id < MAX_VPS_SPS
    &&& s.vps_id < MAX_VPS_SPS
    &&& 1 <= s.max_sub_layers <= 8
    &&& s.chroma_format_idc <= 3
    &&& s.pic_width <= MAX_PIC_DIMENSION
    &&& s.pic_height <= MAX_PIC_DIMENSION
    &&& 8 <= s.bit_depth_luma <= 16
    &&& 8 <= s.bit_depth_chroma <= 16
    &&& 4 <= s.log2_max_poc_lsb <= 16
    &&& 3 <= s.log2_min_luma_coding_block_size <= 6
    &&& s.log2_diff_max_min_luma_coding_block_size <= 3
}

/// `v[from..]` as a new vector.
fn copy_from(v: &Vec<u8>, from: usize) -> (r: Vec<u8>)
    requires
        from <= v@.len(),
    ensures
        r@ == v@.subrange(from as int, v@.len() as int),
{
    let mut out: Vec<u8> = Vec::new();
    let mut i: usize = from;
    while i < v.len()
        invariant
            from <= i <= v@.len(),
            out@ == v@.subrange(from as int, i as int),
        decreases v@.len() - i,
    {
        out.push(v[i]);
        i = i + 1;
        proof {
            assert(out@ =~= v@.subrange(from as int, i as int));
        }
    }
    out
}

/// The SPS fields after `profile_tier_level` at `p`, up to the POC size, as
/// coded: the SPS id, `chroma_format_idc`, width, height,
/// `bit_depth_luma_minus8`, `bit_depth_chroma_minus8`,
/// `log2_max_pic_order_cnt_lsb_minus4`, and the position after them.
pub open spec fn sps_format(d: Seq<u8>, p: int) -> Result<
    (nat, nat, nat, nat, nat, nat, nat, int),
    BitstreamError,
> {
    match ue_max_at(d, p, 15) {
        Err(e) => Err(e),
        Ok((sps_id, p1)) => match ue_max_at(d, p1, 3) {
            Err(e) => Err(e),
            Ok((chroma, p2)) => match (if chroma == 3 {
                match flag_at(d, p2) {
                    Err(e) => Err(e),
                    Ok((_, q)) => Ok(q),
                }
            } else {
                Ok(p2)
            }) {
                Err(e) => Err(e),
                Ok(p3) => match ue_max_at(d, p3, MAX_PIC_DIMENSION as nat) {
                    Err(e) => Err(e),
                    Ok((width, p4)) => match ue_max_at(d, p4, MAX_PIC_DIMENSION as nat) {
                        Err(e) => Err(e),
                        Ok((height, p5)) => match flag_at(d, p5) {
                            Err(e) => Err(e),
                            Ok((window, p6)) => match (if window {
                                codes_at(d, p6, 4)
                            } else {
                                Ok(p6)
                            }) {
                                Err(e) => Err(e),
                                Ok(p7) => match ue_max_at(d, p7, 8) {
                                    Err(e) => Err(e),
                                    Ok((luma, p8)) => match ue_max_at(d, p8, 8) {
                                        Err(e) => Err(e),
                                        Ok((chroma_depth, p9)) => match ue_max_at(d, p9, 12) {
                                            Err(e) => Err(e),
                                            Ok((poc, p10)) => Ok(
                                                (sps_id, chroma, width, height, luma, chroma_depth, poc, p10),
                                            ),
                                        },
                                    },
                                },
                            },
                        },
                    },
                },
            },
        },
    }
}

/// Position after the SPS coding-structure fields at `p`: sub-layer ordering
/// (three codes for each sub-layer listed), block sizes, scaling list, AMP,
/// SAO and PCM.
pub open spec fn sps_coding(d: Seq<u8>, p: int, max_sub_layers: nat) -> Result<int, BitstreamError> {
    match flag_at(d, p) {
        Err(e) => Err(e),
        Ok((ordering, p1)) => match codes_at(
            d,
            p1,
            3 * (if ordering {
                max_sub_layers
            } else {
                1
            }),
        ) {
            Err(e) => Err(e),
            Ok(p2) => match ue_max_at(d, p2, 3) {
                Err(e) => Err(e),
                Ok((_, p3)) => match ue_max_at(d, p3, 3) {
                    Err(e) => Err(e),
                    Ok((_, p4)) => match ue_max_at(d, p4, 3) {
                        Err(e) => Err(e),
                        Ok((_, p5)) => match ue_max_at(d, p5, 3) {
                            Err(e) => Err(e),
                            Ok((_, p6)) => match ue_max_at(d, p6, 4) {
                                Err(e) => Err(e),
                                Ok((_, p7)) => match ue_max_at(d, p7, 4) {
                                    Err(e) => Err(e),
                                    Ok((_, p8)) => match flag_at(d, p8) {
                                        Err(e) => Err(e),
                                        Ok((scaling, p9)) => match (if scaling {
                                            match flag_at(d, p9) {
                                                Err(e) => Err(e),
                                                Ok((present, q)) => if present {
                                                    scaling_from(d, q, 0)
                                                } else {
                                                    Ok(q)
                                                },
                                            }
                                        } else {
                                            Ok(p9)
                                        }) {
                                            Err(e) => Err(e),
                                            Ok(p10) => match bits_at(d, p10, 2) {
                                                Err(e) => Err(e),
                                                Ok((_, p11)) => match flag_at(d, p11) {
                                                    Err(e) => Err(e),
                                                    Ok((pcm, p12)) => if !pcm {
                                                        Ok(p12)
                                                    } else {
                                                        match bits_at(d, p12, 8) {
                                                            Err(e) => Err(e),
                                                            Ok((_, a)) => match ue_max_at(d, a, 2) {
                                                                Err(e) => Err(e),
                                                                Ok((_, b)) => match ue_max_at(d, b, 2) {
                                                                    Err(e) => Err(e),
                                                                    Ok((_, c)) => match bits_at(d, c, 1) {
                                                                        Err(e) => Err(e),
                                                                        Ok((_, e2)) => Ok(e2),
                                                                    },
                                                                },
                                                            },
                                                        }
                                                    },
                                                },
                                            },
                                        },
                                    },
                                },
                            },
                        },
                    },
                },
            },
        },
    }
}

/// Position after the reference-picture fields at `p` and the last two
/// flags; long-term entries are `poc_bits` bits and a flag each.
pub open spec fn sps_refs(d: Seq<u8>, p: int, poc_bits: nat) -> Result<int, BitstreamError> {
    match ue_max_at(d, p, 64) {
        Err(e) => Err(e),
        Ok((num, p1)) => match st_rps_from(d, p1, 0, num, 0) {
            Err(e) => Err(e),
            Ok(p2) => match flag_at(d, p2) {
                Err(e) => Err(e),
                Ok((long_term, p3)) => match (if long_term {
                    match ue_max_at(d, p3, 32) {
                        Err(e) => Err(e),
                        Ok((n, a)) => match bits_at(d, a, n * (poc_bits + 1)) {
                            Err(e) => Err(e),
                            Ok((_, b)) => Ok(b),
                        },
                    }
                } else {
                    Ok(p3)
                }) {
                    Err(e) => Err(e),
                    Ok(p4) => match bits_at(d, p4, 2) {
                        Err(e) => Err(e),
                        Ok((_, p5)) => Ok(p5),
                    },
                },
            },
        },
    }
}

/// The coded SPS fields up to the POC size (see `sps_format`), read after
/// the fixed header and `profile_tier_level`.
pub open spec fn sps_format_of(d: Seq<u8>) -> Result<(nat, nat, nat, nat, nat, nat, nat, int), BitstreamError> {
    if nbits(d) < 8 {
        Err(BitstreamError::EndOfData)
    } else {
        match ptl_end(d, 8, true, bits_val(d, 4, 3) + 1) {
            Err(e) => Err(e),
            Ok(p) => sps_format(d, p),
        }
    }
}

/// The stored SPS holds the fields that were coded.
pub open spec fn sps_fields_match(s: HevcSps, d: Seq<u8>) -> bool {
    sps_format_of(d) matches Ok((id, chroma, width, height, luma, chroma_depth, poc, _)) && s.sps_id
        == id && s.chroma_format_idc == chroma && s.pic_width == width && s.pic_height == height
        && s.bit_depth_luma == luma + 8 && s.bit_depth_chroma == chroma_depth + 8
        && s.log2_max_poc_lsb == poc + 4
}

/// An SPS payload read in full: its id, or why it cannot be read.
pub open spec fn sps_syntax(d: Seq<u8>) -> Result<nat, BitstreamError> {
    if nbits(d) < 8 {
        Err(BitstreamError::EndOfData)
    } else {
        match ptl_end(d, 8, true, bits_val(d, 4, 3) + 1) {
            Err(e) => Err(e),
            Ok(p) => match sps_format(d, p) {
                Err(e) => Err(e),
                Ok((sps_id, _, _, _, _, _, poc, q)) => match sps_coding(d, q, bits_val(d, 4, 3) + 1) {
                    Err(e) => Err(e),
                    Ok(q2) => match sps_refs(d, q2, poc + 4) {
                        Err(e) => Err(e),
                        Ok(_) => Ok(sps_id),
                    },
                },
            },
        }
    }
}

/// The fields an SPS stage must leave as they were.
pub open spec fn sps_kept(a: HevcSps, b: HevcSps) -> bool {
    &&& a.sps_id == b.sps_id
    &&& a.vps_id == b.vps_id
    &&& a.max_sub_layers == b.max_sub_layers
    &&& a.raw_data == b.raw_data
}

#[verifier::rlimit(80)]
fn read_sps_format(reader: &mut BitReader, sps: &mut HevcSps) -> (r: Result<(), BitstreamError>)
    requires
        old(reader).wf(),
    ensures
        final(reader).wf(),
        final(reader).bytes() == old(reader).bytes(),
        final(sps).vps_id == old(sps).vps_id,
        final(sps).max_sub_layers == old(sps).max_sub_layers,
        final(sps).raw_data == old(sps).raw_data,
        match sps_format(old(reader).bytes(), old(reader).pos()) {
            Ok((sps_id, chroma, width, height, luma, chroma_depth, poc, q)) => {
                &&& r is Ok
                &&& final(reader).pos() == q
                &&& final(sps).sps_id == sps_id
                &&& final(sps).chroma_format_idc == chroma
                &&& final(sps).pic_width == width
                &&& final(sps).pic_height == height
                &&& final(sps).bit_depth_luma == luma + 8
                &&& final(sps).bit_depth_chroma == chroma_depth + 8
                &&& final(sps).log2_max_poc_lsb == poc + 4
                &&& final(sps).chroma_format_idc <= 3
                &&& final(sps).pic_width <= MAX_PIC_DIMENSION
                &&& final(sps).pic_height <= MAX_PIC_DIMENSION
                &&& 8 <= final(sps).bit_depth_luma <= 16
                &&& 8 <= final(sps).bit_depth_chroma <= 16
            },
            Err(e) => r == Err::<(), BitstreamError>(e),
        },
{
    let sps_id = reader.read_ue_max(15)?;
    let chroma_format_idc = reader.read_ue_max(3)?;
    let separate_colour_plane = if chroma_format_idc == 3 {
        reader.read_flag()?
    } else {
        false
    };
    let pic_width = reader.read_ue_max(MAX_PIC_DIMENSION)?;
    let pic_height = reader.read_ue_max(MAX_PIC_DIMENSION)?;
    let conformance_window = reader.read_flag()?;
    if conformance_window {
        reader.skip_codes(4)?;
    }
    let bit_depth_luma = reader.read_ue_max(8)?;
    let bit_depth_chroma = reader.read_ue_max(8)?;
    let log2_max_poc_lsb = reader.read_ue_max(12)?;
    sps.sps_id = sps_id as u8;
    sps.chroma_format_idc = chroma_format_idc as u8;
    sps.separate_colour_plane = separate_colour_plane;
    sps.pic_width = pic_width;
    sps.pic_height = pic_height;
    sps.bit_depth_luma = bit_depth_luma as u8 + 8;
    sps.bit_depth_chroma = bit_depth_chroma as u8 + 8;
    sps.log2_max_poc_lsb = log2_max_poc_lsb as u8 + 4;
    Ok(())
}

#[verifier::rlimit(80)]
fn read_sps_coding(reader: &mut BitReader, sps: &mut HevcSps) -> (r: Result<(), BitstreamError>)
    requires
        old(reader).wf(),
        1 <= old(sps).max_sub_layers <= 8,
    ensures
        final(reader).wf(),
        final(reader).bytes() == old(reader).bytes(),
        sps_kept(*final(sps), *old(sps)),
        final(sps).chroma_format_idc == old(sps).chroma_format_idc,
        final(sps).pic_width == old(sps).pic_width,
        final(sps).pic_height == old(sps).pic_height,
        final(sps).bit_depth_luma == old(sps).bit_depth_luma,
        final(sps).bit_depth_chroma == old(sps).bit_depth_chroma,
        final(sps).log2_max_poc_lsb == old(sps).log2_max_poc_lsb,
        match sps_coding(old(reader).bytes(), old(reader).pos(), old(sps).max_sub_layers as nat) {
            Ok(q) => {
                &&& r is Ok
                &&& final(reader).pos() == q
                &&& 3 <= final(sps).log2_min_luma_coding_block_size <= 6
                &&& final(sps).log2_diff_max_min_luma_coding_block_size <= 3
            },
            Err(e) => r == Err::<(), BitstreamError>(e),
        },
{
    let sub_layer_ordering = reader.read_flag()?;
    let listed: u32 = if sub_layer_ordering {
        sps.max_sub_layers as u32
    } else {
        1
    };
    reader.skip_codes(3 * listed)?;
    let min_cb = reader.read_ue_max(3)?;
    let diff_cb = reader.read_ue_max(3)?;
    let min_tb = reader.read_ue_max(3)?;
    let diff_tb = reader.read_ue_max(3)?;
    let depth_inter = reader.read_ue_max(4)?;
    let depth_intra = reader.read_ue_max(4)?;
    let scaling_list_enabled = reader.read_flag()?;
    if scaling_list_enabled {
        let scaling_list_data_present = reader.read_flag()?;
        if scaling_list_data_present {
            skip_scaling_list_data(reader)?;
        }
    }
    let amp_enabled = reader.read_flag()?;
    let sample_adaptive_offset_enabled = reader.read_flag()?;
    let pcm_enabled = reader.read_flag()?;
    let mut pcm_luma: u32 = 0;
    let mut pcm_chroma: u32 = 0;
    let mut pcm_min: u32 = 0;
    let mut pcm_diff: u32 = 0;
    let mut pcm_loop_filter_disabled = false;
    if pcm_enabled {
        let luma = reader.read_bits(4)?;
        let chroma = reader.read_bits(4)?;
        proof {
            vstd::arithmetic::power2::lemma2_to64();
        }
        pcm_luma = luma + 1;
        pcm_chroma = chroma + 1;
        pcm_min = reader.read_ue_max(2)? + 3;
        pcm_diff = reader.read_ue_max(2)?;
        pcm_loop_filter_disabled = reader.read_flag()?;
    }
    sps.log2_min_luma_coding_block_size = min_cb as u8 + 3;
    sps.log2_diff_max_min_luma_coding_block_size = diff_cb as u8;
    sps.log2_min_luma_transform_block_size = min_tb as u8 + 2;
    sps.log2_diff_max_min_luma_transform_block_size = diff_tb as u8;
    sps.max_transform_hierarchy_depth_inter = depth_inter as u8;
    sps.max_transform_hierarchy_depth_intra = depth_intra as u8;
    sps.scaling_list_enabled = scaling_list_enabled;
    sps.amp_enabled = amp_enabled;
    sps.sample_adaptive_offset_enabled = sample_adaptive_offset_enabled;
    sps.pcm_enabled = pcm_enabled;
    sps.pcm_sample_bit_depth_luma = pcm_luma as u8;
    sps.pcm_sample_bit_depth_chroma = pcm_chroma as u8;
    sps.log2_min_pcm_luma_coding_block_size = pcm_min as u8;
    sps.log2_diff_max_min_pcm_luma_coding_block_size = pcm_diff as u8;
    sps.pcm_loop_filter_disabled = pcm_loop_filter_disabled;
    Ok(())
}

/// Skips the `num` short-term reference picture sets of an SPS.
fn skip_st_rps_sets(reader: &mut BitReader, num_sets: u8) -> (r: Result<(), BitstreamError>)
    requires
        old(reader).wf(),
    ensures
        final(reader).wf(),
        final(reader).bytes() == old(reader).bytes(),
        match st_rps_from(old(reader).bytes(), old(reader).pos(), 0, num_sets as nat, 0) {
            Ok(q) => r is Ok && final(reader).pos() == q,
            Err(e) => r == Err::<(), BitstreamError>(e),
        },
{
    let mut count: u32 = 0;
    let mut i: u8 = 0;
    while i < num_sets
        invariant
            reader.wf(),
            reader.bytes() == old(reader).bytes(),
            i <= num_sets,
            count <= 33 * i,
            st_rps_from(old(reader).bytes(), old(reader).pos(), 0, num_sets as nat, 0)
                == st_rps_from(reader.bytes(), reader.pos(), i as nat, num_sets as nat, count as nat),
        decreases num_sets - i,
    {
        count = skip_short_term_ref_pic_set(reader, i, count)?;
        i = i + 1;
    }
    Ok(())
}

/// Skips `num` long-term entries of `poc_bits` bits and a flag each.
fn skip_long_term_entries(reader: &mut BitReader, num: u32, poc_bits: u32) -> (r: Result<
    (),
    BitstreamError,
>)
    requires
        old(reader).wf(),
        num <= 32,
        poc_bits <= 16,
    ensures
        final(reader).wf(),
        final(reader).bytes() == old(reader).bytes(),
        match bits_at(old(reader).bytes(), old(reader).pos(), (num * (poc_bits + 1)) as nat) {
            Ok((_, q)) => r is Ok && final(reader).pos() == q,
            Err(e) => r == Err::<(), BitstreamError>(e),
        },
{
    let ghost a = reader.pos();
    let mut k: u32 = 0;
    while k < num
        invariant
            reader.wf(),
            reader.bytes() == old(reader).bytes(),
            a == old(reader).pos(),
            k <= num <= 32,
            poc_bits <= 16,
            reader.pos() == a + k * (poc_bits + 1),
        decreases num - k,
    {
        proof {
            assert((k + 1) * (poc_bits + 1) <= num * (poc_bits + 1)) by (nonlinear_arith)
                requires
                    k + 1 <= num,
            ;
            assert(a + k * (poc_bits + 1) + poc_bits + 1 == a + (k + 1) * (poc_bits + 1))
                by (nonlinear_arith);
        }
        reader.skip_bits(poc_bits)?;
        reader.read_bit()?;
        k = k + 1;
    }
    proof {
        reader.lemma_pos_bound();
    }
    Ok(())
}

#[verifier::rlimit(80)]
fn read_sps_refs(reader: &mut BitReader, sps: &mut HevcSps) -> (r: Result<(), BitstreamError>)
    requires
        old(reader).wf(),
        4 <= old(sps).log2_max_poc_lsb <= 16,
    ensures
        final(reader).wf(),
        final(reader).bytes() == old(reader).bytes(),
        sps_kept(*final(sps), *old(sps)),
        final(sps).chroma_format_idc == old(sps).chroma_format_idc,
        final(sps).pic_width == old(sps).pic_width,
        final(sps).pic_height == old(sps).pic_height,
        final(sps).bit_depth_luma == old(sps).bit_depth_luma,
        final(sps).bit_depth_chroma == old(sps).bit_depth_chroma,
        final(sps).log2_max_poc_lsb == old(sps).log2_max_poc_lsb,
        final(sps).log2_min_luma_coding_block_size == old(sps).log2_min_luma_coding_block_size,
        final(sps).log2_diff_max_min_luma_coding_block_size == old(
            sps,
        ).log2_diff_max_min_luma_coding_block_size,
        match sps_refs(old(reader).bytes(), old(reader).pos(), old(sps).log2_max_poc_lsb as nat) {
            Ok(q) => r is Ok && final(reader).pos() == q,
            Err(e) => r == Err::<(), BitstreamError>(e),
        },
{
    let num_sets = reader.read_ue_max(64)? as u8;
    skip_st_rps_sets(reader, num_sets)?;
    let long_term_ref_pics_present = reader.read_flag()?;
    let mut num_long_term: u8 = 0;
    if long_term_ref_pics_present {
        let num = reader.read_ue_max(32)?;
        skip_long_term_entries(reader, num, sps.log2_max_poc_lsb as u32)?;
        num_long_term = num as u8;
    }
    let temporal_mvp_enabled = reader.read_flag()?;
    let strong_intra_smoothing_enabled = reader.read_flag()?;
    sps.num_short_term_ref_pic_sets = num_sets;
    sps.long_term_ref_pics_present = long_term_ref_pics_present;
    sps.num_long_term_ref_pics_sps = num_long_term;
    sps.temporal_mvp_enabled = temporal_mvp_enabled;
    sps.strong_intra_smoothing_enabled = strong_intra_smoothing_enabled;
    Ok(())
}

/// Reads the fields of an SPS payload from its first bit.
fn read_sps(reader: &mut BitReader, raw_data: Vec<u8>) -> (r: Result<HevcSps, BitstreamError>)
    requires
        old(reader).wf(),
        old(reader).pos() == 0,
    ensures
        final(reader).wf(),
        final(reader).bytes() == old(reader).bytes(),
        match sps_syntax(old(reader).bytes()) {
            Ok(sps_id) => r matches Ok(s) && s.sps_id == sps_id,
            Err(e) => r == Err::<HevcSps, BitstreamError>(e),
        },
        r matches Ok(s) ==> {
            &&& sps_valid(s)
            &&& sps_fields_match(s, old(reader).bytes())
            &&& s.vps_id == bits_val(old(reader).bytes(), 0, 4)
            &&& s.max_sub_layers == bits_val(old(reader).bytes(), 4, 3) + 1
            &&& s.raw_data == raw_data
        },
{
    let vps_id = reader.read_bits(4)?;
    let max_sub_layers_minus1 = reader.read_bits(3)?;
    proof {
        crate::bitreader::lemma_bits_val_bound(old(reader).bytes(), 0, 4);
        crate::bitreader::lemma_bits_val_bound(old(reader).bytes(), 4, 3);
        vstd::arithmetic::power2::lemma2_to64();
    }
    let max_sub_layers: u8 = max_sub_layers_minus1 as u8 + 1;
    let _temporal_id_nesting = reader.read_bit()?;
    skip_profile_tier_level(reader, true, max_sub_layers)?;
    let mut sps = HevcSps {
        sps_id: 0,
        vps_id: vps_id as u8,
        max_sub_layers,
        chroma_format_idc: 0,
        separate_colour_plane: false,
        pic_width: 0,
        pic_height: 0,
        bit_depth_luma: 8,
        bit_depth_chroma: 8,
        log2_max_poc_lsb: 4,
        num_short_term_ref_pic_sets: 0,
        long_term_ref_pics_present: false,
        num_long_term_ref_pics_sps: 0,
        temporal_mvp_enabled: false,
        strong_intra_smoothing_enabled: false,
        scaling_list_enabled: false,
        amp_enabled: false,
        sample_adaptive_offset_enabled: false,
        pcm_enabled: false,
        pcm_sample_bit_depth_luma: 0,
        pcm_sample_bit_depth_chroma: 0,
        log2_min_pcm_luma_coding_block_size: 0,
        log2_diff_max_min_pcm_luma_coding_block_size: 0,
        pcm_loop_filter_disabled: false,
        log2_min_luma_coding_block_size: 3,
        log2_diff_max_min_luma_coding_block_size: 0,
        log2_min_luma_transform_block_size: 2,
        log2_diff_max_min_luma_transform_block_size: 0,
        max_transform_hierarchy_depth_inter: 0,
        max_transform_hierarchy_depth_intra: 0,
        raw_data,
    };
    read_sps_format(reader, &mut sps)?;
    read_sps_coding(reader, &mut sps)?;
    read_sps_refs(reader, &mut sps)?;
    Ok(sps)
}

/// The PPS fields up to the tiles: its id, its SPS id, the coded
/// `num_ref_idx_l0/l1_default_active_minus1` and `init_qp_minus26`, whether
/// tiles are enabled, and the position after
/// `entropy_coding_sync_enabled_flag`.
pub open spec fn pps_head(d: Seq<u8>) -> Result<(nat, nat, nat, nat, int, bool, int), BitstreamError> {
    match ue_max_at(d, 0, 63) {
        Err(e) => Err(e),
        Ok((pps_id, p1)) => match ue_max_at(d, p1, 15) {
            Err(e) => Err(e),
            Ok((sps_id, p2)) => match bits_at(d, p2, 7) {
                Err(e) => Err(e),
                Ok((_, p3)) => match ue_max_at(d, p3, 14) {
                    Err(e) => Err(e),
                    Ok((l0, p4)) => match ue_max_at(d, p4, 14) {
                        Err(e) => Err(e),
                        Ok((l1, p5)) => match se_range_at(d, p5, -100, 100) {
                            Err(e) => Err(e),
                            Ok((qp, p6)) => match bits_at(d, p6, 2) {
                                Err(e) => Err(e),
                                Ok((_, p7)) => match flag_at(d, p7) {
                                    Err(e) => Err(e),
                                    Ok((cu_qp_delta, p8)) => match (if cu_qp_delta {
                                        ue_max_at(d, p8, 6)
                                    } else {
                                        Ok((0nat, p8))
                                    }) {
                                        Err(e) => Err(e),
                                        Ok((_, p9)) => match se_range_at(d, p9, -12, 12) {
                                            Err(e) => Err(e),
                                            Ok((_, p10)) => match se_range_at(d, p10, -12, 12) {
                                                Err(e) => Err(e),
                                                Ok((_, p11)) => match bits_at(d, p11, 4) {
                                                    Err(e) => Err(e),
                                                    Ok((_, p12)) => match flag_at(d, p12) {
                                                        Err(e) => Err(e),
                                                        Ok((tiles, p13)) => match bits_at(d, p13, 1) {
                                                            Err(e) => Err(e),
                                                            Ok((_, p14)) => Ok((pps_id, sps_id, l0, l1, qp, tiles, p14)),
                                                        },
                                                    },
                                                },
                                            },
                                        },
                                    },
                                },
                            },
                        },
                    },
                },
            },
        },
    }
}

/// Position after the tile layout at `p`, present only when tiles are on.
pub open spec fn pps_tiles(d: Seq<u8>, p: int, tiles: bool) -> Result<int, BitstreamError> {
    if !tiles {
        Ok(p)
    } else {
        match ue_max_at(d, p, 1000) {
            Err(e) => Err(e),
            Ok((cols, q1)) => match ue_max_at(d, q1, 1000) {
                Err(e) => Err(e),
                Ok((rows, q2)) => match flag_at(d, q2) {
                    Err(e) => Err(e),
                    Ok((uniform, q3)) => match (if uniform {
                        Ok(q3)
                    } else {
                        match codes_at(d, q3, cols) {
                            Err(e) => Err(e),
                            Ok(q) => codes_at(d, q, rows),
                        }
                    }) {
                        Err(e) => Err(e),
                        Ok(q4) => match flag_at(d, q4) {
                            Err(e) => Err(e),
                            Ok((_, q5)) => Ok(q5),
                        },
                    },
                },
            },
        }
    }
}

/// Position after the loop-filter and deblocking fields at `p`.
pub open spec fn pps_deblocking(d: Seq<u8>, p: int) -> Result<int, BitstreamError> {
    match bits_at(d, p, 1) {
        Err(e) => Err(e),
        Ok((_, q1)) => match flag_at(d, q1) {
            Err(e) => Err(e),
            Ok((control, q2)) => if !control {
                Ok(q2)
            } else {
                match bits_at(d, q2, 1) {
                    Err(e) => Err(e),
                    Ok((_, a)) => match flag_at(d, a) {
                        Err(e) => Err(e),
                        Ok((disabled, b)) => if disabled {
                            Ok(b)
                        } else {
                            match se_range_at(d, b, -6, 6) {
                                Err(e) => Err(e),
                                Ok((_, c)) => match se_range_at(d, c, -6, 6) {
                                    Err(e) => Err(e),
                                    Ok((_, e2)) => Ok(e2),
                                },
                            }
                        },
                    },
                }
            },
        },
    }
}

/// Position after the last PPS fields at `p`: the scaling list when the SPS
/// enables one, list modification, merge level and the extension flag.
pub open spec fn pps_end(d: Seq<u8>, p: int, scaling: bool) -> Result<int, BitstreamError> {
    match (if !scaling {
        Ok(p)
    } else {
        match flag_at(d, p) {
            Err(e) => Err(e),
            Ok((present, a)) => if present {
                scaling_from(d, a, 0)
            } else {
                Ok(a)
            },
        }
    }) {
        Err(e) => Err(e),
        Ok(q4) => match bits_at(d, q4, 1) {
            Err(e) => Err(e),
            Ok((_, a)) => match ue_max_at(d, a, 8) {
                Err(e) => Err(e),
                Ok((_, b)) => match bits_at(d, b, 1) {
                    Err(e) => Err(e),
                    Ok((_, c)) => Ok(c),
                },
            },
        },
    }
}

/// Position after the rest of a PPS at `p`.
pub open spec fn pps_tail(d: Seq<u8>, p: int, scaling: bool) -> Result<int, BitstreamError> {
    match pps_deblocking(d, p) {
        Err(e) => Err(e),
        Ok(q) => pps_end(d, q, scaling),
    }
}

/// The stored PPS holds the fields that were coded, and one tile when tiles
/// are off.
pub open spec fn pps_fields_match(p: HevcPps, d: Seq<u8>) -> bool {
    pps_head(d) matches Ok((_, _, l0, l1, qp, tiles, _)) && p.num_ref_idx_l0_default_active == l0 + 1
        && p.num_ref_idx_l1_default_active == l1 + 1 && p.init_qp == qp + 26 && p.tiles_enabled
        == tiles && (!tiles ==> p.num_tile_columns == 1 && p.num_tile_rows == 1)
}

/// Whether the SPS stored under `id` enables scaling lists.
pub open spec fn scaling_enabled(table: Seq<Option<HevcSps>>, id: nat) -> bool {
    table[id as int] matches Some(s) && s.scaling_list_enabled
}

/// A PPS payload read in full: its id and its SPS id, or why it cannot be
/// read.
pub open spec fn pps_syntax(d: Seq<u8>, table: Seq<Option<HevcSps>>) -> Result<
    (nat, nat),
    BitstreamError,
> {
    match pps_head(d) {
        Err(e) => Err(e),
        Ok((pps_id, sps_id, _, _, _, tiles, p)) => match pps_tiles(d, p, tiles) {
            Err(e) => Err(e),
            Ok(q) => match pps_tail(d, q, scaling_enabled(table, sps_id)) {
                Err(e) => Err(e),
                Ok(_) => Ok((pps_id, sps_id)),
            },
        },
    }
}

#[verifier::rlimit(80)]
fn read_pps_head(reader: &mut BitReader, raw_data: Vec<u8>) -> (r: Result<HevcPps, BitstreamError>)
    requires
        old(reader).wf(),
        old(reader).pos() == 0,
    ensures
        final(reader).wf(),
        final(reader).bytes() == old(reader).bytes(),
        match pps_head(old(reader).bytes()) {
            Ok((pps_id, sps_id, l0, l1, qp, tiles, q)) => {
                &&& final(reader).pos() == q
                &&& r matches Ok(p)
                &&& p.pps_id == pps_id
                &&& p.sps_id == sps_id
                &&& p.num_ref_idx_l0_default_active == l0 + 1
                &&& p.num_ref_idx_l1_default_active == l1 + 1
                &&& p.init_qp == qp + 26
                &&& p.num_tile_columns == 1 && p.num_tile_rows == 1 && p.uniform_spacing
                &&& p.tiles_enabled == tiles
                &&& p.raw_data == raw_data
            },
            Err(e) => r == Err::<HevcPps, BitstreamError>(e),
        },
{
    let pps_id = reader.read_ue_max(63)? as u8;
    let sps_id = reader.read_ue_max(15)? as u8;
    let dependent_slice_segments_enabled = reader.read_flag()?;
    let output_flag_present = reader.read_flag()?;
    let extra_bits = reader.read_bits(3)?;
    proof {
        vstd::arithmetic::power2::lemma2_to64();
    }
    let num_extra_slice_header_bits = extra_bits as u8;
    let sign_data_hiding_enabled = reader.read_flag()?;
    let cabac_init_present = reader.read_flag()?;
    let num_ref_idx_l0_default_active = reader.read_ue_max(14)? as u8 + 1;
    let num_ref_idx_l1_default_active = reader.read_ue_max(14)? as u8 + 1;
    let init_qp = (reader.read_se_range(-100, 100)? + 26) as i8;
    let constrained_intra_pred = reader.read_flag()?;
    let transform_skip_enabled = reader.read_flag()?;
    let cu_qp_delta_enabled = reader.read_flag()?;
    let diff_cu_qp_delta_depth = if cu_qp_delta_enabled {
        reader.read_ue_max(6)? as u8
    } else {
        0
    };
    let cb_qp_offset = reader.read_se_range(-12, 12)? as i8;
    let cr_qp_offset = reader.read_se_range(-12, 12)? as i8;
    let slice_chroma_qp_offsets_present = reader.read_flag()?;
    let weighted_pred = reader.read_flag()?;
    let weighted_bipred = reader.read_flag()?;
    let transquant_bypass_enabled = reader.read_flag()?;
    let tiles_enabled = reader.read_flag()?;
    let entropy_coding_sync_enabled = reader.read_flag()?;
    Ok(
        HevcPps {
            pps_id,
            sps_id,
            dependent_slice_segments_enabled,
            output_flag_present,
            num_extra_slice_header_bits,
            sign_data_hiding_enabled,
            cabac_init_present,
            num_ref_idx_l0_default_active,
            num_ref_idx_l1_default_active,
            init_qp,
            constrained_intra_pred,
            transform_skip_enabled,
            cu_qp_delta_enabled,
            diff_cu_qp_delta_depth,
            cb_qp_offset,
            cr_qp_offset,
            slice_chroma_qp_offsets_present,
            weighted_pred,
            weighted_bipred,
            transquant_bypass_enabled,
            tiles_enabled,
            entropy_coding_sync_enabled,
            num_tile_columns: 1,
            num_tile_rows: 1,
            uniform_spacing: true,
            loop_filter_across_tiles_enabled: false,
            loop_filter_across_slices_enabled: false,
            deblocking_filter_control_present: false,
            deblocking_filter_override_enabled: false,
            deblocking_filter_disabled: false,
            beta_offset: 0,
            tc_offset: 0,
            lists_modification_present: false,
            log2_parallel_merge_level: 2,
            slice_segment_header_extension_present: false,
            raw_data,
        },
    )
}

#[verifier::rlimit(80)]
fn read_pps_tiles(reader: &mut BitReader, pps: &mut HevcPps) -> (r: Result<(), BitstreamError>)
    requires
        old(reader).wf(),
    ensures
        final(reader).wf(),
        final(reader).bytes() == old(reader).bytes(),
        final(pps).pps_id == old(pps).pps_id,
        final(pps).sps_id == old(pps).sps_id,
        final(pps).raw_data == old(pps).raw_data,
        final(pps).num_ref_idx_l0_default_active == old(pps).num_ref_idx_l0_default_active,
        final(pps).num_ref_idx_l1_default_active == old(pps).num_ref_idx_l1_default_active,
        final(pps).init_qp == old(pps).init_qp,
        final(pps).tiles_enabled == old(pps).tiles_enabled,
        !old(pps).tiles_enabled ==> final(pps).num_tile_columns == old(pps).num_tile_columns
            && final(pps).num_tile_rows == old(pps).num_tile_rows,
        match pps_tiles(old(reader).bytes(), old(reader).pos(), old(pps).tiles_enabled) {
            Ok(q) => r is Ok && final(reader).pos() == q,
            Err(e) => r == Err::<(), BitstreamError>(e),
        },
{
    if pps.tiles_enabled {
        let cols = reader.read_ue_max(1000)?;
        let rows = reader.read_ue_max(1000)?;
        let uniform = reader.read_flag()?;
        if !uniform {
            reader.skip_codes(cols)?;
            reader.skip_codes(rows)?;
        }
        pps.loop_filter_across_tiles_enabled = reader.read_flag()?;
        pps.num_tile_columns = cols as u16 + 1;
        pps.num_tile_rows = rows as u16 + 1;
        pps.uniform_spacing = uniform;
    }
    Ok(())
}

#[verifier::rlimit(80)]
fn read_pps_deblocking(reader: &mut BitReader, pps: &mut HevcPps) -> (r: Result<(), BitstreamError>)
    requires
        old(reader).wf(),
    ensures
        final(reader).wf(),
        final(reader).bytes() == old(reader).bytes(),
        final(pps).pps_id == old(pps).pps_id,
        final(pps).sps_id == old(pps).sps_id,
        final(pps).raw_data == old(pps).raw_data,
        final(pps).num_ref_idx_l0_default_active == old(pps).num_ref_idx_l0_default_active,
        final(pps).num_ref_idx_l1_default_active == old(pps).num_ref_idx_l1_default_active,
        final(pps).init_qp == old(pps).init_qp,
        final(pps).tiles_enabled == old(pps).tiles_enabled,
        final(pps).num_tile_columns == old(pps).num_tile_columns,
        final(pps).num_tile_rows == old(pps).num_tile_rows,
        match pps_deblocking(old(reader).bytes(), old(reader).pos()) {
            Ok(q) => r is Ok && final(reader).pos() == q,
            Err(e) => r == Err::<(), BitstreamError>(e),
        },
{
    let across_slices = reader.read_flag()?;
    let control = reader.read_flag()?;
    let mut override_enabled = false;
    let mut disabled = false;
    let mut beta: i32 = 0;
    let mut tc: i32 = 0;
    if control {
        override_enabled = reader.read_flag()?;
        disabled = reader.read_flag()?;
        if !disabled {
            beta = reader.read_se_range(-6, 6)?;
            tc = reader.read_se_range(-6, 6)?;
        }
    }
    pps.loop_filter_across_slices_enabled = across_slices;
    pps.deblocking_filter_control_present = control;
    pps.deblocking_filter_override_enabled = override_enabled;
    pps.deblocking_filter_disabled = disabled;
    pps.beta_offset = (beta * 2) as i8;
    pps.tc_offset = (tc * 2) as i8;
    Ok(())
}

#[verifier::rlimit(80)]
fn read_pps_end(reader: &mut BitReader, pps: &mut HevcPps, scaling: bool) -> (r: Result<
    (),
    BitstreamError,
>)
    requires
        old(reader).wf(),
    ensures
        final(reader).wf(),
        final(reader).bytes() == old(reader).bytes(),
        final(pps).pps_id == old(pps).pps_id,
        final(pps).sps_id == old(pps).sps_id,
        final(pps).raw_data == old(pps).raw_data,
        final(pps).num_ref_idx_l0_default_active == old(pps).num_ref_idx_l0_default_active,
        final(pps).num_ref_idx_l1_default_active == old(pps).num_ref_idx_l1_default_active,
        final(pps).init_qp == old(pps).init_qp,
        final(pps).tiles_enabled == old(pps).tiles_enabled,
        final(pps).num_tile_columns == old(pps).num_tile_columns,
        final(pps).num_tile_rows == old(pps).num_tile_rows,
        match pps_end(old(reader).bytes(), old(reader).pos(), scaling) {
            Ok(_) => r is Ok,
            Err(e) => r == Err::<(), BitstreamError>(e),
        },
{
    if scaling {
        let present = reader.read_flag()?;
        if present {
            skip_scaling_list_data(reader)?;
        }
    }
    let lists_modification = reader.read_flag()?;
    let merge_level = reader.read_ue_max(8)? as u8 + 2;
    let extension = reader.read_flag()?;
    pps.lists_modification_present = lists_modification;
    pps.log2_parallel_merge_level = merge_level;
    pps.slice_segment_header_extension_present = extension;
    Ok(())
}

impl HevcParser {
    /// Table sizes, and every stored set filed under its own id.
    pub open spec fn wf(&self) -> bool {
        &&& self.vps@.len() == MAX_VPS_SPS
        &&& self.sps@.len() == MAX_VPS_SPS
        &&& self.pps@.len() == MAX_PPS
        &&& forall|i: int|
            0 <= i < MAX_VPS_SPS && #[trigger] self.vps@[i] is Some ==> self.vps@[i]->Some_0.vps_id
                == i
        &&& forall|i: int|
            0 <= i < MAX_VPS_SPS && #[trigger] self.sps@[i] is Some ==> self.sps@[i]->Some_0.sps_id
                == i && sps_valid(self.sps@[i]->Some_0)
        &&& forall|i: int|
            0 <= i < MAX_PPS && #[trigger] self.pps@[i] is Some ==> self.pps@[i]->Some_0.pps_id == i
                && self.pps@[i]->Some_0.sps_id < MAX_VPS_SPS
    }

    /// An empty store.
    pub fn new() -> (r: Self)
        ensures
            r.wf(),
            forall|i: int| 0 <= i < MAX_VPS_SPS ==> r.vps@[i] is None && r.sps@[i] is None,
            forall|i: int| 0 <= i < MAX_PPS ==> r.pps@[i] is None,
    {
        let mut vps: Vec<Option<HevcVps>> = Vec::new();
        let mut sps: Vec<Option<HevcSps>> = Vec::new();
        let mut i: usize = 0;
        while i < MAX_VPS_SPS
            invariant
                i <= MAX_VPS_SPS,
                vps@.len() == i,
                sps@.len() == i,
                forall|j: int| 0 <= j < i ==> vps@[j] is None && sps@[j] is None,
            decreases MAX_VPS_SPS - i,
        {
            vps.push(None);
            sps.push(None);
            i = i + 1;
        }
        let mut pps: Vec<Option<HevcPps>> = Vec::new();
        let mut i: usize = 0;
        while i < MAX_PPS
            invariant
                i <= MAX_PPS,
                pps@.len() == i,
                forall|j: int| 0 <= j < i ==> pps@[j] is None,
            decreases MAX_PPS - i,
        {
            pps.push(None);
            i = i + 1;
        }
        HevcParser { vps, sps, pps }
    }

    /// Splits an Annex-B stream into NAL units; each call scans afresh.
    pub fn find_nal_units(&self, data: &[u8]) -> (r: Vec<HevcNalUnit>)
        ensures
            r@.len() == crate::nal::scan_units(data@, 0).len(),
            forall|k: int|
                0 <= k < r@.len() ==> crate::nal::unit_matches(
                    #[trigger] r@[k],
                    data@,
                    crate::nal::scan_units(data@, 0)[k],
                ),
    {
        find_nal_units(data)
    }

    /// Parses a VPS and files it under its id, replacing any earlier one.
    pub fn parse_vps(&mut self, nal: &HevcNalUnit) -> (r: Result<u8, BitstreamError>)
        requires
            old(self).wf(),
        ensures
            final(self).wf(),
            nal.data@.len() < 2 ==> r == Err::<u8, BitstreamError>(BitstreamError::EndOfData)
                && *final(self) == *old(self),
            nal.data@.len() >= 2 ==> match vps_head(payload_rbsp(nal.data@)) {
                None => r == Err::<u8, BitstreamError>(BitstreamError::EndOfData) && *final(self)
                    == *old(self),
                Some((id, layers, sub_layers, nesting)) => {
                    &&& r == Ok::<u8, BitstreamError>(id as u8)
                    &&& final(self).sps == old(self).sps
                    &&& final(self).pps == old(self).pps
                    &&& final(self).vps@ == old(self).vps@.update(id as int, final(self).vps@[id as int])
                    &&& final(self).vps@[id as int] matches Some(v) && v.vps_id == id
                        && v.max_layers == layers && v.max_sub_layers == sub_layers
                        && v.temporal_id_nesting == nesting && v.raw_data@ == nal.data@
                },
            },
    {
        if nal.data.len() < 2 {
            return Err(BitstreamError::EndOfData);
        }
        let payload = copy_from(&nal.data, 2);
        let rb = remove_emulation_prevention(payload.as_slice());
        let mut reader = BitReader::new(rb.as_slice());
        let vps_id = reader.read_bits(4)?;
        reader.skip_bits(2)?;
        let max_layers = reader.read_bits(6)?;
        let max_sub_layers = reader.read_bits(3)?;
        let nesting = reader.read_bit()?;
        proof {
            crate::bitreader::lemma_bits_val_bound(rb@, 0, 4);
            crate::bitreader::lemma_bits_val_bound(rb@, 6, 6);
            crate::bitreader::lemma_bits_val_bound(rb@, 12, 3);
            vstd::arithmetic::power2::lemma2_to64();
        }
        let vps = HevcVps {
            vps_id: vps_id as u8,
            max_layers: max_layers as u8 + 1,
            max_sub_layers: max_sub_layers as u8 + 1,
            temporal_id_nesting: nesting != 0,
            raw_data: copy_from(&nal.data, 0),
        };
        proof {
            assert(nal.data@.subrange(0, nal.data@.len() as int) =~= nal.data@);
        }
        self.vps.set(vps_id as usize, Some(vps));
        Ok(vps_id as u8)
    }

    /// Parses an SPS and files it under its id, replacing any earlier one. It
    /// succeeds exactly when the payload reads in full as an SPS; a malformed
    /// or truncated set leaves the store as it was.
    pub fn parse_sps(&mut self, nal: &HevcNalUnit) -> (r: Result<u8, BitstreamError>)
        requires
            old(self).wf(),
        ensures
            final(self).wf(),
            r is Err ==> *final(self) == *old(self),
            nal.data@.len() < 2 ==> r == Err::<u8, BitstreamError>(BitstreamError::EndOfData),
            nal.data@.len() >= 2 ==> match sps_syntax(payload_rbsp(nal.data@)) {
                Ok(id) => r == Ok::<u8, BitstreamError>(id as u8),
                Err(e) => r == Err::<u8, BitstreamError>(e),
            },
            r matches Ok(id) ==> {
                let rb = payload_rbsp(nal.data@);
                &&& id < MAX_VPS_SPS
                &&& final(self).vps == old(self).vps
                &&& final(self).pps == old(self).pps
                &&& final(self).sps@ == old(self).sps@.update(id as int, final(self).sps@[id as int])
                &&& final(self).sps@[id as int] matches Some(s) && s.sps_id == id && s.raw_data@
                    == nal.data@ && s.vps_id == bits_val(rb, 0, 4) && s.max_sub_layers
                    == bits_val(rb, 4, 3) + 1 && sps_valid(s) && sps_fields_match(s, rb)
            },
    {
        if nal.data.len() < 2 {
            return Err(BitstreamError::EndOfData);
        }
        let payload = copy_from(&nal.data, 2);
        let rb = remove_emulation_prevention(payload.as_slice());
        let mut reader = BitReader::new(rb.as_slice());
        let sps = read_sps(&mut reader, copy_from(&nal.data, 0))?;
        proof {
            assert(nal.data@.subrange(0, nal.data@.len() as int) =~= nal.data@);
        }
        let sps_id = sps.sps_id;
        self.sps.set(sps_id as usize, Some(sps));
        Ok(sps_id)
    }
    /// Parses a PPS and files it under its id, replacing any earlier one. It
    /// succeeds exactly when the payload reads in full as a PPS; otherwise the
    /// store is left as it was.
    pub fn parse_pps(&mut self, nal: &HevcNalUnit) -> (r: Result<u8, BitstreamError>)
        requires
            old(self).wf(),
        ensures
            final(self).wf(),
            r is Err ==> *final(self) == *old(self),
            nal.data@.len() < 2 ==> r == Err::<u8, BitstreamError>(BitstreamError::EndOfData),
            nal.data@.len() >= 2 ==> match pps_syntax(payload_rbsp(nal.data@), old(self).sps@) {
                Ok((id, sps_id)) => {
                    &&& r == Ok::<u8, BitstreamError>(id as u8)
                    &&& id < MAX_PPS
                    &&& final(self).vps == old(self).vps
                    &&& final(self).sps == old(self).sps
                    &&& final(self).pps@ == old(self).pps@.update(
                        id as int,
                        final(self).pps@[id as int],
                    )
                    &&& final(self).pps@[id as int] matches Some(p) && p.pps_id == id && p.sps_id
                        == sps_id && p.raw_data@ == nal.data@ && pps_fields_match(
                        p,
                        payload_rbsp(nal.data@),
                    )
                },
                Err(e) => r == Err::<u8, BitstreamError>(e),
            },
    {
        if nal.data.len() < 2 {
            return Err(BitstreamError::EndOfData);
        }
        let payload = copy_from(&nal.data, 2);
        let rb = remove_emulation_prevention(payload.as_slice());
        let mut reader = BitReader::new(rb.as_slice());
        let mut p = read_pps_head(&mut reader, copy_from(&nal.data, 0))?;
        read_pps_tiles(&mut reader, &mut p)?;
        let scaling = match &self.sps[p.sps_id as usize] {
            Some(sps) => sps.scaling_list_enabled,
            None => false,
        };
        read_pps_deblocking(&mut reader, &mut p)?;
        read_pps_end(&mut reader, &mut p, scaling)?;
        proof {
            assert(nal.data@.subrange(0, nal.data@.len() as int) =~= nal.data@);
        }
        let pps_id = p.pps_id;
        self.pps.set(pps_id as usize, Some(p));
        Ok(pps_id)
    }

    /// Whether the PPS `pps_id` and the SPS it references are both stored.
    pub open spec fn has_sets_for(&self, pps_id: nat) -> bool {
        &&& pps_id < MAX_PPS
        &&& self.pps@[pps_id as int] is Some
        &&& self.sps@[self.pps@[pps_id as int]->Some_0.sps_id as int] is Some
    }

    /// Parses the leading fields of a slice segment header. Fails with
    /// `ParameterSetNotFound` when the PPS it names, or that PPS's SPS, has not
    /// been parsed; the caller should wait for the next parameter set.
    pub fn parse_slice_header(&self, nal: &HevcNalUnit) -> (r: Result<HevcSliceHeader, BitstreamError>)
        requires
            self.wf(),
        ensures
            nal.data@.len() < 2 ==> r == Err::<HevcSliceHeader, BitstreamError>(
                BitstreamError::EndOfData,
            ),
            ({
                let rb = payload_rbsp(nal.data@);
                let at = pps_id_pos(nal.nal_type);
                nal.data@.len() >= 2 && at <= nbits(rb) ==> match ue_decode(rb, at) {
                    Ok((id, _)) => !self.has_sets_for(id) ==> r == Err::<
                        HevcSliceHeader,
                        BitstreamError,
                    >(BitstreamError::ParameterSetNotFound),
                    Err(e) => r == Err::<HevcSliceHeader, BitstreamError>(e),
                }
            }),
            ({
                let rb = payload_rbsp(nal.data@);
                let at = pps_id_pos(nal.nal_type);
                nal.data@.len() >= 2 && at <= nbits(rb) ==> match ue_decode(rb, at) {
                    Ok((id, q)) => self.has_sets_for(id) ==> {
                        let pps = self.pps@[id as int]->Some_0;
                        let sps = self.sps@[pps.sps_id as int]->Some_0;
                        match slice_rest(rb, q, bit_at(rb, 0), pps, sps, nal.nal_type.spec_is_idr()) {
                            Ok((dependent, slice_type, lsb)) => r matches Ok(h)
                                && h.dependent_slice_segment == dependent && h.slice_type
                                == slice_type && h.pic_order_cnt_lsb == lsb && (!dependent ==> (
                                h.num_ref_idx_l0_active == pps.num_ref_idx_l0_default_active
                                    && h.num_ref_idx_l1_active == pps.num_ref_idx_l1_default_active
                                    && (!pps.output_flag_present ==> h.pic_output))) && (
                                !h.first_slice_in_pic ==> h.slice_segment_address < pow2(
                                    ceil_log2(
                                        ctb_count(
                                            sps.pic_width as nat,
                                            sps.pic_height as nat,
                                            (sps.log2_min_luma_coding_block_size
                                                + sps.log2_diff_max_min_luma_coding_block_size) as nat,
                                        ),
                                    ),
                                )),
                            Err(e) => r == Err::<HevcSliceHeader, BitstreamError>(e),
                        }
                    },
                    Err(_) => true,
                }
            }),
            r matches Ok(h) ==> {
                let rb = payload_rbsp(nal.data@);
                &&& nal.data@.len() >= 2
                &&& h.first_slice_in_pic == bit_at(rb, 0)
                &&& ue_decode(rb, pps_id_pos(nal.nal_type)) matches Ok((id, _))
                &&& id == h.pps_id
                &&& self.has_sets_for(h.pps_id as nat)
                &&& nal.nal_type.spec_is_idr() ==> h.pic_order_cnt_lsb == 0
            },
    {
        if nal.data.len() < 2 {
            return Err(BitstreamError::EndOfData);
        }
        let payload = copy_from(&nal.data, 2);
        let rb = remove_emulation_prevention(payload.as_slice());
        let mut reader = BitReader::new(rb.as_slice());
        let first_slice_in_pic = reader.read_flag()?;
        let no_output_of_prior_pics = if nal.nal_type.is_rap() {
            reader.read_flag()?
        } else {
            false
        };
        let pps_id_code = reader.read_ue()?;
        if pps_id_code >= MAX_PPS as u32 {
            return Err(BitstreamError::ParameterSetNotFound);
        }
        let pps_id = pps_id_code as u8;
        let pps = match &self.pps[pps_id as usize] {
            Some(p) => p,
            None => {
                return Err(BitstreamError::ParameterSetNotFound);
            },
        };
        let sps = match &self.sps[pps.sps_id as usize] {
            Some(s) => s,
            None => {
                return Err(BitstreamError::ParameterSetNotFound);
            },
        };
        read_slice_rest(&mut reader, pps, sps, first_slice_in_pic, no_output_of_prior_pics, pps_id, nal.nal_type.is_idr())
    }
    /// Parses a parameter-set unit into the store; other units are ignored.
    pub fn process_nal(&mut self, nal: &HevcNalUnit) -> (r: Result<(), BitstreamError>)
        requires
            old(self).wf(),
        ensures
            final(self).wf(),
            r is Err ==> *final(self) == *old(self),
            !(nal.nal_type == HevcNalType::VpsNut || nal.nal_type == HevcNalType::SpsNut
                || nal.nal_type == HevcNalType::PpsNut) ==> r is Ok && *final(self) == *old(self),
            nal.nal_type == HevcNalType::VpsNut ==> final(self).sps == old(self).sps
                && final(self).pps == old(self).pps,
            nal.nal_type == HevcNalType::SpsNut ==> final(self).vps == old(self).vps
                && final(self).pps == old(self).pps,
            nal.nal_type == HevcNalType::PpsNut ==> final(self).vps == old(self).vps
                && final(self).sps == old(self).sps,
            nal.nal_type == HevcNalType::VpsNut && nal.data@.len() < 2 ==> r == Err::<
                (),
                BitstreamError,
            >(BitstreamError::EndOfData),
            nal.nal_type == HevcNalType::VpsNut && nal.data@.len() >= 2 ==> match vps_head(
                payload_rbsp(nal.data@),
            ) {
                None => r == Err::<(), BitstreamError>(BitstreamError::EndOfData),
                Some((id, layers, sub_layers, nesting)) => {
                    &&& r is Ok
                    &&& final(self).vps@ == old(self).vps@.update(id as int, final(self).vps@[id as int])
                    &&& final(self).vps@[id as int] matches Some(v) && v.vps_id == id
                        && v.max_layers == layers && v.max_sub_layers == sub_layers
                        && v.temporal_id_nesting == nesting && v.raw_data@ == nal.data@
                },
            },
            nal.nal_type == HevcNalType::SpsNut && nal.data@.len() < 2 ==> r == Err::<
                (),
                BitstreamError,
            >(BitstreamError::EndOfData),
            nal.nal_type == HevcNalType::SpsNut && nal.data@.len() >= 2 ==> match sps_syntax(
                payload_rbsp(nal.data@),
            ) {
                Ok(id) => {
                    &&& r is Ok
                    &&& final(self).sps@ == old(self).sps@.update(id as int, final(self).sps@[id as int])
                    &&& final(self).sps@[id as int] matches Some(s) && s.sps_id == id && s.raw_data@
                        == nal.data@
                },
                Err(e) => r == Err::<(), BitstreamError>(e),
            },
            nal.nal_type == HevcNalType::PpsNut && nal.data@.len() < 2 ==> r == Err::<
                (),
                BitstreamError,
            >(BitstreamError::EndOfData),
            nal.nal_type == HevcNalType::PpsNut && nal.data@.len() >= 2 ==> match pps_syntax(
                payload_rbsp(nal.data@),
                old(self).sps@,
            ) {
                Ok((id, sps_id)) => {
                    &&& r is Ok
                    &&& final(self).pps@ == old(self).pps@.update(id as int, final(self).pps@[id as int])
                    &&& final(self).pps@[id as int] matches Some(p) && p.pps_id == id && p.sps_id
                        == sps_id && p.raw_data@ == nal.data@
                },
                Err(e) => r == Err::<(), BitstreamError>(e),
            },
    {
        match nal.nal_type {
            HevcNalType::VpsNut => {
                self.parse_vps(nal)?;
            },
            HevcNalType::SpsNut => {
                self.parse_sps(nal)?;
            },
            HevcNalType::PpsNut => {
                self.parse_pps(nal)?;
            },
            _ => {},
        }
        Ok(())
    }

    /// The SPS that PPS `pps_id` references, when both are stored.
    pub fn get_sps_for_pps(&self, pps_id: u8) -> (r: Option<&HevcSps>)
        requires
            self.wf(),
        ensures
            r is Some <==> self.has_sets_for(pps_id as nat),
            r matches Some(s) ==> self.sps@[self.pps@[pps_id as int]->Some_0.sps_id as int] == Some(
                *s,
            ),
    {
        if pps_id as usize >= MAX_PPS {
            return None;
        }
        match &self.pps[pps_id as usize] {
            None => None,
            Some(p) => self.sps[p.sps_id as usize].as_ref(),
        }
    }

    /// The VPS that SPS `sps_id` references, when both are stored.
    pub fn get_vps_for_sps(&self, sps_id: u8) -> (r: Option<&HevcVps>)
        requires
            self.wf(),
        ensures
            r is Some <==> sps_id < MAX_VPS_SPS && self.sps@[sps_id as int] is Some
                && self.vps@[self.sps@[sps_id as int]->Some_0.vps_id as int] is Some,
            r matches Some(v) ==> self.vps@[self.sps@[sps_id as int]->Some_0.vps_id as int] == Some(
                *v,
            ),
    {
        if sps_id as usize >= MAX_VPS_SPS {
            return None;
        }
        match &self.sps[sps_id as usize] {
            None => None,
            Some(s) => self.vps[s.vps_id as usize].as_ref(),
        }
    }

    /// Width, height and whether the stream is HDR (a bit depth above 8),
    /// from the stored SPS with the lowest id; `None` when there is none.
    pub fn get_dimensions(&self) -> (r: Option<(u32, u32, bool)>)
        requires
            self.wf(),
        ensures
            r is None <==> forall|i: int| 0 <= i < MAX_VPS_SPS ==> self.sps@[i] is None,
            r matches Some((w, h, hdr)) ==> exists|i: int|
                {
                    &&& 0 <= i < MAX_VPS_SPS
                    &&& forall|j: int| 0 <= j < i ==> self.sps@[j] is None
                    &&& #[trigger] self.sps@[i] matches Some(s)
                    &&& w == s.pic_width
                    &&& h == s.pic_height
                    &&& hdr == (s.bit_depth_luma > 8 || s.bit_depth_chroma > 8)
                },
    {
        let mut i: usize = 0;
        while i < MAX_VPS_SPS
            invariant
                self.wf(),
                i <= MAX_VPS_SPS,
                forall|j: int| 0 <= j < i ==> self.sps@[j] is None,
            decreases MAX_VPS_SPS - i,
        {
            match &self.sps[i] {
                Some(s) => {
                    let hdr = s.bit_depth_luma > 8 || s.bit_depth_chroma > 8;
                    proof {
                        assert(self.sps@[i as int] matches Some(t) && t == *s);
                    }
                    return Some((s.pic_width, s.pic_height, hdr));
                },
                None => {},
            }
            i = i + 1;
        }
        None
    }
}

} // verus!
