use crate::bitreader::BitstreamError;
use crate::dpb::{poc_msb, refs_below, DpbManager, PicturePlan, MAX_DPB_SLOTS};
use crate::frame::{padded_len, upload_size};
use crate::h264::{
    find_slice_offsets, h264_nal_units, h264_rbsp, h264_ref_idc, h264_scan, h264_sps_valid,
    h264_type, slice_poc_lsb, parse_h264_poc_lsb, parse_h264_pps, h264_pps_syntax, h264_sps_syntax,
    parse_h264_sps, H264Pps, H264Sps, H264_NAL_IDR_SLICE, H264_NAL_PPS, H264_NAL_SLICE,
    H264_NAL_SPS,
};
use vstd::arithmetic::power2::pow2;
use vstd::prelude::*;

verus! {

/// One picture's submission, as worked out from its access unit.
#[derive(Debug, Clone)]
pub struct FrameJob {
    /// The current SPS/PPS pair must be pushed to the hardware session first.
    pub push_parameters: bool,
    pub plan: PicturePlan,
    pub is_reference: bool,
    /// Bytes to upload: the access unit padded to the size alignment.
    pub upload_len: usize,
    /// Offsets of the slice start codes within the access unit.
    pub slice_offsets: Vec<u32>,
}

/// What to do with an access unit.
#[derive(Debug, Clone)]
pub enum DecodeStep {
    /// Nothing to decode: empty, no units, or no slice.
    NoFrame,
    /// No SPS and PPS yet: wait for the next parameter set.
    AwaitingParameters,
    /// The padded access unit does not fit the upload buffer: skip it.
    TooLarge,
    /// The slice header could not be read: skip the frame.
    Malformed(BitstreamError),
    /// Submit this picture to the hardware.
    Submit(FrameJob),
}

/// Index of the first slice unit (type 1 or 5) among the scanned units from
/// `k` on.
pub open spec fn first_slice(d: Seq<u8>, units: Seq<(int, int)>, k: int) -> Option<int>
    decreases units.len() - k,
{
    if k < 0 || k >= units.len() {
        None
    } else if h264_type(d[units[k].0]) == H264_NAL_SLICE || h264_type(d[units[k].0])
        == H264_NAL_IDR_SLICE {
        Some(k)
    } else {
        first_slice(d, units, k + 1)
    }
}

/// The slice unit of an access unit that its picture is decoded from.
pub open spec fn au_slice(au: Seq<u8>) -> Option<int> {
    first_slice(au, h264_scan(au, 0), 0)
}

/// The padded access unit fits the upload buffer and the hardware's 32-bit
/// offsets.
pub open spec fn fits(au: Seq<u8>, capacity: usize, alignment: usize) -> bool {
    au.len() <= u32::MAX && padded_len(au.len() as int, alignment as int) <= capacity
}

/// The POC least significant bits of the access unit's slice, read with
/// `sps`.
pub open spec fn au_poc_lsb(au: Seq<u8>, sps: H264Sps) -> Result<nat, BitstreamError> {
    let t = h264_scan(au, 0)[au_slice(au)->Some_0];
    let unit = au.subrange(t.0, t.1);
    if unit.len() < 2 {
        Err(BitstreamError::EndOfData)
    } else {
        slice_poc_lsb(h264_rbsp(unit), sps, h264_type(au[t.0]) == H264_NAL_IDR_SLICE)
    }
}

/// The id an SPS unit's bytes parse to.
#[verifier::opaque]
pub open spec fn sps_id_of(raw: Seq<u8>) -> Result<nat, BitstreamError> {
    h264_sps_syntax(h264_rbsp(raw))
}

/// The bytes of scanned unit `t`.
pub open spec fn unit_bytes(au: Seq<u8>, t: (int, int)) -> Seq<u8> {
    au.subrange(t.0, t.1)
}

/// Unit `t` is an SPS that parses.
#[verifier::opaque]
pub open spec fn sps_unit_ok(au: Seq<u8>, t: (int, int)) -> bool {
    &&& h264_type(au[t.0]) == H264_NAL_SPS
    &&& unit_bytes(au, t).len() >= 4
    &&& h264_sps_syntax(h264_rbsp(unit_bytes(au, t))) is Ok
}

/// Unit `t` is a PPS that parses.
#[verifier::opaque]
pub open spec fn pps_unit_ok(au: Seq<u8>, t: (int, int)) -> bool {
    &&& h264_type(au[t.0]) == H264_NAL_PPS
    &&& unit_bytes(au, t).len() >= 2
    &&& h264_pps_syntax(h264_rbsp(unit_bytes(au, t))) is Ok
}

/// Index of the last SPS among the first `k` units that parses.
pub open spec fn last_sps_unit(au: Seq<u8>, k: int) -> Option<int>
    decreases k,
{
    if k <= 0 {
        None
    } else if sps_unit_ok(au, h264_scan(au, 0)[k - 1]) {
        Some(k - 1)
    } else {
        last_sps_unit(au, k - 1)
    }
}

/// Index of the last PPS among the first `k` units that parses.
pub open spec fn last_pps_unit(au: Seq<u8>, k: int) -> Option<int>
    decreases k,
{
    if k <= 0 {
        None
    } else if pps_unit_ok(au, h264_scan(au, 0)[k - 1]) {
        Some(k - 1)
    } else {
        last_pps_unit(au, k - 1)
    }
}

/// The picture's POC fits the hardware's 32-bit field.
pub open spec fn poc_fits(dpb: DpbManager, is_idr: bool, lsb: nat, sps: H264Sps) -> bool {
    let max = pow2((sps.log2_max_pic_order_cnt_lsb_minus4 + 4) as nat) as int;
    let msb = poc_msb(dpb.prev_msb(), dpb.prev_lsb(), lsb as int, max);
    is_idr || (i32::MIN <= msb && msb + lsb <= i32::MAX)
}

/// State of an H.264 hardware decode session kept between access units:
/// the active parameter sets, whether they still have to be pushed to the
/// hardware, and the decoded picture buffer.
pub struct DecodeSession {
    sps: Option<H264Sps>,
    pps: Option<H264Pps>,
    params_dirty: bool,
    dpb: DpbManager,
}

impl DecodeSession {
    pub closed spec fn has_params(&self) -> bool {
        self.sps is Some && self.pps is Some
    }

    pub closed spec fn dirty(&self) -> bool {
        self.params_dirty
    }

    /// The SPS in effect.
    pub closed spec fn active_sps(&self) -> Option<H264Sps> {
        self.sps
    }

    /// The PPS in effect.
    pub closed spec fn active_pps(&self) -> Option<H264Pps> {
        self.pps
    }

    pub closed spec fn buffer(&self) -> DpbManager {
        self.dpb
    }

    pub closed spec fn wf(&self) -> bool {
        &&& self.dpb.wf()
        &&& self.sps matches Some(s) ==> h264_sps_valid(s)
    }

    /// A session with `num_slots` free picture buffer slots and no
    /// parameter sets.
    pub fn new(num_slots: usize) -> (r: Self)
        requires
            1 <= num_slots <= MAX_DPB_SLOTS,
        ensures
            r.wf(),
            !r.has_params(),
            !r.dirty(),
            r.buffer().slots().len() == num_slots,
            r.buffer().slots() == crate::dpb::cleared(r.buffer().slots()),
            r.buffer().index() == 0,
            r.buffer().prev_msb() == 0,
            r.buffer().prev_lsb() == 0,
            r.buffer().count() == 0,
    {
        DecodeSession { sps: None, pps: None, params_dirty: false, dpb: DpbManager::new(num_slots) }
    }

    /// Stores the unit `au[s..e]` if it is an SPS or a PPS that parses.
    #[verifier::rlimit(60)]
    fn store_unit(&mut self, au: &[u8], s: usize, e: usize)
        requires
            old(self).wf(),
            s <= e <= au@.len(),
            s < au@.len(),
        ensures
            final(self).wf(),
            final(self).dpb == old(self).dpb,
            old(self).has_params() ==> final(self).has_params(),
            sps_unit_ok(au@, (s as int, e as int)) ==> (final(self).sps matches Some(x)
                && x.raw_data@ == unit_bytes(au@, (s as int, e as int)) && sps_id_of(x.raw_data@)
                == Ok::<nat, BitstreamError>(x.seq_parameter_set_id as nat)),
            !sps_unit_ok(au@, (s as int, e as int)) ==> final(self).sps == old(self).sps,
            pps_unit_ok(au@, (s as int, e as int)) ==> (final(self).pps matches Some(x)
                && x.raw_data@ == unit_bytes(au@, (s as int, e as int))),
            !pps_unit_ok(au@, (s as int, e as int)) ==> final(self).pps == old(self).pps,
            final(self).params_dirty == (old(self).params_dirty || sps_unit_ok(
                au@,
                (s as int, e as int),
            ) || pps_unit_ok(au@, (s as int, e as int))),
    {
        let t = au[s] & 0x1f;
        let bytes = crate::h264::copy_range(au, s, e);
        proof {
            assert(bytes@ == unit_bytes(au@, (s as int, e as int)));
            assert(t == h264_type(au@[s as int]));
            reveal(sps_unit_ok);
            reveal(pps_unit_ok);
            reveal(sps_id_of);
        }
        if t == H264_NAL_SPS {
            match parse_h264_sps(bytes.as_slice()) {
                Ok(sps) => {
                    self.sps = Some(sps);
                    self.params_dirty = true;
                },
                Err(_) => {},
            }
        } else if t == H264_NAL_PPS {
            match parse_h264_pps(bytes.as_slice()) {
                Ok(pps) => {
                    self.pps = Some(pps);
                    self.params_dirty = true;
                },
                Err(_) => {},
            }
        }
    }

    /// Stores each SPS and PPS of the access unit that parses; the latest
    /// wins and marks the hardware copy stale.
    #[verifier::rlimit(100)]
    fn store_parameter_sets(&mut self, au: &[u8], units: &Vec<(u8, u8, usize, usize)>)
        requires
            old(self).wf(),
            units@.len() == h264_scan(au@, 0).len(),
            forall|j: int|
                0 <= j < units@.len() ==> crate::h264::entry_matches(
                    #[trigger] units@[j],
                    au@,
                    h264_scan(au@, 0)[j],
                ),
        ensures
            final(self).wf(),
            final(self).dpb == old(self).dpb,
            old(self).has_params() ==> final(self).has_params(),
            ({
                let n = h264_scan(au@, 0).len() as int;
                &&& match last_sps_unit(au@, n) {
                    Some(j) => final(self).sps matches Some(s) && s.raw_data@ == unit_bytes(
                        au@,
                        h264_scan(au@, 0)[j],
                    ) && sps_id_of(s.raw_data@) == Ok::<nat, BitstreamError>(
                        s.seq_parameter_set_id as nat,
                    ),
                    None => final(self).sps == old(self).sps,
                }
                &&& match last_pps_unit(au@, n) {
                    Some(j) => final(self).pps matches Some(p) && p.raw_data@ == unit_bytes(
                        au@,
                        h264_scan(au@, 0)[j],
                    ),
                    None => final(self).pps == old(self).pps,
                }
                &&& final(self).params_dirty == (old(self).params_dirty || last_sps_unit(au@, n)
                    is Some || last_pps_unit(au@, n) is Some)
            }),
    {
        let mut k: usize = 0;
        while k < units.len()
            invariant
                self.wf(),
                self.dpb == old(self).dpb,
                old(self).has_params() ==> self.has_params(),
                k <= units@.len(),
                units@.len() == crate::h264::h264_scan(au@, 0).len(),
                match last_sps_unit(au@, k as int) {
                    Some(j) => self.sps matches Some(s) && s.raw_data@ == unit_bytes(
                        au@,
                        h264_scan(au@, 0)[j],
                    ) && sps_id_of(s.raw_data@) == Ok::<nat, BitstreamError>(
                        s.seq_parameter_set_id as nat,
                    ),
                    None => self.sps == old(self).sps,
                },
                match last_pps_unit(au@, k as int) {
                    Some(j) => self.pps matches Some(p) && p.raw_data@ == unit_bytes(
                        au@,
                        h264_scan(au@, 0)[j],
                    ),
                    None => self.pps == old(self).pps,
                },
                self.params_dirty == (old(self).params_dirty || last_sps_unit(au@, k as int) is Some
                    || last_pps_unit(au@, k as int) is Some),
                forall|j: int|
                    0 <= j < units@.len() ==> crate::h264::entry_matches(
                        #[trigger] units@[j],
                        au@,
                        crate::h264::h264_scan(au@, 0)[j],
                    ),
            decreases units@.len() - k,
        {
            let (_t, _ref_idc, s, e) = units[k];
            proof {
                assert(crate::h264::entry_matches(units@[k as int], au@, h264_scan(au@, 0)[k as int]));
                lemma_scan_entry_bounds(au@, k as int);
            }
            self.store_unit(au, s, e);
            proof {
                assert(last_sps_unit(au@, k + 1) == if sps_unit_ok(au@, h264_scan(au@, 0)[k as int]) {
                    Some(k as int)
                } else {
                    last_sps_unit(au@, k as int)
                });
                assert(last_pps_unit(au@, k + 1) == if pps_unit_ok(au@, h264_scan(au@, 0)[k as int]) {
                    Some(k as int)
                } else {
                    last_pps_unit(au@, k as int)
                });
            }
            k = k + 1;
        }
    }

    /// Reads an access unit: stores any SPS and PPS it carries (the latest
    /// wins, and the hardware copy is then stale), and decides whether and how
    /// its picture is submitted. The picture buffer is not touched: it changes
    /// only when `complete` records a submission that succeeded.
    pub fn prepare(&mut self, au: &[u8], capacity: usize, alignment: usize) -> (r: DecodeStep)
        requires
            old(self).wf(),
            alignment >= 1,
        ensures
            final(self).wf(),
            final(self).buffer() == old(self).buffer(),
            old(self).dirty() ==> final(self).dirty(),
            old(self).has_params() ==> final(self).has_params(),
            au@.len() == 0 ==> r is NoFrame && *final(self) == *old(self),
            r is NoFrame <==> (h264_scan(au@, 0).len() == 0 || (final(self).has_params()
                && au_slice(au@) is None)),
            r is AwaitingParameters <==> (h264_scan(au@, 0).len() > 0
                && !final(self).has_params()),
            r is TooLarge <==> (final(self).has_params() && au_slice(au@) is Some && !fits(
                au@,
                capacity,
                alignment,
            )),
            (r is Malformed || r is Submit) <==> (final(self).has_params() && au_slice(au@) is Some
                && fits(au@, capacity, alignment)),
            ({
                let n = h264_scan(au@, 0).len() as int;
                &&& match last_sps_unit(au@, n) {
                    Some(j) => final(self).active_sps() matches Some(s) && s.raw_data@ == unit_bytes(
                        au@,
                        h264_scan(au@, 0)[j],
                    ) && sps_id_of(s.raw_data@) == Ok::<nat, BitstreamError>(
                        s.seq_parameter_set_id as nat,
                    ),
                    None => final(self).active_sps() == old(self).active_sps(),
                }
                &&& match last_pps_unit(au@, n) {
                    Some(j) => final(self).active_pps() matches Some(p) && p.raw_data@ == unit_bytes(
                        au@,
                        h264_scan(au@, 0)[j],
                    ),
                    None => final(self).active_pps() == old(self).active_pps(),
                }
                &&& final(self).dirty() == (old(self).dirty() || last_sps_unit(au@, n) is Some
                    || last_pps_unit(au@, n) is Some)
            }),
            ({
                let sps = final(self).active_sps()->Some_0;
                let t = h264_scan(au@, 0)[au_slice(au@)->Some_0];
                let is_idr = h264_type(au@[t.0]) == H264_NAL_IDR_SLICE;
                &&& (final(self).has_params() && au_slice(au@) is Some && fits(au@, capacity, alignment))
                    ==> (r is Submit <==> (au_poc_lsb(au@, sps) matches Ok(v) && poc_fits(
                    old(self).buffer(),
                    is_idr,
                    v,
                    sps,
                )))
                &&& r matches DecodeStep::Malformed(e) ==> (au_poc_lsb(au@, sps) == Err::<
                    nat,
                    BitstreamError,
                >(e) || (au_poc_lsb(au@, sps) matches Ok(v) && !poc_fits(
                    old(self).buffer(),
                    is_idr,
                    v,
                    sps,
                ) && e == BitstreamError::ValueOutOfRange))
            }),
            r matches DecodeStep::Submit(job) ==> {
                let dpb = old(self).buffer();
                let t = h264_scan(au@, 0)[au_slice(au@)->Some_0];
                let sps = final(self).active_sps()->Some_0;
                let max = pow2((sps.log2_max_pic_order_cnt_lsb_minus4 + 4) as nat) as int;
                &&& job.plan.is_idr == (h264_type(au@[t.0]) == H264_NAL_IDR_SLICE)
                &&& au_poc_lsb(au@, sps) matches Ok(v)
                &&& job.plan.pic_order_cnt == (if job.plan.is_idr {
                    0
                } else {
                    poc_msb(dpb.prev_msb(), dpb.prev_lsb(), v as int, max) + v
                })
                &&& job.is_reference == (h264_ref_idc(au@[t.0]) > 0)
                &&& job.slice_offsets@.len() >= 1
                &&& final(self).has_params()
                &&& job.push_parameters == final(self).dirty()
                &&& job.upload_len == padded_len(au@.len() as int, alignment as int)
                &&& job.upload_len <= capacity
                &&& job.plan.dst_slot < dpb.slots().len()
                &&& job.plan.dst_slot == (if job.plan.is_idr {
                    0
                } else {
                    dpb.index()
                })
                &&& job.plan.references@ == (if job.plan.is_idr {
                    Seq::empty()
                } else {
                    refs_below(dpb.slots(), dpb.index(), dpb.slots().len() as int)
                })
            },
    {
        if au.len() == 0 {
            return DecodeStep::NoFrame;
        }
        let units = h264_nal_units(au);
        if units.len() == 0 {
            return DecodeStep::NoFrame;
        }
        self.store_parameter_sets(au, &units);
        let sps = match &self.sps {
            Some(s) => s,
            None => {
                return DecodeStep::AwaitingParameters;
            },
        };
        if self.pps.is_none() {
            return DecodeStep::AwaitingParameters;
        }
        let mut slice: Option<usize> = None;
        let mut k: usize = 0;
        while k < units.len()
            invariant_except_break
                slice is None,
                au_slice(au@) == first_slice(au@, h264_scan(au@, 0), k as int),
            invariant
                k <= units@.len(),
                units@.len() == h264_scan(au@, 0).len(),
                forall|j: int|
                    0 <= j < units@.len() ==> crate::h264::entry_matches(
                        #[trigger] units@[j],
                        au@,
                        h264_scan(au@, 0)[j],
                    ),
            ensures
                slice is None ==> k == units@.len() && au_slice(au@) == first_slice(
                    au@,
                    h264_scan(au@, 0),
                    k as int,
                ),
                slice matches Some(x) ==> x < units@.len() && au_slice(au@) == Some(x as int),
            decreases units@.len() - k,
        {
            proof {
                assert(crate::h264::entry_matches(units@[k as int], au@, h264_scan(au@, 0)[k as int]));
            }
            let t = units[k].0;
            if t == H264_NAL_SLICE || t == H264_NAL_IDR_SLICE {
                proof {
                    assert(first_slice(au@, h264_scan(au@, 0), k as int) == Some(k as int));
                }
                slice = Some(k);
                break;
            }
            proof {
                assert(first_slice(au@, h264_scan(au@, 0), k as int) == first_slice(
                    au@,
                    h264_scan(au@, 0),
                    k + 1,
                ));
            }
            k = k + 1;
        }
        let idx = match slice {
            Some(x) => x,
            None => {
                proof {
                    assert(first_slice(au@, h264_scan(au@, 0), k as int) is None);
                }
                return DecodeStep::NoFrame;
            },
        };
        let (t, ref_idc, s, e) = units[idx];
        let is_idr = t == H264_NAL_IDR_SLICE;
        let is_reference = ref_idc > 0;
        if au.len() > u32::MAX as usize {
            return DecodeStep::TooLarge;
        }
        let upload_len = match upload_size(au.len(), alignment, capacity) {
            Some(n) => n,
            None => {
                return DecodeStep::TooLarge;
            },
        };
        proof {
            lemma_scan_entry_bounds(au@, idx as int);
            assert(crate::h264::entry_matches(units@[idx as int], au@, crate::h264::h264_scan(au@, 0)[idx as int]));
        }
        let slice_bytes = crate::h264::copy_range(au, s, e);
        let lsb = match parse_h264_poc_lsb(slice_bytes.as_slice(), sps, is_idr) {
            Ok(v) => v,
            Err(err) => {
                proof {
                    let t = h264_scan(au@, 0)[idx as int];
                    assert(t.0 == s && t.1 == e);
                    assert(slice_bytes@ == au@.subrange(t.0, t.1));
                    assert(is_idr == (h264_type(au@[t.0]) == H264_NAL_IDR_SLICE));
                }
                return DecodeStep::Malformed(err);
            },
        };
        let log2_max_poc_lsb = sps.log2_max_pic_order_cnt_lsb_minus4 + 4;
        let lsb_in_range = if sps.pic_order_cnt_type == 0 {
            lsb
        } else {
            0
        };
        proof {
            vstd::arithmetic::power2::lemma_pow2_pos(log2_max_poc_lsb as nat);
            vstd::arithmetic::power2::lemma2_to64();
            if log2_max_poc_lsb < 16 {
                vstd::arithmetic::power2::lemma_pow2_strictly_increases(log2_max_poc_lsb as nat, 16);
            }
            let t = h264_scan(au@, 0)[idx as int];
            assert(t.0 == s && t.1 == e);
            assert(slice_bytes@ == au@.subrange(t.0, t.1));
            assert(is_idr == (h264_type(au@[t.0]) == H264_NAL_IDR_SLICE));
            assert(au_poc_lsb(au@, *sps) == Ok::<nat, BitstreamError>(lsb_in_range as nat));
        }
        let plan = match self.dpb.plan_picture(is_idr, lsb_in_range, log2_max_poc_lsb) {
            Some(p) => p,
            None => {
                return DecodeStep::Malformed(BitstreamError::ValueOutOfRange);
            },
        };
        let slice_offsets = find_slice_offsets(au);
        DecodeStep::Submit(
            FrameJob {
                push_parameters: self.params_dirty,
                plan,
                is_reference,
                upload_len,
                slice_offsets,
            },
        )
    }

    /// Records a submission that succeeded: the picture takes its slot (see
    /// `DpbManager::commit_picture`) and pushed parameters are current.
    pub fn complete(&mut self, job: &FrameJob)
        requires
            old(self).wf(),
            job.plan.dst_slot < old(self).buffer().slots().len(),
        ensures
            final(self).wf(),
            final(self).has_params() == old(self).has_params(),
            final(self).dirty() == (old(self).dirty() && !job.push_parameters),
            final(self).buffer().slots() == crate::dpb::placed(
                if job.plan.is_idr {
                    crate::dpb::cleared(old(self).buffer().slots())
                } else {
                    old(self).buffer().slots()
                },
                job.plan.dst_slot as int,
                job.is_reference,
                old(self).buffer().count(),
                job.plan.pic_order_cnt as int,
            ),
            final(self).buffer().index() == (job.plan.dst_slot + 1) % (old(
                self,
            ).buffer().slots().len() as int),
            final(self).buffer().prev_msb() == job.plan.poc_msb,
            final(self).buffer().prev_lsb() == job.plan.poc_lsb,
    {
        self.dpb.commit_picture(&job.plan, job.is_reference);
        if job.push_parameters {
            self.params_dirty = false;
        }
    }

    /// Decoder counters: pictures recorded and buffer size.
    pub fn get_stats(&self) -> (r: crate::frame::DecoderStats)
        requires
            self.wf(),
        ensures
            r.frames_decoded == self.buffer().count(),
            r.dpb_size == self.buffer().slots().len(),
            r.supports_dmabuf,
    {
        crate::frame::DecoderStats {
            frames_decoded: self.dpb.frame_count(),
            dpb_size: self.dpb.num_slots() as u32,
            supports_dmabuf: true,
        }
    }
}

proof fn lemma_scan_entry_bounds(d: Seq<u8>, k: int)
    requires
        0 <= k < crate::h264::h264_scan(d, 0).len(),
    ensures
        0 <= crate::h264::h264_scan(d, 0)[k].0 <= crate::h264::h264_scan(d, 0)[k].1 <= d.len(),
{
    crate::h264::lemma_h264_scan_bounds(d, 0);
}

} // verus!
